//! The stateful parser interface: once a scanner has supplied the text,
//! the parse events are handed out one at a time.
use crate::event::{models, Event, EventModel, Mark, PyEvent};
use crate::model::spec_parse;
use crate::stream::parse_rust;
use vstd::prelude::*;

verus! {

/// States of the parser's state machine.
#[derive(Debug, Clone, Copy, PartialEq, Eq, Structural)]
pub enum ParseState {
    StreamStart,
    DocumentStart,
    DocumentContent,
    DocumentEnd,
    BlockNode,
    Scalar,
    Key,
    Value,
    Sequence,
    Mapping,
}

/// Why an event query was refused.
#[derive(Debug, Clone, Copy, PartialEq, Eq, Structural)]
pub enum ParserError {
    /// No scanner is attached to the parser.
    NoScannerSet,
}

impl ParserError {
    /// The error's message: "No scanner set".
    pub fn message(&self) -> (s: String)
        ensures
            s@ == seq!['N', 'o', ' ', 's', 'c', 'a', 'n', 'n', 'e', 'r', ' ', 's', 'e', 't'],
    {
        let lit = "No scanner set";
        proof {
            reveal_strlit("No scanner set");
        }
        let s = String::from_str(lit);
        assert(s@ =~= seq!['N', 'o', ' ', 's', 'c', 'a', 'n', 'n', 'e', 'r', ' ', 's', 'e', 't']);
        s
    }
}

/// An iterative parser: a scanner slot, the current event, and buffers.
pub struct Parser {
    scanner_attached: bool,
    current_event: Option<Event>,
    event_cache: Vec<Event>,
    token_index: usize,
    states: Vec<ParseState>,
    marks: Vec<Mark>,
}

/// The model of a `Parser`.
pub struct ParserView {
    /// A scanner is attached.
    pub scanner_attached: bool,
    /// The event that the next `get_event` hands out.
    pub current: Option<EventModel>,
    /// The events of the scanned text.
    pub cache: Seq<EventModel>,
    /// Index in `cache` of the event that follows `current`.
    pub token_index: nat,
    /// Pending parser states.
    pub states: Seq<ParseState>,
    /// Marks kept for reuse.
    pub marks: Seq<Mark>,
}

/// The model of an optional event.
pub open spec fn opt_event(e: Option<Event>) -> Option<EventModel> {
    match e {
        Some(x) => Some(x@),
        None => None,
    }
}

/// The model of an optional Python event.
pub open spec fn opt_py_event(e: Option<PyEvent>) -> Option<EventModel> {
    match e {
        Some(x) => Some(x@),
        None => None,
    }
}

/// The state of a new or disposed parser: no scanner, no event, empty
/// buffers, token index 0.
pub open spec fn fresh_view() -> ParserView {
    ParserView {
        scanner_attached: false,
        current: None,
        cache: Seq::empty(),
        token_index: 0,
        states: Seq::empty(),
        marks: Seq::empty(),
    }
}

/// The events still to be handed out: the current one, then those of the
/// cache after it.
pub open spec fn pending(v: ParserView) -> Seq<EventModel> {
    match v.current {
        Some(e) => seq![e] + v.cache.skip(v.token_index as int),
        None => seq![],
    }
}

/// The token index lies in the cache, and the cache is used up once no
/// event is current.
pub open spec fn view_wf(v: ParserView) -> bool {
    &&& v.token_index <= v.cache.len()
    &&& (v.current is None ==> v.token_index == v.cache.len())
}

/// The state after a scanner supplied a text whose events are `evs`: the
/// first event is current and the rest wait in the cache.
pub open spec fn scanned(v: ParserView, evs: Seq<EventModel>) -> ParserView {
    ParserView {
        scanner_attached: true,
        current: if evs.len() > 0 {
            Some(evs[0])
        } else {
            None
        },
        cache: evs,
        token_index: if evs.len() > 0 {
            1
        } else {
            0
        },
        ..v
    }
}

/// The state after the current event is handed out: the next cached event,
/// if any, becomes current.
pub open spec fn advance(v: ParserView) -> ParserView {
    if v.token_index < v.cache.len() {
        ParserView {
            current: Some(v.cache[v.token_index as int]),
            token_index: v.token_index + 1,
            ..v
        }
    } else {
        ParserView { current: None, ..v }
    }
}

/// The state after `k` events are handed out.
pub open spec fn advance_n(v: ParserView, k: nat) -> ParserView
    decreases k,
{
    if k == 0 {
        v
    } else {
        advance_n(advance(v), (k - 1) as nat)
    }
}

proof fn lemma_advance(v: ParserView)
    requires
        view_wf(v),
    ensures
        view_wf(advance(v)),
        pending(advance(v)) == if pending(v).len() > 0 {
            pending(v).drop_first()
        } else {
            pending(v)
        },
{
    if v.current is Some {
        if v.token_index < v.cache.len() {
            assert(pending(advance(v)) =~= pending(v).drop_first());
        } else {
            assert(pending(v).drop_first() =~= Seq::<EventModel>::empty());
        }
    }
}

proof fn lemma_advance_n(v: ParserView, k: nat)
    requires
        view_wf(v),
    ensures
        view_wf(advance_n(v, k)),
        k <= pending(v).len() ==> pending(advance_n(v, k)) == pending(v).skip(k as int),
        k > pending(v).len() ==> pending(advance_n(v, k)) == Seq::<EventModel>::empty(),
    decreases k,
{
    if k > 0 {
        lemma_advance(v);
        lemma_advance_n(advance(v), (k - 1) as nat);
        if pending(v).len() > 0 && k <= pending(v).len() {
            assert(pending(v).drop_first().skip(k - 1) =~= pending(v).skip(k as int));
        }
    } else {
        assert(pending(v).skip(0) =~= pending(v));
    }
}

/// Once a scanner has supplied a text, the events of that text are handed
/// out in order: after `k` of them have been taken, the current event is
/// the text's event number `k`, and there is none once all are taken.
pub proof fn events_handed_out_in_order(v: ParserView, text: Seq<char>, k: nat)
    ensures
        ({
            let w = advance_n(scanned(v, spec_parse(text)), k);
            &&& view_wf(w)
            &&& w.scanner_attached
            &&& (k < spec_parse(text).len() ==> w.current == Some(spec_parse(text)[k as int]))
            &&& (k >= spec_parse(text).len() ==> w.current is None)
        }),
{
    let evs = spec_parse(text);
    let s = scanned(v, evs);
    assert(pending(s) =~= evs);
    lemma_advance_n(s, k);
    let w = advance_n(s, k);
    lemma_advance_n_keeps_scanner(s, k);
    if k < evs.len() {
        assert(pending(w)[0] == evs[k as int]);
    } else if k == evs.len() {
        assert(pending(w) =~= evs.skip(k as int));
        assert(pending(w).len() == 0);
    }
}

proof fn lemma_advance_n_keeps_scanner(v: ParserView, k: nat)
    ensures
        advance_n(v, k).scanner_attached == v.scanner_attached,
    decreases k,
{
    if k > 0 {
        lemma_advance_n_keeps_scanner(advance(v), (k - 1) as nat);
    }
}

impl View for Parser {
    type V = ParserView;

    closed spec fn view(&self) -> ParserView {
        ParserView {
            scanner_attached: self.scanner_attached,
            current: opt_event(self.current_event),
            cache: Seq::new(self.event_cache@.len(), |k: int| self.event_cache@[k]@),
            token_index: self.token_index as nat,
            states: self.states@,
            marks: self.marks@,
        }
    }
}

impl Default for Parser {
    fn default() -> (p: Self)
        ensures
            p@ == fresh_view(),
    {
        let p = Parser {
            scanner_attached: false,
            current_event: None,
            event_cache: Vec::with_capacity(64),
            token_index: 0,
            states: Vec::with_capacity(32),
            marks: Vec::with_capacity(32),
        };
        assert(p@.cache =~= Seq::<EventModel>::empty());
        p
    }
}

impl Parser {
    /// An empty parser, with no scanner attached.
    pub fn new() -> (p: Self)
        ensures
            p@ == fresh_view(),
            view_wf(p@),
    {
        Self::default()
    }

    /// Attaches a scanner that supplies `text`: the parser then holds the
    /// events of `text`, the first one current.
    pub fn set_scanner(&mut self, text: &str)
        ensures
            final(self)@ == scanned(old(self)@, spec_parse(text@)),
            view_wf(final(self)@),
    {
        let evs = parse_rust(text);
        let mut cache: Vec<Event> = Vec::new();
        let mut k: usize = 0;
        while k < evs.len()
            invariant
                k <= evs.len(),
                cache@.len() == k,
                forall|j: int| 0 <= j < k ==> #[trigger] cache@[j]@ == evs@[j]@,
            decreases evs.len() - k,
        {
            cache.push(evs[k].event.clone());
            k = k + 1;
        }
        let n = cache.len();
        self.current_event = if n > 0 {
            Some(cache[0].clone())
        } else {
            None
        };
        self.token_index = if n > 0 {
            1
        } else {
            0
        };
        self.event_cache = cache;
        self.scanner_attached = true;
        assert(self@.cache =~= models(evs@));
    }

    /// Whether an event is available; refused while no scanner is attached.
    pub fn check_event(&mut self) -> (r: Result<bool, ParserError>)
        ensures
            final(self)@ == old(self)@,
            !old(self)@.scanner_attached ==> r == Err::<bool, ParserError>(
                ParserError::NoScannerSet,
            ),
            old(self)@.scanner_attached ==> r == Ok::<bool, ParserError>(
                old(self)@.current is Some,
            ),
    {
        if !self.scanner_attached {
            return Err(ParserError::NoScannerSet);
        }
        Ok(self.current_event.is_some())
    }

    /// A copy of the current event, left in place; refused while no scanner
    /// is attached.
    pub fn peek_event(&mut self) -> (r: Result<Option<PyEvent>, ParserError>)
        ensures
            final(self)@ == old(self)@,
            r is Err <==> !old(self)@.scanner_attached,
            r is Err ==> r == Err::<Option<PyEvent>, ParserError>(ParserError::NoScannerSet),
            r matches Ok(e) ==> opt_py_event(e) == old(self)@.current,
    {
        if !self.scanner_attached {
            return Err(ParserError::NoScannerSet);
        }
        match &self.current_event {
            Some(e) => Ok(Some(PyEvent { event: e.clone() })),
            None => Ok(None),
        }
    }

    /// Hands out the current event and makes the next one current; refused
    /// while no scanner is attached.
    pub fn get_event(&mut self) -> (r: Result<Option<PyEvent>, ParserError>)
        ensures
            r is Err <==> !old(self)@.scanner_attached,
            r is Err ==> r == Err::<Option<PyEvent>, ParserError>(ParserError::NoScannerSet)
                && final(self)@ == old(self)@,
            r matches Ok(e) ==> opt_py_event(e) == old(self)@.current && final(self)@ == advance(
                old(self)@,
            ),
            view_wf(old(self)@) ==> view_wf(final(self)@),
    {
        if !self.scanner_attached {
            return Err(ParserError::NoScannerSet);
        }
        let event = self.current_event.take();
        if self.token_index < self.event_cache.len() {
            let next = self.event_cache[self.token_index].clone();
            self.current_event = Some(next);
            self.token_index = self.token_index + 1;
        }
        match event {
            Some(e) => Ok(Some(PyEvent { event: e })),
            None => Ok(None),
        }
    }

    /// Detaches the scanner, drops the current event and clears all buffers.
    pub fn dispose(&mut self)
        ensures
            final(self)@ == fresh_view(),
            view_wf(final(self)@),
    {
        self.scanner_attached = false;
        self.current_event = None;
        self.event_cache.clear();
        self.states.clear();
        self.marks.clear();
        self.token_index = 0;
        assert(self@.cache =~= Seq::<EventModel>::empty());
    }
}

} // verus!
