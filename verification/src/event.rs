//! Source positions and parse events, with their mathematical models.
use std::collections::HashMap;
use vstd::prelude::*;

verus! {

/// A position in the source text (all fields 0-indexed).
#[derive(Clone, Copy, Debug, PartialEq, Eq, Structural)]
pub struct Mark {
    /// Line in the file.
    pub line: usize,
    /// Column in the line.
    pub column: usize,
    /// Absolute position in characters.
    pub index: usize,
}

impl Mark {
    pub fn new(line: usize, column: usize, index: usize) -> (m: Self)
        ensures
            m == (Mark { line, column, index }),
    {
        Mark { line, column, index }
    }
}

/// The mark at the very start of the text.
pub open spec fn origin() -> Mark {
    Mark { line: 0, column: 0, index: 0 }
}

/// A YAML parse event.
#[derive(Debug, PartialEq)]
pub enum Event {
    StreamStart { start_mark: Mark, end_mark: Mark, encoding: Option<String> },
    StreamEnd { start_mark: Mark, end_mark: Mark },
    DocumentStart {
        start_mark: Mark,
        end_mark: Mark,
        explicit: bool,
        version: Option<(u8, u8)>,
        tags: Option<HashMap<String, String>>,
    },
    DocumentEnd { start_mark: Mark, end_mark: Mark, explicit: bool },
    Alias { anchor: String, start_mark: Mark, end_mark: Mark },
    Scalar {
        anchor: Option<String>,
        tag: Option<String>,
        implicit: (bool, bool),
        value: String,
        start_mark: Mark,
        end_mark: Mark,
        style: Option<char>,
    },
    SequenceStart {
        anchor: Option<String>,
        tag: Option<String>,
        implicit: bool,
        start_mark: Mark,
        end_mark: Mark,
        flow_style: bool,
    },
    SequenceEnd { start_mark: Mark, end_mark: Mark },
    MappingStart {
        anchor: Option<String>,
        tag: Option<String>,
        implicit: bool,
        start_mark: Mark,
        end_mark: Mark,
        flow_style: bool,
    },
    MappingEnd { start_mark: Mark, end_mark: Mark },
}

/// The model of an `Event`: strings are character sequences.
pub enum EventModel {
    StreamStart { start_mark: Mark, end_mark: Mark, encoding: Option<Seq<char>> },
    StreamEnd { start_mark: Mark, end_mark: Mark },
    DocumentStart {
        start_mark: Mark,
        end_mark: Mark,
        explicit: bool,
        version: Option<(u8, u8)>,
        tags: Option<Map<String, String>>,
    },
    DocumentEnd { start_mark: Mark, end_mark: Mark, explicit: bool },
    Alias { anchor: Seq<char>, start_mark: Mark, end_mark: Mark },
    Scalar {
        anchor: Option<Seq<char>>,
        tag: Option<Seq<char>>,
        implicit: (bool, bool),
        value: Seq<char>,
        start_mark: Mark,
        end_mark: Mark,
        style: Option<char>,
    },
    SequenceStart {
        anchor: Option<Seq<char>>,
        tag: Option<Seq<char>>,
        implicit: bool,
        start_mark: Mark,
        end_mark: Mark,
        flow_style: bool,
    },
    SequenceEnd { start_mark: Mark, end_mark: Mark },
    MappingStart {
        anchor: Option<Seq<char>>,
        tag: Option<Seq<char>>,
        implicit: bool,
        start_mark: Mark,
        end_mark: Mark,
        flow_style: bool,
    },
    MappingEnd { start_mark: Mark, end_mark: Mark },
}

/// The model of an optional string.
pub open spec fn opt_str(s: Option<String>) -> Option<Seq<char>> {
    match s {
        Some(x) => Some(x@),
        None => None,
    }
}

impl View for Event {
    type V = EventModel;

    open spec fn view(&self) -> EventModel {
        match *self {
            Event::StreamStart { start_mark, end_mark, encoding } => EventModel::StreamStart {
                start_mark,
                end_mark,
                encoding: opt_str(encoding),
            },
            Event::StreamEnd { start_mark, end_mark } => EventModel::StreamEnd {
                start_mark,
                end_mark,
            },
            Event::DocumentStart { start_mark, end_mark, explicit, version, tags } =>
                EventModel::DocumentStart {
                start_mark,
                end_mark,
                explicit,
                version,
                tags: match tags {
                    Some(m) => Some(m@),
                    None => None,
                },
            },
            Event::DocumentEnd { start_mark, end_mark, explicit } => EventModel::DocumentEnd {
                start_mark,
                end_mark,
                explicit,
            },
            Event::Alias { anchor, start_mark, end_mark } => EventModel::Alias {
                anchor: anchor@,
                start_mark,
                end_mark,
            },
            Event::Scalar { anchor, tag, implicit, value, start_mark, end_mark, style } =>
                EventModel::Scalar {
                anchor: opt_str(anchor),
                tag: opt_str(tag),
                implicit,
                value: value@,
                start_mark,
                end_mark,
                style,
            },
            Event::SequenceStart { anchor, tag, implicit, start_mark, end_mark, flow_style } =>
                EventModel::SequenceStart {
                anchor: opt_str(anchor),
                tag: opt_str(tag),
                implicit,
                start_mark,
                end_mark,
                flow_style,
            },
            Event::SequenceEnd { start_mark, end_mark } => EventModel::SequenceEnd {
                start_mark,
                end_mark,
            },
            Event::MappingStart { anchor, tag, implicit, start_mark, end_mark, flow_style } =>
                EventModel::MappingStart {
                anchor: opt_str(anchor),
                tag: opt_str(tag),
                implicit,
                start_mark,
                end_mark,
                flow_style,
            },
            Event::MappingEnd { start_mark, end_mark } => EventModel::MappingEnd {
                start_mark,
                end_mark,
            },
        }
    }
}

impl EventModel {
    /// Where the event starts.
    pub open spec fn start_mark(self) -> Mark {
        match self {
            EventModel::StreamStart { start_mark, .. } => start_mark,
            EventModel::StreamEnd { start_mark, .. } => start_mark,
            EventModel::DocumentStart { start_mark, .. } => start_mark,
            EventModel::DocumentEnd { start_mark, .. } => start_mark,
            EventModel::Alias { start_mark, .. } => start_mark,
            EventModel::Scalar { start_mark, .. } => start_mark,
            EventModel::SequenceStart { start_mark, .. } => start_mark,
            EventModel::SequenceEnd { start_mark, .. } => start_mark,
            EventModel::MappingStart { start_mark, .. } => start_mark,
            EventModel::MappingEnd { start_mark, .. } => start_mark,
        }
    }

    /// Where the event ends.
    pub open spec fn end_mark(self) -> Mark {
        match self {
            EventModel::StreamStart { end_mark, .. } => end_mark,
            EventModel::StreamEnd { end_mark, .. } => end_mark,
            EventModel::DocumentStart { end_mark, .. } => end_mark,
            EventModel::DocumentEnd { end_mark, .. } => end_mark,
            EventModel::Alias { end_mark, .. } => end_mark,
            EventModel::Scalar { end_mark, .. } => end_mark,
            EventModel::SequenceStart { end_mark, .. } => end_mark,
            EventModel::SequenceEnd { end_mark, .. } => end_mark,
            EventModel::MappingStart { end_mark, .. } => end_mark,
            EventModel::MappingEnd { end_mark, .. } => end_mark,
        }
    }
}

/// An event as handed to Python callers.
#[derive(Debug, PartialEq)]
pub struct PyEvent {
    pub event: Event,
}

impl View for PyEvent {
    type V = EventModel;

    open spec fn view(&self) -> EventModel {
        self.event@
    }
}

/// The models of a sequence of events.
pub open spec fn models(v: Seq<PyEvent>) -> Seq<EventModel> {
    Seq::new(v.len(), |k: int| v[k]@)
}

impl PyEvent {
    /// The start mark of the wrapped event.
    pub fn start_mark(&self) -> (m: Mark)
        ensures
            m == self@.start_mark(),
    {
        match &self.event {
            Event::StreamStart { start_mark, .. } => *start_mark,
            Event::StreamEnd { start_mark, .. } => *start_mark,
            Event::DocumentStart { start_mark, .. } => *start_mark,
            Event::DocumentEnd { start_mark, .. } => *start_mark,
            Event::Alias { start_mark, .. } => *start_mark,
            Event::Scalar { start_mark, .. } => *start_mark,
            Event::SequenceStart { start_mark, .. } => *start_mark,
            Event::SequenceEnd { start_mark, .. } => *start_mark,
            Event::MappingStart { start_mark, .. } => *start_mark,
            Event::MappingEnd { start_mark, .. } => *start_mark,
        }
    }

    /// The end mark of the wrapped event.
    pub fn end_mark(&self) -> (m: Mark)
        ensures
            m == self@.end_mark(),
    {
        match &self.event {
            Event::StreamStart { end_mark, .. } => *end_mark,
            Event::StreamEnd { end_mark, .. } => *end_mark,
            Event::DocumentStart { end_mark, .. } => *end_mark,
            Event::DocumentEnd { end_mark, .. } => *end_mark,
            Event::Alias { end_mark, .. } => *end_mark,
            Event::Scalar { end_mark, .. } => *end_mark,
            Event::SequenceStart { end_mark, .. } => *end_mark,
            Event::SequenceEnd { end_mark, .. } => *end_mark,
            Event::MappingStart { end_mark, .. } => *end_mark,
            Event::MappingEnd { end_mark, .. } => *end_mark,
        }
    }
}

fn copy_opt_string(s: &Option<String>) -> (r: Option<String>)
    ensures
        opt_str(r) == opt_str(*s),
{
    match s {
        Some(x) => Some(x.clone()),
        None => None,
    }
}

/// A copy of an event with the same model.
fn copy_event(e: &Event) -> (r: Event)
    ensures
        r@ == e@,
{
    match e {
        Event::StreamStart { start_mark, end_mark, encoding } => Event::StreamStart {
            start_mark: *start_mark,
            end_mark: *end_mark,
            encoding: copy_opt_string(encoding),
        },
        Event::StreamEnd { start_mark, end_mark } => Event::StreamEnd {
            start_mark: *start_mark,
            end_mark: *end_mark,
        },
        Event::DocumentStart { start_mark, end_mark, explicit, version, tags } => {
            let t = match tags {
                Some(m) => Some(m.clone()),
                None => None,
            };
            Event::DocumentStart {
                start_mark: *start_mark,
                end_mark: *end_mark,
                explicit: *explicit,
                version: *version,
                tags: t,
            }
        },
        Event::DocumentEnd { start_mark, end_mark, explicit } => Event::DocumentEnd {
            start_mark: *start_mark,
            end_mark: *end_mark,
            explicit: *explicit,
        },
        Event::Alias { anchor, start_mark, end_mark } => Event::Alias {
            anchor: anchor.clone(),
            start_mark: *start_mark,
            end_mark: *end_mark,
        },
        Event::Scalar { anchor, tag, implicit, value, start_mark, end_mark, style } =>
            Event::Scalar {
            anchor: copy_opt_string(anchor),
            tag: copy_opt_string(tag),
            implicit: *implicit,
            value: value.clone(),
            start_mark: *start_mark,
            end_mark: *end_mark,
            style: *style,
        },
        Event::SequenceStart { anchor, tag, implicit, start_mark, end_mark, flow_style } =>
            Event::SequenceStart {
            anchor: copy_opt_string(anchor),
            tag: copy_opt_string(tag),
            implicit: *implicit,
            start_mark: *start_mark,
            end_mark: *end_mark,
            flow_style: *flow_style,
        },
        Event::SequenceEnd { start_mark, end_mark } => Event::SequenceEnd {
            start_mark: *start_mark,
            end_mark: *end_mark,
        },
        Event::MappingStart { anchor, tag, implicit, start_mark, end_mark, flow_style } =>
            Event::MappingStart {
            anchor: copy_opt_string(anchor),
            tag: copy_opt_string(tag),
            implicit: *implicit,
            start_mark: *start_mark,
            end_mark: *end_mark,
            flow_style: *flow_style,
        },
        Event::MappingEnd { start_mark, end_mark } => Event::MappingEnd {
            start_mark: *start_mark,
            end_mark: *end_mark,
        },
    }
}

impl Clone for Event {
    fn clone(&self) -> (r: Self)
        ensures
            r@ == self@,
    {
        copy_event(self)
    }
}

impl Clone for PyEvent {
    fn clone(&self) -> (r: Self)
        ensures
            r@ == self@,
    {
        PyEvent { event: copy_event(&self.event) }
    }
}

/// The characters of "utf-8".
pub open spec fn utf8_name() -> Seq<char> {
    seq!['u', 't', 'f', '-', '8']
}

/// The stream start that opens every parse of a non-blank text.
pub open spec fn stream_start_utf8(m: Mark) -> EventModel {
    EventModel::StreamStart { start_mark: m, end_mark: m, encoding: Some(utf8_name()) }
}

pub open spec fn stream_end(m: Mark) -> EventModel {
    EventModel::StreamEnd { start_mark: m, end_mark: m }
}

pub open spec fn document_start(m: Mark, explicit: bool) -> EventModel {
    EventModel::DocumentStart { start_mark: m, end_mark: m, explicit, version: None, tags: None }
}

pub open spec fn document_end(m: Mark) -> EventModel {
    EventModel::DocumentEnd { start_mark: m, end_mark: m, explicit: false }
}

/// A block-style mapping start with implicit type resolution.
pub open spec fn mapping_start(m: Mark) -> EventModel {
    EventModel::MappingStart {
        anchor: None,
        tag: None,
        implicit: true,
        start_mark: m,
        end_mark: m,
        flow_style: false,
    }
}

pub open spec fn mapping_end(m: Mark) -> EventModel {
    EventModel::MappingEnd { start_mark: m, end_mark: m }
}

/// A block-style sequence start with implicit type resolution.
pub open spec fn sequence_start(m: Mark) -> EventModel {
    EventModel::SequenceStart {
        anchor: None,
        tag: None,
        implicit: true,
        start_mark: m,
        end_mark: m,
        flow_style: false,
    }
}

pub open spec fn sequence_end(m: Mark) -> EventModel {
    EventModel::SequenceEnd { start_mark: m, end_mark: m }
}

/// A plain scalar with the given value and tag, spanning `start..end`.
pub open spec fn plain_scalar(
    value: Seq<char>,
    tag: Option<Seq<char>>,
    start: Mark,
    end: Mark,
) -> EventModel {
    EventModel::Scalar {
        anchor: None,
        tag,
        implicit: (true, false),
        value,
        start_mark: start,
        end_mark: end,
        style: None,
    }
}

/// The events of a text with no content: a stream holding one empty,
/// implicit document, all at the origin.
pub open spec fn empty_document_model() -> Seq<EventModel> {
    let m = origin();
    seq![
        EventModel::StreamStart { start_mark: m, end_mark: m, encoding: None },
        document_start(m, false),
        document_end(m),
        stream_end(m),
    ]
}

/// `StreamStart`, `DocumentStart`, `DocumentEnd`, `StreamEnd`, all at the
/// origin, with no encoding, no version and no tags.
pub fn create_empty_document_events() -> (v: Vec<PyEvent>)
    ensures
        models(v@) == empty_document_model(),
{
    let mark = Mark::new(0, 0, 0);
    let v = vec![
        PyEvent { event: Event::StreamStart { start_mark: mark, end_mark: mark, encoding: None } },
        PyEvent {
            event: Event::DocumentStart {
                start_mark: mark,
                end_mark: mark,
                explicit: false,
                version: None,
                tags: None,
            },
        },
        PyEvent { event: Event::DocumentEnd { start_mark: mark, end_mark: mark, explicit: false } },
        PyEvent { event: Event::StreamEnd { start_mark: mark, end_mark: mark } },
    ];
    assert(models(v@) =~= empty_document_model());
    v
}

} // verus!
