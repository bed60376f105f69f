//! Events handed to the user interface, and the change descriptions they carry.
use vstd::prelude::*;

verus! {

/// A descriptive note accompanying an applied edit; never checked against the diff.
pub struct FileChange {
    pub component: Option<String>,
    pub filename: String,
    pub description: String,
}

pub struct ChangeModel {
    pub component: Option<Seq<char>>,
    pub filename: Seq<char>,
    pub description: Seq<char>,
}

pub open spec fn opt_text(o: Option<String>) -> Option<Seq<char>> {
    match o {
        Some(s) => Some(s@),
        None => None,
    }
}

impl View for FileChange {
    type V = ChangeModel;

    open spec fn view(&self) -> ChangeModel {
        ChangeModel {
            component: opt_text(self.component),
            filename: self.filename@,
            description: self.description@,
        }
    }
}

pub open spec fn changes_view(v: Seq<FileChange>) -> Seq<ChangeModel> {
    v.map_values(|c: FileChange| c@)
}

/// An event delivered to the user interface. `Done` and `Error` are terminal:
/// a request ends with exactly one of them.
pub enum StreamEvent {
    Thinking { content: String },
    Text { content: String },
    Done { changes: Vec<FileChange>, explanation: Option<String> },
    Error { message: String },
}

pub enum EventModel {
    Thinking { content: Seq<char> },
    Text { content: Seq<char> },
    Done { changes: Seq<ChangeModel>, explanation: Option<Seq<char>> },
    Error { message: Seq<char> },
}

impl View for StreamEvent {
    type V = EventModel;

    open spec fn view(&self) -> EventModel {
        match self {
            StreamEvent::Thinking { content } => EventModel::Thinking { content: content@ },
            StreamEvent::Text { content } => EventModel::Text { content: content@ },
            StreamEvent::Done { changes, explanation } => EventModel::Done {
                changes: changes_view(changes@),
                explanation: opt_text(*explanation),
            },
            StreamEvent::Error { message } => EventModel::Error { message: message@ },
        }
    }
}

pub open spec fn terminal_event(e: EventModel) -> bool {
    e is Done || e is Error
}

impl StreamEvent {
    /// Whether the event ends a request.
    pub fn is_terminal(&self) -> (r: bool)
        ensures
            r == terminal_event(self@),
    {
        match self {
            StreamEvent::Done { .. } | StreamEvent::Error { .. } => true,
            _ => false,
        }
    }
}

} // verus!
