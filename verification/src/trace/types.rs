//! What a marker line deposits in the medium.

use vstd::prelude::*;

use crate::session::{Sequence, SessionAuthor};

verus! {

/// The marker a line opens with.
#[derive(Clone, Copy, Debug, PartialEq, Eq, Structural, Hash)]
pub enum TraceKind {
    /// `!propose`: put an option on the floor.
    Propose,
    /// `!support`: back an option.
    Support,
    /// `!object`: name a message whose author should be silenced.
    Object,
    /// `!refute`: argue a cited fact against a topic.
    Refute,
    /// `!evidence`: state a fact.
    Evidence,
    /// `!question`: ask the room.
    Question,
    /// `!commit`: record the decision.
    Commit,
    /// `!defer`: say a topic is not this member's.
    Defer,
}

/// A topic name, as written after `#`.
#[derive(Clone, Debug, PartialEq, Eq, Hash, PartialOrd, Ord)]
pub struct TopicId(pub String);

impl View for TopicId {
    type V = Seq<char>;

    open spec fn view(&self) -> Seq<char> {
        self.0@
    }
}

impl TopicId {
    /// A topic named by `name`.
    pub fn new(name: &str) -> (topic: Self)
        ensures
            topic@ == name@,
    {
        TopicId(name.to_owned())
    }

    /// The topic's name.
    pub fn as_str(&self) -> (name: &str)
        ensures
            name@ == self@,
    {
        self.0.as_str()
    }

    /// A copy of this topic.
    pub fn duplicate(&self) -> (copy: Self)
        ensures
            copy@ == self@,
    {
        TopicId(self.0.clone())
    }

    /// Whether two topics name the same thing.
    pub fn same(&self, other: &TopicId) -> (same: bool)
        ensures
            same == (self@ == other@),
    {
        self.0 == other.0
    }
}

impl<'a> From<&'a str> for TopicId {
    fn from(name: &'a str) -> (topic: Self) {
        TopicId(name.to_owned())
    }
}

impl<'a> vstd::std_specs::convert::FromSpecImpl<&'a str> for TopicId {
    open spec fn obeys_from_spec() -> bool {
        false
    }

    open spec fn from_spec(name: &'a str) -> Self {
        vstd::pervasive::arbitrary()
    }
}

/// One deposit read off a marker line.
#[derive(Clone, Debug, PartialEq, Eq)]
pub struct Trace {
    /// The row the marker was written in.
    pub sequence: Sequence,
    /// Who wrote it.
    pub author: SessionAuthor,
    /// Which marker it is.
    pub kind: TraceKind,
    /// The first non-empty `#topic`, if any.
    pub topic: Option<TopicId>,
    /// The first `>target` that names a row, if any.
    pub target: Option<Sequence>,
    /// Every distinct `^cite`, in the order written.
    pub cites: Vec<Sequence>,
    /// The marker line as written, without its indentation or line ending.
    pub text: String,
    /// Byte offset of the marker within the body.
    pub offset: usize,
}

/// The topic a trace names, as characters.
pub open spec fn topic_view(topic: Option<TopicId>) -> Option<Seq<char>> {
    match topic {
        Some(t) => Some(t@),
        None => None,
    }
}

impl Trace {
    /// The authoring agent, when an agent wrote the trace.
    pub open spec fn agent(&self) -> Option<Seq<char>> {
        self.author.agent_view()
    }

    /// The topic named, as characters.
    pub open spec fn topic_name(&self) -> Option<Seq<char>> {
        topic_view(self.topic)
    }

    /// Whether the trace cites anything.
    pub open spec fn is_grounded(&self) -> bool {
        self.cites@.len() > 0
    }

    /// The canonical agent id of the author, when an agent wrote the trace.
    pub fn agent_id(&self) -> (id: Option<&str>)
        ensures
            match id {
                Some(id) => self.agent() == Some(id@),
                None => self.agent() is None,
            },
    {
        self.author.agent_id()
    }

    /// Whether the trace cites grounds.
    pub fn grounded(&self) -> (grounded: bool)
        ensures
            grounded == self.is_grounded(),
    {
        self.cites.len() > 0
    }
}

} // verus!
