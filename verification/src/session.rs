//! The transcript the hive folds over: who said what, at which row, to whom.
//!
//! These are the plain values a host hands the library. A `Sequence` numbers a
//! row of the host's journal; a `SessionMessage` is one row; its `Audience`
//! says whether the whole desk can read it or only the members of an aside.

use vstd::prelude::*;

verus! {

/// The position of one row in the host's journal.
#[derive(Clone, Copy, Debug, PartialEq, Eq, Structural, Hash, PartialOrd, Ord)]
pub struct Sequence(pub u64);

/// Who authored a row.
#[derive(Clone, Debug, PartialEq, Eq)]
pub enum SessionAuthor {
    /// A member agent, by canonical id and display label.
    Agent { id: String, label: String },
    /// The operator running the session.
    Operator,
    /// A person signed in alongside the agents.
    Person { id: String },
    /// A system notice.
    System { label: String },
}

impl SessionAuthor {
    /// The canonical agent id, when an agent authored the row.
    pub open spec fn agent_view(&self) -> Option<Seq<char>> {
        match self {
            SessionAuthor::Agent { id, .. } => Some(id@),
            _ => None,
        }
    }

    /// A copy of this author that keeps every field.
    pub fn duplicate(&self) -> (copy: Self)
        ensures
            copy == *self,
    {
        match self {
            SessionAuthor::Agent { id, label } => SessionAuthor::Agent {
                id: id.clone(),
                label: label.clone(),
            },
            SessionAuthor::Operator => SessionAuthor::Operator,
            SessionAuthor::Person { id } => SessionAuthor::Person { id: id.clone() },
            SessionAuthor::System { label } => SessionAuthor::System { label: label.clone() },
        }
    }

    /// The canonical agent id, when an agent authored the row.
    pub fn agent_id(&self) -> (id: Option<&str>)
        ensures
            match id {
                Some(id) => self.agent_view() == Some(id@),
                None => self.agent_view() is None,
            },
    {
        match self {
            SessionAuthor::Agent { id, .. } => Some(id.as_str()),
            _ => None,
        }
    }
}

/// Who may read a row.
#[derive(Clone, Debug, PartialEq, Eq)]
pub enum Audience {
    /// Every member of the desk.
    Desk,
    /// Only the named members of a private exchange.
    Aside { members: Vec<String> },
}

/// An audience as plain values.
pub enum AudienceView {
    Desk,
    Aside(Seq<Seq<char>>),
}

impl View for Audience {
    type V = AudienceView;

    open spec fn view(&self) -> AudienceView {
        match self {
            Audience::Desk => AudienceView::Desk,
            Audience::Aside { members } => AudienceView::Aside(members@.map_values(|m: String| m@)),
        }
    }
}

impl Audience {
    /// A copy of this audience.
    pub fn duplicate(&self) -> (copy: Self)
        ensures
            copy@ == self@,
    {
        match self {
            Audience::Desk => Audience::Desk,
            Audience::Aside { members } => {
                let mut copy: Vec<String> = Vec::new();
                let mut i: usize = 0;
                while i < members.len()
                    invariant
                        i <= members@.len(),
                        copy@.map_values(|m: String| m@) == members@.take(i as int).map_values(|m: String| m@),
                    decreases members@.len() - i,
                {
                    let ghost before = copy@;
                    copy.push(members[i].clone());
                    assert(copy@.map_values(|m: String| m@) =~= before.map_values(|m: String| m@).push(
                        members@[i as int]@,
                    ));
                    assert(members@.take(i + 1) =~= members@.take(i as int).push(members@[i as int]));
                    assert(members@.take(i + 1).map_values(|m: String| m@) =~= members@.take(i as int).map_values(
                        |m: String| m@,
                    ).push(members@[i as int]@));
                    i = i + 1;
                }
                assert(members@.take(members@.len() as int) =~= members@);
                Audience::Aside { members: copy }
            },
        }
    }

    /// Whether the whole desk may read the row.
    pub fn is_desk(&self) -> (desk: bool)
        ensures
            desk == (self is Desk),
    {
        match self {
            Audience::Desk => true,
            Audience::Aside { .. } => false,
        }
    }
}

/// One row of the host's transcript.
#[derive(Clone, Debug, PartialEq, Eq)]
pub struct SessionMessage {
    /// Where the row sits in the journal.
    pub sequence: Sequence,
    /// Who wrote it.
    pub author: SessionAuthor,
    /// The body, which may carry marker lines.
    pub content: String,
    /// Who may read it.
    pub audience: Audience,
}

/// A message as plain values.
pub struct MessageView {
    pub sequence: Sequence,
    pub author: SessionAuthor,
    pub content: Seq<char>,
    pub audience: AudienceView,
}

impl View for SessionMessage {
    type V = MessageView;

    open spec fn view(&self) -> MessageView {
        MessageView {
            sequence: self.sequence,
            author: self.author,
            content: self.content@,
            audience: self.audience@,
        }
    }
}

impl SessionMessage {
    /// A copy of this message.
    pub fn duplicate(&self) -> (copy: Self)
        ensures
            copy@ == self@,
    {
        SessionMessage {
            sequence: self.sequence,
            author: self.author.duplicate(),
            content: self.content.clone(),
            audience: self.audience.duplicate(),
        }
    }
}

/// The desk, and optional thread, an episode runs on.
#[derive(Clone, Debug, PartialEq, Eq)]
pub struct Conversation {
    /// The desk's id.
    pub desk_id: String,
    /// The desk's display name.
    pub desk_name: String,
    /// The thread the episode is scoped to, if any.
    pub thread_root: Option<Sequence>,
}

impl Conversation {
    /// A copy of this conversation.
    pub fn duplicate(&self) -> (copy: Self)
        ensures
            copy == *self,
    {
        Conversation {
            desk_id: self.desk_id.clone(),
            desk_name: self.desk_name.clone(),
            thread_root: self.thread_root,
        }
    }
}

} // verus!
