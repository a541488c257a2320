//! The changes that the file system reports to an observer.

use vstd::prelude::*;

verus! {

pub const CREATE: &'static str = "create";

pub const CHANGE: &'static str = "change";

pub const DELETE: &'static str = "delete";

/// What happened to an entry.
#[derive(Debug, Clone, Copy, PartialEq, Eq, Structural)]
pub enum ChangeKind {
    Create,
    Change,
    Delete,
}

impl ChangeKind {
    /// The word that an observer is told.
    pub fn as_str(&self) -> (r: &'static str)
        ensures
            r@ == match self {
                ChangeKind::Create => "create"@,
                ChangeKind::Change => "change"@,
                ChangeKind::Delete => "delete"@,
            },
    {
        match self {
            ChangeKind::Create => CREATE,
            ChangeKind::Change => CHANGE,
            ChangeKind::Delete => DELETE,
        }
    }
}

/// One change: the path that the caller gave and what happened there.
#[derive(Debug)]
pub struct ChangeEvent {
    pub uri: String,
    pub kind: ChangeKind,
}

impl ChangeEvent {
    pub open spec fn view(&self) -> (Seq<char>, ChangeKind) {
        (self.uri@, self.kind)
    }
}

/// The changes that wait to be handed to the observer, oldest first.
pub struct FileChangeEventEmitter {
    pub events: Vec<ChangeEvent>,
}

impl FileChangeEventEmitter {
    /// The waiting changes, each as its path and its kind.
    pub open spec fn view(&self) -> Seq<(Seq<char>, ChangeKind)> {
        Seq::new(self.events@.len(), |i: int| self.events@[i]@)
    }

    pub fn new() -> (r: Self)
        ensures
            r@ == Seq::<(Seq<char>, ChangeKind)>::empty(),
    {
        let r = FileChangeEventEmitter { events: Vec::new() };
        assert(r@ =~= Seq::<(Seq<char>, ChangeKind)>::empty());
        r
    }

    /// Adds one change to those that wait.
    pub fn notify(&mut self, uri: &str, change_type: ChangeKind)
        ensures
            final(self)@ == old(self)@.push((uri@, change_type)),
    {
        self.events.push(ChangeEvent { uri: uri.to_owned(), kind: change_type });
        assert(self@ =~= old(self)@.push((uri@, change_type)));
    }

    /// Hands out the waiting changes, oldest first, and leaves none.
    pub fn take(&mut self) -> (r: Vec<ChangeEvent>)
        ensures
            Seq::new(r@.len(), |i: int| r@[i]@) == old(self)@,
            final(self)@ == Seq::<(Seq<char>, ChangeKind)>::empty(),
    {
        let mut out: Vec<ChangeEvent> = Vec::new();
        out.append(&mut self.events);
        assert(Seq::new(out@.len(), |i: int| out@[i]@) =~= old(self)@);
        assert(self@ =~= Seq::<(Seq<char>, ChangeKind)>::empty());
        out
    }
}

} // verus!
