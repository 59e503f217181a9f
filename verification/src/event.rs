//! What triggered an event, and the metadata carried by list deltas.
use vstd::prelude::*;

verus! {

/// The kind of the event trigger.
#[derive(Debug, Clone, Copy, PartialEq, Eq, Hash, Structural)]
pub enum EventTriggerKind {
    /// The event is triggered by a local transaction.
    Local,
    /// The event is triggered by importing.
    Import,
    /// The event is triggered by checkout.
    Checkout,
}

impl EventTriggerKind {
    pub fn is_local(&self) -> (r: bool)
        ensures
            r <==> *self == EventTriggerKind::Local,
    {
        match self {
            EventTriggerKind::Local => true,
            _ => false,
        }
    }

    pub fn is_import(&self) -> (r: bool)
        ensures
            r <==> *self == EventTriggerKind::Import,
    {
        match self {
            EventTriggerKind::Import => true,
            _ => false,
        }
    }

    pub fn is_checkout(&self) -> (r: bool)
        ensures
            r <==> *self == EventTriggerKind::Checkout,
    {
        match self {
            EventTriggerKind::Checkout => true,
            _ => false,
        }
    }

    /// The name the kind is displayed by.
    pub fn name(&self) -> (r: &'static str)
        ensures
            *self == EventTriggerKind::Local ==> r@ == "local"@,
            *self == EventTriggerKind::Import ==> r@ == "import"@,
            *self == EventTriggerKind::Checkout ==> r@ == "checkout"@,
    {
        match self {
            EventTriggerKind::Local => "local",
            EventTriggerKind::Import => "import",
            EventTriggerKind::Checkout => "checkout",
        }
    }
}

/// The metadata of an item of a list delta.
#[derive(Debug, Default, Clone, Copy, PartialEq, Eq, Structural)]
pub struct ListDeltaMeta {
    /// Whether the content of the insert is moved from a deletion in the
    /// same delta and the value is not changed.
    pub from_move: bool,
}

impl ListDeltaMeta {
    /// Metadata is empty when it does not mark a move.
    pub fn is_empty(&self) -> (r: bool)
        ensures
            r == !self.from_move,
    {
        !self.from_move
    }

    /// Composes with later metadata: the result marks a move when either does.
    pub fn compose(&mut self, other: &ListDeltaMeta)
        ensures
            final(self).from_move == (old(self).from_move || other.from_move),
    {
        self.from_move = self.from_move || other.from_move;
    }

    /// Two items can be merged when they agree on the move mark.
    pub fn is_mergeable(&self, other: &ListDeltaMeta) -> (r: bool)
        ensures
            r == (self.from_move == other.from_move),
    {
        self.from_move == other.from_move
    }

    /// Merging keeps the metadata as it is (mergeable items agree on it).
    pub fn merge(&mut self, other: &ListDeltaMeta)
        ensures
            *final(self) == *old(self),
    {
    }

    /// The same as `is_empty`, for the attribute view of the metadata.
    pub fn attr_is_empty(&self) -> (r: bool)
        ensures
            r == !self.from_move,
    {
        !self.from_move
    }
}

} // verus!
