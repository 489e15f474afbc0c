//! The items of a snapshot, their sort keys, and the requests the engine issues.

use crate::text::{decimal_text, is_decimal_of};
use vstd::prelude::*;

verus! {

/// A sort key, held as its place in the order of all keys.
///
/// The engine compares keys and never computes with them, so a key is kept as an
/// integer that orders as the key does: a smaller key has a smaller ordinal, equal
/// keys have equal ordinals, and the key zero has ordinal 0.
#[derive(Clone, Copy, Debug, PartialEq, Eq, Structural)]
pub struct SortKey {
    pub ordinal: i64,
}

impl SortKey {
    /// The key zero, which an item without a `sortOrder` attribute is taken to have.
    pub open spec fn spec_zero() -> SortKey {
        SortKey { ordinal: 0 }
    }

    #[verifier::when_used_as_spec(spec_zero)]
    pub fn zero() -> (key: SortKey)
        ensures
            key == Self::spec_zero(),
    {
        SortKey { ordinal: 0 }
    }
}

/// What an item holds under its `sortOrder` attribute.
#[derive(Clone, Copy, Debug, PartialEq, Eq, Structural)]
pub enum StoredKey {
    /// The item has no such attribute.
    Absent,
    /// The attribute holds a number.
    Number(SortKey),
    /// The attribute is there and is not a number.
    Malformed,
}

/// Why an operation of the engine was given up. No request is issued with either.
#[derive(Clone, Copy, Debug, PartialEq, Eq, Structural)]
pub enum EngineError {
    /// No item has the requested identifier, nor the requested short id.
    ItemNotFound,
    /// An item whose key the operation has to read holds something that is no number.
    MalformedOrderingKey,
}

/// The value that a request asks the store to write as an item's sort key.
#[derive(Clone, Copy, Debug, PartialEq, Eq, Structural)]
pub enum NewKey {
    /// The whole number given.
    Rank(u64),
    /// One less than the given key.
    Below(SortKey),
    /// One more than the given key.
    Above(SortKey),
}

/// A request to the store, addressed to one item by its identifier.
#[derive(Clone, Debug, PartialEq, Eq)]
pub enum Mutation {
    /// Remove the item's `sortOrder` attribute.
    Clear { uuid: String },
    /// Set the item's `sortOrder` attribute.
    Assign { uuid: String, key: NewKey },
}

/// A request as contracts see it.
pub ghost enum MutationView {
    Clear { uuid: Seq<char> },
    Assign { uuid: Seq<char>, key: NewKey },
}

impl MutationView {
    /// The identifier of the item that the request is addressed to.
    pub open spec fn target(self) -> Seq<char> {
        match self {
            MutationView::Clear { uuid } => uuid,
            MutationView::Assign { uuid, .. } => uuid,
        }
    }
}

impl View for Mutation {
    type V = MutationView;

    open spec fn view(&self) -> MutationView {
        match *self {
            Mutation::Clear { uuid } => MutationView::Clear { uuid: uuid@ },
            Mutation::Assign { uuid, key } => MutationView::Assign { uuid: uuid@, key },
        }
    }
}

/// The requests of a plan, in the order in which they are to be carried out.
pub open spec fn plan_view(plan: Seq<Mutation>) -> Seq<MutationView> {
    Seq::new(plan.len(), |i: int| plan[i]@)
}

/// The tag that puts an item under the engine's ordering.
pub open spec fn focus_tag() -> Seq<char> {
    "focus"@
}

/// One item of the store, with the fields that the engine reads.
#[derive(Clone, Debug, PartialEq, Eq)]
pub struct Task {
    /// The item's identifier: stable, and unique in the store.
    pub uuid: String,
    /// The short id that the store lends the item for the time being.
    pub id: Option<i64>,
    pub tags: Vec<String>,
    /// The item's `sortOrder` attribute.
    pub stored_key: StoredKey,
}

/// An item as contracts see it.
pub ghost struct TaskView {
    pub uuid: Seq<char>,
    pub id: Option<i64>,
    pub tags: Seq<Seq<char>>,
    pub stored_key: StoredKey,
}

impl TaskView {
    /// The item carries the `focus` tag.
    pub open spec fn is_focused(self) -> bool {
        self.tags.contains(focus_tag())
    }

    /// The item has a `sortOrder` attribute, whatever it holds.
    pub open spec fn carries_key(self) -> bool {
        self.stored_key !is Absent
    }

    /// The item has a `sortOrder` attribute and no `focus` tag.
    pub open spec fn is_stray(self) -> bool {
        !self.is_focused() && self.carries_key()
    }

    /// The item's key: the stored number, zero where none is stored, and an error
    /// where what is stored is no number.
    pub open spec fn sort_order(self) -> Result<SortKey, EngineError> {
        match self.stored_key {
            StoredKey::Absent => Ok(SortKey::spec_zero()),
            StoredKey::Number(key) => Ok(key),
            StoredKey::Malformed => Err(EngineError::MalformedOrderingKey),
        }
    }

    /// The ordinal of the item's key, for an item whose key can be read.
    pub open spec fn ordinal(self) -> int {
        match self.stored_key {
            StoredKey::Number(key) => key.ordinal as int,
            _ => 0,
        }
    }

    /// `id` is the item's identifier.
    pub open spec fn is_named(self, id: Seq<char>) -> bool {
        self.uuid == id
    }

    /// `id` is the item's short id, written in decimal.
    pub open spec fn is_aliased(self, id: Seq<char>) -> bool {
        self.id matches Some(alias) && id == decimal_text(alias as int)
    }
}

impl View for Task {
    type V = TaskView;

    open spec fn view(&self) -> TaskView {
        TaskView {
            uuid: self.uuid@,
            id: self.id,
            tags: Seq::new(self.tags@.len(), |i: int| self.tags@[i]@),
            stored_key: self.stored_key,
        }
    }
}

/// The items of a snapshot, in the order in which the store gave them.
pub open spec fn snapshot(tasks: Seq<Task>) -> Seq<TaskView> {
    Seq::new(tasks.len(), |i: int| tasks[i]@)
}

impl Task {
    /// Reads the item's sort key. An item without the attribute has the key zero.
    pub fn sort_order(&self) -> (key: Result<SortKey, EngineError>)
        ensures
            key == self@.sort_order(),
            self.stored_key is Absent ==> key == Ok::<SortKey, EngineError>(SortKey::spec_zero()),
    {
        match self.stored_key {
            StoredKey::Absent => Ok(SortKey::zero()),
            StoredKey::Number(key) => Ok(key),
            StoredKey::Malformed => Err(EngineError::MalformedOrderingKey),
        }
    }

    /// Whether the item carries the `focus` tag.
    pub fn is_focused(&self) -> (focused: bool)
        ensures
            focused == self@.is_focused(),
    {
        let focus = "focus".to_owned();
        let mut i: usize = 0;
        while i < self.tags.len()
            invariant
                i <= self.tags.len(),
                focus@ == focus_tag(),
                forall|j: int| 0 <= j < i ==> self@.tags[j] != focus_tag(),
            decreases self.tags.len() - i,
        {
            if self.tags[i] == focus {
                assert(self@.tags[i as int] == focus_tag());
                return true;
            }
            i += 1;
        }
        false
    }

    /// Whether the item has a `sortOrder` attribute and no `focus` tag.
    pub fn is_stray(&self) -> (stray: bool)
        ensures
            stray == self@.is_stray(),
    {
        match self.stored_key {
            StoredKey::Absent => false,
            _ => !self.is_focused(),
        }
    }

    /// Whether `id` is the item's identifier.
    pub fn is_named(&self, id: &str) -> (named: bool)
        ensures
            named == self@.is_named(id@),
    {
        let wanted = id.to_owned();
        self.uuid == wanted
    }

    /// Whether `id` is the item's short id, written in decimal.
    pub fn is_aliased(&self, id: &str) -> (aliased: bool)
        ensures
            aliased == self@.is_aliased(id@),
    {
        match self.id {
            Some(alias) => is_decimal_of(id, alias),
            None => false,
        }
    }
}

} // verus!
