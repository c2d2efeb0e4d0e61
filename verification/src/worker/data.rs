//! Data objects as a worker sees them.

use crate::common::{SerializationType, TaskId, WorkerId};
use vstd::prelude::*;

verus! {

/// A data object that has to be fetched: the workers that may hold it.
#[derive(Debug, PartialEq, Eq)]
pub struct RemoteData {
    pub workers: Vec<WorkerId>,
}

/// A data object whose bytes are on this worker.
#[derive(Debug, PartialEq, Eq)]
pub struct LocalData {
    pub serializer: SerializationType,
    pub bytes: Vec<u8>,
}

/// Where the bytes of a data object are.
#[derive(Debug, PartialEq, Eq)]
pub enum DataObjectState {
    Remote(RemoteData),
    Local(LocalData),
    Removed,
}

/// The result of a task, as far as a worker has to do with it.
#[derive(Debug, PartialEq, Eq)]
pub struct DataObject {
    pub id: TaskId,
    pub size: u64,
    pub state: DataObjectState,
    /// The local tasks that read this object, each once. The order has no
    /// meaning: the object stands for the set of them.
    pub consumers: Vec<TaskId>,
}

/// What the state of a data object stands for.
pub enum DataStateView {
    Remote(Seq<WorkerId>),
    Local(SerializationType, Seq<u8>),
    Removed,
}

/// What a data object stands for; the consumers are a set.
pub struct DataObjectView {
    pub id: TaskId,
    pub size: u64,
    pub state: DataStateView,
    pub consumers: Set<TaskId>,
}

impl View for DataObjectState {
    type V = DataStateView;

    open spec fn view(&self) -> DataStateView {
        match self {
            DataObjectState::Remote(remote) => DataStateView::Remote(remote.workers@),
            DataObjectState::Local(local) => DataStateView::Local(local.serializer, local.bytes@),
            DataObjectState::Removed => DataStateView::Removed,
        }
    }
}

impl View for DataObject {
    type V = DataObjectView;

    open spec fn view(&self) -> DataObjectView {
        DataObjectView {
            id: self.id,
            size: self.size,
            state: self.state@,
            consumers: self.consumers@.to_set(),
        }
    }
}

impl DataObject {
    /// A data object that no task reads yet.
    pub fn new(id: TaskId, size: u64, state: DataObjectState) -> (data: DataObject)
        ensures
            data@ == (DataObjectView { id, size, state: state@, consumers: Set::empty() }),
            data.consumers@ == Seq::<TaskId>::empty(),
    {
        let data = DataObject { id, size, state, consumers: Vec::new() };
        assert(data.consumers@.to_set() =~= Set::empty());
        data
    }

    /// Takes `consumer` out of the tasks that read this object, and tells
    /// whether it was among them.
    pub fn remove_consumer(&mut self, consumer: TaskId) -> (found: bool)
        requires
            old(self).consumers@.no_duplicates(),
        ensures
            final(self).consumers@.no_duplicates(),
            found == old(self)@.consumers.contains(consumer),
            final(self)@ == (DataObjectView {
                consumers: old(self)@.consumers.remove(consumer),
                ..old(self)@
            }),
            final(self).state == old(self).state,
    {
        let mut i: usize = 0;
        while i < self.consumers.len()
            invariant
                i <= self.consumers@.len(),
                *self == *old(self),
                self.consumers@.no_duplicates(),
                forall|j: int| 0 <= j < i ==> self.consumers@[j] != consumer,
            decreases self.consumers@.len() - i,
        {
            if self.consumers[i] == consumer {
                let ghost before = self.consumers@;
                self.consumers.swap_remove(i);
                proof {
                    let after = self.consumers@;
                    assert forall|a: int, b: int|
                        0 <= a < after.len() && 0 <= b < after.len() && a != b implies after[a]
                        != after[b] by {
                        let pa = if a == i { before.len() - 1 } else { a };
                        let pb = if b == i { before.len() - 1 } else { b };
                        assert(after[a] == before[pa]);
                        assert(after[b] == before[pb]);
                    }
                    assert(after.to_set() =~= before.to_set().remove(consumer)) by {
                        assert forall|c: TaskId| after.to_set().contains(c) implies before.to_set().remove(
                            consumer,
                        ).contains(c) by {
                            let a = choose|a: int| 0 <= a < after.len() && after[a] == c;
                            let pa = if a == i { before.len() - 1 } else { a };
                            assert(before[pa] == c);
                            assert(pa != i);
                        }
                        assert forall|c: TaskId| before.to_set().remove(consumer).contains(c) implies after.to_set().contains(
                            c,
                        ) by {
                            let p = choose|p: int| 0 <= p < before.len() && before[p] == c;
                            assert(p != i);
                            let a = if p == before.len() - 1 { i as int } else { p };
                            assert(after[a] == c);
                        }
                    }
                }
                return true;
            }
            i += 1;
        }
        proof {
            assert(self.consumers@.to_set().remove(consumer) =~= self.consumers@.to_set());
        }
        false
    }

    /// Tells whether the object has still to be fetched.
    pub fn is_remote(&self) -> (remote: bool)
        ensures
            remote == (self@.state is Remote),
    {
        match self.state {
            DataObjectState::Remote(_) => true,
            _ => false,
        }
    }

    /// Tells whether the bytes of the object are here.
    pub fn is_local(&self) -> (local: bool)
        ensures
            local == (self@.state is Local),
    {
        match self.state {
            DataObjectState::Local(_) => true,
            _ => false,
        }
    }

    /// Tells whether the object is not needed any more.
    pub fn is_removed(&self) -> (removed: bool)
        ensures
            removed == (self@.state is Removed),
    {
        match self.state {
            DataObjectState::Removed => true,
            _ => false,
        }
    }
}

} // verus!
