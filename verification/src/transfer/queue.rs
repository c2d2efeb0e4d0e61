//! The downloads that a worker has asked for, most urgent first.
//!
//! A download is queued under the priority of the task that needs the data
//! object, with the identifier of the object as the last part of the key, so
//! that no two downloads have the same key.

use crate::common::{Priority, TaskId};
use crate::queue::{key_le, queue_contents, queue_new, queue_pop, queue_push, QueueKey, ReadyQueue};
use vstd::prelude::*;

verus! {

/// The downloads that wait to be served.
pub struct DownloadQueue {
    queue: ReadyQueue,
}

/// The key of a download of the data object `id` for a task of `priority`.
pub open spec fn download_key(id: TaskId, priority: Priority) -> QueueKey {
    (priority.0, priority.1, id)
}

/// `id` is queued in `downloads` and no queued download has a smaller key.
pub open spec fn is_most_urgent(downloads: Map<TaskId, QueueKey>, id: TaskId) -> bool {
    &&& downloads.contains_key(id)
    &&& forall|other: TaskId| #[trigger]
        downloads.contains_key(other) ==> key_le(downloads[id], downloads[other])
}

impl View for DownloadQueue {
    type V = Map<TaskId, QueueKey>;

    closed spec fn view(&self) -> Map<TaskId, QueueKey> {
        queue_contents(self.queue)
    }
}

impl DownloadQueue {
    /// Each download is queued under a key that ends with its identifier.
    pub open spec fn wf(&self) -> bool {
        forall|id: TaskId| #[trigger] self@.contains_key(id) ==> self@[id].2 == id
    }

    /// A queue without downloads.
    pub fn new() -> (downloads: DownloadQueue)
        ensures
            downloads.wf(),
            downloads@ == Map::<TaskId, QueueKey>::empty(),
    {
        DownloadQueue { queue: queue_new() }
    }

    /// Asks for the data object `id` on behalf of a task of `priority`. A
    /// download that is queued already goes on with the new priority.
    pub fn push(&mut self, id: TaskId, priority: Priority)
        requires
            old(self).wf(),
        ensures
            final(self).wf(),
            final(self)@ == old(self)@.insert(id, download_key(id, priority)),
    {
        queue_push(&mut self.queue, id, (priority.0, priority.1, id));
    }

    /// Takes the most urgent download out of the queue: the one with the
    /// smallest priority pair, the smaller identifier deciding between equal
    /// pairs. An empty queue gives nothing.
    pub fn pop(&mut self) -> (next: Option<TaskId>)
        requires
            old(self).wf(),
        ensures
            final(self).wf(),
            match next {
                Some(id) => is_most_urgent(old(self)@, id) && final(self)@ == old(self)@.remove(id),
                None => old(self)@ == Map::<TaskId, QueueKey>::empty() && final(self)@ == old(self)@,
            },
    {
        match queue_pop(&mut self.queue) {
            Some((id, key)) => {
                assert forall|other: TaskId| #[trigger] self@.contains_key(other) implies self@[other].2
                    == other by {
                    assert(old(self)@.contains_key(other));
                }
                Some(id)
            },
            None => {
                assert(old(self)@ =~= Map::<TaskId, QueueKey>::empty());
                None
            },
        }
    }

    /// At most one download is the most urgent, so what `pop` gives is
    /// decided by what is queued.
    pub proof fn lemma_most_urgent_unique(&self, first: TaskId, second: TaskId)
        requires
            self.wf(),
            is_most_urgent(self@, first),
            is_most_urgent(self@, second),
        ensures
            first == second,
    {
    }
}

} // verus!
