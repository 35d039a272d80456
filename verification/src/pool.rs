//! The server's worker pool and dispatcher, modelled as state.
//!
//! The server creates a fixed set of workers at startup; each announces
//! its identifier on a shared idle channel when created and again after
//! finishing a connection. The accept loop takes one connection at a
//! time, waits for an idle identifier, and hands the connection to that
//! worker. Because it does not accept the next connection until a worker
//! is free, at most as many sessions run as there are workers; further
//! connections wait in the operating system's listen backlog.
//!
//! This module is that bookkeeping: the queue of idle identifiers and
//! the two moves — `dispatch` takes an idle worker for a new connection
//! (none means the accept loop must wait), `complete` returns one. The
//! caller does the thread and socket work.

use vstd::prelude::*;

use crate::catalog::{cat_view, FileEntry};

verus! {

/// The dispatcher's view of the pool: the size it was created with and
/// the identifiers of the workers that are idle, oldest announcement
/// first.
pub struct WorkerPool {
    /// Number of worker threads created at startup.
    pub total: usize,
    /// Idle workers, in announcement order.
    pub idle: Vec<usize>,
}

impl WorkerPool {
    /// Idle identifiers are distinct worker identifiers, so there are
    /// never more of them than workers.
    pub open spec fn wf(&self) -> bool {
        &&& self.idle@.len() <= self.total
        &&& forall|i: int| 0 <= i < self.idle@.len() ==> self.idle@[i] < self.total
        &&& forall|i: int, j: int|
            0 <= i < j < self.idle@.len() ==> self.idle@[i] != self.idle@[j]
    }

    /// Connections being served right now: the workers not idle.
    pub open spec fn active(&self) -> nat {
        (self.total - self.idle@.len()) as nat
    }

    /// The pool at startup: every worker has announced itself idle.
    pub fn new(total: usize) -> (p: WorkerPool)
        ensures
            p.wf(),
            p.total == total,
            p.idle@ == Seq::new(total as nat, |i: int| i as usize),
            p.active() == 0,
    {
        let mut idle: Vec<usize> = Vec::new();
        let mut i: usize = 0;
        while i < total
            invariant
                i <= total,
                idle@ == Seq::new(i as nat, |j: int| j as usize),
            decreases total - i,
        {
            idle.push(i);
            proof {
                assert(idle@ =~= Seq::new((i + 1) as nat, |j: int| j as usize));
            }
            i = i + 1;
        }
        WorkerPool { total, idle }
    }

    /// Take the longest-idle worker for a freshly accepted connection.
    /// `None` means every worker is busy: the accept loop must wait on the
    /// idle channel — and take no further connection — until one
    /// completes, so no more than `total` sessions ever run at once.
    pub fn dispatch(&mut self) -> (r: Option<usize>)
        requires
            old(self).wf(),
        ensures
            final(self).wf(),
            final(self).total == old(self).total,
            r is Some <==> old(self).active() < old(self).total,
            r matches Some(id) ==> {
                &&& id == old(self).idle@[0]
                &&& id < old(self).total
                &&& final(self).idle@ == old(self).idle@.drop_first()
                &&& final(self).active() == old(self).active() + 1
            },
            r is None ==> {
                &&& final(self).idle@ == old(self).idle@
                &&& old(self).active() == old(self).total
            },
    {
        if self.idle.len() == 0 {
            None
        } else {
            let id = self.idle.remove(0);
            proof {
                assert(self.idle@ =~= old(self).idle@.drop_first());
            }
            Some(id)
        }
    }

    /// A worker finished (or failed) its connection and announces itself
    /// idle again. It was busy, so it is not in the idle queue.
    pub fn complete(&mut self, id: usize)
        requires
            old(self).wf(),
            id < old(self).total,
            old(self).active() > 0,
            forall|k: int| 0 <= k < old(self).idle@.len() ==> old(self).idle@[k] != id,
        ensures
            final(self).wf(),
            final(self).total == old(self).total,
            final(self).idle@ == old(self).idle@.push(id),
            final(self).active() == old(self).active() - 1,
    {
        self.idle.push(id);
    }
}

/// Never more running sessions than workers: the pool's concurrency bound.
pub proof fn lemma_pool_bound(p: WorkerPool)
    requires
        p.wf(),
    ensures
        p.active() <= p.total,
{
}

/// What one worker owns to serve connections: its own copies of the
/// catalog and of the backing path per catalog index, taken at startup and
/// never shared, so sessions need no locking.
pub struct WorkerContext {
    /// The catalog this worker serves.
    pub file_list: Vec<FileEntry>,
    /// The backing path of each catalog index.
    pub path_list: Vec<String>,
}

impl WorkerContext {
    /// A worker's private copies of the shared catalog and path list.
    pub fn new(files: &Vec<FileEntry>, paths: &Vec<String>) -> (ctx: WorkerContext)
        ensures
            cat_view(ctx.file_list@) == cat_view(files@),
            ctx.path_list@.len() == paths@.len(),
            forall|i: int| 0 <= i < paths@.len() ==> ctx.path_list@[i]@ == paths@[i]@,
    {
        let mut file_list: Vec<FileEntry> = Vec::new();
        let mut i: usize = 0;
        while i < files.len()
            invariant
                i <= files@.len(),
                file_list@.len() == i,
                cat_view(file_list@) == cat_view(files@).take(i as int),
            decreases files@.len() - i,
        {
            let name = vstd::slice::slice_to_vec(files[i].name.as_slice());
            proof {
                assert(name@ == files@[i as int].name@);
            }
            let size = files[i].size;
            file_list.push(FileEntry { name, size });
            proof {
                assert(file_list@[i as int]@ == files@[i as int]@);
                assert(cat_view(file_list@) =~~= cat_view(files@).take(i + 1));
            }
            i = i + 1;
        }
        proof {
            assert(cat_view(files@).take(files@.len() as int) =~= cat_view(files@));
        }
        let mut path_list: Vec<String> = Vec::new();
        let mut i: usize = 0;
        while i < paths.len()
            invariant
                i <= paths@.len(),
                path_list@.len() == i,
                forall|j: int| 0 <= j < i ==> path_list@[j]@ == paths@[j]@,
            decreases paths@.len() - i,
        {
            let p = paths[i].clone();
            path_list.push(p);
            i = i + 1;
        }
        WorkerContext { file_list, path_list }
    }
}

} // verus!
