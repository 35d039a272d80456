//! The per-connection session state machine.
//!
//! Both ends of a connection drive the same machine, mirrored: after the
//! catalog exchange, each round merges freshly read weights into the
//! connection's priority vector, then exchanges chunks under the weighted
//! schedule until every file activated for the round is done. The machine
//! decides everything; the caller only performs the I/O it asks for:
//! `Open` a file's backing resource (create for writing on the receiving
//! side, open for reading on the sending side), `Exchange` one chunk for
//! it, and report the chunk's length back. `RoundDone` ends the round.
//!
//! The machine keeps the protocol invariants: a slot's weight never
//! changes once nonzero, only files that still owe a terminal chunk hold
//! an open resource, and `to_download` counts exactly those files.

use vstd::prelude::*;

use crate::chunk::Chunk;
use crate::priority_list;
use crate::schedule::{count_active, count_active_upto, eligible, lemma_chunks_step,
    lemma_count_pos_exists, lemma_count_set_done, lemma_count_zero, lemma_measure_lt, measure_at,
    total_measure};

verus! {

/// `i` is the first eligible slot at or after `from`.
pub open spec fn first_eligible_from(pris: Seq<u8>, dones: Seq<bool>, from: int, i: int) -> bool {
    &&& from <= i < pris.len()
    &&& eligible(pris, dones, i)
    &&& forall|j: int| from <= j < i ==> !eligible(pris, dones, j)
}

/// Whether the scheduler stays on the cursor's file: it is eligible and
/// its quantum for this pass is not yet exhausted.
pub open spec fn keeps_slot(s: Session) -> bool {
    &&& s.cursor < s.n()
    &&& eligible(s.priorities@, s.done@, s.cursor as int)
    &&& s.served < s.priorities@[s.cursor as int]
}

/// The slot the scheduler serves next: the cursor's own file while its
/// quantum lasts, else the next eligible slot in index order, wrapping
/// past the catalog's end into a new pass.
pub open spec fn is_next_slot(s: Session, i: int) -> bool {
    let n = s.n() as int;
    if keeps_slot(s) {
        i == s.cursor
    } else if exists|j: int| s.cursor + 1 <= j < n && eligible(s.priorities@, s.done@, j) {
        first_eligible_from(s.priorities@, s.done@, s.cursor + 1, i)
    } else {
        first_eligible_from(s.priorities@, s.done@, 0, i)
    }
}

/// What the caller must do next.
#[derive(Debug)]
pub enum Action {
    /// Open the backing resource of this catalog index, then ask again.
    Open(usize),
    /// Exchange one chunk for this catalog index and report its length.
    Exchange(usize),
    /// Every file activated for this round is done.
    RoundDone,
}

/// One peer's session state: the adopted weights, per-file progress, and
/// the scheduler's position within the current pass.
pub struct Session {
    /// The connection's priority vector, merged monotonically each round.
    pub priorities: Vec<u8>,
    /// Which files have seen their terminal chunk.
    pub done: Vec<bool>,
    /// Which files hold an open backing resource.
    pub opened: Vec<bool>,
    /// Files with nonzero weight that still owe a terminal chunk.
    pub to_download: usize,
    /// The slot the scheduler is looking at within the current pass.
    pub cursor: usize,
    /// Chunks already exchanged for the cursor's file in this pass.
    pub served: u8,
}

impl Session {
    /// Number of catalog slots.
    pub open spec fn n(&self) -> nat {
        self.priorities@.len()
    }

    /// The session invariant: columns index-aligned; `to_download` counts
    /// exactly the eligible slots; only files once activated can be done;
    /// only eligible files hold an open resource; and the pass position is
    /// in range, with fewer chunks served than the cursor's weight allows.
    pub open spec fn wf(&self) -> bool {
        &&& self.done@.len() == self.n()
        &&& self.opened@.len() == self.n()
        &&& self.to_download == count_active(self.priorities@, self.done@)
        &&& forall|i: int| 0 <= i < self.n() && self.done@[i] ==> self.priorities@[i] != 0
        &&& forall|i: int|
            0 <= i < self.n() && self.opened@[i] ==> eligible(self.priorities@, self.done@, i)
        &&& self.cursor <= self.n()
        &&& (self.cursor < self.n() ==> self.served <= self.priorities@[self.cursor as int])
    }

    /// A fresh session for a catalog of `len` files: all weights paused,
    /// nothing done, nothing open.
    pub fn new(len: usize) -> (s: Session)
        ensures
            s.wf(),
            s.n() == len,
            s.priorities@ == Seq::new(len as nat, |i: int| 0u8),
            s.done@ == Seq::new(len as nat, |i: int| false),
            s.opened@ == Seq::new(len as nat, |i: int| false),
            s.to_download == 0,
    {
        let priorities = priority_list::new(len);
        let mut done: Vec<bool> = Vec::new();
        let mut opened: Vec<bool> = Vec::new();
        let mut i: usize = 0;
        while i < len
            invariant
                i <= len,
                done@ == Seq::new(i as nat, |j: int| false),
                opened@ == Seq::new(i as nat, |j: int| false),
            decreases len - i,
        {
            done.push(false);
            opened.push(false);
            proof {
                assert(done@ =~= Seq::new((i + 1) as nat, |j: int| false));
                assert(opened@ =~= Seq::new((i + 1) as nat, |j: int| false));
            }
            i = i + 1;
        }
        let s = Session { priorities, done, opened, to_download: 0, cursor: 0, served: 0 };
        proof {
            lemma_count_zero_priorities(s.priorities@, s.done@, len as int);
        }
        s
    }

    /// Begin a round: merge the freshly read weights into the vector — a
    /// slot adopts a weight only while paused, and keeps the first nonzero
    /// weight it was ever given — and count the newly activated files into
    /// `to_download`. The pass position restarts. Requires the previous
    /// round to have finished.
    pub fn begin_round(&mut self, desired: &[u8]) -> (activated: usize)
        requires
            old(self).wf(),
            old(self).to_download == 0,
            desired@.len() == old(self).n(),
        ensures
            final(self).wf(),
            final(self).n() == old(self).n(),
            final(self).priorities@ == priority_list::merged(old(self).priorities@, desired@),
            final(self).done@ == old(self).done@,
            final(self).opened@ == old(self).opened@,
            activated == priority_list::activations(old(self).priorities@, desired@),
            final(self).to_download == activated,
            final(self).cursor == 0 && final(self).served == 0,
    {
        let ghost pris0 = self.priorities@;
        let activated = priority_list::merge(&mut self.priorities, desired);
        proof {
            lemma_merge_active_count(pris0, desired@, self.done@, self.n() as int);
        }
        self.to_download = activated;
        self.cursor = 0;
        self.served = 0;
        proof {
            assert forall|i: int| 0 <= i < self.n() && self.opened@[i] implies eligible(
                self.priorities@,
                self.done@,
                i,
            ) by {
                assert(eligible(pris0, self.done@, i));
            }
        }
        activated
    }

    /// What to do next. While files of the round still owe chunks, the
    /// scheduler stays on the cursor's file while its quantum lasts, then
    /// walks the catalog in index order — wrapping at the end into the
    /// next pass — to the next file with nonzero weight that is not done.
    pub fn next_action(&mut self) -> (a: Action)
        requires
            old(self).wf(),
        ensures
            final(self).wf(),
            final(self).n() == old(self).n(),
            final(self).priorities@ == old(self).priorities@,
            final(self).done@ == old(self).done@,
            final(self).opened@ == old(self).opened@,
            final(self).to_download == old(self).to_download,
            old(self).to_download == 0 <==> a is RoundDone,
            a is RoundDone ==> final(self).cursor == old(self).cursor && final(self).served == old(
                self,
            ).served,
            a matches Action::Open(i) ==> {
                &&& i < final(self).n()
                &&& final(self).cursor == i
                &&& is_next_slot(*old(self), i as int)
                &&& eligible(final(self).priorities@, final(self).done@, i as int)
                &&& !final(self).opened@[i as int]
            },
            a matches Action::Exchange(i) ==> {
                &&& i < final(self).n()
                &&& final(self).cursor == i
                &&& is_next_slot(*old(self), i as int)
                &&& eligible(final(self).priorities@, final(self).done@, i as int)
                &&& final(self).opened@[i as int]
                &&& final(self).served < final(self).priorities@[i as int]
            },
            !(a is RoundDone) ==> final(self).served == (if keeps_slot(*old(self)) {
                old(self).served
            } else {
                0u8
            }),
    {
        if self.to_download == 0 {
            return Action::RoundDone;
        }
        let n = self.priorities.len();
        proof {
            lemma_count_pos_exists(self.priorities@, self.done@, n as int);
        }
        let c = self.cursor;
        let stay = c < n && self.priorities[c] != 0 && !self.done[c] && self.served
            < self.priorities[c];
        if !stay {
            let from = if c < n {
                c + 1
            } else {
                n
            };
            let next = match find_eligible(&self.priorities, &self.done, from) {
                Some(i) => {
                    proof {
                        assert(c + 1 <= (i as int) && (i as int) < n && eligible(
                            self.priorities@,
                            self.done@,
                            i as int,
                        ));
                        assert(first_eligible_from(self.priorities@, self.done@, c + 1, i as int));
                    }
                    i
                },
                None => {
                    proof {
                        assert(forall|j: int|
                            c + 1 <= j < n ==> !eligible(self.priorities@, self.done@, j));
                    }
                    match find_eligible(&self.priorities, &self.done, 0) {
                        Some(i) => {
                            proof {
                                assert(first_eligible_from(
                                    self.priorities@,
                                    self.done@,
                                    0,
                                    i as int,
                                ));
                            }
                            i
                        },
                        None => {
                            proof {
                                let j = choose|j: int|
                                    0 <= j < n && eligible(self.priorities@, self.done@, j);
                                assert(false);
                            }
                            vstd::pervasive::unreached()
                        },
                    }
                },
            };
            self.cursor = next;
            self.served = 0;
            proof {
                assert(is_next_slot(*old(self), next as int));
            }
        }
        let at = self.cursor;
        if !self.opened[at] {
            Action::Open(at)
        } else {
            Action::Exchange(at)
        }
    }

    /// The caller opened the backing resource for slot `i`.
    pub fn mark_opened(&mut self, i: usize)
        requires
            old(self).wf(),
            i < old(self).n(),
            eligible(old(self).priorities@, old(self).done@, i as int),
            !old(self).opened@[i as int],
        ensures
            final(self).wf(),
            final(self).opened@ == old(self).opened@.update(i as int, true),
            final(self).priorities@ == old(self).priorities@,
            final(self).done@ == old(self).done@,
            final(self).to_download == old(self).to_download,
            final(self).cursor == old(self).cursor,
            final(self).served == old(self).served,
    {
        self.opened.set(i, true);
    }

    /// Record the chunk just exchanged for the cursor's file and return
    /// whether it was terminal. A terminal chunk (shorter than 1024 bytes)
    /// ends the file: its resource is released, it stops counting toward
    /// the round, and the scheduler moves past it. A full chunk counts
    /// against the file's quantum for this pass.
    pub fn record_chunk(&mut self, i: usize, len: usize) -> (finished: bool)
        requires
            old(self).wf(),
            i < old(self).n(),
            i == old(self).cursor,
            eligible(old(self).priorities@, old(self).done@, i as int),
            old(self).opened@[i as int],
            old(self).served < old(self).priorities@[i as int],
            len <= 1024,
        ensures
            final(self).wf(),
            final(self).n() == old(self).n(),
            finished == (len < 1024),
            final(self).priorities@ == old(self).priorities@,
            len < 1024 ==> {
                &&& final(self).done@ == old(self).done@.update(i as int, true)
                &&& final(self).opened@ == old(self).opened@.update(i as int, false)
                &&& final(self).to_download == old(self).to_download - 1
                &&& final(self).cursor == i + 1
                &&& final(self).served == 0
            },
            len == 1024 ==> {
                &&& final(self).done@ == old(self).done@
                &&& final(self).opened@ == old(self).opened@
                &&& final(self).to_download == old(self).to_download
                &&& final(self).cursor == old(self).cursor
                &&& final(self).served == old(self).served + 1
            },
    {
        let n = self.priorities.len();
        if len < 1024 {
            proof {
                lemma_count_set_done(self.priorities@, self.done@, i as int, self.n() as int);
            }
            self.done.set(i, true);
            self.opened.set(i, false);
            self.to_download = self.to_download - 1;
            self.cursor = i + 1;
            self.served = 0;
            true
        } else {
            self.served = self.served + 1;
            false
        }
    }
}

/// The first slot at or past `start` with nonzero weight and not done.
fn find_eligible(pris: &Vec<u8>, done: &Vec<bool>, start: usize) -> (r: Option<usize>)
    requires
        pris@.len() == done@.len(),
        start <= pris@.len(),
    ensures
        r matches Some(i) ==> first_eligible_from(pris@, done@, start as int, i as int),
        r is None ==> forall|j: int| start <= j < pris@.len() ==> !eligible(pris@, done@, j),
{
    let n = pris.len();
    let mut c = start;
    while c < n
        invariant
            n == pris@.len() == done@.len(),
            start <= c <= n,
            forall|j: int| start <= j < c ==> !eligible(pris@, done@, j),
        decreases n - c,
    {
        if pris[c] != 0 && !done[c] {
            return Some(c);
        }
        c = c + 1;
    }
    None
}

/// Bytes each file still has to move in this round: its length minus what
/// the output already holds. Meaningful for the slots still eligible.
pub open spec fn round_rems(files: Seq<Vec<u8>>, outputs: Seq<Vec<u8>>) -> Seq<u64> {
    Seq::new(files.len(), |i: int| (files[i]@.len() - outputs[i]@.len()) as u64)
}

/// Eligible slots among the first `n` whose resource is not yet open.
pub open spec fn count_unopened_upto(
    pris: Seq<u8>,
    dones: Seq<bool>,
    opened: Seq<bool>,
    n: int,
) -> nat
    decreases n,
{
    if n <= 0 {
        0
    } else {
        count_unopened_upto(pris, dones, opened, n - 1) + (if eligible(pris, dones, n - 1)
            && !opened[n - 1] {
            1nat
        } else {
            0nat
        })
    }
}

proof fn lemma_count_unopened_agree(
    pris: Seq<u8>,
    d1: Seq<bool>,
    o1: Seq<bool>,
    d2: Seq<bool>,
    o2: Seq<bool>,
    n: int,
)
    requires
        forall|i: int|
            0 <= i < n ==> ((eligible(pris, d1, i) && !o1[i]) == (eligible(pris, d2, i)
                && !o2[i])),
    ensures
        count_unopened_upto(pris, d1, o1, n) == count_unopened_upto(pris, d2, o2, n),
    decreases n,
{
    if n > 0 {
        lemma_count_unopened_agree(pris, d1, o1, d2, o2, n - 1);
    }
}

/// Opening an eligible slot's resource lowers the unopened count by one.
proof fn lemma_count_unopened_open(
    pris: Seq<u8>,
    dones: Seq<bool>,
    opened: Seq<bool>,
    j: int,
    n: int,
)
    requires
        0 <= j < n <= opened.len(),
        eligible(pris, dones, j),
        !opened[j],
    ensures
        count_unopened_upto(pris, dones, opened, n) == count_unopened_upto(
            pris,
            dones,
            opened.update(j, true),
            n,
        ) + 1,
    decreases n,
{
    let upd = opened.update(j, true);
    if j == n - 1 {
        lemma_count_unopened_agree(pris, dones, opened, dones, upd, n - 1);
    } else {
        lemma_count_unopened_open(pris, dones, opened, j, n - 1);
    }
}

/// Run one round's transfer against in-memory data: chunks are taken from
/// `files` and delivered into `outputs` exactly as the machine asks, until
/// the round is done. Every file activated for the round comes out byte
/// for byte identical to its source; every other slot is left untouched;
/// and the function returns exactly when all activated files are done.
pub fn run_round(s: &mut Session, files: &Vec<Vec<u8>>, outputs: &mut Vec<Vec<u8>>)
    requires
        old(s).wf(),
        files@.len() == old(s).n(),
        old(outputs)@.len() == old(s).n(),
        forall|i: int| 0 <= i < old(s).n() ==> !old(s).opened@[i],
        forall|i: int|
            0 <= i < old(s).n() && eligible(old(s).priorities@, old(s).done@, i) ==> old(
                outputs,
            )@[i]@.len() == 0,
    ensures
        final(s).wf(),
        final(s).to_download == 0,
        final(s).priorities@ == old(s).priorities@,
        final(outputs)@.len() == old(s).n(),
        forall|i: int|
            0 <= i < old(s).n() && eligible(old(s).priorities@, old(s).done@, i) ==> {
                &&& final(s).done@[i]
                &&& final(outputs)@[i]@ == files@[i]@
            },
        forall|i: int|
            0 <= i < old(s).n() && !eligible(old(s).priorities@, old(s).done@, i) ==> {
                &&& final(outputs)@[i] == old(outputs)@[i]
                &&& final(s).done@[i] == old(s).done@[i]
            },
{
    let ghost pris = old(s).priorities@;
    let ghost done0 = old(s).done@;
    let ghost out0 = old(outputs)@;
    let n = files.len();
    loop
        invariant
            s.wf(),
            s.priorities@ == pris,
            s.n() == n,
            files@.len() == n,
            outputs@.len() == n,
            forall|i: int|
                0 <= i < n && !eligible(pris, done0, i) ==> outputs@[i] == out0[i] && s.done@[i]
                    == done0[i] && !s.opened@[i],
            forall|i: int|
                0 <= i < n && eligible(pris, done0, i) && s.done@[i] ==> outputs@[i]@
                    == files@[i]@,
            forall|i: int|
                0 <= i < n && eligible(pris, done0, i) && !s.done@[i] ==> {
                    &&& outputs@[i]@ == files@[i]@.take(outputs@[i]@.len() as int)
                    &&& outputs@[i]@.len() <= files@[i]@.len()
                },
        ensures
            s.to_download == 0,
            s.wf(),
            s.priorities@ == pris,
            outputs@.len() == n,
            forall|i: int|
                0 <= i < n && !eligible(pris, done0, i) ==> outputs@[i] == out0[i] && s.done@[i]
                    == done0[i],
            forall|i: int|
                0 <= i < n && eligible(pris, done0, i) && s.done@[i] ==> outputs@[i]@
                    == files@[i]@,
        decreases
            total_measure(round_rems(files@, outputs@), pris, s.done@),
            count_unopened_upto(pris, s.done@, s.opened@, n as int),
    {
        let ghost pre_out = outputs@;
        let ghost pre_done = s.done@;
        let ghost pre_opened = s.opened@;
        match s.next_action() {
            Action::RoundDone => {
                break ;
            },
            Action::Open(i) => {
                s.mark_opened(i);
                proof {
                    lemma_count_unopened_open(pris, s.done@, pre_opened, i as int, n as int);
                }
            },
            Action::Exchange(i) => {
                proof {
                    // a slot that was not eligible at round start is never
                    // opened, so this one was eligible from the start
                    assert(eligible(pris, done0, i as int));
                }
                let off = outputs[i].len();
                let flen = files[i].len();
                let chunk = Chunk::from_source(files[i].as_slice(), off);
                let mut out_i = outputs.remove(i);
                chunk.append_to(&mut out_i);
                outputs.insert(i, out_i);
                proof {
                    assert(outputs@ =~= pre_out.update(i as int, outputs@[i as int]));
                }
                s.record_chunk(i, chunk.len);
                proof {
                    let fl = files@[i as int]@;
                    assert(off == pre_out[i as int]@.len());
                    assert(off <= fl.len() && fl.len() == flen);
                    if chunk.len < 1024 {
                        assert(fl.len() - off < 1024);
                        assert(outputs@[i as int]@ =~= fl);
                    } else {
                        assert(fl.len() - off >= 1024);
                        assert(outputs@[i as int]@ =~= fl.take(off + 1024));
                    }
                    let rems1 = round_rems(files@, pre_out);
                    let rems2 = round_rems(files@, outputs@);
                    assert(rems1[i as int] == (flen - off) as u64);
                    assert(rems1[i as int] == flen - off);
                    assert(pris[i as int] != 0 && !pre_done[i as int]);
                    if chunk.len == 1024 {
                        lemma_chunks_step(rems1[i as int]);
                        assert(rems2[i as int] == (flen - (off + 1024)) as u64);
                        assert(measure_at(rems2[i as int], pris[i as int], s.done@[i as int])
                            < measure_at(rems1[i as int], pris[i as int], pre_done[i as int]));
                    } else {
                        assert(s.done@[i as int]);
                        assert(measure_at(rems2[i as int], pris[i as int], s.done@[i as int])
                            == 0);
                        assert(measure_at(rems1[i as int], pris[i as int], pre_done[i as int])
                            >= 1);
                    }
                    assert forall|k: int| 0 <= k < n implies measure_at(
                        rems2[k],
                        pris[k],
                        s.done@[k],
                    ) <= measure_at(rems1[k], pris[k], pre_done[k]) by {
                        if k != i {
                            assert(outputs@[k] == pre_out[k]);
                            assert(s.done@[k] == pre_done[k]);
                        }
                    }
                    lemma_measure_lt(
                        rems1,
                        pre_done,
                        rems2,
                        s.done@,
                        pris,
                        i as int,
                        n as int,
                    );
                }
            },
        }
    }
    proof {
        lemma_count_zero(pris, s.done@, n as int);
        assert forall|i: int| 0 <= i < n && eligible(pris, done0, i) implies s.done@[i]
            && outputs@[i]@ == files@[i]@ by {
            assert(!eligible(pris, s.done@, i));
        }
    }
}

/// An all-zero priority vector has no eligible slot.
proof fn lemma_count_zero_priorities(pris: Seq<u8>, dones: Seq<bool>, n: int)
    requires
        forall|i: int| 0 <= i < n ==> pris[i] == 0,
    ensures
        count_active_upto(pris, dones, n) == 0,
    decreases n,
{
    if n > 0 {
        lemma_count_zero_priorities(pris, dones, n - 1);
    }
}

/// When every active slot is done — the round over — merging raises the
/// eligible count by exactly the merge's activations: an activated slot
/// was paused, and a paused slot was never done.
proof fn lemma_merge_active_count(pris: Seq<u8>, other: Seq<u8>, dones: Seq<bool>, n: int)
    requires
        n <= pris.len(),
        n <= other.len(),
        pris.len() == other.len(),
        count_active_upto(pris, dones, n) == 0,
        forall|i: int| 0 <= i < n && dones[i] ==> pris[i] != 0,
    ensures
        count_active_upto(priority_list::merged(pris, other), dones, n)
            == priority_list::activations_upto(pris, other, n),
    decreases n,
{
    if n > 0 {
        lemma_merge_active_count(pris, other, dones, n - 1);
    }
}

} // verus!
