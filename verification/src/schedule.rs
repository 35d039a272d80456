//! The weighted round-robin transfer schedule.
//!
//! Each round, after the priority merge, both peers drive the same loop:
//! repeated passes over the catalog in index order, where a file with
//! nonzero weight and not yet done is served up to `priority` chunks
//! (its quantum) per pass, stopping early at a terminal chunk; passes
//! repeat until every file activated for the round is done. A file of
//! `size` bytes always takes `size / 1024 + 1` chunks: full chunks for
//! every complete 1024 bytes and one final short (possibly empty)
//! terminal chunk.
//!
//! This module is the transfer loop over an explicit model of the data
//! source: the bytes still to serve per file. It computes the exact
//! schedule — which file is served which chunk lengths in which pass —
//! and proves when each file finishes: a file with `c` chunks and weight
//! `p` is done exactly at the pass `f` with `(f-1)·p < c <= f·p`.

use vstd::arithmetic::div_mod::lemma_fundamental_div_mod;
use vstd::arithmetic::div_mod::lemma_hoist_over_denominator;
use vstd::arithmetic::div_mod::lemma_mod_bound;
use vstd::arithmetic::mul::lemma_mul_inequality;
use vstd::prelude::*;

verus! {

/// Chunks needed to transfer `size` bytes: one full chunk per complete
/// 1024 bytes, then one terminal chunk for the short (possibly empty) rest.
pub open spec fn chunks_of(size: u64) -> nat {
    size as nat / 1024 + 1
}

/// Whether slot `i` takes part in the transfer: nonzero weight, not done.
pub open spec fn eligible(pris: Seq<u8>, dones: Seq<bool>, i: int) -> bool {
    pris[i] != 0 && !dones[i]
}

/// Number of eligible slots among the first `n`.
pub open spec fn count_active_upto(pris: Seq<u8>, dones: Seq<bool>, n: int) -> nat
    decreases n,
{
    if n <= 0 {
        0
    } else {
        count_active_upto(pris, dones, n - 1) + (if eligible(pris, dones, n - 1) {
            1nat
        } else {
            0nat
        })
    }
}

/// Number of eligible slots.
pub open spec fn count_active(pris: Seq<u8>, dones: Seq<bool>) -> nat {
    count_active_upto(pris, dones, pris.len() as int)
}

/// The chunk lengths served to one file with `rem` bytes left when its
/// quantum is `quantum`: full chunks while a full chunk remains, the
/// terminal short chunk as soon as fewer than 1024 bytes remain.
pub open spec fn file_service(rem: u64, quantum: u8) -> Seq<u64>
    decreases quantum,
{
    if quantum == 0 {
        Seq::empty()
    } else if rem < 1024 {
        seq![rem]
    } else {
        seq![1024u64] + file_service((rem - 1024) as u64, (quantum - 1) as u8)
    }
}

/// Whether a pass with this quantum reaches the file's terminal chunk.
pub open spec fn file_finishes(rem: u64, quantum: u8) -> bool {
    chunks_of(rem) <= quantum
}

/// Bytes still to serve after one pass.
pub open spec fn file_rem_after(rem: u64, quantum: u8) -> u64 {
    if file_finishes(rem, quantum) {
        0u64
    } else {
        (rem - 1024 * (quantum as u64)) as u64
    }
}

/// Removing one full chunk removes exactly one of the file's chunks.
pub proof fn lemma_chunks_step(rem: u64)
    requires
        rem >= 1024,
    ensures
        chunks_of((rem - 1024) as u64) == chunks_of(rem) - 1,
{
    lemma_hoist_over_denominator(rem - 1024, 1, 1024nat);
}

/// A file that a pass does not finish holds at least a full quantum of
/// full chunks, and the pass takes exactly `quantum` chunks off it.
proof fn lemma_unfinished_pass(rem: u64, q: u8)
    requires
        q >= 1,
        !file_finishes(rem, q),
    ensures
        rem >= 1024 * (q as u64),
        chunks_of(file_rem_after(rem, q)) == chunks_of(rem) - q,
{
    lemma_fundamental_div_mod(rem as int, 1024);
    lemma_mul_inequality(q as int, rem as int / 1024, 1024);
    lemma_hoist_over_denominator(rem as int - 1024 * (q as int), q as int, 1024nat);
}

/// Serve one file for one pass: its chunk lengths, the bytes left after,
/// and whether the terminal chunk was reached.
pub fn serve_file(rem: u64, quantum: u8) -> (r: (Vec<u64>, u64, bool))
    ensures
        r.0@ == file_service(rem, quantum),
        r.1 == file_rem_after(rem, quantum),
        r.2 == file_finishes(rem, quantum),
    decreases quantum,
{
    if quantum == 0 {
        (Vec::new(), rem, false)
    } else if rem < 1024 {
        let mut v: Vec<u64> = Vec::new();
        v.push(rem);
        proof {
            assert(v@ =~= file_service(rem, quantum));
        }
        (v, 0u64, true)
    } else {
        let (tail, new_rem, fin) = serve_file(rem - 1024, quantum - 1);
        let mut v: Vec<u64> = Vec::new();
        v.push(1024);
        let mut tail = tail;
        v.append(&mut tail);
        proof {
            lemma_chunks_step(rem);
            assert(v@ =~= file_service(rem, quantum));
        }
        (v, new_rem, fin)
    }
}

/// Chunks a slot still owes the transfer: its chunk count while eligible.
pub open spec fn measure_at(rem: u64, pri: u8, done: bool) -> nat {
    if pri != 0 && !done {
        chunks_of(rem)
    } else {
        0
    }
}

/// Total chunks the first `n` slots still owe.
pub open spec fn measure_upto(rems: Seq<u64>, pris: Seq<u8>, dones: Seq<bool>, n: int) -> nat
    decreases n,
{
    if n <= 0 {
        0
    } else {
        measure_upto(rems, pris, dones, n - 1) + measure_at(rems[n - 1], pris[n - 1], dones[n - 1])
    }
}

/// Total chunks all slots still owe: the transfer loop's termination measure.
pub open spec fn total_measure(rems: Seq<u64>, pris: Seq<u8>, dones: Seq<bool>) -> nat {
    measure_upto(rems, pris, dones, rems.len() as int)
}

/// A pointwise bound on the per-slot owed chunks bounds their sum.
pub proof fn lemma_measure_le(
    r1: Seq<u64>,
    d1: Seq<bool>,
    r2: Seq<u64>,
    d2: Seq<bool>,
    pris: Seq<u8>,
    n: int,
)
    requires
        forall|i: int|
            0 <= i < n ==> measure_at(r2[i], pris[i], d2[i]) <= measure_at(r1[i], pris[i], d1[i]),
    ensures
        measure_upto(r2, pris, d2, n) <= measure_upto(r1, pris, d1, n),
    decreases n,
{
    if n > 0 {
        lemma_measure_le(r1, d1, r2, d2, pris, n - 1);
    }
}

/// A pointwise bound that is strict at one slot makes the sum strictly
/// smaller.
pub proof fn lemma_measure_lt(
    r1: Seq<u64>,
    d1: Seq<bool>,
    r2: Seq<u64>,
    d2: Seq<bool>,
    pris: Seq<u8>,
    j: int,
    n: int,
)
    requires
        0 <= j < n,
        forall|i: int|
            0 <= i < n ==> measure_at(r2[i], pris[i], d2[i]) <= measure_at(r1[i], pris[i], d1[i]),
        measure_at(r2[j], pris[j], d2[j]) < measure_at(r1[j], pris[j], d1[j]),
    ensures
        measure_upto(r2, pris, d2, n) < measure_upto(r1, pris, d1, n),
    decreases n,
{
    if j == n - 1 {
        lemma_measure_le(r1, d1, r2, d2, pris, n - 1);
    } else {
        lemma_measure_lt(r1, d1, r2, d2, pris, j, n - 1);
    }
}

/// The eligible count only reads the done flags below `n`.
pub proof fn lemma_count_agree(pris: Seq<u8>, d1: Seq<bool>, d2: Seq<bool>, n: int)
    requires
        forall|i: int| 0 <= i < n ==> d1[i] == d2[i],
    ensures
        count_active_upto(pris, d1, n) == count_active_upto(pris, d2, n),
    decreases n,
{
    if n > 0 {
        lemma_count_agree(pris, d1, d2, n - 1);
    }
}

/// Marking an eligible slot done lowers the eligible count by one.
pub proof fn lemma_count_set_done(pris: Seq<u8>, dones: Seq<bool>, j: int, n: int)
    requires
        0 <= j < n <= dones.len(),
        pris[j] != 0,
        !dones[j],
    ensures
        count_active_upto(pris, dones, n) == count_active_upto(pris, dones.update(j, true), n) + 1,
    decreases n,
{
    let upd = dones.update(j, true);
    if j == n - 1 {
        lemma_count_agree(pris, dones, upd, n - 1);
        assert(!eligible(pris, upd, n - 1));
        assert(eligible(pris, dones, n - 1));
    } else {
        lemma_count_set_done(pris, dones, j, n - 1);
        assert(eligible(pris, upd, n - 1) == eligible(pris, dones, n - 1));
    }
}

/// A positive eligible count names an eligible slot.
pub proof fn lemma_count_pos_exists(pris: Seq<u8>, dones: Seq<bool>, n: int)
    requires
        count_active_upto(pris, dones, n) > 0,
    ensures
        exists|i: int| 0 <= i < n && eligible(pris, dones, i),
    decreases n,
{
    if n > 0 && !eligible(pris, dones, n - 1) {
        lemma_count_pos_exists(pris, dones, n - 1);
    }
}

/// A zero eligible count leaves no eligible slot.
pub proof fn lemma_count_zero(pris: Seq<u8>, dones: Seq<bool>, n: int)
    requires
        count_active_upto(pris, dones, n) == 0,
    ensures
        forall|i: int| 0 <= i < n ==> !eligible(pris, dones, i),
    decreases n,
{
    if n > 0 {
        lemma_count_zero(pris, dones, n - 1);
    }
}

/// One chunk exchange of the schedule: file `idx` moved `len` bytes.
pub struct ServiceEvent {
    /// Catalog index of the file served.
    pub idx: usize,
    /// Payload length of the chunk exchanged.
    pub len: u64,
}

/// The mathematical events a vector of service events stands for.
pub open spec fn events_view(ev: Seq<ServiceEvent>) -> Seq<(int, u64)> {
    ev.map_values(|e: ServiceEvent| (e.idx as int, e.len))
}

/// Chunk lengths `lens` as events of the file at slot `idx`.
pub open spec fn tagged(idx: int, lens: Seq<u64>) -> Seq<(int, u64)> {
    lens.map_values(|l: u64| (idx, l))
}

/// The events of one pass over the first `n` slots, in index order.
pub open spec fn pass_events_upto(
    rems: Seq<u64>,
    pris: Seq<u8>,
    dones: Seq<bool>,
    n: int,
) -> Seq<(int, u64)>
    decreases n,
{
    if n <= 0 {
        Seq::empty()
    } else {
        pass_events_upto(rems, pris, dones, n - 1) + (if eligible(pris, dones, n - 1) {
            tagged(n - 1, file_service(rems[n - 1], pris[n - 1]))
        } else {
            Seq::empty()
        })
    }
}

/// One side's view of a round's transfer: bytes left per file, the weights
/// adopted for the connection, which files are done, and how many files
/// activated for this round still have to finish.
pub struct TransferState {
    /// Bytes still to move per catalog index.
    pub remaining: Vec<u64>,
    /// The adopted priority vector.
    pub priorities: Vec<u8>,
    /// Which files have seen their terminal chunk.
    pub done: Vec<bool>,
    /// Eligible files left: nonzero weight and not done.
    pub to_download: usize,
}

impl TransferState {
    /// The three per-file columns are index-aligned and `to_download`
    /// counts exactly the eligible slots.
    pub open spec fn wf(&self) -> bool {
        &&& self.remaining@.len() == self.priorities@.len()
        &&& self.done@.len() == self.priorities@.len()
        &&& self.to_download == count_active(self.priorities@, self.done@)
    }

    /// Number of catalog slots.
    pub open spec fn n(&self) -> nat {
        self.priorities@.len()
    }

    /// A round's starting state: nothing done yet.
    pub fn start(remaining: Vec<u64>, priorities: Vec<u8>) -> (st: TransferState)
        requires
            remaining@.len() == priorities@.len(),
        ensures
            st.wf(),
            st.remaining == remaining,
            st.priorities == priorities,
            st.done@ == Seq::new(priorities@.len(), |i: int| false),
            st.to_download == count_active(priorities@, Seq::new(priorities@.len(), |i: int| false)),
    {
        let n = priorities.len();
        let mut done: Vec<bool> = Vec::new();
        while done.len() < n
            invariant
                done@ == Seq::new(done.len() as nat, |i: int| false),
                done.len() <= n,
            decreases n - done.len(),
        {
            done.push(false);
            proof {
                assert(done@ =~= Seq::new(done.len() as nat, |i: int| false));
            }
        }
        proof {
            assert(done@ =~= Seq::new(n as nat, |i: int| false));
        }
        let mut cnt: usize = 0;
        let mut i: usize = 0;
        while i < n
            invariant
                n == priorities@.len() == done@.len(),
                done@ == Seq::new(n as nat, |j: int| false),
                i <= n,
                cnt == count_active_upto(priorities@, done@, i as int),
                cnt <= i,
            decreases n - i,
        {
            if priorities[i] != 0 {
                cnt = cnt + 1;
            }
            i = i + 1;
        }
        TransferState { remaining, priorities, done, to_download: cnt }
    }
}

/// One pass of the scheduler over all slots, in index order: each eligible
/// file is served up to its weight in chunks and marked done when its
/// terminal chunk comes. Returns the pass's events. The pass strictly
/// lowers the outstanding-chunk measure whenever any file was eligible.
pub fn run_pass(st: &mut TransferState) -> (events: Vec<ServiceEvent>)
    requires
        old(st).wf(),
    ensures
        final(st).wf(),
        final(st).priorities@ == old(st).priorities@,
        final(st).remaining@.len() == old(st).remaining@.len(),
        forall|i: int|
            0 <= i < old(st).n() ==> final(st).remaining@[i] == (if eligible(
                old(st).priorities@,
                old(st).done@,
                i,
            ) {
                file_rem_after(old(st).remaining@[i], old(st).priorities@[i])
            } else {
                old(st).remaining@[i]
            }),
        forall|i: int|
            0 <= i < old(st).n() ==> final(st).done@[i] == (old(st).done@[i] || (eligible(
                old(st).priorities@,
                old(st).done@,
                i,
            ) && file_finishes(old(st).remaining@[i], old(st).priorities@[i]))),
        events_view(events@) == pass_events_upto(
            old(st).remaining@,
            old(st).priorities@,
            old(st).done@,
            old(st).n() as int,
        ),
        total_measure(final(st).remaining@, final(st).priorities@, final(st).done@)
            <= total_measure(old(st).remaining@, old(st).priorities@, old(st).done@),
        old(st).to_download > 0 ==> total_measure(
            final(st).remaining@,
            final(st).priorities@,
            final(st).done@,
        ) < total_measure(old(st).remaining@, old(st).priorities@, old(st).done@),
{
    let ghost rem0 = old(st).remaining@;
    let ghost pris = old(st).priorities@;
    let ghost done0 = old(st).done@;
    let n = st.remaining.len();
    let mut events: Vec<ServiceEvent> = Vec::new();
    let mut idx: usize = 0;
    while idx < n
        invariant
            st.wf(),
            n == rem0.len() && n == pris.len() && n == done0.len(),
            st.priorities@ == pris,
            st.remaining@.len() == n && st.done@.len() == n,
            idx <= n,
            forall|i: int|
                idx <= i < n ==> st.remaining@[i] == rem0[i] && st.done@[i] == done0[i],
            forall|i: int|
                0 <= i < idx ==> st.remaining@[i] == (if eligible(pris, done0, i) {
                    file_rem_after(rem0[i], pris[i])
                } else {
                    rem0[i]
                }),
            forall|i: int|
                0 <= i < idx ==> st.done@[i] == (done0[i] || (eligible(pris, done0, i)
                    && file_finishes(rem0[i], pris[i]))),
            events_view(events@) == pass_events_upto(rem0, pris, done0, idx as int),
        decreases n - idx,
    {
        let pri = st.priorities[idx];
        let was_done = st.done[idx];
        if pri != 0 && !was_done {
            let rem = st.remaining[idx];
            let (chunks, new_rem, fin) = serve_file(rem, pri);
            let ghost evs0 = events@;
            let mut k: usize = 0;
            while k < chunks.len()
                invariant
                    k <= chunks@.len(),
                    chunks@ == file_service(rem, pri),
                    events_view(events@) == events_view(evs0) + tagged(
                        idx as int,
                        chunks@.take(k as int),
                    ),
                decreases chunks@.len() - k,
            {
                let ghost pre = events@;
                events.push(ServiceEvent { idx, len: chunks[k] });
                proof {
                    assert(events_view(events@) =~= events_view(pre).push(
                        (idx as int, chunks@[k as int]),
                    ));
                    assert(tagged(idx as int, chunks@.take(k + 1)) =~= tagged(
                        idx as int,
                        chunks@.take(k as int),
                    ).push((idx as int, chunks@[k as int])));
                    assert(events_view(evs0) + tagged(idx as int, chunks@.take(k + 1)) =~= (
                    events_view(evs0) + tagged(idx as int, chunks@.take(k as int))).push(
                        (idx as int, chunks@[k as int]),
                    ));
                }
                k = k + 1;
            }
            proof {
                assert(chunks@.take(chunks@.len() as int) =~= chunks@);
            }
            st.remaining.set(idx, new_rem);
            if fin {
                proof {
                    lemma_count_set_done(pris, st.done@, idx as int, n as int);
                }
                st.done.set(idx, true);
                st.to_download = st.to_download - 1;
            }
            proof {
                assert(events_view(events@) =~= pass_events_upto(rem0, pris, done0, idx + 1));
            }
        } else {
            proof {
                assert(events_view(events@) =~= pass_events_upto(rem0, pris, done0, idx + 1));
            }
        }
        idx = idx + 1;
    }
    proof {
        assert forall|i: int| 0 <= i < n implies measure_at(
            st.remaining@[i],
            pris[i],
            st.done@[i],
        ) <= measure_at(rem0[i], pris[i], done0[i]) by {
            if eligible(pris, done0, i) && !file_finishes(rem0[i], pris[i]) {
                lemma_unfinished_pass(rem0[i], pris[i]);
            }
        }
        lemma_measure_le(rem0, done0, st.remaining@, st.done@, pris, n as int);
        if old(st).to_download > 0 {
            lemma_count_pos_exists(pris, done0, n as int);
            let j = choose|j: int| 0 <= j < n && eligible(pris, done0, j);
            if !file_finishes(rem0[j], pris[j]) {
                lemma_unfinished_pass(rem0[j], pris[j]);
            }
            lemma_measure_lt(rem0, done0, st.remaining@, st.done@, pris, j, n as int);
        }
    }
    events
}

/// Bytes a file of `rem0` bytes with weight `pri` still holds after `k`
/// passes, while it is served every pass.
pub open spec fn rem_at(rem0: u64, pri: u8, k: nat) -> u64 {
    if chunks_of(rem0) <= k * (pri as nat) {
        0u64
    } else {
        (rem0 - 1024 * (k * (pri as nat))) as u64
    }
}

/// The remaining-bytes column after `k` passes over a round that started
/// with bytes `rem0`, weights `pris` and done flags `done0`.
pub open spec fn sim_rems(rem0: Seq<u64>, pris: Seq<u8>, done0: Seq<bool>, k: nat) -> Seq<u64> {
    Seq::new(
        rem0.len(),
        |i: int|
            if eligible(pris, done0, i) {
                rem_at(rem0[i], pris[i], k)
            } else {
                rem0[i]
            },
    )
}

/// The done column after `k` passes: a file is done once `k` quanta cover
/// its chunks.
pub open spec fn sim_dones(rem0: Seq<u64>, pris: Seq<u8>, done0: Seq<bool>, k: nat) -> Seq<bool> {
    Seq::new(
        done0.len(),
        |i: int|
            done0[i] || (eligible(pris, done0, i) && chunks_of(rem0[i]) <= k * (pris[i] as nat)),
    )
}

/// How one more pass moves a still-unfinished file along the closed form:
/// after `k` covered passes it holds exactly its chunks minus `k` quanta,
/// the next pass finishes it exactly when `k + 1` quanta cover it, and the
/// pass lands it on the closed form for `k + 1`.
proof fn lemma_sim_step(rem0: u64, pri: u8, k: nat)
    requires
        pri >= 1,
        chunks_of(rem0) > k * (pri as nat),
    ensures
        chunks_of(rem_at(rem0, pri, k)) == chunks_of(rem0) - k * (pri as nat),
        file_finishes(rem_at(rem0, pri, k), pri) <==> chunks_of(rem0) <= (k + 1) * (pri as nat),
        file_rem_after(rem_at(rem0, pri, k), pri) == rem_at(rem0, pri, k + 1),
{
    let p = pri as nat;
    let kp = k * p;
    assert((k + 1) * p == k * p + p) by (nonlinear_arith);
    lemma_fundamental_div_mod(rem0 as int, 1024);
    lemma_mod_bound(rem0 as int, 1024);
    lemma_mul_inequality(kp as int, rem0 as int / 1024, 1024);
    assert(rem0 as int - 1024 * (kp as int) >= 0);
    let r = rem_at(rem0, pri, k);
    lemma_hoist_over_denominator(rem0 as int - 1024 * (kp as int), kp as int, 1024nat);
    assert(chunks_of(r) == chunks_of(rem0) - kp);
    if !file_finishes(r, pri) {
        lemma_unfinished_pass(r, pri);
    }
}

/// Run the scheduler to the round's end: passes in index order until every
/// eligible file is done. Returns the events of each pass and, per file,
/// the pass in which it finished (`0` for files that never took part).
/// A file of `c` chunks with weight `p` finishes exactly in the pass `f`
/// with `(f-1)·p < c <= f·p`; pass `p` of the schedule serves each then
/// unfinished file its weight in chunks.
pub fn run_transfer(st: &mut TransferState) -> (r: (Vec<Vec<ServiceEvent>>, Vec<u64>))
    requires
        old(st).wf(),
    ensures
        final(st).wf(),
        final(st).to_download == 0,
        final(st).priorities@ == old(st).priorities@,
        final(st).remaining@.len() == old(st).remaining@.len(),
        final(st).done@.len() == old(st).done@.len(),
        r.1@.len() == old(st).n(),
        forall|i: int|
            0 <= i < old(st).n() && !eligible(old(st).priorities@, old(st).done@, i) ==> {
                &&& final(st).remaining@[i] == old(st).remaining@[i]
                &&& final(st).done@[i] == old(st).done@[i]
                &&& r.1@[i] == 0
            },
        forall|i: int|
            0 <= i < old(st).n() && eligible(old(st).priorities@, old(st).done@, i) ==> {
                &&& final(st).done@[i]
                &&& final(st).remaining@[i] == 0
                &&& r.1@[i] >= 1
                &&& (r.1@[i] - 1) * (old(st).priorities@[i] as int) < chunks_of(
                    old(st).remaining@[i],
                ) <= (r.1@[i] as int) * (old(st).priorities@[i] as int)
            },
        forall|p: int|
            0 <= p < r.0@.len() ==> events_view(#[trigger] r.0@[p]@) == pass_events_upto(
                sim_rems(old(st).remaining@, old(st).priorities@, old(st).done@, p as nat),
                old(st).priorities@,
                sim_dones(old(st).remaining@, old(st).priorities@, old(st).done@, p as nat),
                old(st).n() as int,
            ),
{
    let ghost rem0 = old(st).remaining@;
    let ghost pris = old(st).priorities@;
    let ghost done0 = old(st).done@;
    let n = st.remaining.len();
    let mut init_done: Vec<bool> = Vec::new();
    let mut t: usize = 0;
    while t < n
        invariant
            n == st.done@.len(),
            st.done@ == done0,
            t <= n,
            init_done@ == done0.take(t as int),
        decreases n - t,
    {
        init_done.push(st.done[t]);
        proof {
            assert(init_done@ =~= done0.take(t + 1));
        }
        t = t + 1;
    }
    proof {
        assert(init_done@ =~= done0);
        assert(st.remaining@ =~= sim_rems(rem0, pris, done0, 0));
        assert(st.done@ =~= sim_dones(rem0, pris, done0, 0));
    }
    let mut finish_pass: Vec<u64> = Vec::new();
    let mut t: usize = 0;
    while t < n
        invariant
            t <= n,
            finish_pass@ == Seq::new(t as nat, |i: int| 0u64),
        decreases n - t,
    {
        finish_pass.push(0);
        proof {
            assert(finish_pass@ =~= Seq::new((t + 1) as nat, |i: int| 0u64));
        }
        t = t + 1;
    }
    let mut passes: Vec<Vec<ServiceEvent>> = Vec::new();
    while st.to_download > 0
        invariant
            st.wf(),
            n == rem0.len() && n == pris.len() && n == done0.len(),
            st.priorities@ == pris,
            st.remaining@.len() == n && st.done@.len() == n,
            init_done@ == done0,
            finish_pass@.len() == n,
            st.remaining@ == sim_rems(rem0, pris, done0, passes@.len()),
            st.done@ == sim_dones(rem0, pris, done0, passes@.len()),
            forall|i: int|
                0 <= i < n && !eligible(pris, done0, i) ==> finish_pass@[i] == 0,
            forall|i: int|
                0 <= i < n && eligible(pris, done0, i) && chunks_of(rem0[i]) > passes@.len() * (
                pris[i] as nat) ==> finish_pass@[i] == 0,
            forall|i: int|
                0 <= i < n && eligible(pris, done0, i) && chunks_of(rem0[i]) <= passes@.len() * (
                pris[i] as nat) ==> {
                    &&& finish_pass@[i] >= 1
                    &&& (finish_pass@[i] - 1) * (pris[i] as int) < chunks_of(rem0[i]) <= (
                    finish_pass@[i] as int) * (pris[i] as int)
                },
            forall|p: int|
                0 <= p < passes@.len() ==> events_view(#[trigger] passes@[p]@) == pass_events_upto(
                    sim_rems(rem0, pris, done0, p as nat),
                    pris,
                    sim_dones(rem0, pris, done0, p as nat),
                    n as int,
                ),
        decreases total_measure(st.remaining@, st.priorities@, st.done@),
    {
        let ghost k = passes@.len();
        let ghost pre_rem = st.remaining@;
        let ghost pre_done = st.done@;
        let events = run_pass(st);
        proof {
            assert forall|i: int| 0 <= i < n implies st.remaining@[i] == sim_rems(
                rem0,
                pris,
                done0,
                k + 1,
            )[i] && st.done@[i] == sim_dones(rem0, pris, done0, k + 1)[i] by {
                if eligible(pris, done0, i) {
                    let p = pris[i] as nat;
                    if chunks_of(rem0[i]) <= k * p {
                        assert(pre_done[i]);
                        assert(k * p <= (k + 1) * p) by (nonlinear_arith);
                    } else {
                        assert(!pre_done[i]);
                        lemma_sim_step(rem0[i], pris[i], k);
                    }
                }
            }
            assert(st.remaining@ =~= sim_rems(rem0, pris, done0, k + 1));
            assert(st.done@ =~= sim_dones(rem0, pris, done0, k + 1));
        }
        passes.push(events);
        let pass_no = passes.len() as u64;
        let mut i: usize = 0;
        while i < n
            invariant
                n == pris.len() && n == rem0.len(),
                st.priorities@ == pris,
                st.done@.len() == n,
                init_done@ == done0,
                init_done@.len() == n,
                st.done@ == sim_dones(rem0, pris, done0, k + 1),
                pass_no == k + 1,
                finish_pass@.len() == n,
                i <= n,
                forall|j: int|
                    0 <= j < n && !eligible(pris, done0, j) ==> finish_pass@[j] == 0,
                forall|j: int|
                    0 <= j < n && eligible(pris, done0, j) && chunks_of(rem0[j]) > (
                    if j < i {
                        k + 1
                    } else {
                        k
                    }) * (pris[j] as nat) ==> finish_pass@[j] == 0,
                forall|j: int|
                    0 <= j < n && eligible(pris, done0, j) && chunks_of(rem0[j]) <= (
                    if j < i {
                        k + 1
                    } else {
                        k
                    }) * (pris[j] as nat) ==> {
                        &&& finish_pass@[j] >= 1
                        &&& (finish_pass@[j] - 1) * (pris[j] as int) < chunks_of(rem0[j]) <= (
                        finish_pass@[j] as int) * (pris[j] as int)
                    },
            decreases n - i,
        {
            proof {
                let p = pris[i as int] as nat;
                assert(k * p <= (k + 1) * p) by (nonlinear_arith);
            }
            if st.priorities[i] != 0 && !init_done[i] && st.done[i] {
                if finish_pass[i] == 0 {
                    finish_pass.set(i, pass_no);
                    proof {
                        let p = pris[i as int] as nat;
                        assert(chunks_of(rem0[i as int]) <= (k + 1) * p);
                        assert(chunks_of(rem0[i as int]) > k * p);
                        assert((pass_no - 1) * (p as int) == k * p && (pass_no as int) * (p as int)
                            == (k + 1) * p) by (nonlinear_arith)
                            requires
                                pass_no == k + 1,
                        ;
                    }
                }
            }
            i = i + 1;
        }
    }
    proof {
        let k = passes@.len();
        lemma_count_zero(pris, st.done@, n as int);
        assert forall|i: int|
            0 <= i < n && eligible(pris, done0, i) implies st.done@[i] && st.remaining@[i] == 0
            && chunks_of(rem0[i]) <= k * (pris[i] as nat) by {
            assert(!eligible(pris, st.done@, i));
        }
    }
    (passes, finish_pass)
}

/// Weighted completion order: for two files with the same chunk count,
/// the file with the larger weight finishes in no later a pass; with
/// weights 1 and 4 and at least two chunks, in a strictly earlier pass.
/// The finish passes are as `run_transfer` reports them: `(f-1)·p < c <= f·p`.
pub proof fn lemma_weighted_service(chunks: nat, p1: nat, p2: nat, f1: nat, f2: nat)
    requires
        chunks >= 1,
        1 <= p1 <= p2,
        f1 >= 1,
        f2 >= 1,
        (f1 - 1) * p1 < chunks <= f1 * p1,
        (f2 - 1) * p2 < chunks <= f2 * p2,
    ensures
        f2 <= f1,
        p1 == 1 && p2 == 4 && chunks >= 2 ==> f2 < f1,
{
    if f2 > f1 {
        lemma_mul_inequality(f1 as int, f2 as int - 1, p2 as int);
        lemma_mul_inequality(p1 as int, p2 as int, f1 as int);
        assert(f1 * p1 == p1 * f1 && f1 * p2 == p2 * f1) by (nonlinear_arith);
        assert(false);
    }
    if p1 == 1 && p2 == 4 && chunks >= 2 {
        assert(f1 * p1 == f1) by (nonlinear_arith)
            requires
                p1 == 1,
        ;
        assert((f1 - 1) * p1 == f1 - 1) by (nonlinear_arith)
            requires
                p1 == 1,
        ;
        assert(f1 == chunks);
        if f2 >= chunks {
            lemma_mul_inequality(chunks as int - 1, f2 as int - 1, p2 as int);
            assert((chunks - 1) * 4 >= chunks) by (nonlinear_arith)
                requires
                    chunks >= 2,
            ;
            assert((chunks as int - 1) * (p2 as int) == (chunks - 1) * 4);
            assert(false);
        }
    }
}

/// A pass serves an eligible file exactly its weight in chunks, unless it
/// reaches the file's terminal chunk first. Two files that are both still
/// unfinished therefore receive chunks in the exact ratio of their
/// weights, pass after pass.
pub proof fn lemma_pass_serves_quantum(rem: u64, q: u8)
    ensures
        file_service(rem, q).len() == if file_finishes(rem, q) {
            chunks_of(rem)
        } else {
            q as nat
        },
    decreases q,
{
    if q > 0 && rem >= 1024 {
        lemma_chunks_step(rem);
        lemma_pass_serves_quantum((rem - 1024) as u64, (q - 1) as u8);
    }
}

/// A zero-byte file still travels: as exactly one terminal chunk of
/// length zero, in the first pass that serves it.
pub proof fn lemma_zero_size_single_chunk(q: u8)
    requires
        q >= 1,
    ensures
        file_service(0u64, q) == seq![0u64],
        file_finishes(0u64, q),
{
    assert(file_service(0u64, q) =~= seq![0u64]);
}

} // verus!
