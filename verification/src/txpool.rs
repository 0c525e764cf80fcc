//! Ethereum-compatible transaction pool with (sender, nonce) indexing.
//!
//! Provides:
//! - Pending/queued separation based on nonce continuity
//! - Replacement-by-fee with configurable price increase threshold
//! - Nonce-continuous payload selection ordered by effective tip
use vstd::prelude::*;
use crate::primitives::{Address, B256};
use crate::tx::{
    TxFieldsView, VerifiedTx, VerifiedTxView, decode_and_recover, effective_gas_tip, effective_gas_tip_spec,
    spec_decode_2718, spec_recover_signer, tx_error_message, TxErrorView,
};
use crate::text::{decimal, u64_decimal};
use crate::pool_laws::{
    hashes_unique, law_collect_keeps_hashes_unique, law_commit_keeps_hashes_unique,
    law_submit_keeps_hashes_unique, pending_within, law_submit_within_pending_limit,
    law_collect_within_pending_limit, law_commit_within_pending_limit,
};

verus! {

/// Configuration for the EVM transaction pool.
#[derive(Clone, Copy, Debug)]
pub struct EvmTxPoolConfig {
    /// Maximum number of pending transactions per sender.
    pub max_pending_per_sender: usize,
    /// Maximum number of queued transactions per sender.
    pub max_queued_per_sender: usize,
    /// Minimum gas price increase percentage for replacement (default: 10%).
    pub replacement_bump_pct: u64,
    /// Chain base fee for tip calculation.
    pub base_fee: u64,
}

impl Default for EvmTxPoolConfig {
    fn default() -> (r: Self)
        ensures
            r.max_pending_per_sender == 64,
            r.max_queued_per_sender == 64,
            r.replacement_bump_pct == 10,
            r.base_fee == 1_000_000_000,
    {
        EvmTxPoolConfig {
            max_pending_per_sender: 64,
            max_queued_per_sender: 64,
            replacement_bump_pct: 10,
            base_fee: 1_000_000_000,
        }
    }
}

/// A transaction entry in the pool.
#[derive(Debug)]
pub struct PoolEntry {
    pub verified: VerifiedTx,
    pub effective_tip: u64,
}

/// Mathematical view of a pool entry.
pub struct EntryView {
    pub raw: Seq<u8>,
    pub fields: TxFieldsView,
    pub sender: Seq<u8>,
    pub hash: Seq<u8>,
    pub tip: u64,
}

impl View for PoolEntry {
    type V = EntryView;

    open spec fn view(&self) -> EntryView {
        EntryView {
            raw: self.verified.raw@,
            fields: self.verified.envelope@,
            sender: self.verified.sender@,
            hash: self.verified.tx_hash@,
            tip: self.effective_tip,
        }
    }
}

/// Per-sender transaction queue.
#[derive(Debug)]
pub struct SenderQueue {
    pub sender: Address,
    /// Pending: nonce-continuous from the current account nonce.
    pub pending: Vec<PoolEntry>,
    /// Queued: nonce gaps exist, waiting for predecessors.
    pub queued: Vec<PoolEntry>,
}

/// Mathematical view of a sender queue.
pub struct QueueView {
    pub sender: Seq<u8>,
    pub pending: Seq<EntryView>,
    pub queued: Seq<EntryView>,
}

pub open spec fn entries_view(v: Seq<PoolEntry>) -> Seq<EntryView> {
    Seq::new(v.len(), |i: int| v[i]@)
}

pub open spec fn queues_view(v: Seq<SenderQueue>) -> Seq<QueueView> {
    Seq::new(v.len(), |i: int| v[i]@)
}

impl View for SenderQueue {
    type V = QueueView;

    open spec fn view(&self) -> QueueView {
        QueueView {
            sender: self.sender@,
            pending: entries_view(self.pending@),
            queued: entries_view(self.queued@),
        }
    }
}

// ---------------------------------------------------------------------------
// Specification of the pool operations
// ---------------------------------------------------------------------------

/// The first index at or after `i` holding nonce `n`.
pub open spec fn find_nonce_from(v: Seq<EntryView>, n: u64, i: nat) -> Option<int>
    decreases v.len() - i,
{
    if i >= v.len() {
        None
    } else if v[i as int].fields.nonce == n {
        Some(i as int)
    } else {
        find_nonce_from(v, n, i + 1)
    }
}

/// The first index holding nonce `n`.
pub open spec fn find_nonce(v: Seq<EntryView>, n: u64) -> Option<int> {
    find_nonce_from(v, n, 0)
}

/// The first index at or after `i` of the queue of sender `a`.
pub open spec fn find_sender_from(qs: Seq<QueueView>, a: Seq<u8>, i: nat) -> Option<int>
    decreases qs.len() - i,
{
    if i >= qs.len() {
        None
    } else if qs[i as int].sender == a {
        Some(i as int)
    } else {
        find_sender_from(qs, a, i + 1)
    }
}

/// The index of the queue of sender `a`.
pub open spec fn find_sender(qs: Seq<QueueView>, a: Seq<u8>) -> Option<int> {
    find_sender_from(qs, a, 0)
}

/// Whether some entry of `v` has hash `h`.
pub open spec fn has_hash(v: Seq<EntryView>, h: Seq<u8>) -> bool {
    exists|i: int| 0 <= i < v.len() && v[i].hash == h
}

/// Whether some entry of the pool has hash `h`.
pub open spec fn pool_has_hash(qs: Seq<QueueView>, h: Seq<u8>) -> bool {
    exists|k: int|
        0 <= k < qs.len() && (has_hash(qs[k].pending, h) || has_hash(qs[k].queued, h))
}

/// The largest nonce of a non-empty sequence of entries.
pub open spec fn max_nonce(v: Seq<EntryView>) -> u64
    decreases v.len(),
{
    if v.len() <= 1 {
        v[0].fields.nonce
    } else {
        let m = max_nonce(v.drop_last());
        if m >= v.last().fields.nonce {
            m
        } else {
            v.last().fields.nonce
        }
    }
}

/// Moves queued entries with consecutive nonces, starting at `next`, to
/// the end of the pending sequence while it holds fewer than `limit`
/// entries (stopping after nonce `u64::MAX`).
pub open spec fn promote_spec(p: Seq<EntryView>, q: Seq<EntryView>, next: u64, limit: usize) -> (
    Seq<EntryView>,
    Seq<EntryView>,
)
    decreases q.len(),
{
    if p.len() >= limit {
        (p, q)
    } else {
        match find_nonce(q, next) {
            Some(i) => if 0 <= i < q.len() {
                if next == u64::MAX {
                    (p.push(q[i]), q.remove(i))
                } else {
                    promote_spec(p.push(q[i]), q.remove(i), (next + 1) as u64, limit)
                }
            } else {
                (p, q)
            },
            None => (p, q),
        }
    }
}

/// The first nonce that promotion looks for: one past the largest pending
/// nonce, or the account nonce when nothing is pending; none when the
/// largest pending nonce is `u64::MAX`.
pub open spec fn promote_start(p: Seq<EntryView>, current_nonce: u64) -> Option<u64> {
    if p.len() > 0 {
        if max_nonce(p) == u64::MAX {
            None
        } else {
            Some((max_nonce(p) + 1) as u64)
        }
    } else {
        Some(current_nonce)
    }
}

/// Promotes queued entries of a sender queue whose nonce gap is filled,
/// keeping at most `limit` pending entries.
pub open spec fn promote_queue(q: QueueView, current_nonce: u64, limit: usize) -> QueueView {
    match promote_start(q.pending, current_nonce) {
        Some(next) => {
            let (p, r) = promote_spec(q.pending, q.queued, next, limit);
            QueueView { sender: q.sender, pending: p, queued: r }
        },
        None => q,
    }
}

/// Why a submission was refused.
pub enum SubmitError {
    AlreadyKnown,
    NonceTooLow { tx_nonce: u64, current: u64 },
    Underpriced { min_tip: u64, got: u64 },
    QueueFull,
}

/// The message returned for a refused submission.
pub open spec fn submit_error_message(e: SubmitError) -> Seq<char> {
    match e {
        SubmitError::AlreadyKnown => "transaction already known"@,
        SubmitError::NonceTooLow { tx_nonce, current } => "nonce too low: tx nonce "@ + decimal(
            tx_nonce as nat,
        ) + " < current "@ + decimal(current as nat),
        SubmitError::Underpriced { min_tip, got } => "replacement underpriced: need tip >= "@
            + decimal(min_tip as nat) + ", got "@ + decimal(got as nat),
        SubmitError::QueueFull => "sender queue full"@,
    }
}

/// `x * y`, saturating at `u64::MAX`.
pub open spec fn saturating_mul_u64(x: u64, y: u64) -> u64 {
    if x * y <= u64::MAX {
        (x * y) as u64
    } else {
        u64::MAX
    }
}

/// The smallest tip that may replace an entry with tip `old_tip`.
pub open spec fn replacement_min_tip(old_tip: u64, bump_pct: u64) -> u64 {
    (saturating_mul_u64(old_tip, (100 + bump_pct) as u64) / 100) as u64
}

/// `x - 1`, saturating at zero.
pub open spec fn saturating_dec(x: u64) -> u64 {
    if x == 0 {
        0
    } else {
        (x - 1) as u64
    }
}

/// An empty queue for sender `a`.
pub open spec fn empty_queue(a: Seq<u8>) -> QueueView {
    QueueView { sender: a, pending: Seq::empty(), queued: Seq::empty() }
}

/// The queue of `e`'s sender, or an empty one.
pub open spec fn queue_of(qs: Seq<QueueView>, a: Seq<u8>) -> QueueView {
    match find_sender(qs, a) {
        Some(k) => qs[k],
        None => empty_queue(a),
    }
}

/// Whether an entry with nonce `n` goes to the pending side of queue `q`.
pub open spec fn goes_pending(q: QueueView, n: u64, current_nonce: u64) -> bool {
    n == current_nonce || find_nonce(q.pending, saturating_dec(n)) is Some
}

/// Stores the updated side of the queue, promotes, and puts the queue back.
pub open spec fn place_queue(
    qs: Seq<QueueView>,
    q: QueueView,
    is_pending: bool,
    side: Seq<EntryView>,
    current_nonce: u64,
    limit: usize,
) -> Seq<QueueView> {
    let q1 = if is_pending {
        QueueView { pending: side, ..q }
    } else {
        QueueView { queued: side, ..q }
    };
    put_queue(qs, promote_queue(q1, current_nonce, limit))
}

/// Replaces the queue of `q`'s sender, or appends `q` when there is none.
pub open spec fn put_queue(qs: Seq<QueueView>, q: QueueView) -> Seq<QueueView> {
    match find_sender(qs, q.sender) {
        Some(k) => qs.update(k, q),
        None => qs.push(q),
    }
}

/// The pool after submitting entry `e` when the sender's account nonce is
/// `current_nonce`, and the outcome (the tx hash, or why it was refused).
pub open spec fn submit_spec(
    qs: Seq<QueueView>,
    cfg: EvmTxPoolConfig,
    e: EntryView,
    current_nonce: u64,
) -> (Seq<QueueView>, Result<Seq<u8>, SubmitError>) {
    let n = e.fields.nonce;
    if pool_has_hash(qs, e.hash) {
        (qs, Err(SubmitError::AlreadyKnown))
    } else if n < current_nonce {
        (qs, Err(SubmitError::NonceTooLow { tx_nonce: n, current: current_nonce }))
    } else {
        let q = queue_of(qs, e.sender);
        let is_pending = goes_pending(q, n, current_nonce);
        let side = if is_pending {
            q.pending
        } else {
            q.queued
        };
        let limit = if is_pending {
            cfg.max_pending_per_sender
        } else {
            cfg.max_queued_per_sender
        };
        match find_nonce(side, n) {
            Some(i) => {
                let min_tip = replacement_min_tip(side[i].tip, cfg.replacement_bump_pct);
                if e.tip < min_tip {
                    (qs, Err(SubmitError::Underpriced { min_tip, got: e.tip }))
                } else {
                    (
                        place_queue(
                            qs,
                            q,
                            is_pending,
                            side.update(i, e),
                            current_nonce,
                            cfg.max_pending_per_sender,
                        ),
                        Ok(e.hash),
                    )
                }
            },
            None => if side.len() >= limit {
                (qs, Err(SubmitError::QueueFull))
            } else {
                (
                    place_queue(
                        qs,
                        q,
                        is_pending,
                        side.push(e),
                        current_nonce,
                        cfg.max_pending_per_sender,
                    ),
                    Ok(e.hash),
                )
            },
        }
    }
}

/// The entry that the pool builds for a decoded transaction.
pub open spec fn entry_of(
    raw: Seq<u8>,
    fields: TxFieldsView,
    sender: Seq<u8>,
    base_fee: u64,
) -> EntryView {
    EntryView {
        raw,
        fields,
        sender,
        hash: fields.tx_hash,
        tip: effective_gas_tip_spec(fields, base_fee),
    }
}

/// Whether the pool `qs` and result `r` are what the outcome `o` of
/// `submit_spec` describes.
pub open spec fn submit_outcome_matches(
    o: (Seq<QueueView>, Result<Seq<u8>, SubmitError>),
    qs: Seq<QueueView>,
    r: Result<B256, String>,
) -> bool {
    &&& qs == o.0
    &&& match o.1 {
        Ok(h) => r matches Ok(x) && x@ == h,
        Err(e) => r matches Err(m) && m@ == submit_error_message(e),
    }
}

/// The entry that the pool builds for a verified transaction.
pub open spec fn submitted_entry(v: VerifiedTxView, base_fee: u64) -> EntryView {
    EntryView {
        raw: v.raw,
        fields: v.fields,
        sender: v.sender,
        hash: v.hash,
        tip: effective_gas_tip_spec(v.fields, base_fee),
    }
}

/// Putting back a well-formed queue keeps the pool well-formed.
pub proof fn lemma_put_queue_wf(qs: Seq<QueueView>, q2: QueueView)
    requires
        pool_wf(qs),
        entries_wf(q2.pending, q2.sender),
        entries_wf(q2.queued, q2.sender),
    ensures
        pool_wf(put_queue(qs, q2)),
{
    lemma_find_sender(qs, q2.sender);
    let r = put_queue(qs, q2);
    match find_sender(qs, q2.sender) {
        Some(k) => {
            assert forall|a: int, b: int|
                0 <= a < r.len() && 0 <= b < r.len() && a != b implies r[a].sender
                != r[b].sender by {
                assert(r[a].sender == qs[a].sender);
                assert(r[b].sender == qs[b].sender);
            }
            assert forall|a: int| 0 <= a < r.len() implies {
                &&& entries_wf(#[trigger] r[a].pending, r[a].sender)
                &&& entries_wf(r[a].queued, r[a].sender)
            } by {
                if a != k {
                    assert(r[a] == qs[a]);
                }
            }
        },
        None => {
            assert forall|a: int, b: int|
                0 <= a < r.len() && 0 <= b < r.len() && a != b implies r[a].sender
                != r[b].sender by {
                if a < qs.len() {
                    assert(r[a] == qs[a]);
                }
                if b < qs.len() {
                    assert(r[b] == qs[b]);
                }
            }
            assert forall|a: int| 0 <= a < r.len() implies {
                &&& entries_wf(#[trigger] r[a].pending, r[a].sender)
                &&& entries_wf(r[a].queued, r[a].sender)
            } by {
                if a < qs.len() {
                    assert(r[a] == qs[a]);
                }
            }
        },
    }
}

/// A payload candidate: (queue index, entry index in its pending side, tip).
pub type Candidate = (usize, usize, u64);

/// The index of the first entry with the smallest nonce among the first `j`.
pub open spec fn min_nonce_index_upto(v: Seq<EntryView>, j: nat) -> int
    decreases j,
{
    if j <= 1 {
        0
    } else {
        let m = min_nonce_index_upto(v, (j - 1) as nat);
        if v[j - 1].fields.nonce < v[m].fields.nonce {
            j - 1
        } else {
            m
        }
    }
}

/// The index of the first entry with the smallest nonce.
pub open spec fn min_nonce_index(v: Seq<EntryView>) -> int {
    min_nonce_index_upto(v, v.len())
}

/// The lowest-nonce pending entry of each of the first `k` queues that has
/// one, in queue order.
pub open spec fn candidates_upto(qs: Seq<QueueView>, k: nat) -> Seq<Candidate>
    decreases k,
{
    if k == 0 {
        Seq::empty()
    } else {
        let c = candidates_upto(qs, (k - 1) as nat);
        let q = qs[k - 1];
        if q.pending.len() == 0 {
            c
        } else {
            let i = min_nonce_index(q.pending);
            c.push(((k - 1) as usize, i as usize, q.pending[i].tip))
        }
    }
}

/// The first position at or after `j` whose tip is below `tip`.
pub open spec fn insert_pos_from(s: Seq<Candidate>, tip: u64, j: nat) -> nat
    decreases s.len() - j,
{
    if j >= s.len() {
        s.len()
    } else if s[j as int].2 < tip {
        j
    } else {
        insert_pos_from(s, tip, j + 1)
    }
}

/// Inserts `c` after every element whose tip is at least `c`'s.
pub open spec fn stable_insert(s: Seq<Candidate>, c: Candidate) -> Seq<Candidate> {
    s.insert(insert_pos_from(s, c.2, 0) as int, c)
}

/// The stable sort of `c` by tip, highest first.
pub open spec fn sort_by_tip(c: Seq<Candidate>) -> Seq<Candidate>
    decreases c.len(),
{
    if c.len() == 0 {
        c
    } else {
        stable_insert(sort_by_tip(c.drop_last()), c.last())
    }
}

/// The pending entry a candidate names.
pub open spec fn candidate_entry(qs: Seq<QueueView>, c: Candidate) -> EntryView {
    qs[c.0 as int].pending[c.1 as int]
}

/// Greedy selection over the sorted candidates from position `j`: stop at
/// the first one that would exceed `max_bytes` (with its 4-byte length
/// prefix); skip one that would exceed `max_gas` when `max_gas > 0`.
pub open spec fn select_from(
    qs: Seq<QueueView>,
    sorted: Seq<Candidate>,
    j: nat,
    max_bytes: usize,
    max_gas: u64,
    used_bytes: nat,
    used_gas: nat,
) -> Seq<Candidate>
    decreases sorted.len() - j,
{
    if j >= sorted.len() {
        Seq::empty()
    } else {
        let c = sorted[j as int];
        let e = candidate_entry(qs, c);
        let gas = e.fields.gas_limit;
        if used_bytes + 4 + e.raw.len() > max_bytes {
            Seq::empty()
        } else if max_gas > 0 && used_gas + gas > max_gas {
            select_from(qs, sorted, j + 1, max_bytes, max_gas, used_bytes, used_gas)
        } else {
            seq![c] + select_from(
                qs,
                sorted,
                j + 1,
                max_bytes,
                max_gas,
                used_bytes + 4 + e.raw.len(),
                if max_gas > 0 {
                    (used_gas + gas) as nat
                } else {
                    used_gas
                },
            )
        }
    }
}

/// The candidates that a payload of at most `max_bytes` bytes and (when
/// positive) `max_gas` gas includes.
pub open spec fn selected(qs: Seq<QueueView>, max_bytes: usize, max_gas: u64) -> Seq<Candidate> {
    select_from(qs, sort_by_tip(candidates_upto(qs, qs.len())), 0, max_bytes, max_gas, 0, 0)
}

/// The 4 little-endian bytes of a 32-bit length.
pub open spec fn le32(x: u32) -> Seq<u8> {
    seq![x as u8, (x >> 8u32) as u8, (x >> 16u32) as u8, (x >> 24u32) as u8]
}

/// The length-prefixed concatenation of the raw bytes of the selected
/// entries.
pub open spec fn payload_bytes(qs: Seq<QueueView>, sel: Seq<Candidate>) -> Seq<u8>
    decreases sel.len(),
{
    if sel.len() == 0 {
        Seq::empty()
    } else {
        let e = candidate_entry(qs, sel.last());
        payload_bytes(qs, sel.drop_last()) + le32(e.raw.len() as u32) + e.raw
    }
}

/// Removes the selected entries from their pending sides, in order.
pub open spec fn remove_selected(qs: Seq<QueueView>, sel: Seq<Candidate>) -> Seq<QueueView>
    decreases sel.len(),
{
    if sel.len() == 0 {
        qs
    } else {
        let c = sel.last();
        let r = remove_selected(qs, sel.drop_last());
        if c.0 < r.len() && c.1 < r[c.0 as int].pending.len() {
            r.update(
                c.0 as int,
                QueueView {
                    pending: r[c.0 as int].pending.remove(c.1 as int),
                    ..r[c.0 as int]
                },
            )
        } else {
            r
        }
    }
}

/// The entries of `v` whose nonce is at least `n`, in order.
pub open spec fn keep_from_nonce(v: Seq<EntryView>, n: u64) -> Seq<EntryView>
    decreases v.len(),
{
    if v.len() == 0 {
        v
    } else {
        let r = keep_from_nonce(v.drop_last(), n);
        if v.last().fields.nonce >= n {
            r.push(v.last())
        } else {
            r
        }
    }
}

/// A sender queue after its account nonce became `n`: stale entries
/// (nonce below `n`) are dropped and queued entries are promoted, keeping
/// at most `limit` pending entries.
pub open spec fn commit_queue(q: QueueView, n: u64, limit: usize) -> QueueView {
    promote_queue(
        QueueView {
            sender: q.sender,
            pending: keep_from_nonce(q.pending, n),
            queued: keep_from_nonce(q.queued, n),
        },
        n,
        limit,
    )
}

/// Whether a queue holds nothing.
pub open spec fn queue_empty(q: QueueView) -> bool {
    q.pending.len() == 0 && q.queued.len() == 0
}

/// The pool after a commit, where `ns[k]` is the account nonce of the sender
/// of queue `k`: each queue is committed (with at most `limit` pending
/// entries) and queues left empty are removed.
pub open spec fn commit_all(qs: Seq<QueueView>, ns: Seq<u64>, limit: usize) -> Seq<QueueView>
    decreases qs.len(),
{
    if qs.len() == 0 || ns.len() == 0 {
        Seq::empty()
    } else {
        let r = commit_all(qs.drop_last(), ns.drop_last(), limit);
        let c = commit_queue(qs.last(), ns.last(), limit);
        if queue_empty(c) {
            r
        } else {
            r.push(c)
        }
    }
}

/// Total number of pending entries.
pub open spec fn total_pending(qs: Seq<QueueView>) -> nat
    decreases qs.len(),
{
    if qs.len() == 0 {
        0
    } else {
        total_pending(qs.drop_last()) + qs.last().pending.len()
    }
}

/// Total number of queued entries.
pub open spec fn total_queued(qs: Seq<QueueView>) -> nat
    decreases qs.len(),
{
    if qs.len() == 0 {
        0
    } else {
        total_queued(qs.drop_last()) + qs.last().queued.len()
    }
}

/// `min(x, usize::MAX)`.
pub open spec fn cap_usize(x: nat) -> usize {
    if x <= usize::MAX {
        x as usize
    } else {
        usize::MAX
    }
}

// ---------------------------------------------------------------------------
// Well-formedness
// ---------------------------------------------------------------------------

/// Nonces in `v` are distinct.
pub open spec fn nonces_distinct(v: Seq<EntryView>) -> bool {
    forall|i: int, j: int|
        0 <= i < v.len() && 0 <= j < v.len() && i != j ==> v[i].fields.nonce != v[j].fields.nonce
}

/// Nonces are distinct and every entry belongs to the queue's sender.
pub open spec fn entries_wf(v: Seq<EntryView>, sender: Seq<u8>) -> bool {
    &&& nonces_distinct(v)
    &&& forall|i: int| 0 <= i < v.len() ==> #[trigger] v[i].sender == sender
}

/// The invariant of the pool's contents.
pub open spec fn pool_wf(qs: Seq<QueueView>) -> bool {
    &&& forall|k: int, l: int|
        0 <= k < qs.len() && 0 <= l < qs.len() && k != l ==> qs[k].sender != qs[l].sender
    &&& forall|k: int|
        0 <= k < qs.len() ==> {
            &&& entries_wf(#[trigger] qs[k].pending, qs[k].sender)
            &&& entries_wf(qs[k].queued, qs[k].sender)
        }
}

// ---------------------------------------------------------------------------
// Lemmas about the specification
// ---------------------------------------------------------------------------

pub proof fn lemma_find_nonce_from(v: Seq<EntryView>, n: u64, i: nat)
    ensures
        match find_nonce_from(v, n, i) {
            Some(j) => i <= j < v.len() && v[j].fields.nonce == n && forall|m: int|
                i <= m < j ==> v[m].fields.nonce != n,
            None => forall|m: int| i <= m < v.len() ==> v[m].fields.nonce != n,
        },
    decreases v.len() - i,
{
    if i < v.len() && v[i as int].fields.nonce != n {
        lemma_find_nonce_from(v, n, i + 1);
    }
}

pub proof fn lemma_find_nonce(v: Seq<EntryView>, n: u64)
    ensures
        match find_nonce(v, n) {
            Some(j) => 0 <= j < v.len() && v[j].fields.nonce == n && forall|m: int|
                0 <= m < j ==> v[m].fields.nonce != n,
            None => forall|m: int| 0 <= m < v.len() ==> v[m].fields.nonce != n,
        },
{
    lemma_find_nonce_from(v, n, 0);
}

pub proof fn lemma_find_sender_from(qs: Seq<QueueView>, a: Seq<u8>, i: nat)
    ensures
        match find_sender_from(qs, a, i) {
            Some(j) => i <= j < qs.len() && qs[j].sender == a && forall|m: int|
                i <= m < j ==> qs[m].sender != a,
            None => forall|m: int| i <= m < qs.len() ==> qs[m].sender != a,
        },
    decreases qs.len() - i,
{
    if i < qs.len() && qs[i as int].sender != a {
        lemma_find_sender_from(qs, a, i + 1);
    }
}

pub proof fn lemma_find_sender(qs: Seq<QueueView>, a: Seq<u8>)
    ensures
        match find_sender(qs, a) {
            Some(j) => 0 <= j < qs.len() && qs[j].sender == a && forall|m: int|
                0 <= m < j ==> qs[m].sender != a,
            None => forall|m: int| 0 <= m < qs.len() ==> qs[m].sender != a,
        },
{
    lemma_find_sender_from(qs, a, 0);
}

proof fn lemma_entries_view_push(v: Seq<PoolEntry>, e: PoolEntry)
    ensures
        entries_view(v.push(e)) == entries_view(v).push(e@),
{
    assert(entries_view(v.push(e)) =~= entries_view(v).push(e@));
}

proof fn lemma_entries_view_update(v: Seq<PoolEntry>, i: int, e: PoolEntry)
    requires
        0 <= i < v.len(),
    ensures
        entries_view(v.update(i, e)) == entries_view(v).update(i, e@),
{
    assert(entries_view(v.update(i, e)) =~= entries_view(v).update(i, e@));
}

proof fn lemma_entries_view_remove(v: Seq<PoolEntry>, i: int)
    requires
        0 <= i < v.len(),
    ensures
        entries_view(v.remove(i)) == entries_view(v).remove(i),
{
    assert(entries_view(v.remove(i)) =~= entries_view(v).remove(i));
}

pub proof fn lemma_max_nonce(v: Seq<EntryView>)
    requires
        v.len() > 0,
    ensures
        forall|i: int| 0 <= i < v.len() ==> v[i].fields.nonce <= max_nonce(v),
    decreases v.len(),
{
    if v.len() > 1 {
        lemma_max_nonce(v.drop_last());
        assert forall|i: int| 0 <= i < v.len() implies v[i].fields.nonce <= max_nonce(v) by {
            if i < v.len() - 1 {
                assert(v[i] == v.drop_last()[i]);
            }
        }
    }
}

pub proof fn lemma_remove_wf(v: Seq<EntryView>, i: int, sender: Seq<u8>)
    requires
        entries_wf(v, sender),
        0 <= i < v.len(),
    ensures
        entries_wf(v.remove(i), sender),
{
    let r = v.remove(i);
    assert forall|a: int, b: int|
        0 <= a < r.len() && 0 <= b < r.len() && a != b implies r[a].fields.nonce
        != r[b].fields.nonce by {
        let a2 = if a < i {
            a
        } else {
            a + 1
        };
        let b2 = if b < i {
            b
        } else {
            b + 1
        };
        assert(r[a] == v[a2]);
        assert(r[b] == v[b2]);
    }
    assert forall|a: int| 0 <= a < r.len() implies #[trigger] r[a].sender == sender by {
        if a < i {
            assert(r[a] == v[a]);
        } else {
            assert(r[a] == v[a + 1]);
        }
    }
}

pub proof fn lemma_promote_wf(
    p: Seq<EntryView>,
    q: Seq<EntryView>,
    next: u64,
    sender: Seq<u8>,
    limit: usize,
)
    requires
        entries_wf(p, sender),
        entries_wf(q, sender),
        forall|i: int| 0 <= i < p.len() ==> p[i].fields.nonce < next,
    ensures
        entries_wf(promote_spec(p, q, next, limit).0, sender),
        entries_wf(promote_spec(p, q, next, limit).1, sender),
        promote_spec(p, q, next, limit).0.len() + promote_spec(p, q, next, limit).1.len() == p.len()
            + q.len(),
    decreases q.len(),
{
    if p.len() >= limit {
        return ;
    }
    lemma_find_nonce(q, next);
    match find_nonce(q, next) {
        Some(i) => {
            let p2 = p.push(q[i]);
            let q2 = q.remove(i);
            assert forall|a: int, b: int|
                0 <= a < p2.len() && 0 <= b < p2.len() && a != b implies p2[a].fields.nonce
                != p2[b].fields.nonce by {
                if a < p.len() && b < p.len() {
                    assert(p2[a] == p[a] && p2[b] == p[b]);
                }
            }
            assert forall|a: int| 0 <= a < p2.len() implies #[trigger] p2[a].sender == sender by {
                if a < p.len() {
                    assert(p2[a] == p[a]);
                }
            }
            lemma_remove_wf(q, i, sender);
            if next < u64::MAX {
                lemma_promote_wf(p2, q2, (next + 1) as u64, sender, limit);
            }
        },
        None => {},
    }
}

pub proof fn lemma_keep_wf(v: Seq<EntryView>, n: u64, sender: Seq<u8>)
    requires
        entries_wf(v, sender),
    ensures
        entries_wf(keep_from_nonce(v, n), sender),
        forall|i: int|
            0 <= i < keep_from_nonce(v, n).len() ==> exists|j: int|
                0 <= j < v.len() && #[trigger] keep_from_nonce(v, n)[i] == v[j],
    decreases v.len(),
{
    if v.len() > 0 {
        let v0 = v.drop_last();
        assert forall|a: int, b: int|
            0 <= a < v0.len() && 0 <= b < v0.len() && a != b implies v0[a].fields.nonce
            != v0[b].fields.nonce by {
            assert(v0[a] == v[a] && v0[b] == v[b]);
        }
        assert forall|a: int| 0 <= a < v0.len() implies #[trigger] v0[a].sender == sender by {
            assert(v0[a] == v[a]);
        }
        lemma_keep_wf(v0, n, sender);
        let r0 = keep_from_nonce(v0, n);
        let r = keep_from_nonce(v, n);
        assert forall|i: int| 0 <= i < r.len() implies exists|j: int|
            0 <= j < v.len() && #[trigger] r[i] == v[j] by {
            if i < r0.len() {
                let j = choose|j: int| 0 <= j < v0.len() && r0[i] == v0[j];
                assert(r[i] == r0[i]);
                assert(v[j] == v0[j]);
            } else {
                assert(r[i] == v[v.len() - 1]);
            }
        }
        if v.last().fields.nonce >= n {
            assert forall|a: int, b: int|
                0 <= a < r.len() && 0 <= b < r.len() && a != b implies r[a].fields.nonce
                != r[b].fields.nonce by {
                if a < r0.len() && b < r0.len() {
                    assert(r[a] == r0[a] && r[b] == r0[b]);
                } else if a < r0.len() {
                    let ja = choose|j: int| 0 <= j < v0.len() && r0[a] == v0[j];
                    assert(r[a] == v[ja]);
                    assert(r[b] == v[v.len() - 1]);
                } else {
                    let jb = choose|j: int| 0 <= j < v0.len() && r0[b] == v0[j];
                    assert(r[b] == v[jb]);
                    assert(r[a] == v[v.len() - 1]);
                }
            }
            assert forall|a: int| 0 <= a < r.len() implies #[trigger] r[a].sender == sender by {
                if a < r0.len() {
                    assert(r[a] == r0[a]);
                }
            }
        }
    }
}

pub proof fn lemma_commit_all_wf(qs: Seq<QueueView>, ns: Seq<u64>, limit: usize)
    requires
        pool_wf(qs),
    ensures
        pool_wf(commit_all(qs, ns, limit)),
        forall|i: int|
            0 <= i < commit_all(qs, ns, limit).len() ==> exists|j: int|
                0 <= j < qs.len() && (#[trigger] commit_all(qs, ns, limit)[i]).sender
                    == qs[j].sender,
    decreases qs.len(),
{
    if qs.len() > 0 && ns.len() > 0 {
        let q0 = qs.drop_last();
        assert forall|a: int, b: int|
            0 <= a < q0.len() && 0 <= b < q0.len() && a != b implies q0[a].sender
            != q0[b].sender by {
            assert(q0[a] == qs[a] && q0[b] == qs[b]);
        }
        assert forall|a: int| 0 <= a < q0.len() implies {
            &&& entries_wf(#[trigger] q0[a].pending, q0[a].sender)
            &&& entries_wf(q0[a].queued, q0[a].sender)
        } by {
            assert(q0[a] == qs[a]);
        }
        lemma_commit_all_wf(q0, ns.drop_last(), limit);
        let r0 = commit_all(q0, ns.drop_last(), limit);
        let last = qs.last();
        assert(entries_wf(last.pending, last.sender));
        assert(entries_wf(last.queued, last.sender));
        lemma_keep_wf(last.pending, ns.last(), last.sender);
        lemma_keep_wf(last.queued, ns.last(), last.sender);
        let kq = QueueView {
            sender: last.sender,
            pending: keep_from_nonce(last.pending, ns.last()),
            queued: keep_from_nonce(last.queued, ns.last()),
        };
        lemma_promote_queue_wf(kq, ns.last(), limit);
        let c = commit_queue(last, ns.last(), limit);
        let r = commit_all(qs, ns, limit);
        assert forall|i: int| 0 <= i < r.len() implies exists|j: int|
            0 <= j < qs.len() && (#[trigger] r[i]).sender == qs[j].sender by {
            if i < r0.len() {
                let j = choose|j: int| 0 <= j < q0.len() && r0[i].sender == q0[j].sender;
                assert(r[i] == r0[i]);
                assert(qs[j] == q0[j]);
            } else {
                assert(r[i].sender == qs[qs.len() - 1].sender);
            }
        }
        if !queue_empty(c) {
            assert forall|a: int, b: int|
                0 <= a < r.len() && 0 <= b < r.len() && a != b implies r[a].sender
                != r[b].sender by {
                if a < r0.len() && b < r0.len() {
                    assert(r[a] == r0[a] && r[b] == r0[b]);
                } else if a < r0.len() {
                    let ja = choose|j: int| 0 <= j < q0.len() && r0[a].sender == q0[j].sender;
                    assert(r[a] == r0[a]);
                    assert(q0[ja] == qs[ja]);
                } else {
                    let jb = choose|j: int| 0 <= j < q0.len() && r0[b].sender == q0[j].sender;
                    assert(r[b] == r0[b]);
                    assert(q0[jb] == qs[jb]);
                }
            }
            assert forall|a: int| 0 <= a < r.len() implies {
                &&& entries_wf(#[trigger] r[a].pending, r[a].sender)
                &&& entries_wf(r[a].queued, r[a].sender)
            } by {
                if a < r0.len() {
                    assert(r[a] == r0[a]);
                }
            }
        }
    }
}

pub proof fn lemma_promote_queue_wf(q: QueueView, current_nonce: u64, limit: usize)
    requires
        entries_wf(q.pending, q.sender),
        entries_wf(q.queued, q.sender),
    ensures
        entries_wf(promote_queue(q, current_nonce, limit).pending, q.sender),
        entries_wf(promote_queue(q, current_nonce, limit).queued, q.sender),
        promote_queue(q, current_nonce, limit).sender == q.sender,
        promote_queue(q, current_nonce, limit).pending.len() + promote_queue(
            q,
            current_nonce,
            limit,
        ).queued.len()
            == q.pending.len() + q.queued.len(),
{
    if q.pending.len() > 0 {
        lemma_max_nonce(q.pending);
    }
    match promote_start(q.pending, current_nonce) {
        Some(next) => {
            lemma_promote_wf(q.pending, q.queued, next, q.sender, limit);
        },
        None => {},
    }
}

// ---------------------------------------------------------------------------
// Exec helpers over entry vectors
// ---------------------------------------------------------------------------

/// The first index of `v` holding nonce `n`.
fn find_nonce_index(v: &Vec<PoolEntry>, n: u64) -> (r: Option<usize>)
    ensures
        match r {
            Some(i) => find_nonce(entries_view(v@), n) == Some(i as int),
            None => find_nonce(entries_view(v@), n) is None,
        },
{
    let ghost ev = entries_view(v@);
    let mut i: usize = 0;
    while i < v.len()
        invariant
            ev == entries_view(v@),
            i <= v@.len(),
            find_nonce(ev, n) == find_nonce_from(ev, n, i as nat),
        decreases v@.len() - i,
    {
        if v[i].verified.envelope.nonce == n {
            return Some(i);
        }
        i = i + 1;
    }
    None
}

/// Whether some entry of `v` has hash `h`.
fn vec_has_hash(v: &Vec<PoolEntry>, h: &B256) -> (r: bool)
    ensures
        r == has_hash(entries_view(v@), h@),
{
    let ghost ev = entries_view(v@);
    let mut i: usize = 0;
    while i < v.len()
        invariant
            ev == entries_view(v@),
            i <= v@.len(),
            forall|j: int| 0 <= j < i ==> ev[j].hash != h@,
        decreases v@.len() - i,
    {
        if v[i].verified.tx_hash.equals(h) {
            assert(ev[i as int].hash == h@);
            return true;
        }
        i = i + 1;
    }
    false
}

/// The largest nonce of a non-empty vector of entries.
fn max_nonce_of(v: &Vec<PoolEntry>) -> (r: u64)
    requires
        v@.len() > 0,
    ensures
        r == max_nonce(entries_view(v@)),
{
    let ghost ev = entries_view(v@);
    let mut m = v[0].verified.envelope.nonce;
    let mut i: usize = 1;
    proof {
        assert(ev.subrange(0, 1).len() == 1);
    }
    while i < v.len()
        invariant
            ev == entries_view(v@),
            1 <= i <= v@.len(),
            m == max_nonce(ev.subrange(0, i as int)),
        decreases v@.len() - i,
    {
        let n = v[i].verified.envelope.nonce;
        proof {
            assert(ev.subrange(0, i + 1).drop_last() =~= ev.subrange(0, i as int));
        }
        if n > m {
            m = n;
        }
        i = i + 1;
    }
    proof {
        assert(ev.subrange(0, v@.len() as int) =~= ev);
    }
    m
}

/// The index of the first entry with the smallest nonce.
fn min_nonce_index_of(v: &Vec<PoolEntry>) -> (r: usize)
    requires
        v@.len() > 0,
    ensures
        r == min_nonce_index(entries_view(v@)),
        r < v@.len(),
{
    let ghost ev = entries_view(v@);
    let mut m: usize = 0;
    let mut i: usize = 1;
    while i < v.len()
        invariant
            ev == entries_view(v@),
            1 <= i <= v@.len(),
            m == min_nonce_index_upto(ev, i as nat),
            m < i,
        decreases v@.len() - i,
    {
        if v[i].verified.envelope.nonce < v[m].verified.envelope.nonce {
            m = i;
        }
        i = i + 1;
    }
    m
}

/// The first position at or after `j` whose tip is below `tip`.
fn insert_pos(s: &Vec<Candidate>, tip: u64) -> (r: usize)
    ensures
        r == insert_pos_from(s@, tip, 0),
        r <= s@.len(),
{
    let mut j: usize = 0;
    while j < s.len()
        invariant
            j <= s@.len(),
            insert_pos_from(s@, tip, 0) == insert_pos_from(s@, tip, j as nat),
        decreases s@.len() - j,
    {
        if s[j].2 < tip {
            return j;
        }
        j = j + 1;
    }
    j
}

/// The stable sort of the candidates by tip, highest first.
fn sort_candidates(c: &Vec<Candidate>) -> (r: Vec<Candidate>)
    ensures
        r@ == sort_by_tip(c@),
{
    let mut sorted: Vec<Candidate> = Vec::new();
    let mut i: usize = 0;
    while i < c.len()
        invariant
            i <= c@.len(),
            sorted@ == sort_by_tip(c@.subrange(0, i as int)),
        decreases c@.len() - i,
    {
        proof {
            assert(c@.subrange(0, i + 1).drop_last() =~= c@.subrange(0, i as int));
            lemma_insert_pos_bound(sorted@, c@[i as int].2, 0);
        }
        let pos = insert_pos(&sorted, c[i].2);
        sorted.insert(pos, c[i]);
        i = i + 1;
    }
    proof {
        assert(c@.subrange(0, c@.len() as int) =~= c@);
    }
    sorted
}

pub proof fn lemma_insert_pos_bound(s: Seq<Candidate>, tip: u64, j: nat)
    ensures
        insert_pos_from(s, tip, j) <= s.len(),
    decreases s.len() - j,
{
    if j < s.len() && s[j as int].2 >= tip {
        lemma_insert_pos_bound(s, tip, j + 1);
    }
}

/// Every candidate names an existing pending entry.
pub open spec fn candidates_in_range(qs: Seq<QueueView>, c: Seq<Candidate>) -> bool {
    forall|t: int|
        0 <= t < c.len() ==> {
            &&& (#[trigger] c[t]).0 < qs.len()
            &&& c[t].1 < qs[c[t].0 as int].pending.len()
        }
}

pub proof fn lemma_min_nonce_index(v: Seq<EntryView>, j: nat)
    requires
        1 <= j <= v.len(),
    ensures
        0 <= min_nonce_index_upto(v, j) < j,
    decreases j,
{
    if j > 1 {
        lemma_min_nonce_index(v, (j - 1) as nat);
    }
}

/// The pool's sequences have lengths that fit in `usize`.
pub open spec fn queues_fit(qs: Seq<QueueView>) -> bool {
    &&& qs.len() <= usize::MAX
    &&& forall|k: int| 0 <= k < qs.len() ==> (#[trigger] qs[k]).pending.len() <= usize::MAX
}

pub proof fn lemma_candidates_in_range(qs: Seq<QueueView>, k: nat)
    requires
        k <= qs.len(),
        queues_fit(qs),
    ensures
        candidates_in_range(qs, candidates_upto(qs, k)),
    decreases k,
{
    if k > 0 {
        lemma_candidates_in_range(qs, (k - 1) as nat);
        if qs[k - 1].pending.len() > 0 {
            lemma_min_nonce_index(qs[k - 1].pending, qs[k - 1].pending.len());
        }
        let c = candidates_upto(qs, k);
        let c0 = candidates_upto(qs, (k - 1) as nat);
        assert forall|t: int| 0 <= t < c.len() implies {
            &&& (#[trigger] c[t]).0 < qs.len()
            &&& c[t].1 < qs[c[t].0 as int].pending.len()
        } by {
            if t < c0.len() {
                assert(c[t] == c0[t]);
            }
        }
    }
}

pub proof fn lemma_sort_in_range(qs: Seq<QueueView>, c: Seq<Candidate>)
    requires
        candidates_in_range(qs, c),
    ensures
        candidates_in_range(qs, sort_by_tip(c)),
        sort_by_tip(c).len() == c.len(),
    decreases c.len(),
{
    if c.len() > 0 {
        let c0 = c.drop_last();
        assert forall|t: int| 0 <= t < c0.len() implies {
            &&& (#[trigger] c0[t]).0 < qs.len()
            &&& c0[t].1 < qs[c0[t].0 as int].pending.len()
        } by {
            assert(c0[t] == c[t]);
        }
        lemma_sort_in_range(qs, c0);
        let s0 = sort_by_tip(c0);
        lemma_insert_pos_bound(s0, c.last().2, 0);
        let p = insert_pos_from(s0, c.last().2, 0) as int;
        let s = sort_by_tip(c);
        assert(s == s0.insert(p, c.last()));
        assert forall|t: int| 0 <= t < s.len() implies {
            &&& (#[trigger] s[t]).0 < qs.len()
            &&& s[t].1 < qs[s[t].0 as int].pending.len()
        } by {
            if t < p {
                assert(s[t] == s0[t]);
            } else if t > p {
                assert(s[t] == s0[t - 1]);
            }
        }
    }
}

pub proof fn lemma_sorted_in_range(qs: Seq<QueueView>, c: Seq<Candidate>)
    requires
        c == candidates_upto(qs, qs.len()),
        queues_fit(qs),
    ensures
        candidates_in_range(qs, sort_by_tip(c)),
{
    lemma_candidates_in_range(qs, qs.len());
    lemma_sort_in_range(qs, c);
}

/// Replacing queue `k` by a well-formed queue with the same sender keeps the
/// pool well-formed.
pub proof fn lemma_put_queue_wf_at(qs: Seq<QueueView>, k: int, q2: QueueView)
    requires
        pool_wf(qs),
        0 <= k < qs.len(),
        q2.sender == qs[k].sender,
        entries_wf(q2.pending, q2.sender),
        entries_wf(q2.queued, q2.sender),
    ensures
        pool_wf(qs.update(k, q2)),
{
    let r = qs.update(k, q2);
    assert forall|a: int, b: int|
        0 <= a < r.len() && 0 <= b < r.len() && a != b implies r[a].sender != r[b].sender by {
        assert(r[a].sender == qs[a].sender);
        assert(r[b].sender == qs[b].sender);
    }
    assert forall|a: int| 0 <= a < r.len() implies {
        &&& entries_wf(#[trigger] r[a].pending, r[a].sender)
        &&& entries_wf(r[a].queued, r[a].sender)
    } by {
        if a != k {
            assert(r[a] == qs[a]);
        }
    }
}

impl SenderQueue {
    /// An empty queue for `sender`.
    pub fn new(sender: Address) -> (r: SenderQueue)
        ensures
            r@ == empty_queue(sender@),
    {
        let r = SenderQueue { sender, pending: Vec::new(), queued: Vec::new() };
        assert(r@.pending =~= Seq::<EntryView>::empty());
        assert(r@.queued =~= Seq::<EntryView>::empty());
        r
    }

    /// Promote queued → pending while the nonce gap is filled and fewer than
    /// `max_pending` transactions are pending.
    pub fn promote_queued_static(&mut self, current_nonce: u64, max_pending: usize)
        ensures
            final(self)@ == promote_queue(old(self)@, current_nonce, max_pending),
    {
        let mut next = if self.pending.len() > 0 {
            let m = max_nonce_of(&self.pending);
            if m == u64::MAX {
                return ;
            }
            m + 1
        } else {
            current_nonce
        };
        assert(promote_start(old(self)@.pending, current_nonce) == Some(next));
        loop
            invariant_except_break
                promote_spec(self@.pending, self@.queued, next, max_pending)
                    == promote_queue_parts(old(self)@, current_nonce, max_pending),
            invariant
                self.sender == old(self).sender,
            ensures
                self.sender == old(self).sender,
                (self@.pending, self@.queued) == promote_queue_parts(
                    old(self)@,
                    current_nonce,
                    max_pending,
                ),
            decreases self.queued@.len(),
        {
            if self.pending.len() >= max_pending {
                break ;
            }
            match find_nonce_index(&self.queued, next) {
                Some(i) => {
                    proof {
                        lemma_find_nonce(self@.queued, next);
                        lemma_entries_view_remove(self.queued@, i as int);
                    }
                    let ghost q0 = self@;
                    let entry = self.queued.remove(i);
                    proof {
                        lemma_entries_view_push(self.pending@, entry);
                    }
                    self.pending.push(entry);
                    assert(self@.pending == q0.pending.push(q0.queued[i as int]));
                    assert(self@.queued == q0.queued.remove(i as int));
                    if next == u64::MAX {
                        break ;
                    }
                    next = next + 1;
                },
                None => {
                    break ;
                },
            }
        }
    }
}

/// The pending and queued sequences after promotion.
pub open spec fn promote_queue_parts(q: QueueView, current_nonce: u64, limit: usize) -> (
    Seq<EntryView>,
    Seq<EntryView>,
) {
    (promote_queue(q, current_nonce, limit).pending, promote_queue(q, current_nonce, limit).queued)
}

// ---------------------------------------------------------------------------
// The pool
// ---------------------------------------------------------------------------

/// Ethereum-compatible transaction pool.
///
/// `N` is the nonce lookup: it gives the committed account nonce of a
/// sender.
pub struct EvmTxPool<N> {
    config: EvmTxPoolConfig,
    senders: Vec<SenderQueue>,
    nonce_fn: Option<N>,
}

impl<N: Fn(&Address) -> u64> EvmTxPool<N> {
    /// The per-sender queues, in order of first arrival.
    pub closed spec fn queues(&self) -> Seq<QueueView> {
        queues_view(self.senders@)
    }

    /// The pool's configuration.
    pub closed spec fn config_spec(&self) -> EvmTxPoolConfig {
        self.config
    }

    /// The nonce lookup, if one was set.
    pub closed spec fn nonce_fn_spec(&self) -> Option<N> {
        self.nonce_fn
    }

    /// Whether `n` is what the pool's nonce lookup may give for `a`.
    pub open spec fn nonce_lookup(&self, a: &Address, n: u64) -> bool {
        match self.nonce_fn_spec() {
            Some(f) => f.ensures((a,), n),
            None => n == 0,
        }
    }

    /// The pool's invariant.
    pub open spec fn wf(&self) -> bool {
        &&& pool_wf(self.queues())
        &&& hashes_unique(self.queues())
        &&& pending_within(self.queues(), self.config_spec().max_pending_per_sender)
        &&& self.config_spec().replacement_bump_pct <= u64::MAX - 100
        &&& (self.nonce_fn_spec() matches Some(f) ==> forall|a: &Address| f.requires((a,)))
    }

    /// Create a new transaction pool.
    pub fn new(config: EvmTxPoolConfig) -> (r: Self)
        requires
            config.replacement_bump_pct <= u64::MAX - 100,
        ensures
            r.wf(),
            r.queues() == Seq::<QueueView>::empty(),
            r.config_spec() == config,
            r.nonce_fn_spec() is None,
    {
        let r = EvmTxPool { config, senders: Vec::new(), nonce_fn: None };
        assert(r.queues() =~= Seq::<QueueView>::empty());
        r
    }

    /// Set the nonce lookup function (called during pool operations).
    pub fn set_nonce_fn(&mut self, f: N)
        requires
            old(self).wf(),
            forall|a: &Address| f.requires((a,)),
        ensures
            final(self).wf(),
            final(self).queues() == old(self).queues(),
            final(self).config_spec() == old(self).config_spec(),
            final(self).nonce_fn_spec() == Some(f),
    {
        self.nonce_fn = Some(f);
    }

    /// The pool's sequences are held in vectors, so their lengths fit in
    /// `usize`.
    pub proof fn lemma_queues_fit(&self)
        ensures
            queues_fit(self.queues()),
    {
        let qs = self.queues();
        assert(qs.len() == self.senders.len());
        assert forall|k: int| 0 <= k < qs.len() implies (#[trigger] qs[k]).pending.len()
            <= usize::MAX by {
            let v = self.senders@[k].pending;
            assert(qs[k].pending.len() == v@.len());
            assert(v.len() == v@.len());
        }
    }

    /// The index of the queue of sender `a`.
    fn find_sender_index(&self, a: &Address) -> (r: Option<usize>)
        ensures
            match r {
                Some(k) => find_sender(self.queues(), a@) == Some(k as int),
                None => find_sender(self.queues(), a@) is None,
            },
    {
        let ghost qs = self.queues();
        let mut k: usize = 0;
        while k < self.senders.len()
            invariant
                qs == self.queues(),
                k <= self.senders@.len(),
                find_sender(qs, a@) == find_sender_from(qs, a@, k as nat),
            decreases self.senders@.len() - k,
        {
            if self.senders[k].sender.equals(a) {
                return Some(k);
            }
            k = k + 1;
        }
        None
    }

    /// Submit a decoded transaction whose sender's committed nonce is
    /// `current_nonce`. Returns the tx hash on success.
    pub fn submit_verified(&mut self, verified: VerifiedTx, current_nonce: u64) -> (r: Result<
        B256,
        String,
    >)
        requires
            old(self).wf(),
        ensures
            final(self).wf(),
            final(self).config_spec() == old(self).config_spec(),
            final(self).nonce_fn_spec() == old(self).nonce_fn_spec(),
            ({
                let (qs, out) = submit_spec(
                    old(self).queues(),
                    old(self).config_spec(),
                    submitted_entry(verified@, old(self).config_spec().base_fee),
                    current_nonce,
                );
                &&& final(self).queues() == qs
                &&& match out {
                    Ok(h) => r matches Ok(x) && x@ == h,
                    Err(e) => r matches Err(m) && m@ == submit_error_message(e),
                }
            }),
    {
        let ghost qs = self.queues();
        let ghost cfg = self.config;
        let tip = effective_gas_tip(&verified.envelope, self.config.base_fee);
        let hash = verified.tx_hash;
        let sender = verified.sender;
        let nonce = verified.envelope.nonce;
        let ghost e = submitted_entry(verified@, cfg.base_fee);
        // Check if tx hash already exists.
        if self.contains(&hash) {
            return Err(String::from_str("transaction already known"));
        }
        if nonce < current_nonce {
            let mut m = String::from_str("nonce too low: tx nonce ");
            m.append(u64_decimal(nonce).as_str());
            m.append(" < current ");
            m.append(u64_decimal(current_nonce).as_str());
            return Err(m);
        }
        let k_opt = self.find_sender_index(&sender);
        proof {
            lemma_find_sender(qs, sender@);
        }
        let ghost q = queue_of(qs, sender@);
        let dec = if nonce == 0 {
            0
        } else {
            nonce - 1
        };
        // Determine whether this goes to pending or queued, and whether it
        // replaces an entry.
        let (is_pending, existing, existing_tip, side_len) = match k_opt {
            Some(k) => {
                let sq = &self.senders[k];
                assert(sq@ == q);
                let is_p = nonce == current_nonce || find_nonce_index(&sq.pending, dec).is_some();
                let side = if is_p {
                    &sq.pending
                } else {
                    &sq.queued
                };
                let ex = find_nonce_index(side, nonce);
                proof {
                    lemma_find_nonce(entries_view(side@), nonce);
                }
                let ex_tip: u64 = match ex {
                    Some(i) => side[i].effective_tip,
                    None => 0,
                };
                (is_p, ex, ex_tip, side.len())
            },
            None => {
                proof {
                    lemma_find_nonce(Seq::<EntryView>::empty(), nonce);
                    lemma_find_nonce(Seq::<EntryView>::empty(), dec);
                }
                (nonce == current_nonce, None, 0, 0)
            },
        };
        let ghost side = if is_pending {
            q.pending
        } else {
            q.queued
        };
        assert(is_pending == goes_pending(q, nonce, current_nonce));
        assert(side.len() == side_len);
        // Check for replacement.
        match existing {
            Some(i) => {
                assert(existing_tip == side[i as int].tip);
                let factor: u64 = 100 + self.config.replacement_bump_pct;
                assert((existing_tip as u128) * (factor as u128) <= u128::MAX) by (nonlinear_arith)
                    requires
                        existing_tip <= u64::MAX,
                        factor <= u64::MAX,
                ;
                let prod: u128 = (existing_tip as u128) * (factor as u128);
                let capped: u64 = if prod > u64::MAX as u128 {
                    u64::MAX
                } else {
                    prod as u64
                };
                let min_tip = capped / 100;
                if tip < min_tip {
                    let mut m = String::from_str("replacement underpriced: need tip >= ");
                    m.append(u64_decimal(min_tip).as_str());
                    m.append(", got ");
                    m.append(u64_decimal(tip).as_str());
                    return Err(m);
                }
            },
            None => {
                // Check capacity.
                let limit = if is_pending {
                    self.config.max_pending_per_sender
                } else {
                    self.config.max_queued_per_sender
                };
                if side_len >= limit {
                    return Err(String::from_str("sender queue full"));
                }
            },
        }
        let entry = PoolEntry { verified, effective_tip: tip };
        assert(entry@ == e);
        let mut sq = SenderQueue::new(sender);
        match k_opt {
            Some(k) => {
                self.senders.set_and_swap(k, &mut sq);
            },
            None => {},
        }
        assert(sq@ == q);
        let ghost new_side = match existing {
            Some(i) => side.update(i as int, e),
            None => side.push(e),
        };
        if is_pending {
            match existing {
                Some(i) => {
                    proof {
                        lemma_entries_view_update(sq.pending@, i as int, entry);
                    }
                    sq.pending.set(i, entry);
                },
                None => {
                    proof {
                        lemma_entries_view_push(sq.pending@, entry);
                    }
                    sq.pending.push(entry);
                },
            }
        } else {
            match existing {
                Some(i) => {
                    proof {
                        lemma_entries_view_update(sq.queued@, i as int, entry);
                    }
                    sq.queued.set(i, entry);
                },
                None => {
                    proof {
                        lemma_entries_view_push(sq.queued@, entry);
                    }
                    sq.queued.push(entry);
                },
            }
        }
        let ghost q1 = sq@;
        assert(q1 == if is_pending {
            QueueView { pending: new_side, ..q }
        } else {
            QueueView { queued: new_side, ..q }
        });
        proof {
            self.lemma_new_side_wf(q, side, new_side, e, existing, is_pending);
        }
        sq.promote_queued_static(current_nonce, self.config.max_pending_per_sender);
        proof {
            lemma_promote_queue_wf(q1, current_nonce, cfg.max_pending_per_sender);
        }
        let ghost senders_before = self.senders@;
        match k_opt {
            Some(k) => {
                self.senders.set(k, sq);
                assert(self.queues() =~= qs.update(k as int, sq@));
            },
            None => {
                self.senders.push(sq);
                assert(self.queues() =~= qs.push(sq@));
            },
        }
        proof {
            assert(self.queues() == place_queue(
                qs,
                q,
                is_pending,
                new_side,
                current_nonce,
                cfg.max_pending_per_sender,
            ));
            lemma_put_queue_wf(qs, promote_queue(q1, current_nonce, cfg.max_pending_per_sender));
            law_submit_keeps_hashes_unique(qs, cfg, e, current_nonce);
            law_submit_within_pending_limit(qs, cfg, e, current_nonce);
        }
        Ok(hash)
    }

    proof fn lemma_new_side_wf(
        &self,
        q: QueueView,
        side: Seq<EntryView>,
        new_side: Seq<EntryView>,
        e: EntryView,
        existing: Option<usize>,
        is_pending: bool,
    )
        requires
            entries_wf(q.pending, q.sender),
            entries_wf(q.queued, q.sender),
            side == (if is_pending {
                q.pending
            } else {
                q.queued
            }),
            e.sender == q.sender,
            match existing {
                Some(i) => find_nonce(side, e.fields.nonce) == Some(i as int) && new_side
                    == side.update(i as int, e),
                None => find_nonce(side, e.fields.nonce) is None && new_side == side.push(e),
            },
        ensures
            entries_wf(new_side, q.sender),
    {
        lemma_find_nonce(side, e.fields.nonce);
        assert forall|a: int, b: int|
            0 <= a < new_side.len() && 0 <= b < new_side.len() && a != b implies new_side[a].fields.nonce
            != new_side[b].fields.nonce by {
            if a < side.len() && b < side.len() {
                match existing {
                    Some(i) => {
                        if a != i && b != i {
                            assert(new_side[a] == side[a] && new_side[b] == side[b]);
                        } else if a == i {
                            assert(new_side[b] == side[b]);
                            assert(side[i as int].fields.nonce == e.fields.nonce);
                        } else {
                            assert(new_side[a] == side[a]);
                            assert(side[i as int].fields.nonce == e.fields.nonce);
                        }
                    },
                    None => {
                        assert(new_side[a] == side[a] && new_side[b] == side[b]);
                    },
                }
            } else if a < side.len() {
                assert(new_side[a] == side[a]);
            } else {
                assert(new_side[b] == side[b]);
            }
        }
        assert forall|a: int| 0 <= a < new_side.len() implies #[trigger] new_side[a].sender
            == q.sender by {
            if a < side.len() {
                match existing {
                    Some(i) => {
                        if a != i {
                            assert(new_side[a] == side[a]);
                        }
                    },
                    None => {
                        assert(new_side[a] == side[a]);
                    },
                }
            }
        }
    }

    /// Submit a raw Ethereum transaction to the pool.
    /// Returns the tx hash on success.
    pub fn submit_tx(&mut self, raw: &[u8]) -> (r: Result<B256, String>)
        requires
            old(self).wf(),
        ensures
            final(self).wf(),
            final(self).config_spec() == old(self).config_spec(),
            final(self).nonce_fn_spec() == old(self).nonce_fn_spec(),
            match spec_decode_2718(raw@) {
                Err(m) => final(self).queues() == old(self).queues() && (r matches Err(x) && x@
                    == tx_error_message(TxErrorView::RlpDecode(m))),
                Ok(fields) => match spec_recover_signer(raw@) {
                    Err(m) => final(self).queues() == old(self).queues() && (r matches Err(x)
                        && x@ == tx_error_message(TxErrorView::SignatureRecovery(m))),
                    Ok(sender) => exists|a: Address, n: u64|
                        {
                            &&& a@ == sender
                            &&& #[trigger] old(self).nonce_lookup(&a, n)
                            &&& submit_outcome_matches(
                                submit_spec(
                                    old(self).queues(),
                                    old(self).config_spec(),
                                    entry_of(raw@, fields, sender, old(self).config_spec().base_fee),
                                    n,
                                ),
                                final(self).queues(),
                                r,
                            )
                        },
                },
            },
    {
        let verified = match decode_and_recover(raw) {
            Ok(v) => v,
            Err(e) => return Err(e.to_string()),
        };
        let current_nonce = match &self.nonce_fn {
            Some(f) => f(&verified.sender),
            None => 0,
        };
        let ghost sender = verified.sender;
        let ghost e = submitted_entry(verified@, self.config.base_fee);
        let r = self.submit_verified(verified, current_nonce);
        assert(submit_outcome_matches(
            submit_spec(old(self).queues(), old(self).config_spec(), e, current_nonce),
            self.queues(),
            r,
        ));
        assert(old(self).nonce_lookup(&sender, current_nonce));
        r
    }

    /// Collect transactions for a block proposal.
    ///
    /// Takes the lowest-nonce pending transaction of each sender, orders them
    /// by effective tip (highest first, stable), and includes them greedily:
    /// it stops at the first that would push the payload past `max_bytes`
    /// and skips one that would push the gas past `max_gas` (when positive).
    /// Returns the length-prefixed raw bytes and removes the included
    /// transactions from the pool.
    pub fn collect_payload(&mut self, max_bytes: usize, max_gas: u64) -> (r: Vec<u8>)
        requires
            old(self).wf(),
        ensures
            final(self).wf(),
            final(self).config_spec() == old(self).config_spec(),
            final(self).nonce_fn_spec() == old(self).nonce_fn_spec(),
            r@ == payload_bytes(old(self).queues(), selected(old(self).queues(), max_bytes, max_gas)),
            r@.len() <= max_bytes,
            final(self).queues() == remove_selected(
                old(self).queues(),
                selected(old(self).queues(), max_bytes, max_gas),
            ),
    {
        let ghost qs = self.queues();
        // Collect the best pending tx from each sender.
        let mut candidates: Vec<Candidate> = Vec::new();
        let mut k: usize = 0;
        while k < self.senders.len()
            invariant
                qs == self.queues(),
                k <= self.senders@.len(),
                candidates@ == candidates_upto(qs, k as nat),
            decreases self.senders@.len() - k,
        {
            let pending = &self.senders[k].pending;
            assert(entries_view(pending@) == qs[k as int].pending);
            if pending.len() > 0 {
                let i = min_nonce_index_of(pending);
                candidates.push((k, i, pending[i].effective_tip));
            }
            k = k + 1;
        }
        // Sort by tip descending (stable).
        let sorted = sort_candidates(&candidates);
        // Greedy selection.
        let mut payload: Vec<u8> = Vec::new();
        let mut total_gas: u64 = 0;
        let mut included: Vec<Candidate> = Vec::new();
        let mut j: usize = 0;
        let ghost sel = selected(qs, max_bytes, max_gas);
        proof {
            self.lemma_queues_fit();
            lemma_sorted_in_range(qs, candidates_upto(qs, qs.len()));
        }
        while j < sorted.len()
            invariant_except_break
                included@ + select_from(
                    qs,
                    sorted@,
                    j as nat,
                    max_bytes,
                    max_gas,
                    payload@.len(),
                    total_gas as nat,
                ) == sel,
            invariant
                qs == self.queues(),
                sorted@ == sort_by_tip(candidates_upto(qs, qs.len())),
                j <= sorted@.len(),
                payload@ == payload_bytes(qs, included@),
                payload@.len() <= max_bytes,
                max_gas > 0 ==> total_gas <= max_gas,
                max_gas == 0 ==> total_gas == 0,
                forall|t: int|
                    0 <= t < sorted@.len() ==> {
                        &&& (#[trigger] sorted@[t]).0 < qs.len()
                        &&& sorted@[t].1 < qs[sorted@[t].0 as int].pending.len()
                    },
                forall|t: int|
                    0 <= t < included@.len() ==> {
                        &&& (#[trigger] included@[t]).0 < qs.len()
                        &&& included@[t].1 < qs[included@[t].0 as int].pending.len()
                    },
            ensures
                included@ == sel,
                payload@ == payload_bytes(qs, included@),
                qs == self.queues(),
            decreases sorted@.len() - j,
        {
            let c = sorted[j];
            assert(sorted@[j as int] == c);
            let entry = &self.senders[c.0].pending[c.1];
            assert(entry@ == candidate_entry(qs, c));
            let raw_len = entry.verified.raw.len();
            let gas = entry.verified.envelope.gas_limit;
            if (payload.len() as u128) + 4 + (raw_len as u128) > max_bytes as u128 {
                assert(included@ + Seq::<Candidate>::empty() =~= included@);
                break ;
            }
            if max_gas > 0 && (total_gas as u128) + (gas as u128) > max_gas as u128 {
                j = j + 1;
                continue ;
            }
            // Length-prefix encoding.
            let ghost before = payload@;
            let len32 = raw_len as u32;
            payload.push(len32 as u8);
            payload.push((len32 >> 8u32) as u8);
            payload.push((len32 >> 16u32) as u8);
            payload.push((len32 >> 24u32) as u8);
            assert(payload@ =~= before + le32(len32));
            let ghost before2 = payload@;
            payload.extend_from_slice(entry.verified.raw.as_slice());
            assert(payload@ =~= before2 + candidate_entry(qs, c).raw);
            if max_gas > 0 {
                total_gas = total_gas + gas;
            }
            let ghost inc_before = included@;
            included.push(c);
            proof {
                assert(included@.drop_last() =~= inc_before);
                assert(inc_before.push(c) + select_from(
                    qs,
                    sorted@,
                    (j + 1) as nat,
                    max_bytes,
                    max_gas,
                    payload@.len(),
                    total_gas as nat,
                ) =~= inc_before + (seq![c] + select_from(
                    qs,
                    sorted@,
                    (j + 1) as nat,
                    max_bytes,
                    max_gas,
                    payload@.len(),
                    total_gas as nat,
                )));
            }
            j = j + 1;
        }
        proof {
            if j >= sorted@.len() {
                assert(included@ + Seq::<Candidate>::empty() =~= included@);
            }
        }
        // Remove included transactions.
        let mut t: usize = 0;
        while t < included.len()
            invariant
                0 <= t <= included@.len(),
                included@ == sel,
                self.queues() == remove_selected(qs, included@.subrange(0, t as int)),
                pool_wf(self.queues()),
                self.config == old(self).config,
                self.nonce_fn == old(self).nonce_fn,
                self.config.replacement_bump_pct <= u64::MAX - 100,
                self.nonce_fn matches Some(f) ==> forall|a: &Address| f.requires((a,)),
            decreases included@.len() - t,
        {
            let c = included[t];
            proof {
                assert(included@.subrange(0, t + 1).drop_last() =~= included@.subrange(0, t as int));
                assert(included@.subrange(0, t + 1).last() == c);
            }
            let ghost before = self.queues();
            if c.0 < self.senders.len() && c.1 < self.senders[c.0].pending.len() {
                let mut sq = SenderQueue::new(Address::zero());
                self.senders.set_and_swap(c.0, &mut sq);
                proof {
                    lemma_entries_view_remove(sq.pending@, c.1 as int);
                    lemma_remove_wf(before[c.0 as int].pending, c.1 as int, before[c.0 as int].sender);
                }
                let _removed = sq.pending.remove(c.1);
                self.senders.set(c.0, sq);
                proof {
                    assert(self.queues() =~= before.update(
                        c.0 as int,
                        QueueView {
                            pending: before[c.0 as int].pending.remove(c.1 as int),
                            ..before[c.0 as int]
                        },
                    ));
                    lemma_put_queue_wf_at(before, c.0 as int, self.queues()[c.0 as int]);
                }
            }
            t = t + 1;
        }
        proof {
            assert(included@.subrange(0, included@.len() as int) =~= included@);
            law_collect_keeps_hashes_unique(qs, sel);
            law_collect_within_pending_limit(qs, sel, self.config.max_pending_per_sender);
        }
        payload
    }

    /// Drops the entries of `v` whose nonce is below `n`, keeping the order.
    fn prune_below(v: &mut Vec<PoolEntry>, n: u64)
        ensures
            entries_view(final(v)@) == keep_from_nonce(entries_view(old(v)@), n),
    {
        let ghost ev0 = entries_view(v@);
        let len0 = v.len();
        let mut i: usize = 0;
        let mut p: usize = 0;
        while p < len0
            invariant
                len0 == ev0.len(),
                p <= ev0.len(),
                ev0 == entries_view(old(v)@),
                i == keep_from_nonce(ev0.subrange(0, p as int), n).len(),
                v@.len() == i + (len0 - p),
                entries_view(v@) == keep_from_nonce(ev0.subrange(0, p as int), n) + ev0.subrange(
                    p as int,
                    ev0.len() as int,
                ),
            decreases ev0.len() - p,
        {
            proof {
                assert(ev0.subrange(0, p + 1).drop_last() =~= ev0.subrange(0, p as int));
                assert(ev0.subrange(0, p + 1).last() == ev0[p as int]);
                assert(entries_view(v@)[i as int] == ev0[p as int]);
            }
            if v[i].verified.envelope.nonce < n {
                proof {
                    lemma_entries_view_remove(v@, i as int);
                }
                let _stale = v.remove(i);
                proof {
                    assert(entries_view(v@) =~= keep_from_nonce(ev0.subrange(0, p + 1), n)
                        + ev0.subrange(p + 1, ev0.len() as int));
                }
            } else {
                proof {
                    assert(entries_view(v@) =~= keep_from_nonce(ev0.subrange(0, p + 1), n)
                        + ev0.subrange(p + 1, ev0.len() as int));
                }
                assert(i < v.len());
                i = i + 1;
            }
            p = p + 1;
        }
        proof {
            assert(ev0.subrange(0, ev0.len() as int) =~= ev0);
            assert(entries_view(v@) =~= keep_from_nonce(ev0, n));
        }
    }

    /// Remove committed transactions and promote queued ones, where
    /// `nonce_fn` gives each sender's committed account nonce.
    pub fn on_commit<F: Fn(&Address) -> u64>(&mut self, nonce_fn: &F)
        requires
            old(self).wf(),
            forall|a: &Address| nonce_fn.requires((a,)),
        ensures
            final(self).wf(),
            final(self).config_spec() == old(self).config_spec(),
            final(self).nonce_fn_spec() == old(self).nonce_fn_spec(),
            exists|ns: Seq<u64>|
                {
                    &&& ns.len() == old(self).queues().len()
                    &&& forall|k: int|
                        0 <= k < ns.len() ==> exists|a: Address|
                            a@ == old(self).queues()[k].sender && nonce_fn.ensures(
                                (&a,),
                                #[trigger] ns[k],
                            )
                    &&& final(self).queues() == commit_all(
                        old(self).queues(),
                        ns,
                        old(self).config_spec().max_pending_per_sender,
                    )
                },
    {
        let ghost qs = self.queues();
        // The committed nonce of every sender.
        let mut ns: Vec<u64> = Vec::new();
        let mut k: usize = 0;
        while k < self.senders.len()
            invariant
                qs == self.queues(),
                k <= self.senders@.len(),
                ns@.len() == k,
                forall|a: &Address| nonce_fn.requires((a,)),
                forall|j: int|
                    0 <= j < k ==> exists|a: Address|
                        a@ == qs[j].sender && nonce_fn.ensures((&a,), #[trigger] ns@[j]),
            decreases self.senders@.len() - k,
        {
            let a = self.senders[k].sender;
            let n = nonce_fn(&a);
            assert(a@ == qs[k as int].sender);
            ns.push(n);
            assert(ns@[k as int] == n);
            k = k + 1;
        }
        self.commit_with_nonces(&ns);
    }

    /// Applies a commit where `ns[k]` is the account nonce of the sender of
    /// queue `k`.
    fn commit_with_nonces(&mut self, ns: &Vec<u64>)
        requires
            old(self).wf(),
            ns@.len() == old(self).queues().len(),
        ensures
            final(self).wf(),
            final(self).config_spec() == old(self).config_spec(),
            final(self).nonce_fn_spec() == old(self).nonce_fn_spec(),
            final(self).queues() == commit_all(
                old(self).queues(),
                ns@,
                old(self).config_spec().max_pending_per_sender,
            ),
    {
        let ghost qs = self.queues();
        let ghost lim = self.config.max_pending_per_sender;
        let mut k: usize = 0;
        let mut p: usize = 0;
        while p < ns.len()
            invariant
                p <= ns@.len(),
                ns@.len() == qs.len(),
                pool_wf(qs),
                self.config == old(self).config,
                lim == self.config.max_pending_per_sender,
                self.nonce_fn == old(self).nonce_fn,
                k == commit_all(qs.subrange(0, p as int), ns@.subrange(0, p as int), lim).len(),
                self.senders@.len() == k + (qs.len() - p),
                self.queues() == commit_all(qs.subrange(0, p as int), ns@.subrange(0, p as int), lim)
                    + qs.subrange(p as int, qs.len() as int),
            decreases ns@.len() - p,
        {
            let ghost before = self.queues();
            proof {
                assert(qs.subrange(0, p + 1).drop_last() =~= qs.subrange(0, p as int));
                assert(ns@.subrange(0, p + 1).drop_last() =~= ns@.subrange(0, p as int));
                assert(before[k as int] == qs[p as int]);
                assert(entries_wf(qs[p as int].pending, qs[p as int].sender));
            }
            let n = ns[p];
            let mut sq = SenderQueue::new(Address::zero());
            self.senders.set_and_swap(k, &mut sq);
            Self::prune_below(&mut sq.pending, n);
            Self::prune_below(&mut sq.queued, n);
            sq.promote_queued_static(n, self.config.max_pending_per_sender);
            assert(sq@ == commit_queue(qs[p as int], n, lim));
            let ghost r0 = commit_all(qs.subrange(0, p as int), ns@.subrange(0, p as int), lim);
            proof {
                assert(qs.subrange(0, p + 1).last() == qs[p as int]);
                assert(ns@.subrange(0, p + 1).last() == ns@[p as int]);
                assert(commit_all(qs.subrange(0, p + 1), ns@.subrange(0, p + 1), lim) == (if queue_empty(
                    sq@,
                ) {
                    r0
                } else {
                    r0.push(sq@)
                }));
            }
            if sq.pending.len() == 0 && sq.queued.len() == 0 {
                let _gone = self.senders.remove(k);
                proof {
                    assert(self.queues() =~= before.remove(k as int));
                    assert(before.remove(k as int) =~= r0 + qs.subrange(p + 1, qs.len() as int));
                }
            } else {
                self.senders.set(k, sq);
                proof {
                    assert(self.queues() =~= before.update(k as int, sq@));
                    assert(before.update(k as int, sq@) =~= r0.push(sq@) + qs.subrange(
                        p + 1,
                        qs.len() as int,
                    ));
                }
                assert(k < self.senders.len());
                k = k + 1;
            }
            p = p + 1;
        }
        proof {
            assert(qs.subrange(0, qs.len() as int) =~= qs);
            assert(ns@.subrange(0, ns@.len() as int) =~= ns@);
            assert(self.queues() =~= commit_all(qs, ns@, lim));
            lemma_commit_all_wf(qs, ns@, lim);
            law_commit_keeps_hashes_unique(qs, ns@, lim);
            law_commit_within_pending_limit(qs, ns@, lim);
        }
    }

    /// Number of pending transactions across all senders (saturating at
    /// `usize::MAX`).
    pub fn pending_count(&self) -> (r: usize)
        ensures
            r == cap_usize(total_pending(self.queues())),
    {
        let ghost qs = self.queues();
        let mut total: usize = 0;
        let mut k: usize = 0;
        while k < self.senders.len()
            invariant
                qs == self.queues(),
                k <= qs.len(),
                total == cap_usize(total_pending(qs.subrange(0, k as int))),
            decreases qs.len() - k,
        {
            proof {
                assert(qs.subrange(0, k + 1).drop_last() =~= qs.subrange(0, k as int));
            }
            total = total.saturating_add(self.senders[k].pending.len());
            k = k + 1;
        }
        proof {
            assert(qs.subrange(0, qs.len() as int) =~= qs);
        }
        total
    }

    /// Number of queued transactions across all senders (saturating at
    /// `usize::MAX`).
    pub fn queued_count(&self) -> (r: usize)
        ensures
            r == cap_usize(total_queued(self.queues())),
    {
        let ghost qs = self.queues();
        let mut total: usize = 0;
        let mut k: usize = 0;
        while k < self.senders.len()
            invariant
                qs == self.queues(),
                k <= qs.len(),
                total == cap_usize(total_queued(qs.subrange(0, k as int))),
            decreases qs.len() - k,
        {
            proof {
                assert(qs.subrange(0, k + 1).drop_last() =~= qs.subrange(0, k as int));
            }
            total = total.saturating_add(self.senders[k].queued.len());
            k = k + 1;
        }
        proof {
            assert(qs.subrange(0, qs.len() as int) =~= qs);
        }
        total
    }

    /// Update the pool's base fee (e.g., after EIP-1559 adjustment).
    /// Transactions submitted afterwards get their effective tip at the new
    /// base fee; the tips of pooled transactions are not recomputed.
    pub fn update_base_fee(&mut self, new_base_fee: u64)
        requires
            old(self).wf(),
        ensures
            final(self).wf(),
            final(self).config_spec() == (EvmTxPoolConfig { base_fee: new_base_fee, ..old(self).config_spec() }),
            final(self).queues() == old(self).queues(),
            final(self).nonce_fn_spec() == old(self).nonce_fn_spec(),
    {
        self.config.base_fee = new_base_fee;
    }

    /// Check if a tx hash is in the pool.
    pub fn contains(&self, hash: &B256) -> (r: bool)
        ensures
            r == pool_has_hash(self.queues(), hash@),
    {
        let ghost qs = self.queues();
        let mut k: usize = 0;
        while k < self.senders.len()
            invariant
                qs == self.queues(),
                k <= self.senders@.len(),
                forall|j: int|
                    0 <= j < k ==> !(has_hash(qs[j].pending, hash@) || has_hash(
                        qs[j].queued,
                        hash@,
                    )),
            decreases self.senders@.len() - k,
        {
            if vec_has_hash(&self.senders[k].pending, hash) || vec_has_hash(
                &self.senders[k].queued,
                hash,
            ) {
                assert(qs[k as int] == self.senders@[k as int]@);
                assert(has_hash(qs[k as int].pending, hash@) || has_hash(qs[k as int].queued, hash@));
                return true;
            }
            k = k + 1;
        }
        assert(!pool_has_hash(qs, hash@));
        false
    }
}

} // verus!
