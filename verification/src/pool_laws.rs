//! Properties of the transaction pool that span its operations.
use vstd::prelude::*;
use crate::txpool::{
    EntryView, EvmTxPoolConfig, QueueView, SubmitError, Candidate, commit_all, commit_queue,
    find_nonce, find_sender, has_hash, keep_from_nonce, lemma_find_nonce, lemma_find_sender,
    pool_has_hash, pool_wf, promote_queue, promote_spec, promote_start, put_queue, queue_of,
    goes_pending, submit_spec, total_pending, total_queued, entries_wf, lemma_promote_queue_wf,
    replacement_min_tip, selected, select_from, sort_by_tip, stable_insert, insert_pos_from,
    candidates_upto, queue_empty, max_nonce, remove_selected, candidates_in_range,
    lemma_candidates_in_range, lemma_sort_in_range, lemma_insert_pos_bound, queues_fit,
    min_nonce_index, candidate_entry, saturating_dec, nonces_distinct, lemma_max_nonce,
    lemma_min_nonce_index, min_nonce_index_upto, payload_bytes,
};

verus! {

/// Number of entries held by a queue.
pub open spec fn queue_size(q: QueueView) -> nat {
    q.pending.len() + q.queued.len()
}

/// Number of entries held by the pool.
pub open spec fn pool_size(qs: Seq<QueueView>) -> nat {
    total_pending(qs) + total_queued(qs)
}

/// A transaction whose hash the pool already holds is refused as already
/// known, and the pool is unchanged.
pub proof fn law_duplicate_rejected(
    qs: Seq<QueueView>,
    cfg: EvmTxPoolConfig,
    e: EntryView,
    current_nonce: u64,
)
    requires
        pool_has_hash(qs, e.hash),
    ensures
        submit_spec(qs, cfg, e, current_nonce) == (qs, Err::<Seq<u8>, SubmitError>(
            SubmitError::AlreadyKnown,
        )),
{
}

/// A new transaction whose nonce is below the sender's account nonce is
/// refused as "nonce too low", and the pool is unchanged.
pub proof fn law_nonce_too_low_rejected(
    qs: Seq<QueueView>,
    cfg: EvmTxPoolConfig,
    e: EntryView,
    current_nonce: u64,
)
    requires
        !pool_has_hash(qs, e.hash),
        e.fields.nonce < current_nonce,
    ensures
        submit_spec(qs, cfg, e, current_nonce) == (qs, Err::<Seq<u8>, SubmitError>(
            SubmitError::NonceTooLow { tx_nonce: e.fields.nonce, current: current_nonce },
        )),
{
}

/// A transaction that takes the (sender, nonce) slot of a pooled one must
/// raise the tip by the configured bump; otherwise it is refused and the
/// pool is unchanged.
pub proof fn law_replacement_needs_bump(
    qs: Seq<QueueView>,
    cfg: EvmTxPoolConfig,
    e: EntryView,
    current_nonce: u64,
)
    requires
        !pool_has_hash(qs, e.hash),
        e.fields.nonce >= current_nonce,
    ensures
        ({
            let q = queue_of(qs, e.sender);
            let side = if goes_pending(q, e.fields.nonce, current_nonce) {
                q.pending
            } else {
                q.queued
            };
            find_nonce(side, e.fields.nonce) matches Some(i) ==> (e.tip < replacement_min_tip(
                side[i].tip,
                cfg.replacement_bump_pct,
            ) ==> submit_spec(qs, cfg, e, current_nonce) == (qs, Err::<Seq<u8>, SubmitError>(
                SubmitError::Underpriced {
                    min_tip: replacement_min_tip(side[i].tip, cfg.replacement_bump_pct),
                    got: e.tip,
                },
            )))
        }),
{
}

proof fn lemma_promote_keeps_hash(
    p: Seq<EntryView>,
    q: Seq<EntryView>,
    next: u64,
    limit: usize,
    h: Seq<u8>,
)
    requires
        has_hash(p, h) || has_hash(q, h),
    ensures
        has_hash(promote_spec(p, q, next, limit).0, h) || has_hash(
            promote_spec(p, q, next, limit).1,
            h,
        ),
    decreases q.len(),
{
    if p.len() >= limit {
        return ;
    }
    lemma_find_nonce(q, next);
    match find_nonce(q, next) {
        Some(i) => {
            let p2 = p.push(q[i]);
            let q2 = q.remove(i);
            if has_hash(p, h) {
                let j = choose|j: int| 0 <= j < p.len() && p[j].hash == h;
                assert(p2[j] == p[j]);
            } else {
                let j = choose|j: int| 0 <= j < q.len() && q[j].hash == h;
                if j == i {
                    assert(p2[p.len() as int] == q[i]);
                } else if j < i {
                    assert(q2[j] == q[j]);
                } else {
                    assert(q2[j - 1] == q[j]);
                }
            }
            if next < u64::MAX {
                lemma_promote_keeps_hash(p2, q2, (next + 1) as u64, limit, h);
            }
        },
        None => {},
    }
}

proof fn lemma_promote_queue_keeps_hash(q: QueueView, n: u64, limit: usize, h: Seq<u8>)
    requires
        has_hash(q.pending, h) || has_hash(q.queued, h),
    ensures
        has_hash(promote_queue(q, n, limit).pending, h) || has_hash(
            promote_queue(q, n, limit).queued,
            h,
        ),
        promote_queue(q, n, limit).sender == q.sender,
{
    match promote_start(q.pending, n) {
        Some(next) => lemma_promote_keeps_hash(q.pending, q.queued, next, limit, h),
        None => {},
    }
}

/// After a successful submission the pool holds the transaction's hash.
pub proof fn law_submitted_is_contained(
    qs: Seq<QueueView>,
    cfg: EvmTxPoolConfig,
    e: EntryView,
    current_nonce: u64,
)
    requires
        submit_spec(qs, cfg, e, current_nonce).1 is Ok,
    ensures
        pool_has_hash(submit_spec(qs, cfg, e, current_nonce).0, e.hash),
        submit_spec(qs, cfg, e, current_nonce).1 == Ok::<Seq<u8>, SubmitError>(e.hash),
{
    let n = e.fields.nonce;
    let q = queue_of(qs, e.sender);
    let is_pending = goes_pending(q, n, current_nonce);
    let side = if is_pending {
        q.pending
    } else {
        q.queued
    };
    lemma_find_nonce(side, n);
    lemma_find_sender(qs, e.sender);
    let new_side = match find_nonce(side, n) {
        Some(i) => side.update(i, e),
        None => side.push(e),
    };
    let j = match find_nonce(side, n) {
        Some(i) => i,
        None => side.len() as int,
    };
    assert(new_side[j] == e);
    assert(has_hash(new_side, e.hash));
    let q1 = if is_pending {
        QueueView { pending: new_side, ..q }
    } else {
        QueueView { queued: new_side, ..q }
    };
    assert(q.sender == e.sender);
    lemma_promote_queue_keeps_hash(q1, current_nonce, cfg.max_pending_per_sender, e.hash);
    let q2 = promote_queue(q1, current_nonce, cfg.max_pending_per_sender);
    let r = put_queue(qs, q2);
    assert(r == submit_spec(qs, cfg, e, current_nonce).0);
    match find_sender(qs, q2.sender) {
        Some(k) => {
            assert(r[k] == q2);
        },
        None => {
            assert(r[qs.len() as int] == q2);
        },
    }
}

proof fn lemma_totals_update(qs: Seq<QueueView>, k: int, x: QueueView)
    requires
        0 <= k < qs.len(),
    ensures
        pool_size(qs.update(k, x)) + queue_size(qs[k]) == pool_size(qs) + queue_size(x),
    decreases qs.len(),
{
    let r = qs.update(k, x);
    if k == qs.len() - 1 {
        assert(r.drop_last() =~= qs.drop_last());
    } else {
        assert(r.drop_last() =~= qs.drop_last().update(k, x));
        lemma_totals_update(qs.drop_last(), k, x);
    }
}

proof fn lemma_totals_push(qs: Seq<QueueView>, x: QueueView)
    ensures
        pool_size(qs.push(x)) == pool_size(qs) + queue_size(x),
{
    assert(qs.push(x).drop_last() =~= qs);
}

/// A successful submission adds one entry to the pool, unless it replaced
/// a pooled transaction, in which case the number of entries is unchanged.
pub proof fn law_submit_size(
    qs: Seq<QueueView>,
    cfg: EvmTxPoolConfig,
    e: EntryView,
    current_nonce: u64,
)
    requires
        submit_spec(qs, cfg, e, current_nonce).1 is Ok,
    ensures
        ({
            let q = queue_of(qs, e.sender);
            let side = if goes_pending(q, e.fields.nonce, current_nonce) {
                q.pending
            } else {
                q.queued
            };
            pool_size(submit_spec(qs, cfg, e, current_nonce).0) == pool_size(qs) + if find_nonce(
                side,
                e.fields.nonce,
            ) is Some {
                0nat
            } else {
                1nat
            }
        }),
{
    let n = e.fields.nonce;
    let q = queue_of(qs, e.sender);
    let is_pending = goes_pending(q, n, current_nonce);
    let side = if is_pending {
        q.pending
    } else {
        q.queued
    };
    lemma_find_nonce(side, n);
    lemma_find_sender(qs, e.sender);
    let new_side = match find_nonce(side, n) {
        Some(i) => side.update(i, e),
        None => side.push(e),
    };
    let q1 = if is_pending {
        QueueView { pending: new_side, ..q }
    } else {
        QueueView { queued: new_side, ..q }
    };
    lemma_promote_size(q1, current_nonce, cfg.max_pending_per_sender);
    let q2 = promote_queue(q1, current_nonce, cfg.max_pending_per_sender);
    assert(q.sender == e.sender);
    match find_sender(qs, e.sender) {
        Some(k) => {
            lemma_totals_update(qs, k, q2);
        },
        None => {
            lemma_totals_push(qs, q2);
        },
    }
}

proof fn lemma_promote_spec_size(p: Seq<EntryView>, q: Seq<EntryView>, next: u64, limit: usize)
    ensures
        promote_spec(p, q, next, limit).0.len() + promote_spec(p, q, next, limit).1.len() == p.len()
            + q.len(),
        promote_spec(p, q, next, limit).0.len() <= if p.len() >= limit {
            p.len()
        } else {
            limit as nat
        },
        promote_spec(p, q, next, limit).0.len() >= p.len(),
    decreases q.len(),
{
    if p.len() >= limit {
        return ;
    }
    lemma_find_nonce(q, next);
    match find_nonce(q, next) {
        Some(i) => {
            if next < u64::MAX {
                lemma_promote_spec_size(p.push(q[i]), q.remove(i), (next + 1) as u64, limit);
            }
        },
        None => {},
    }
}

proof fn lemma_promote_size(q: QueueView, n: u64, limit: usize)
    ensures
        queue_size(promote_queue(q, n, limit)) == queue_size(q),
        promote_queue(q, n, limit).pending.len() <= if q.pending.len() >= limit {
            q.pending.len()
        } else {
            limit as nat
        },
        promote_queue(q, n, limit).sender == q.sender,
{
    match promote_start(q.pending, n) {
        Some(next) => lemma_promote_spec_size(q.pending, q.queued, next, limit),
        None => {},
    }
}

/// Whether tips never increase along `s`.
pub open spec fn tips_non_increasing(s: Seq<Candidate>) -> bool {
    forall|a: int, b: int| 0 <= a < b < s.len() ==> s[a].2 >= s[b].2
}

proof fn lemma_insert_pos_props(s: Seq<Candidate>, tip: u64, j: nat)
    requires
        j <= s.len(),
    ensures
        j <= insert_pos_from(s, tip, j) <= s.len(),
        forall|a: int| j <= a < insert_pos_from(s, tip, j) ==> s[a].2 >= tip,
        insert_pos_from(s, tip, j) < s.len() ==> s[insert_pos_from(s, tip, j) as int].2 < tip,
    decreases s.len() - j,
{
    if j < s.len() && s[j as int].2 >= tip {
        lemma_insert_pos_props(s, tip, j + 1);
    }
}

proof fn lemma_sort_non_increasing(c: Seq<Candidate>)
    ensures
        tips_non_increasing(sort_by_tip(c)),
        sort_by_tip(c).len() == c.len(),
    decreases c.len(),
{
    if c.len() > 0 {
        lemma_sort_non_increasing(c.drop_last());
        let s0 = sort_by_tip(c.drop_last());
        let x = c.last();
        lemma_insert_pos_props(s0, x.2, 0);
        let p = insert_pos_from(s0, x.2, 0) as int;
        let s = s0.insert(p, x);
        assert(s == sort_by_tip(c));
        assert forall|a: int, b: int| 0 <= a < b < s.len() implies s[a].2 >= s[b].2 by {
            if b < p {
                assert(s[a] == s0[a] && s[b] == s0[b]);
            } else if b == p {
                assert(s[a] == s0[a]);
            } else if a < p {
                assert(s[a] == s0[a] && s[b] == s0[b - 1]);
            } else if a == p {
                assert(s[b] == s0[b - 1]);
                assert(s0[p].2 < x.2);
                assert(s0[p].2 >= s0[b - 1].2 || p == b - 1);
            } else {
                assert(s[a] == s0[a - 1] && s[b] == s0[b - 1]);
            }
        }
    }
}

proof fn lemma_select_non_increasing(
    qs: Seq<QueueView>,
    s: Seq<Candidate>,
    j: nat,
    max_bytes: usize,
    max_gas: u64,
    ub: nat,
    ug: nat,
)
    requires
        tips_non_increasing(s),
    ensures
        tips_non_increasing(select_from(qs, s, j, max_bytes, max_gas, ub, ug)),
        forall|a: int|
            0 <= a < select_from(qs, s, j, max_bytes, max_gas, ub, ug).len() ==> j < s.len()
                && (#[trigger] select_from(qs, s, j, max_bytes, max_gas, ub, ug)[a]).2 <= s[j as int].2,
    decreases s.len() - j,
{
    if j < s.len() {
        let c = s[j as int];
        let e = qs[c.0 as int].pending[c.1 as int];
        let gas = e.fields.gas_limit;
        if ub + 4 + e.raw.len() > max_bytes {
        } else if max_gas > 0 && ug + gas > max_gas {
            lemma_select_non_increasing(qs, s, j + 1, max_bytes, max_gas, ub, ug);
        } else {
            let ub2 = ub + 4 + e.raw.len();
            let ug2: nat = if max_gas > 0 {
                (ug + gas) as nat
            } else {
                ug
            };
            lemma_select_non_increasing(qs, s, j + 1, max_bytes, max_gas, ub2, ug2);
            let rest = select_from(qs, s, j + 1, max_bytes, max_gas, ub2, ug2);
            let r = select_from(qs, s, j, max_bytes, max_gas, ub, ug);
            assert(r == seq![c] + rest);
            assert forall|a: int, b: int| 0 <= a < b < r.len() implies r[a].2 >= r[b].2 by {
                assert(r[b] == rest[b - 1]);
                if a > 0 {
                    assert(r[a] == rest[a - 1]);
                }
            }
            assert forall|a: int| 0 <= a < r.len() implies (#[trigger] r[a]).2 <= s[j as int].2 by {
                if a > 0 {
                    assert(r[a] == rest[a - 1]);
                }
            }
        }
    }
}

/// The transactions a payload includes come in order of effective tip,
/// highest first.
pub proof fn law_payload_tip_order(qs: Seq<QueueView>, max_bytes: usize, max_gas: u64)
    ensures
        tips_non_increasing(selected(qs, max_bytes, max_gas)),
{
    let c = candidates_upto(qs, qs.len());
    lemma_sort_non_increasing(c);
    lemma_select_non_increasing(qs, sort_by_tip(c), 0, max_bytes, max_gas, 0, 0);
}

/// Total gas limit of the selected candidates.
pub open spec fn selected_gas(qs: Seq<QueueView>, sel: Seq<Candidate>) -> nat
    decreases sel.len(),
{
    if sel.len() == 0 {
        0
    } else {
        (selected_gas(qs, sel.drop_last()) + qs[sel.last().0 as int].pending[sel.last().1 as int].fields.gas_limit) as nat
    }
}

proof fn lemma_selected_gas_cons(qs: Seq<QueueView>, c: Candidate, rest: Seq<Candidate>)
    ensures
        selected_gas(qs, seq![c] + rest) == qs[c.0 as int].pending[c.1 as int].fields.gas_limit
            + selected_gas(qs, rest),
    decreases rest.len(),
{
    let s = seq![c] + rest;
    let g = |x: Candidate| qs[x.0 as int].pending[x.1 as int].fields.gas_limit as nat;
    if rest.len() > 0 {
        assert(s.drop_last() =~= seq![c] + rest.drop_last());
        assert(s.last() == rest.last());
        lemma_selected_gas_cons(qs, c, rest.drop_last());
        assert(selected_gas(qs, s) == selected_gas(qs, s.drop_last()) + g(s.last()));
        assert(selected_gas(qs, rest) == selected_gas(qs, rest.drop_last()) + g(rest.last()));
    } else {
        assert(s.drop_last() =~= Seq::<Candidate>::empty());
        assert(s.last() == c);
        assert(selected_gas(qs, s) == selected_gas(qs, s.drop_last()) + g(s.last()));
        assert(rest =~= Seq::<Candidate>::empty());
    }
}

proof fn lemma_select_gas(
    qs: Seq<QueueView>,
    s: Seq<Candidate>,
    j: nat,
    max_bytes: usize,
    max_gas: u64,
    ub: nat,
    ug: nat,
)
    requires
        max_gas > 0,
        ug <= max_gas,
    ensures
        ug + selected_gas(qs, select_from(qs, s, j, max_bytes, max_gas, ub, ug)) <= max_gas,
    decreases s.len() - j,
{
    if j < s.len() {
        let c = s[j as int];
        let e = qs[c.0 as int].pending[c.1 as int];
        let gas = e.fields.gas_limit;
        if ub + 4 + e.raw.len() > max_bytes {
        } else if ug + gas > max_gas {
            lemma_select_gas(qs, s, j + 1, max_bytes, max_gas, ub, ug);
        } else {
            let ub2 = ub + 4 + e.raw.len();
            lemma_select_gas(qs, s, j + 1, max_bytes, max_gas, ub2, (ug + gas) as nat);
            lemma_selected_gas_cons(
                qs,
                c,
                select_from(qs, s, j + 1, max_bytes, max_gas, ub2, (ug + gas) as nat),
            );
        }
    }
}

/// With a positive gas budget, the transactions a payload includes have a
/// total gas limit within the budget.
pub proof fn law_payload_gas_bound(qs: Seq<QueueView>, max_bytes: usize, max_gas: u64)
    requires
        max_gas > 0,
    ensures
        selected_gas(qs, selected(qs, max_bytes, max_gas)) <= max_gas,
{
    lemma_select_gas(qs, sort_by_tip(candidates_upto(qs, qs.len())), 0, max_bytes, max_gas, 0, 0);
}

/// Every entry of `v` has nonce at least `n`.
pub open spec fn all_nonces_at_least(v: Seq<EntryView>, n: u64) -> bool {
    forall|i: int| 0 <= i < v.len() ==> (#[trigger] v[i]).fields.nonce >= n
}

proof fn lemma_keep_at_least(v: Seq<EntryView>, n: u64)
    ensures
        all_nonces_at_least(keep_from_nonce(v, n), n),
    decreases v.len(),
{
    if v.len() > 0 {
        lemma_keep_at_least(v.drop_last(), n);
        let r0 = keep_from_nonce(v.drop_last(), n);
        let r = keep_from_nonce(v, n);
        assert forall|i: int| 0 <= i < r.len() implies (#[trigger] r[i]).fields.nonce >= n by {
            if i < r0.len() {
                assert(r[i] == r0[i]);
            }
        }
    }
}

proof fn lemma_promote_at_least(
    p: Seq<EntryView>,
    q: Seq<EntryView>,
    next: u64,
    limit: usize,
    n: u64,
)
    requires
        all_nonces_at_least(p, n),
        all_nonces_at_least(q, n),
    ensures
        all_nonces_at_least(promote_spec(p, q, next, limit).0, n),
        all_nonces_at_least(promote_spec(p, q, next, limit).1, n),
    decreases q.len(),
{
    if p.len() >= limit {
        return ;
    }
    lemma_find_nonce(q, next);
    match find_nonce(q, next) {
        Some(i) => {
            let p2 = p.push(q[i]);
            let q2 = q.remove(i);
            assert forall|a: int| 0 <= a < p2.len() implies (#[trigger] p2[a]).fields.nonce >= n by {
                if a < p.len() {
                    assert(p2[a] == p[a]);
                }
            }
            assert forall|a: int| 0 <= a < q2.len() implies (#[trigger] q2[a]).fields.nonce >= n by {
                if a < i {
                    assert(q2[a] == q[a]);
                } else {
                    assert(q2[a] == q[a + 1]);
                }
            }
            if next < u64::MAX {
                lemma_promote_at_least(p2, q2, (next + 1) as u64, limit, n);
            }
        },
        None => {},
    }
}

proof fn lemma_commit_queue_at_least(q: QueueView, n: u64, limit: usize)
    ensures
        all_nonces_at_least(commit_queue(q, n, limit).pending, n),
        all_nonces_at_least(commit_queue(q, n, limit).queued, n),
        commit_queue(q, n, limit).sender == q.sender,
{
    lemma_keep_at_least(q.pending, n);
    lemma_keep_at_least(q.queued, n);
    let kq = QueueView {
        sender: q.sender,
        pending: keep_from_nonce(q.pending, n),
        queued: keep_from_nonce(q.queued, n),
    };
    match promote_start(kq.pending, n) {
        Some(next) => lemma_promote_at_least(kq.pending, kq.queued, next, limit, n),
        None => {},
    }
}

/// After a commit, no sender keeps a transaction whose nonce is below its
/// committed account nonce, and no sender keeps an empty queue.
pub proof fn law_commit_drops_stale(qs: Seq<QueueView>, ns: Seq<u64>, limit: usize)
    requires
        ns.len() == qs.len(),
    ensures
        forall|i: int|
            0 <= i < commit_all(qs, ns, limit).len() ==> exists|k: int|
                0 <= k < qs.len() && (#[trigger] commit_all(qs, ns, limit)[i]).sender
                    == qs[k].sender && all_nonces_at_least(
                    commit_all(qs, ns, limit)[i].pending,
                    ns[k],
                ) && all_nonces_at_least(commit_all(qs, ns, limit)[i].queued, ns[k]),
        forall|i: int|
            0 <= i < commit_all(qs, ns, limit).len() ==> !queue_empty(
                #[trigger] commit_all(qs, ns, limit)[i],
            ),
    decreases qs.len(),
{
    if qs.len() > 0 {
        let q0 = qs.drop_last();
        let n0 = ns.drop_last();
        law_commit_drops_stale(q0, n0, limit);
        let r0 = commit_all(q0, n0, limit);
        let r = commit_all(qs, ns, limit);
        let c = commit_queue(qs.last(), ns.last(), limit);
        lemma_commit_queue_at_least(qs.last(), ns.last(), limit);
        assert forall|i: int| 0 <= i < r.len() implies exists|k: int|
            0 <= k < qs.len() && (#[trigger] r[i]).sender == qs[k].sender && all_nonces_at_least(
                r[i].pending,
                ns[k],
            ) && all_nonces_at_least(r[i].queued, ns[k]) by {
            if i < r0.len() {
                let k = choose|k: int|
                    0 <= k < q0.len() && (#[trigger] r0[i]).sender == q0[k].sender
                        && all_nonces_at_least(r0[i].pending, n0[k]) && all_nonces_at_least(
                        r0[i].queued,
                        n0[k],
                    );
                assert(r[i] == r0[i]);
                assert(qs[k] == q0[k] && ns[k] == n0[k]);
            } else {
                assert(r[i] == c);
                let k = qs.len() - 1;
                assert(qs[k] == qs.last() && ns[k] == ns.last());
            }
        }
        assert forall|i: int| 0 <= i < r.len() implies !queue_empty(#[trigger] r[i]) by {
            if i < r0.len() {
                assert(r[i] == r0[i]);
            }
        }
    }
}

/// The largest nonce after appending an entry.
proof fn lemma_max_nonce_push(p: Seq<EntryView>, e: EntryView)
    ensures
        p.len() == 0 ==> max_nonce(p.push(e)) == e.fields.nonce,
        p.len() > 0 ==> max_nonce(p.push(e)) == if max_nonce(p) >= e.fields.nonce {
            max_nonce(p)
        } else {
            e.fields.nonce
        },
{
    assert(p.push(e).drop_last() =~= p);
    assert(p.push(e).last() == e);
}

proof fn lemma_promote_complete(
    p: Seq<EntryView>,
    q: Seq<EntryView>,
    next: u64,
    limit: usize,
    cur: u64,
)
    requires
        p.len() > 0 ==> max_nonce(p) + 1 == next,
        p.len() == 0 ==> next == cur,
    ensures
        promote_spec(p, q, next, limit).0.len() >= limit || match promote_start(
            promote_spec(p, q, next, limit).0,
            cur,
        ) {
            Some(n) => find_nonce(promote_spec(p, q, next, limit).1, n) is None,
            None => true,
        },
    decreases q.len(),
{
    if p.len() >= limit {
        return ;
    }
    lemma_find_nonce(q, next);
    match find_nonce(q, next) {
        Some(i) => {
            lemma_max_nonce_push(p, q[i]);
            if next != u64::MAX {
                lemma_promote_complete(p.push(q[i]), q.remove(i), (next + 1) as u64, limit, cur);
            }
        },
        None => {},
    }
}

/// Promotion moves every queued transaction that continues the pending
/// ones, up to the pending limit: afterwards either `limit` transactions
/// are pending, or the queued part holds no transaction at the nonce that
/// promotion would look for next.
pub proof fn law_promotion_complete(q: QueueView, current_nonce: u64, limit: usize)
    ensures
        promote_queue(q, current_nonce, limit).pending.len() >= limit || match promote_start(
            promote_queue(q, current_nonce, limit).pending,
            current_nonce,
        ) {
            Some(n) => find_nonce(promote_queue(q, current_nonce, limit).queued, n) is None,
            None => true,
        },
{
    match promote_start(q.pending, current_nonce) {
        Some(next) => {
            lemma_promote_complete(q.pending, q.queued, next, limit, current_nonce);
        },
        None => {},
    }
}

/// Promotion never lifts a sender past the pending limit: a queue that held
/// at most `limit` pending transactions still does afterwards.
pub proof fn law_promotion_within_limit(q: QueueView, current_nonce: u64, limit: usize)
    requires
        q.pending.len() <= limit,
    ensures
        promote_queue(q, current_nonce, limit).pending.len() <= limit,
{
    lemma_promote_size(q, current_nonce, limit);
}

/// Every sender holds at most `limit` pending transactions.
pub open spec fn pending_within(qs: Seq<QueueView>, limit: usize) -> bool {
    forall|k: int| 0 <= k < qs.len() ==> (#[trigger] qs[k]).pending.len() <= limit
}

/// A submission keeps every sender within `max_pending_per_sender` pending
/// transactions.
pub proof fn law_submit_within_pending_limit(
    qs: Seq<QueueView>,
    cfg: EvmTxPoolConfig,
    e: EntryView,
    current_nonce: u64,
)
    requires
        pending_within(qs, cfg.max_pending_per_sender),
    ensures
        pending_within(submit_spec(qs, cfg, e, current_nonce).0, cfg.max_pending_per_sender),
{
    let lim = cfg.max_pending_per_sender;
    let n = e.fields.nonce;
    if pool_has_hash(qs, e.hash) || n < current_nonce {
        return ;
    }
    let q = queue_of(qs, e.sender);
    let is_pending = goes_pending(q, n, current_nonce);
    let side = if is_pending {
        q.pending
    } else {
        q.queued
    };
    lemma_find_nonce(side, n);
    lemma_find_sender(qs, e.sender);
    assert(q.pending.len() <= lim) by {
        match find_sender(qs, e.sender) {
            Some(k) => assert(qs[k] == q),
            None => {},
        }
    }
    let r = submit_spec(qs, cfg, e, current_nonce).0;
    if r == qs {
        return ;
    }
    let new_side = match find_nonce(side, n) {
        Some(i) => side.update(i, e),
        None => side.push(e),
    };
    let q1 = if is_pending {
        QueueView { pending: new_side, ..q }
    } else {
        QueueView { queued: new_side, ..q }
    };
    assert(q1.pending.len() <= lim);
    lemma_promote_size(q1, current_nonce, lim);
    let q2 = promote_queue(q1, current_nonce, lim);
    assert(r == put_queue(qs, q2));
    assert forall|k: int| 0 <= k < r.len() implies (#[trigger] r[k]).pending.len() <= lim by {
        match find_sender(qs, q2.sender) {
            Some(j) => {
                if k != j {
                    assert(r[k] == qs[k]);
                }
            },
            None => {
                if k < qs.len() {
                    assert(r[k] == qs[k]);
                }
            },
        }
    }
}

/// No two candidates name the same queue.
pub open spec fn distinct_queues(c: Seq<Candidate>) -> bool {
    forall|a: int, b: int| 0 <= a < c.len() && 0 <= b < c.len() && a != b ==> (#[trigger] c[a]).0
        != (#[trigger] c[b]).0
}

proof fn lemma_candidates_distinct(qs: Seq<QueueView>, k: nat)
    requires
        k <= qs.len(),
        qs.len() <= usize::MAX,
    ensures
        distinct_queues(candidates_upto(qs, k)),
        forall|t: int| 0 <= t < candidates_upto(qs, k).len() ==> (#[trigger] candidates_upto(qs, k)[t]).0 < k,
    decreases k,
{
    if k > 0 {
        lemma_candidates_distinct(qs, (k - 1) as nat);
        let c = candidates_upto(qs, k);
        let c0 = candidates_upto(qs, (k - 1) as nat);
        if qs[k - 1].pending.len() == 0 {
            assert(c == c0);
        } else {
            let i = min_nonce_index(qs[k - 1].pending);
            let x = ((k - 1) as usize, i as usize, qs[k - 1].pending[i].tip);
            assert(c == c0.push(x));
            assert forall|t: int| 0 <= t < c.len() implies (#[trigger] c[t]).0 < k by {
                if t < c0.len() {
                    assert(c[t] == c0[t]);
                }
            }
            assert forall|a: int, b: int| 0 <= a < c.len() && 0 <= b < c.len() && a != b implies (
            #[trigger] c[a]).0 != (#[trigger] c[b]).0 by {
                if a < c0.len() {
                    assert(c[a] == c0[a]);
                    assert(c0[a].0 < k - 1);
                } else {
                    assert(c[a] == x);
                }
                if b < c0.len() {
                    assert(c[b] == c0[b]);
                    assert(c0[b].0 < k - 1);
                } else {
                    assert(c[b] == x);
                }
            }
        }
    }
}

proof fn lemma_sort_members(c: Seq<Candidate>)
    ensures
        sort_by_tip(c).len() == c.len(),
        forall|t: int| 0 <= t < sort_by_tip(c).len() ==> exists|u: int| 0 <= u < c.len() && #[trigger] sort_by_tip(c)[t] == c[u],
        distinct_queues(c) ==> distinct_queues(sort_by_tip(c)),
    decreases c.len(),
{
    if c.len() > 0 {
        let c0 = c.drop_last();
        lemma_sort_members(c0);
        let s0 = sort_by_tip(c0);
        lemma_insert_pos_bound(s0, c.last().2, 0);
        let p = insert_pos_from(s0, c.last().2, 0) as int;
        let s = sort_by_tip(c);
        assert(s == s0.insert(p, c.last()));
        assert forall|t: int| 0 <= t < s.len() implies exists|u: int| 0 <= u < c.len() && #[trigger] s[t] == c[u] by {
            if t < p {
                assert(s[t] == s0[t]);
                let u = choose|u: int| 0 <= u < c0.len() && s0[t] == c0[u];
                assert(c0[u] == c[u]);
            } else if t > p {
                assert(s[t] == s0[t - 1]);
                let u = choose|u: int| 0 <= u < c0.len() && s0[t - 1] == c0[u];
                assert(c0[u] == c[u]);
            } else {
                assert(s[t] == c[c.len() - 1]);
            }
        }
        if distinct_queues(c) {
            assert(distinct_queues(c0)) by {
                assert forall|a: int, b: int| 0 <= a < c0.len() && 0 <= b < c0.len() && a != b implies (
                #[trigger] c0[a]).0 != (#[trigger] c0[b]).0 by {
                    assert(c0[a] == c[a] && c0[b] == c[b]);
                }
            }
            let x = c.last();
            assert forall|t: int| 0 <= t < s0.len() implies (#[trigger] s0[t]).0 != x.0 by {
                let u = choose|u: int| 0 <= u < c0.len() && s0[t] == c0[u];
                assert(c0[u] == c[u]);
                assert(c[u].0 != c[c.len() - 1].0);
            }
            assert forall|a: int, b: int| 0 <= a < s.len() && 0 <= b < s.len() && a != b implies (
            #[trigger] s[a]).0 != (#[trigger] s[b]).0 by {
                let ia = if a < p { a } else if a > p { a - 1 } else { -1 };
                let ib = if b < p { b } else if b > p { b - 1 } else { -1 };
                if ia >= 0 {
                    assert(s[a] == s0[ia]);
                }
                if ib >= 0 {
                    assert(s[b] == s0[ib]);
                }
            }
        }
    }
}

proof fn lemma_select_members(
    qs: Seq<QueueView>,
    s: Seq<Candidate>,
    j: nat,
    max_bytes: usize,
    max_gas: u64,
    ub: nat,
    ug: nat,
)
    ensures
        forall|a: int|
            0 <= a < select_from(qs, s, j, max_bytes, max_gas, ub, ug).len() ==> exists|t: int|
                j <= t < s.len() && #[trigger] select_from(qs, s, j, max_bytes, max_gas, ub, ug)[a]
                    == s[t],
        distinct_queues(s) ==> distinct_queues(select_from(qs, s, j, max_bytes, max_gas, ub, ug)),
    decreases s.len() - j,
{
    if j < s.len() {
        let c = s[j as int];
        let e = candidate_entry(qs, c);
        let gas = e.fields.gas_limit;
        if ub + 4 + e.raw.len() > max_bytes {
        } else if max_gas > 0 && ug + gas > max_gas {
            lemma_select_members(qs, s, j + 1, max_bytes, max_gas, ub, ug);
            let r = select_from(qs, s, j, max_bytes, max_gas, ub, ug);
            let rest = select_from(qs, s, j + 1, max_bytes, max_gas, ub, ug);
            assert(r == rest);
            assert forall|a: int| 0 <= a < r.len() implies exists|t: int| j <= t < s.len() && #[trigger] r[a] == s[t] by {
                let t = choose|t: int| j + 1 <= t < s.len() && rest[a] == s[t];
            }
        } else {
            let ub2 = ub + 4 + e.raw.len();
            let ug2: nat = if max_gas > 0 {
                (ug + gas) as nat
            } else {
                ug
            };
            lemma_select_members(qs, s, j + 1, max_bytes, max_gas, ub2, ug2);
            let rest = select_from(qs, s, j + 1, max_bytes, max_gas, ub2, ug2);
            let r = select_from(qs, s, j, max_bytes, max_gas, ub, ug);
            assert(r == seq![c] + rest);
            assert forall|a: int| 0 <= a < r.len() implies exists|t: int| j <= t < s.len() && #[trigger] r[a] == s[t] by {
                if a > 0 {
                    assert(r[a] == rest[a - 1]);
                    let t = choose|t: int| j + 1 <= t < s.len() && rest[a - 1] == s[t];
                } else {
                    assert(r[0] == s[j as int]);
                }
            }
            if distinct_queues(s) {
                assert forall|a: int, b: int| 0 <= a < r.len() && 0 <= b < r.len() && a != b implies (
                #[trigger] r[a]).0 != (#[trigger] r[b]).0 by {
                    if a > 0 {
                        assert(r[a] == rest[a - 1]);
                    }
                    if b > 0 {
                        assert(r[b] == rest[b - 1]);
                    }
                    if a == 0 {
                        let t = choose|t: int| j + 1 <= t < s.len() && rest[b - 1] == s[t];
                        assert(s[j as int].0 != s[t].0);
                    } else if b == 0 {
                        let t = choose|t: int| j + 1 <= t < s.len() && rest[a - 1] == s[t];
                        assert(s[j as int].0 != s[t].0);
                    }
                }
            }
        }
    }
}

proof fn lemma_remove_selected_size(qs: Seq<QueueView>, sel: Seq<Candidate>)
    requires
        candidates_in_range(qs, sel),
        distinct_queues(sel),
    ensures
        remove_selected(qs, sel).len() == qs.len(),
        pool_size(remove_selected(qs, sel)) + sel.len() == pool_size(qs),
        forall|k: int|
            0 <= k < qs.len() && (forall|t: int| 0 <= t < sel.len() ==> (#[trigger] sel[t]).0 != k)
                ==> #[trigger] remove_selected(qs, sel)[k] == qs[k],
    decreases sel.len(),
{
    if sel.len() > 0 {
        let s0 = sel.drop_last();
        let c = sel.last();
        assert(candidates_in_range(qs, s0)) by {
            assert forall|t: int| 0 <= t < s0.len() implies {
                &&& (#[trigger] s0[t]).0 < qs.len()
                &&& s0[t].1 < qs[s0[t].0 as int].pending.len()
            } by {
                assert(s0[t] == sel[t]);
            }
        }
        assert(distinct_queues(s0)) by {
            assert forall|a: int, b: int| 0 <= a < s0.len() && 0 <= b < s0.len() && a != b implies (
            #[trigger] s0[a]).0 != (#[trigger] s0[b]).0 by {
                assert(s0[a] == sel[a] && s0[b] == sel[b]);
            }
        }
        lemma_remove_selected_size(qs, s0);
        let r = remove_selected(qs, s0);
        assert forall|t: int| 0 <= t < s0.len() implies (#[trigger] s0[t]).0 != c.0 by {
            assert(s0[t] == sel[t]);
            assert(sel[t].0 != sel[sel.len() - 1].0);
        }
        let k = c.0 as int;
        assert(sel[sel.len() - 1] == c);
        assert(r[k] == qs[k]);
        let x = QueueView { pending: r[k].pending.remove(c.1 as int), ..r[k] };
        lemma_totals_update(r, k, x);
        let rr = remove_selected(qs, sel);
        assert(rr == r.update(k, x));
        assert forall|m: int|
            0 <= m < qs.len() && (forall|t: int| 0 <= t < sel.len() ==> (#[trigger] sel[t]).0 != m)
                implies #[trigger] rr[m] == qs[m] by {
            assert forall|t: int| 0 <= t < s0.len() implies (#[trigger] s0[t]).0 != m by {
                assert(s0[t] == sel[t]);
            }
            assert(sel[sel.len() - 1].0 != m);
        }
    }
}

/// Collecting a payload takes its transactions out of the pool: the pool
/// holds as many fewer transactions as the payload includes.
pub proof fn law_payload_leaves_pool(qs: Seq<QueueView>, max_bytes: usize, max_gas: u64)
    requires
        queues_fit(qs),
    ensures
        pool_size(remove_selected(qs, selected(qs, max_bytes, max_gas))) + selected(
            qs,
            max_bytes,
            max_gas,
        ).len() == pool_size(qs),
{
    let c = candidates_upto(qs, qs.len());
    lemma_candidates_in_range(qs, qs.len());
    lemma_candidates_distinct(qs, qs.len());
    lemma_sort_in_range(qs, c);
    lemma_sort_members(c);
    let s = sort_by_tip(c);
    lemma_select_members(qs, s, 0, max_bytes, max_gas, 0, 0);
    let sel = selected(qs, max_bytes, max_gas);
    assert(candidates_in_range(qs, sel)) by {
        assert forall|t: int| 0 <= t < sel.len() implies {
            &&& (#[trigger] sel[t]).0 < qs.len()
            &&& sel[t].1 < qs[sel[t].0 as int].pending.len()
        } by {
            let u = choose|u: int| 0 <= u < s.len() && sel[t] == s[u];
        }
    }
    lemma_remove_selected_size(qs, sel);
}


// ---------------------------------------------------------------------------
// Transaction hashes
// ---------------------------------------------------------------------------

/// How many entries of `v` have hash `h`.
pub open spec fn hash_count(v: Seq<EntryView>, h: Seq<u8>) -> nat
    decreases v.len(),
{
    if v.len() == 0 {
        0
    } else {
        hash_count(v.drop_last(), h) + if v.last().hash == h {
            1nat
        } else {
            0nat
        }
    }
}

/// How many entries of a queue have hash `h`.
pub open spec fn queue_hash_count(q: QueueView, h: Seq<u8>) -> nat {
    hash_count(q.pending, h) + hash_count(q.queued, h)
}

/// How many entries of the pool have hash `h`.
pub open spec fn pool_hash_count(qs: Seq<QueueView>, h: Seq<u8>) -> nat
    decreases qs.len(),
{
    if qs.len() == 0 {
        0
    } else {
        pool_hash_count(qs.drop_last(), h) + queue_hash_count(qs.last(), h)
    }
}

/// No transaction hash occurs twice in the pool.
pub open spec fn hashes_unique(qs: Seq<QueueView>) -> bool {
    forall|h: Seq<u8>| #[trigger] pool_hash_count(qs, h) <= 1
}

/// 1 when `e` has hash `h`, else 0.
pub open spec fn hash_is(e: EntryView, h: Seq<u8>) -> nat {
    if e.hash == h {
        1
    } else {
        0
    }
}

proof fn lemma_count_push(v: Seq<EntryView>, x: EntryView, h: Seq<u8>)
    ensures
        hash_count(v.push(x), h) == hash_count(v, h) + hash_is(x, h),
{
    assert(v.push(x).drop_last() =~= v);
}

proof fn lemma_count_remove(v: Seq<EntryView>, i: int, h: Seq<u8>)
    requires
        0 <= i < v.len(),
    ensures
        hash_count(v.remove(i), h) + hash_is(v[i], h) == hash_count(v, h),
    decreases v.len(),
{
    if i == v.len() - 1 {
        assert(v.remove(i) =~= v.drop_last());
    } else {
        lemma_count_remove(v.drop_last(), i, h);
        assert(v.remove(i).drop_last() =~= v.drop_last().remove(i));
        assert(v.remove(i).last() == v.last());
    }
}

proof fn lemma_count_update(v: Seq<EntryView>, i: int, x: EntryView, h: Seq<u8>)
    requires
        0 <= i < v.len(),
    ensures
        hash_count(v.update(i, x), h) + hash_is(v[i], h) == hash_count(v, h) + hash_is(x, h),
    decreases v.len(),
{
    if i == v.len() - 1 {
        assert(v.update(i, x).drop_last() =~= v.drop_last());
    } else {
        lemma_count_update(v.drop_last(), i, x, h);
        assert(v.update(i, x).drop_last() =~= v.drop_last().update(i, x));
    }
}

/// An entry with hash `h` is counted.
proof fn lemma_count_has(v: Seq<EntryView>, h: Seq<u8>)
    ensures
        has_hash(v, h) <==> hash_count(v, h) > 0,
    decreases v.len(),
{
    if v.len() > 0 {
        let v0 = v.drop_last();
        lemma_count_has(v0, h);
        if has_hash(v0, h) {
            let j = choose|j: int| 0 <= j < v0.len() && v0[j].hash == h;
            assert(v[j] == v0[j]);
        }
        if has_hash(v, h) && v.last().hash != h {
            let j = choose|j: int| 0 <= j < v.len() && v[j].hash == h;
            assert(v0[j] == v[j]);
        }
        if v.last().hash == h {
            assert(v[v.len() - 1].hash == h);
        }
    }
}

proof fn lemma_pool_count_update(qs: Seq<QueueView>, k: int, x: QueueView, h: Seq<u8>)
    requires
        0 <= k < qs.len(),
    ensures
        pool_hash_count(qs.update(k, x), h) + queue_hash_count(qs[k], h) == pool_hash_count(qs, h)
            + queue_hash_count(x, h),
    decreases qs.len(),
{
    if k == qs.len() - 1 {
        assert(qs.update(k, x).drop_last() =~= qs.drop_last());
    } else {
        lemma_pool_count_update(qs.drop_last(), k, x, h);
        assert(qs.update(k, x).drop_last() =~= qs.drop_last().update(k, x));
    }
}

proof fn lemma_pool_count_push(qs: Seq<QueueView>, x: QueueView, h: Seq<u8>)
    ensures
        pool_hash_count(qs.push(x), h) == pool_hash_count(qs, h) + queue_hash_count(x, h),
{
    assert(qs.push(x).drop_last() =~= qs);
}

/// The pool holds `h` exactly when it counts an entry with hash `h`.
proof fn lemma_pool_count_has(qs: Seq<QueueView>, h: Seq<u8>)
    ensures
        pool_has_hash(qs, h) <==> pool_hash_count(qs, h) > 0,
        forall|k: int| 0 <= k < qs.len() ==> queue_hash_count(#[trigger] qs[k], h) <= pool_hash_count(qs, h),
    decreases qs.len(),
{
    if qs.len() > 0 {
        let q0 = qs.drop_last();
        lemma_pool_count_has(q0, h);
        lemma_count_has(qs.last().pending, h);
        lemma_count_has(qs.last().queued, h);
        assert forall|k: int| 0 <= k < qs.len() implies queue_hash_count(#[trigger] qs[k], h)
            <= pool_hash_count(qs, h) by {
            if k < q0.len() {
                assert(qs[k] == q0[k]);
            }
        }
        if pool_has_hash(qs, h) {
            let k = choose|k: int|
                0 <= k < qs.len() && (has_hash(qs[k].pending, h) || has_hash(qs[k].queued, h));
            lemma_count_has(qs[k].pending, h);
            lemma_count_has(qs[k].queued, h);
        }
        if pool_hash_count(qs, h) > 0 {
            if pool_hash_count(q0, h) > 0 {
                let k = choose|k: int|
                    0 <= k < q0.len() && (has_hash(q0[k].pending, h) || has_hash(q0[k].queued, h));
                assert(qs[k] == q0[k]);
            } else {
                assert(has_hash(qs[qs.len() - 1].pending, h) || has_hash(qs[qs.len() - 1].queued, h));
            }
        }
    }
}

proof fn lemma_promote_spec_count(
    p: Seq<EntryView>,
    q: Seq<EntryView>,
    next: u64,
    limit: usize,
    h: Seq<u8>,
)
    ensures
        hash_count(promote_spec(p, q, next, limit).0, h) + hash_count(
            promote_spec(p, q, next, limit).1,
            h,
        ) == hash_count(p, h) + hash_count(q, h),
    decreases q.len(),
{
    if p.len() >= limit {
        return ;
    }
    lemma_find_nonce(q, next);
    match find_nonce(q, next) {
        Some(i) => {
            lemma_count_push(p, q[i], h);
            lemma_count_remove(q, i, h);
            if next < u64::MAX {
                lemma_promote_spec_count(p.push(q[i]), q.remove(i), (next + 1) as u64, limit, h);
            }
        },
        None => {},
    }
}

/// Promotion moves entries within a queue: it keeps the count of every hash.
proof fn lemma_promote_count(q: QueueView, n: u64, limit: usize, h: Seq<u8>)
    ensures
        queue_hash_count(promote_queue(q, n, limit), h) == queue_hash_count(q, h),
{
    match promote_start(q.pending, n) {
        Some(next) => lemma_promote_spec_count(q.pending, q.queued, next, limit, h),
        None => {},
    }
}

proof fn lemma_keep_count(v: Seq<EntryView>, n: u64, h: Seq<u8>)
    ensures
        hash_count(keep_from_nonce(v, n), h) <= hash_count(v, h),
    decreases v.len(),
{
    if v.len() > 0 {
        lemma_keep_count(v.drop_last(), n, h);
        let r0 = keep_from_nonce(v.drop_last(), n);
        if v.last().fields.nonce >= n {
            lemma_count_push(r0, v.last(), h);
        }
    }
}

/// A commit only drops entries: no hash is counted more often afterwards.
pub proof fn law_commit_count(qs: Seq<QueueView>, ns: Seq<u64>, limit: usize, h: Seq<u8>)
    ensures
        pool_hash_count(commit_all(qs, ns, limit), h) <= pool_hash_count(qs, h),
    decreases qs.len(),
{
    if qs.len() > 0 && ns.len() > 0 {
        law_commit_count(qs.drop_last(), ns.drop_last(), limit, h);
        let r0 = commit_all(qs.drop_last(), ns.drop_last(), limit);
        let last = qs.last();
        let n = ns.last();
        let kq = QueueView {
            sender: last.sender,
            pending: keep_from_nonce(last.pending, n),
            queued: keep_from_nonce(last.queued, n),
        };
        lemma_keep_count(last.pending, n, h);
        lemma_keep_count(last.queued, n, h);
        lemma_promote_count(kq, n, limit, h);
        let c = commit_queue(last, n, limit);
        if !queue_empty(c) {
            lemma_pool_count_push(r0, c, h);
        }
    }
}

/// A commit keeps the pool's hashes unique.
pub proof fn law_commit_keeps_hashes_unique(qs: Seq<QueueView>, ns: Seq<u64>, limit: usize)
    requires
        hashes_unique(qs),
    ensures
        hashes_unique(commit_all(qs, ns, limit)),
{
    assert forall|h: Seq<u8>| #[trigger] pool_hash_count(commit_all(qs, ns, limit), h) <= 1 by {
        law_commit_count(qs, ns, limit, h);
        assert(pool_hash_count(qs, h) <= 1);
    }
}

/// Taking selected entries out of the pool counts no hash more often.
proof fn lemma_remove_selected_count(qs: Seq<QueueView>, sel: Seq<Candidate>, h: Seq<u8>)
    ensures
        pool_hash_count(remove_selected(qs, sel), h) <= pool_hash_count(qs, h),
    decreases sel.len(),
{
    if sel.len() > 0 {
        lemma_remove_selected_count(qs, sel.drop_last(), h);
        let c = sel.last();
        let r = remove_selected(qs, sel.drop_last());
        if c.0 < r.len() && c.1 < r[c.0 as int].pending.len() {
            let k = c.0 as int;
            let x = QueueView { pending: r[k].pending.remove(c.1 as int), ..r[k] };
            lemma_count_remove(r[k].pending, c.1 as int, h);
            lemma_pool_count_update(r, k, x, h);
        }
    }
}

/// Collecting a payload keeps the pool's hashes unique.
pub proof fn law_collect_keeps_hashes_unique(qs: Seq<QueueView>, sel: Seq<Candidate>)
    requires
        hashes_unique(qs),
    ensures
        hashes_unique(remove_selected(qs, sel)),
{
    assert forall|h: Seq<u8>| #[trigger] pool_hash_count(remove_selected(qs, sel), h) <= 1 by {
        lemma_remove_selected_count(qs, sel, h);
        assert(pool_hash_count(qs, h) <= 1);
    }
}

/// A submission keeps the pool's hashes unique: a hash the pool holds is
/// refused, and a replacement takes the place of the entry it replaces.
pub proof fn law_submit_keeps_hashes_unique(
    qs: Seq<QueueView>,
    cfg: EvmTxPoolConfig,
    e: EntryView,
    current_nonce: u64,
)
    requires
        hashes_unique(qs),
    ensures
        hashes_unique(submit_spec(qs, cfg, e, current_nonce).0),
{
    let n = e.fields.nonce;
    let r = submit_spec(qs, cfg, e, current_nonce).0;
    if pool_has_hash(qs, e.hash) || n < current_nonce || r == qs {
        return ;
    }
    let lim = cfg.max_pending_per_sender;
    let q = queue_of(qs, e.sender);
    let is_pending = goes_pending(q, n, current_nonce);
    let side = if is_pending {
        q.pending
    } else {
        q.queued
    };
    lemma_find_nonce(side, n);
    lemma_find_sender(qs, e.sender);
    let new_side = match find_nonce(side, n) {
        Some(i) => side.update(i, e),
        None => side.push(e),
    };
    let q1 = if is_pending {
        QueueView { pending: new_side, ..q }
    } else {
        QueueView { queued: new_side, ..q }
    };
    let q2 = promote_queue(q1, current_nonce, lim);
    assert(r == put_queue(qs, q2));
    assert forall|h: Seq<u8>| #[trigger] pool_hash_count(r, h) <= 1 by {
        lemma_promote_count(q1, current_nonce, lim, h);
        match find_nonce(side, n) {
            Some(i) => lemma_count_update(side, i, e, h),
            None => lemma_count_push(side, e, h),
        }
        assert(queue_hash_count(q1, h) <= queue_hash_count(q, h) + hash_is(e, h));
        lemma_pool_count_has(qs, e.hash);
        lemma_pool_count_has(qs, h);
        assert(pool_hash_count(qs, h) <= 1);
        match find_sender(qs, e.sender) {
            Some(k) => {
                assert(qs[k] == q);
                lemma_pool_count_update(qs, k, q2, h);
            },
            None => {
                assert(queue_hash_count(q, h) == 0) by {
                    assert(q.pending =~= Seq::<EntryView>::empty());
                    assert(q.queued =~= Seq::<EntryView>::empty());
                }
                lemma_pool_count_push(qs, q2, h);
            },
        }
    }
}

/// How many selected candidates name an entry with hash `h`.
pub open spec fn selected_hash_count(qs: Seq<QueueView>, sel: Seq<Candidate>, h: Seq<u8>) -> nat
    decreases sel.len(),
{
    if sel.len() == 0 {
        0
    } else {
        selected_hash_count(qs, sel.drop_last(), h) + hash_is(candidate_entry(qs, sel.last()), h)
    }
}

proof fn lemma_selected_hash_count(qs: Seq<QueueView>, sel: Seq<Candidate>, h: Seq<u8>)
    ensures
        (exists|t: int| 0 <= t < sel.len() && candidate_entry(qs, #[trigger] sel[t]).hash == h)
            ==> selected_hash_count(qs, sel, h) > 0,
        (forall|t: int| 0 <= t < sel.len() ==> candidate_entry(qs, #[trigger] sel[t]).hash != h)
            ==> selected_hash_count(qs, sel, h) == 0,
    decreases sel.len(),
{
    if sel.len() > 0 {
        let s0 = sel.drop_last();
        lemma_selected_hash_count(qs, s0, h);
        if exists|t: int| 0 <= t < sel.len() && candidate_entry(qs, #[trigger] sel[t]).hash == h {
            let t = choose|t: int| 0 <= t < sel.len() && candidate_entry(qs, #[trigger] sel[t]).hash == h;
            if t < s0.len() {
                assert(s0[t] == sel[t]);
            }
        }
        if forall|t: int| 0 <= t < sel.len() ==> candidate_entry(qs, #[trigger] sel[t]).hash != h {
            assert forall|t: int| 0 <= t < s0.len() implies candidate_entry(qs, #[trigger] s0[t]).hash != h by {
                assert(s0[t] == sel[t]);
            }
            assert(candidate_entry(qs, sel[sel.len() - 1]).hash != h);
        }
    }
}

proof fn lemma_remove_selected_exact(qs: Seq<QueueView>, sel: Seq<Candidate>, h: Seq<u8>)
    requires
        candidates_in_range(qs, sel),
        distinct_queues(sel),
    ensures
        pool_hash_count(remove_selected(qs, sel), h) + selected_hash_count(qs, sel, h)
            == pool_hash_count(qs, h),
    decreases sel.len(),
{
    if sel.len() > 0 {
        let s0 = sel.drop_last();
        let c = sel.last();
        assert(candidates_in_range(qs, s0)) by {
            assert forall|t: int| 0 <= t < s0.len() implies {
                &&& (#[trigger] s0[t]).0 < qs.len()
                &&& s0[t].1 < qs[s0[t].0 as int].pending.len()
            } by {
                assert(s0[t] == sel[t]);
            }
        }
        assert(distinct_queues(s0)) by {
            assert forall|a: int, b: int| 0 <= a < s0.len() && 0 <= b < s0.len() && a != b implies (
            #[trigger] s0[a]).0 != (#[trigger] s0[b]).0 by {
                assert(s0[a] == sel[a] && s0[b] == sel[b]);
            }
        }
        lemma_remove_selected_exact(qs, s0, h);
        lemma_remove_selected_size(qs, s0);
        let r = remove_selected(qs, s0);
        assert forall|t: int| 0 <= t < s0.len() implies (#[trigger] s0[t]).0 != c.0 by {
            assert(s0[t] == sel[t]);
            assert(sel[t].0 != sel[sel.len() - 1].0);
        }
        let k = c.0 as int;
        assert(sel[sel.len() - 1] == c);
        assert(r[k] == qs[k]);
        let x = QueueView { pending: r[k].pending.remove(c.1 as int), ..r[k] };
        lemma_count_remove(r[k].pending, c.1 as int, h);
        lemma_pool_count_update(r, k, x, h);
        assert(remove_selected(qs, sel) == r.update(k, x));
    }
}

/// Collecting a payload takes exactly its transactions out of the pool:
/// afterwards the pool holds none of their hashes, and it holds every
/// other hash exactly when it held it before.
pub proof fn law_collect_removes_included(qs: Seq<QueueView>, max_bytes: usize, max_gas: u64)
    requires
        queues_fit(qs),
        hashes_unique(qs),
    ensures
        ({
            let sel = selected(qs, max_bytes, max_gas);
            let r = remove_selected(qs, sel);
            &&& forall|t: int|
                0 <= t < sel.len() ==> !pool_has_hash(r, candidate_entry(qs, #[trigger] sel[t]).hash)
            &&& forall|h: Seq<u8>|
                (forall|t: int| 0 <= t < sel.len() ==> candidate_entry(qs, #[trigger] sel[t]).hash != h)
                    ==> (#[trigger] pool_has_hash(r, h) == pool_has_hash(qs, h))
        }),
{
    let c = candidates_upto(qs, qs.len());
    lemma_candidates_in_range(qs, qs.len());
    lemma_candidates_distinct(qs, qs.len());
    lemma_sort_in_range(qs, c);
    lemma_sort_members(c);
    let s = sort_by_tip(c);
    lemma_select_members(qs, s, 0, max_bytes, max_gas, 0, 0);
    let sel = selected(qs, max_bytes, max_gas);
    assert(candidates_in_range(qs, sel)) by {
        assert forall|t: int| 0 <= t < sel.len() implies {
            &&& (#[trigger] sel[t]).0 < qs.len()
            &&& sel[t].1 < qs[sel[t].0 as int].pending.len()
        } by {
            let u = choose|u: int| 0 <= u < s.len() && sel[t] == s[u];
        }
    }
    lemma_remove_selected_size(qs, sel);
    let r = remove_selected(qs, sel);
    assert forall|t: int| 0 <= t < sel.len() implies !pool_has_hash(
        r,
        candidate_entry(qs, #[trigger] sel[t]).hash,
    ) by {
        let h = candidate_entry(qs, sel[t]).hash;
        lemma_remove_selected_exact(qs, sel, h);
        lemma_selected_hash_count(qs, sel, h);
        assert(pool_hash_count(qs, h) <= 1);
        lemma_pool_count_has(r, h);
    }
    assert forall|h: Seq<u8>|
        (forall|t: int| 0 <= t < sel.len() ==> candidate_entry(qs, #[trigger] sel[t]).hash != h)
            implies (#[trigger] pool_has_hash(r, h) == pool_has_hash(qs, h)) by {
        lemma_remove_selected_exact(qs, sel, h);
        lemma_selected_hash_count(qs, sel, h);
        lemma_pool_count_has(r, h);
        lemma_pool_count_has(qs, h);
    }
}

proof fn lemma_keep_len(v: Seq<EntryView>, n: u64)
    ensures
        keep_from_nonce(v, n).len() <= v.len(),
    decreases v.len(),
{
    if v.len() > 0 {
        lemma_keep_len(v.drop_last(), n);
    }
}

/// A commit keeps every sender within `limit` pending transactions.
pub proof fn law_commit_within_pending_limit(qs: Seq<QueueView>, ns: Seq<u64>, limit: usize)
    requires
        pending_within(qs, limit),
    ensures
        pending_within(commit_all(qs, ns, limit), limit),
    decreases qs.len(),
{
    if qs.len() > 0 && ns.len() > 0 {
        let q0 = qs.drop_last();
        assert(pending_within(q0, limit)) by {
            assert forall|k: int| 0 <= k < q0.len() implies (#[trigger] q0[k]).pending.len() <= limit by {
                assert(q0[k] == qs[k]);
            }
        }
        law_commit_within_pending_limit(q0, ns.drop_last(), limit);
        let r0 = commit_all(q0, ns.drop_last(), limit);
        let last = qs.last();
        let n = ns.last();
        assert(last == qs[qs.len() - 1]);
        let kq = QueueView {
            sender: last.sender,
            pending: keep_from_nonce(last.pending, n),
            queued: keep_from_nonce(last.queued, n),
        };
        lemma_keep_len(last.pending, n);
        lemma_promote_size(kq, n, limit);
        let c = commit_queue(last, n, limit);
        let r = commit_all(qs, ns, limit);
        assert forall|k: int| 0 <= k < r.len() implies (#[trigger] r[k]).pending.len() <= limit by {
            if k < r0.len() {
                assert(r[k] == r0[k]);
            } else {
                assert(r[k] == c);
            }
        }
    }
}

/// Collecting a payload keeps every sender within `limit` pending
/// transactions.
pub proof fn law_collect_within_pending_limit(qs: Seq<QueueView>, sel: Seq<Candidate>, limit: usize)
    requires
        pending_within(qs, limit),
    ensures
        pending_within(remove_selected(qs, sel), limit),
    decreases sel.len(),
{
    if sel.len() > 0 {
        law_collect_within_pending_limit(qs, sel.drop_last(), limit);
        let c = sel.last();
        let r = remove_selected(qs, sel.drop_last());
        if c.0 < r.len() && c.1 < r[c.0 as int].pending.len() {
            let k = c.0 as int;
            let x = QueueView { pending: r[k].pending.remove(c.1 as int), ..r[k] };
            let rr = r.update(k, x);
            assert forall|m: int| 0 <= m < rr.len() implies (#[trigger] rr[m]).pending.len() <= limit by {
                assert(r[m].pending.len() <= limit);
            }
        }
    }
}

// ---------------------------------------------------------------------------
// Pending nonces without gaps
// ---------------------------------------------------------------------------

/// Whether some entry of `v` has nonce `m`.
pub open spec fn has_nonce(v: Seq<EntryView>, m: int) -> bool {
    exists|k: int| 0 <= k < v.len() && v[k].fields.nonce == m
}

/// Every nonce between two nonces of `v` is a nonce of `v` too: with
/// distinct nonces, they are consecutive.
pub open spec fn no_gaps(v: Seq<EntryView>) -> bool {
    forall|i: int, j: int, m: int|
        #![trigger v[i], v[j], has_nonce(v, m)]
        0 <= i < v.len() && 0 <= j < v.len() && v[i].fields.nonce <= m <= v[j].fields.nonce
            ==> has_nonce(v, m)
}

/// Every sender's pending nonces are consecutive.
pub open spec fn pending_gap_free(qs: Seq<QueueView>) -> bool {
    forall|k: int| 0 <= k < qs.len() ==> no_gaps(#[trigger] qs[k].pending)
}

/// The account nonce sits in line with the pending entries: there are
/// none, or one of them has the account nonce or a nonce next to it.
pub open spec fn in_line(p: Seq<EntryView>, current_nonce: u64) -> bool {
    p.len() == 0 || has_nonce(p, current_nonce as int) || has_nonce(p, current_nonce - 1)
        || has_nonce(p, current_nonce + 1)
}

proof fn lemma_has_nonce_push(p: Seq<EntryView>, x: EntryView, m: int)
    ensures
        has_nonce(p.push(x), m) <==> (has_nonce(p, m) || x.fields.nonce == m),
{
    let p2 = p.push(x);
    if has_nonce(p, m) {
        let k = choose|k: int| 0 <= k < p.len() && p[k].fields.nonce == m;
        assert(p2[k] == p[k]);
    }
    if x.fields.nonce == m {
        assert(p2[p.len() as int] == x);
    }
    if has_nonce(p2, m) && x.fields.nonce != m {
        let k = choose|k: int| 0 <= k < p2.len() && p2[k].fields.nonce == m;
        assert(p[k] == p2[k]);
    }
}

/// Appending a nonce that is not there and sits next to the others keeps
/// them without gaps.
proof fn lemma_push_no_gaps(p: Seq<EntryView>, x: EntryView)
    requires
        no_gaps(p),
        !has_nonce(p, x.fields.nonce as int),
        p.len() == 0 || has_nonce(p, x.fields.nonce - 1) || has_nonce(p, x.fields.nonce + 1),
    ensures
        no_gaps(p.push(x)),
{
    let p2 = p.push(x);
    let xn = x.fields.nonce as int;
    assert forall|i: int, j: int, m: int|
        #![trigger p2[i], p2[j], has_nonce(p2, m)]
        0 <= i < p2.len() && 0 <= j < p2.len() && p2[i].fields.nonce <= m <= p2[j].fields.nonce
            implies has_nonce(p2, m) by {
        lemma_has_nonce_push(p, x, m);
        if m != xn {
            if i < p.len() && j < p.len() {
                assert(p2[i] == p[i] && p2[j] == p[j]);
                assert(has_nonce(p, m));
            } else if i == p.len() {
                assert(j < p.len());
                assert(p2[j] == p[j]);
                if has_nonce(p, xn + 1) {
                    let k = choose|k: int| 0 <= k < p.len() && p[k].fields.nonce == xn + 1;
                    assert(has_nonce(p, m));
                } else {
                    let k = choose|k: int| 0 <= k < p.len() && p[k].fields.nonce == xn - 1;
                    assert(has_nonce(p, xn));
                }
            } else {
                assert(i < p.len());
                assert(p2[i] == p[i]);
                if has_nonce(p, xn - 1) {
                    let k = choose|k: int| 0 <= k < p.len() && p[k].fields.nonce == xn - 1;
                    assert(has_nonce(p, m));
                } else {
                    let k = choose|k: int| 0 <= k < p.len() && p[k].fields.nonce == xn + 1;
                    assert(has_nonce(p, xn));
                }
            }
        }
    }
}

/// Writing an entry over one with the same nonce keeps the nonces.
proof fn lemma_update_no_gaps(p: Seq<EntryView>, i: int, x: EntryView)
    requires
        no_gaps(p),
        0 <= i < p.len(),
        p[i].fields.nonce == x.fields.nonce,
    ensures
        no_gaps(p.update(i, x)),
{
    let p2 = p.update(i, x);
    assert forall|m: int| has_nonce(p2, m) <==> has_nonce(p, m) by {
        if has_nonce(p, m) {
            let k = choose|k: int| 0 <= k < p.len() && p[k].fields.nonce == m;
            assert(p2[k].fields.nonce == m);
        }
        if has_nonce(p2, m) {
            let k = choose|k: int| 0 <= k < p2.len() && p2[k].fields.nonce == m;
            assert(p[k].fields.nonce == m);
        }
    }
    assert forall|a: int, b: int, m: int|
        #![trigger p2[a], p2[b], has_nonce(p2, m)]
        0 <= a < p2.len() && 0 <= b < p2.len() && p2[a].fields.nonce <= m <= p2[b].fields.nonce
            implies has_nonce(p2, m) by {
        assert(p2[a].fields.nonce == p[a].fields.nonce);
        assert(p2[b].fields.nonce == p[b].fields.nonce);
        assert(has_nonce(p, m));
    }
}

proof fn lemma_max_nonce_member(v: Seq<EntryView>)
    requires
        v.len() > 0,
    ensures
        has_nonce(v, max_nonce(v) as int),
    decreases v.len(),
{
    if v.len() == 1 {
        assert(v[0].fields.nonce == max_nonce(v));
    } else {
        lemma_max_nonce_member(v.drop_last());
        if max_nonce(v.drop_last()) >= v.last().fields.nonce {
            let k = choose|k: int|
                0 <= k < v.drop_last().len() && v.drop_last()[k].fields.nonce == max_nonce(
                    v.drop_last(),
                );
            assert(v[k] == v.drop_last()[k]);
        } else {
            assert(v[v.len() - 1].fields.nonce == max_nonce(v));
        }
    }
}

proof fn lemma_promote_no_gaps(p: Seq<EntryView>, q: Seq<EntryView>, next: u64, limit: usize)
    requires
        no_gaps(p),
        forall|i: int| 0 <= i < p.len() ==> p[i].fields.nonce < next,
        p.len() > 0 ==> has_nonce(p, next - 1),
    ensures
        no_gaps(promote_spec(p, q, next, limit).0),
    decreases q.len(),
{
    if p.len() >= limit {
        return ;
    }
    lemma_find_nonce(q, next);
    match find_nonce(q, next) {
        Some(i) => {
            let x = q[i];
            let p2 = p.push(x);
            assert(!has_nonce(p, next as int));
            lemma_push_no_gaps(p, x);
            lemma_has_nonce_push(p, x, next as int);
            if next < u64::MAX {
                assert forall|a: int| 0 <= a < p2.len() implies p2[a].fields.nonce < next + 1 by {
                    if a < p.len() {
                        assert(p2[a] == p[a]);
                    }
                }
                lemma_promote_no_gaps(p2, q.remove(i), (next + 1) as u64, limit);
            }
        },
        None => {},
    }
}

/// Promotion keeps a sender's pending nonces without gaps.
proof fn lemma_promote_queue_no_gaps(q: QueueView, n: u64, limit: usize)
    requires
        no_gaps(q.pending),
    ensures
        no_gaps(promote_queue(q, n, limit).pending),
{
    if q.pending.len() > 0 {
        lemma_max_nonce(q.pending);
        lemma_max_nonce_member(q.pending);
    }
    match promote_start(q.pending, n) {
        Some(next) => lemma_promote_no_gaps(q.pending, q.queued, next, limit),
        None => {},
    }
}

proof fn lemma_keep_members(v: Seq<EntryView>, n: u64)
    ensures
        forall|i: int|
            0 <= i < keep_from_nonce(v, n).len() ==> exists|j: int|
                0 <= j < v.len() && #[trigger] keep_from_nonce(v, n)[i] == v[j],
        forall|j: int|
            0 <= j < v.len() && (#[trigger] v[j]).fields.nonce >= n ==> exists|i: int|
                0 <= i < keep_from_nonce(v, n).len() && keep_from_nonce(v, n)[i] == v[j],
    decreases v.len(),
{
    if v.len() > 0 {
        let v0 = v.drop_last();
        lemma_keep_members(v0, n);
        let r0 = keep_from_nonce(v0, n);
        let r = keep_from_nonce(v, n);
        assert forall|i: int| 0 <= i < r.len() implies exists|j: int|
            0 <= j < v.len() && #[trigger] r[i] == v[j] by {
            if i < r0.len() {
                let j = choose|j: int| 0 <= j < v0.len() && r0[i] == v0[j];
                assert(r[i] == r0[i]);
                assert(v[j] == v0[j]);
            } else {
                assert(r[i] == v[v.len() - 1]);
            }
        }
        assert forall|j: int| 0 <= j < v.len() && (#[trigger] v[j]).fields.nonce >= n implies exists|
            i: int,
        | 0 <= i < r.len() && r[i] == v[j] by {
            if j < v0.len() {
                assert(v0[j] == v[j]);
                let i = choose|i: int| 0 <= i < r0.len() && r0[i] == v0[j];
                assert(r[i] == r0[i]);
            } else {
                assert(r[r.len() - 1] == v[j]);
            }
        }
    }
}

/// Dropping the entries below a nonce keeps the others without gaps.
proof fn lemma_keep_no_gaps(v: Seq<EntryView>, n: u64)
    requires
        no_gaps(v),
    ensures
        no_gaps(keep_from_nonce(v, n)),
{
    lemma_keep_members(v, n);
    lemma_keep_at_least(v, n);
    let r = keep_from_nonce(v, n);
    assert forall|i: int, j: int, m: int|
        #![trigger r[i], r[j], has_nonce(r, m)]
        0 <= i < r.len() && 0 <= j < r.len() && r[i].fields.nonce <= m <= r[j].fields.nonce
            implies has_nonce(r, m) by {
        let a = choose|a: int| 0 <= a < v.len() && r[i] == v[a];
        let b = choose|b: int| 0 <= b < v.len() && r[j] == v[b];
        assert(has_nonce(v, m));
        let k = choose|k: int| 0 <= k < v.len() && v[k].fields.nonce == m;
        assert(r[i].fields.nonce >= n);
        assert(v[k].fields.nonce >= n);
        let c = choose|c: int| 0 <= c < r.len() && r[c] == v[k];
        assert(r[c].fields.nonce == m);
    }
}

/// A commit keeps every sender's pending nonces consecutive.
pub proof fn law_commit_keeps_pending_gap_free(qs: Seq<QueueView>, ns: Seq<u64>, limit: usize)
    requires
        pending_gap_free(qs),
    ensures
        pending_gap_free(commit_all(qs, ns, limit)),
    decreases qs.len(),
{
    if qs.len() > 0 && ns.len() > 0 {
        let q0 = qs.drop_last();
        assert(pending_gap_free(q0)) by {
            assert forall|k: int| 0 <= k < q0.len() implies no_gaps(#[trigger] q0[k].pending) by {
                assert(q0[k] == qs[k]);
            }
        }
        law_commit_keeps_pending_gap_free(q0, ns.drop_last(), limit);
        let r0 = commit_all(q0, ns.drop_last(), limit);
        let last = qs.last();
        let n = ns.last();
        assert(no_gaps(qs[qs.len() - 1].pending));
        lemma_keep_no_gaps(last.pending, n);
        let kq = QueueView {
            sender: last.sender,
            pending: keep_from_nonce(last.pending, n),
            queued: keep_from_nonce(last.queued, n),
        };
        lemma_promote_queue_no_gaps(kq, n, limit);
        let c = commit_queue(last, n, limit);
        let r = commit_all(qs, ns, limit);
        assert forall|k: int| 0 <= k < r.len() implies no_gaps(#[trigger] r[k].pending) by {
            if k < r0.len() {
                assert(r[k] == r0[k]);
            } else {
                assert(r[k] == c);
            }
        }
    }
}

/// A submission keeps every sender's pending nonces consecutive, when the
/// sender's account nonce is in line with its pending entries. Otherwise
/// a transaction at the account nonce can land apart from them: pending
/// 5 and 6 with account nonce 3 (two payloads collected, none committed)
/// take a new nonce-3 transaction to pending.
pub proof fn law_submit_keeps_pending_gap_free(
    qs: Seq<QueueView>,
    cfg: EvmTxPoolConfig,
    e: EntryView,
    current_nonce: u64,
)
    requires
        pending_gap_free(qs),
        in_line(queue_of(qs, e.sender).pending, current_nonce),
    ensures
        pending_gap_free(submit_spec(qs, cfg, e, current_nonce).0),
{
    let n = e.fields.nonce;
    let r = submit_spec(qs, cfg, e, current_nonce).0;
    if pool_has_hash(qs, e.hash) || n < current_nonce || r == qs {
        return ;
    }
    let lim = cfg.max_pending_per_sender;
    let q = queue_of(qs, e.sender);
    lemma_find_sender(qs, e.sender);
    assert(no_gaps(q.pending)) by {
        match find_sender(qs, e.sender) {
            Some(k) => assert(qs[k] == q),
            None => {},
        }
    }
    let is_pending = goes_pending(q, n, current_nonce);
    let side = if is_pending {
        q.pending
    } else {
        q.queued
    };
    lemma_find_nonce(side, n);
    let new_side = match find_nonce(side, n) {
        Some(i) => side.update(i, e),
        None => side.push(e),
    };
    let q1 = if is_pending {
        QueueView { pending: new_side, ..q }
    } else {
        QueueView { queued: new_side, ..q }
    };
    if is_pending {
        match find_nonce(side, n) {
            Some(i) => lemma_update_no_gaps(side, i, e),
            None => {
                assert(!has_nonce(side, n as int));
                if n != current_nonce {
                    lemma_find_nonce(q.pending, saturating_dec(n));
                    let j = find_nonce(q.pending, saturating_dec(n))->Some_0;
                    assert(n > 0);
                    assert(has_nonce(side, n - 1)) by {
                        assert(side[j].fields.nonce == n - 1);
                    }
                }
                lemma_push_no_gaps(side, e);
            },
        }
    }
    assert(no_gaps(q1.pending));
    lemma_promote_queue_no_gaps(q1, current_nonce, lim);
    let q2 = promote_queue(q1, current_nonce, lim);
    assert(r == put_queue(qs, q2));
    assert forall|k: int| 0 <= k < r.len() implies no_gaps(#[trigger] r[k].pending) by {
        match find_sender(qs, q2.sender) {
            Some(j) => {
                if k != j {
                    assert(r[k] == qs[k]);
                }
            },
            None => {
                if k < qs.len() {
                    assert(r[k] == qs[k]);
                }
            },
        }
    }
}

proof fn lemma_min_index_upto_is_min(v: Seq<EntryView>, j: nat)
    requires
        1 <= j <= v.len(),
    ensures
        0 <= min_nonce_index_upto(v, j) < j,
        forall|k: int| 0 <= k < j ==> v[min_nonce_index_upto(v, j)].fields.nonce <= (#[trigger] v[k]).fields.nonce,
    decreases j,
{
    if j > 1 {
        lemma_min_index_upto_is_min(v, (j - 1) as nat);
    }
}

/// Taking out the entry with the lowest nonce keeps the others without
/// gaps.
proof fn lemma_remove_min_no_gaps(p: Seq<EntryView>)
    requires
        p.len() > 0,
        no_gaps(p),
        nonces_distinct(p),
    ensures
        no_gaps(p.remove(min_nonce_index(p))),
{
    let i = min_nonce_index(p);
    lemma_min_index_upto_is_min(p, p.len());
    let p2 = p.remove(i);
    assert forall|a: int, b: int, m: int|
        #![trigger p2[a], p2[b], has_nonce(p2, m)]
        0 <= a < p2.len() && 0 <= b < p2.len() && p2[a].fields.nonce <= m <= p2[b].fields.nonce
            implies has_nonce(p2, m) by {
        let a0 = if a < i { a } else { a + 1 };
        let b0 = if b < i { b } else { b + 1 };
        assert(p2[a] == p[a0]);
        assert(p2[b] == p[b0]);
        assert(has_nonce(p, m));
        let k = choose|k: int| 0 <= k < p.len() && p[k].fields.nonce == m;
        assert(k != i) by {
            if k == i {
                assert(p[i].fields.nonce <= p[a0].fields.nonce);
                assert(p[a0].fields.nonce != p[i].fields.nonce);
            }
        }
        if k < i {
            assert(p2[k] == p[k]);
        } else {
            assert(p2[k - 1] == p[k]);
        }
    }
}

proof fn lemma_candidates_first(qs: Seq<QueueView>, k: nat)
    requires
        k <= qs.len(),
        queues_fit(qs),
    ensures
        forall|t: int|
            0 <= t < candidates_upto(qs, k).len() ==> (#[trigger] candidates_upto(qs, k)[t]).1
                == min_nonce_index(qs[candidates_upto(qs, k)[t].0 as int].pending),
    decreases k,
{
    if k > 0 {
        lemma_candidates_first(qs, (k - 1) as nat);
        lemma_candidates_in_range(qs, k);
        let c0 = candidates_upto(qs, (k - 1) as nat);
        let c = candidates_upto(qs, k);
        let q = qs[k - 1];
        if q.pending.len() > 0 {
            lemma_min_nonce_index(q.pending, q.pending.len());
            assert(q.pending.len() <= usize::MAX);
            assert forall|t: int| 0 <= t < c.len() implies (#[trigger] c[t]).1 == min_nonce_index(
                qs[c[t].0 as int].pending,
            ) by {
                if t < c0.len() {
                    assert(c[t] == c0[t]);
                }
            }
        }
    }
}

proof fn lemma_remove_selected_no_gaps(qs: Seq<QueueView>, sel: Seq<Candidate>)
    requires
        candidates_in_range(qs, sel),
        distinct_queues(sel),
        pending_gap_free(qs),
        pool_wf(qs),
        forall|t: int|
            0 <= t < sel.len() ==> (#[trigger] sel[t]).1 == min_nonce_index(qs[sel[t].0 as int].pending),
    ensures
        pending_gap_free(remove_selected(qs, sel)),
    decreases sel.len(),
{
    if sel.len() > 0 {
        let s0 = sel.drop_last();
        let c = sel.last();
        assert(candidates_in_range(qs, s0)) by {
            assert forall|t: int| 0 <= t < s0.len() implies {
                &&& (#[trigger] s0[t]).0 < qs.len()
                &&& s0[t].1 < qs[s0[t].0 as int].pending.len()
            } by {
                assert(s0[t] == sel[t]);
            }
        }
        assert(distinct_queues(s0)) by {
            assert forall|a: int, b: int| 0 <= a < s0.len() && 0 <= b < s0.len() && a != b implies (
            #[trigger] s0[a]).0 != (#[trigger] s0[b]).0 by {
                assert(s0[a] == sel[a] && s0[b] == sel[b]);
            }
        }
        assert forall|t: int| 0 <= t < s0.len() implies (#[trigger] s0[t]).1 == min_nonce_index(
            qs[s0[t].0 as int].pending,
        ) by {
            assert(s0[t] == sel[t]);
        }
        lemma_remove_selected_no_gaps(qs, s0);
        lemma_remove_selected_size(qs, s0);
        let r = remove_selected(qs, s0);
        assert forall|t: int| 0 <= t < s0.len() implies (#[trigger] s0[t]).0 != c.0 by {
            assert(s0[t] == sel[t]);
            assert(sel[t].0 != sel[sel.len() - 1].0);
        }
        let k = c.0 as int;
        assert(sel[sel.len() - 1] == c);
        assert(r[k] == qs[k]);
        let p = qs[k].pending;
        assert(no_gaps(p));
        assert(entries_wf(p, qs[k].sender));
        lemma_remove_min_no_gaps(p);
        let x = QueueView { pending: r[k].pending.remove(c.1 as int), ..r[k] };
        let rr = remove_selected(qs, sel);
        assert(rr == r.update(k, x));
        assert forall|m: int| 0 <= m < rr.len() implies no_gaps(#[trigger] rr[m].pending) by {
            if m != k {
                assert(rr[m] == r[m]);
            }
        }
    }
}

/// Collecting a payload keeps every sender's pending nonces consecutive:
/// it takes out the lowest one of each sender it includes.
pub proof fn law_collect_keeps_pending_gap_free(qs: Seq<QueueView>, max_bytes: usize, max_gas: u64)
    requires
        pool_wf(qs),
        queues_fit(qs),
        pending_gap_free(qs),
    ensures
        pending_gap_free(remove_selected(qs, selected(qs, max_bytes, max_gas))),
{
    let c = candidates_upto(qs, qs.len());
    lemma_candidates_in_range(qs, qs.len());
    lemma_candidates_distinct(qs, qs.len());
    lemma_candidates_first(qs, qs.len());
    lemma_sort_in_range(qs, c);
    lemma_sort_members(c);
    let s = sort_by_tip(c);
    lemma_select_members(qs, s, 0, max_bytes, max_gas, 0, 0);
    let sel = selected(qs, max_bytes, max_gas);
    assert forall|t: int| 0 <= t < sel.len() implies {
        &&& (#[trigger] sel[t]).0 < qs.len()
        &&& sel[t].1 < qs[sel[t].0 as int].pending.len()
        &&& sel[t].1 == min_nonce_index(qs[sel[t].0 as int].pending)
    } by {
        let u = choose|u: int| 0 <= u < s.len() && sel[t] == s[u];
        let w = choose|w: int| 0 <= w < c.len() && s[u] == c[w];
    }
    assert(candidates_in_range(qs, sel));
    lemma_remove_selected_no_gaps(qs, sel);
}

proof fn lemma_commit_all_count_at(
    qs: Seq<QueueView>,
    ns: Seq<u64>,
    limit: usize,
    k: int,
    h: Seq<u8>,
)
    requires
        0 <= k < qs.len(),
        ns.len() == qs.len(),
    ensures
        queue_hash_count(commit_queue(qs[k], ns[k], limit), h) <= pool_hash_count(
            commit_all(qs, ns, limit),
            h,
        ),
    decreases qs.len(),
{
    let q0 = qs.drop_last();
    let n0 = ns.drop_last();
    let r0 = commit_all(q0, n0, limit);
    let c = commit_queue(qs.last(), ns.last(), limit);
    if !queue_empty(c) {
        lemma_pool_count_push(r0, c, h);
    }
    if k < qs.len() - 1 {
        lemma_commit_all_count_at(q0, n0, limit, k, h);
        assert(q0[k] == qs[k] && n0[k] == ns[k]);
    } else {
        assert(qs[k] == qs.last() && ns[k] == ns.last());
        if queue_empty(c) {
            assert(hash_count(c.pending, h) == 0);
            assert(hash_count(c.queued, h) == 0);
        }
    }
}

/// A commit keeps every transaction whose nonce is at or above its
/// sender's committed nonce: the pool still holds its hash.
pub proof fn law_commit_keeps_current(
    qs: Seq<QueueView>,
    ns: Seq<u64>,
    limit: usize,
    k: int,
    x: EntryView,
)
    requires
        0 <= k < qs.len(),
        ns.len() == qs.len(),
        qs[k].pending.contains(x) || qs[k].queued.contains(x),
        x.fields.nonce >= ns[k],
    ensures
        pool_has_hash(commit_all(qs, ns, limit), x.hash),
{
    let q = qs[k];
    let n = ns[k];
    let h = x.hash;
    lemma_keep_members(q.pending, n);
    lemma_keep_members(q.queued, n);
    let kq = QueueView {
        sender: q.sender,
        pending: keep_from_nonce(q.pending, n),
        queued: keep_from_nonce(q.queued, n),
    };
    if q.pending.contains(x) {
        let j = choose|j: int| 0 <= j < q.pending.len() && q.pending[j] == x;
        let i = choose|i: int| 0 <= i < kq.pending.len() && kq.pending[i] == q.pending[j];
        assert(has_hash(kq.pending, h));
    } else {
        let j = choose|j: int| 0 <= j < q.queued.len() && q.queued[j] == x;
        let i = choose|i: int| 0 <= i < kq.queued.len() && kq.queued[i] == q.queued[j];
        assert(has_hash(kq.queued, h));
    }
    lemma_count_has(kq.pending, h);
    lemma_count_has(kq.queued, h);
    lemma_promote_count(kq, n, limit, h);
    lemma_commit_all_count_at(qs, ns, limit, k, h);
    lemma_pool_count_has(commit_all(qs, ns, limit), h);
}

/// Total payload bytes of the selected candidates: a 4-byte length, then
/// the raw transaction, for each.
pub open spec fn selected_bytes(qs: Seq<QueueView>, sel: Seq<Candidate>) -> nat
    decreases sel.len(),
{
    if sel.len() == 0 {
        0
    } else {
        selected_bytes(qs, sel.drop_last()) + 4 + candidate_entry(qs, sel.last()).raw.len()
    }
}

proof fn lemma_selected_bytes_cons(qs: Seq<QueueView>, c: Candidate, rest: Seq<Candidate>)
    ensures
        selected_bytes(qs, seq![c] + rest) == 4 + candidate_entry(qs, c).raw.len()
            + selected_bytes(qs, rest),
    decreases rest.len(),
{
    let s = seq![c] + rest;
    if rest.len() > 0 {
        assert(s.drop_last() =~= seq![c] + rest.drop_last());
        assert(s.last() == rest.last());
        lemma_selected_bytes_cons(qs, c, rest.drop_last());
    } else {
        assert(s.drop_last() =~= Seq::<Candidate>::empty());
        assert(s.last() == c);
        assert(rest =~= Seq::<Candidate>::empty());
    }
}

/// The payload is as long as the selected candidates' bytes.
proof fn lemma_payload_len(qs: Seq<QueueView>, sel: Seq<Candidate>)
    ensures
        payload_bytes(qs, sel).len() == selected_bytes(qs, sel),
    decreases sel.len(),
{
    if sel.len() > 0 {
        lemma_payload_len(qs, sel.drop_last());
    }
}

#[verifier::spinoff_prover]
#[verifier::rlimit(50)]
proof fn lemma_select_maximal(
    qs: Seq<QueueView>,
    s: Seq<Candidate>,
    j: nat,
    max_bytes: usize,
    max_gas: u64,
    ub: nat,
    ug: nat,
)
    requires
        distinct_queues(s),
    ensures
        ({
            let r = select_from(qs, s, j, max_bytes, max_gas, ub, ug);
            forall|t: int|
                j <= t < s.len() && !r.contains(#[trigger] s[t]) ==> (max_gas > 0 && ug
                    + selected_gas(qs, r) + candidate_entry(qs, s[t]).fields.gas_limit > max_gas)
                    || exists|u: int|
                    j <= u <= t && !r.contains(#[trigger] s[u]) && ub + selected_bytes(qs, r) + 4
                        + candidate_entry(qs, s[u]).raw.len() > max_bytes
        }),
    decreases s.len() - j,
{
    let r = select_from(qs, s, j, max_bytes, max_gas, ub, ug);
    if j < s.len() {
        let c = s[j as int];
        let e = candidate_entry(qs, c);
        let gas = e.fields.gas_limit;
        if ub + 4 + e.raw.len() > max_bytes {
            assert(r =~= Seq::<Candidate>::empty());
            assert forall|t: int|
                j <= t < s.len() && !r.contains(#[trigger] s[t]) implies (max_gas > 0 && ug
                + selected_gas(qs, r) + candidate_entry(qs, s[t]).fields.gas_limit > max_gas)
                || exists|u: int|
                j <= u <= t && !r.contains(#[trigger] s[u]) && ub + selected_bytes(qs, r) + 4
                    + candidate_entry(qs, s[u]).raw.len() > max_bytes by {
                assert(!r.contains(s[j as int]));
            }
        } else if max_gas > 0 && ug + gas > max_gas {
            lemma_select_maximal(qs, s, j + 1, max_bytes, max_gas, ub, ug);
            assert(r == select_from(qs, s, j + 1, max_bytes, max_gas, ub, ug));
        } else {
            let ub2 = ub + 4 + e.raw.len();
            let ug2: nat = if max_gas > 0 {
                (ug + gas) as nat
            } else {
                ug
            };
            lemma_select_maximal(qs, s, j + 1, max_bytes, max_gas, ub2, ug2);
            let rest = select_from(qs, s, j + 1, max_bytes, max_gas, ub2, ug2);
            assert(r == seq![c] + rest);
            lemma_selected_bytes_cons(qs, c, rest);
            lemma_selected_gas_cons(qs, c, rest);
            assert(r[0] == c);
            assert forall|t: int|
                j <= t < s.len() && !r.contains(#[trigger] s[t]) implies (max_gas > 0 && ug
                + selected_gas(qs, r) + candidate_entry(qs, s[t]).fields.gas_limit > max_gas)
                || exists|u: int|
                j <= u <= t && !r.contains(#[trigger] s[u]) && ub + selected_bytes(qs, r) + 4
                    + candidate_entry(qs, s[u]).raw.len() > max_bytes by {
                assert(t != j);
                assert(!rest.contains(s[t])) by {
                    if rest.contains(s[t]) {
                        let a = choose|a: int| 0 <= a < rest.len() && rest[a] == s[t];
                        assert(r[a + 1] == s[t]);
                    }
                }
                if !(max_gas > 0 && ug2 + selected_gas(qs, rest) + candidate_entry(qs, s[t]).fields.gas_limit > max_gas) {
                    let u = choose|u: int|
                        j + 1 <= u <= t && !rest.contains(#[trigger] s[u]) && ub2 + selected_bytes(
                            qs,
                            rest,
                        ) + 4 + candidate_entry(qs, s[u]).raw.len() > max_bytes;
                    assert(s[u] != c) by {
                        assert(s[u].0 != s[j as int].0);
                    }
                    assert(!r.contains(s[u])) by {
                        if r.contains(s[u]) {
                            let a = choose|a: int| 0 <= a < r.len() && r[a] == s[u];
                            if a > 0 {
                                assert(rest[a - 1] == s[u]);
                            }
                        }
                    }
                }
            }
        }
    }
}

#[verifier::spinoff_prover]
#[verifier::rlimit(50)]
proof fn lemma_select_skips_for_gas(
    qs: Seq<QueueView>,
    s: Seq<Candidate>,
    j: nat,
    max_bytes: usize,
    max_gas: u64,
    ub: nat,
    ug: nat,
)
    requires
        distinct_queues(s),
    ensures
        ({
            let r = select_from(qs, s, j, max_bytes, max_gas, ub, ug);
            forall|a: int, b: int|
                j <= a < b < s.len() && !r.contains(#[trigger] s[a]) && r.contains(#[trigger] s[b])
                    ==> max_gas > 0 && ug + selected_gas(qs, r) + candidate_entry(qs, s[a]).fields.gas_limit
                    > max_gas
        }),
    decreases s.len() - j,
{
    let r = select_from(qs, s, j, max_bytes, max_gas, ub, ug);
    if j < s.len() {
        let c = s[j as int];
        let e = candidate_entry(qs, c);
        let gas = e.fields.gas_limit;
        if ub + 4 + e.raw.len() > max_bytes {
            assert(r =~= Seq::<Candidate>::empty());
        } else if max_gas > 0 && ug + gas > max_gas {
            lemma_select_skips_for_gas(qs, s, j + 1, max_bytes, max_gas, ub, ug);
            assert(r == select_from(qs, s, j + 1, max_bytes, max_gas, ub, ug));
        } else {
            let ub2 = ub + 4 + e.raw.len();
            let ug2: nat = if max_gas > 0 {
                (ug + gas) as nat
            } else {
                ug
            };
            lemma_select_skips_for_gas(qs, s, j + 1, max_bytes, max_gas, ub2, ug2);
            let rest = select_from(qs, s, j + 1, max_bytes, max_gas, ub2, ug2);
            assert(r == seq![c] + rest);
            lemma_selected_gas_cons(qs, c, rest);
            assert(r[0] == c);
            assert forall|a: int, b: int|
                j <= a < b < s.len() && !r.contains(#[trigger] s[a]) && r.contains(#[trigger] s[b])
                    implies max_gas > 0 && ug + selected_gas(qs, r) + candidate_entry(
                    qs,
                    s[a],
                ).fields.gas_limit > max_gas by {
                assert(a != j);
                assert(!rest.contains(s[a])) by {
                    if rest.contains(s[a]) {
                        let x = choose|x: int| 0 <= x < rest.len() && rest[x] == s[a];
                        assert(r[x + 1] == s[a]);
                    }
                }
                assert(s[b] != c) by {
                    assert(s[b].0 != s[j as int].0);
                }
                assert(rest.contains(s[b])) by {
                    let x = choose|x: int| 0 <= x < r.len() && r[x] == s[b];
                    assert(x != 0);
                    assert(rest[x - 1] == s[b]);
                }
            }
        }
    }
}

/// A candidate left out ahead of an included one, in tip order, was left
/// out for gas: it would take the payload past the gas budget. Once a
/// candidate does not fit the byte budget, no later one is taken.
pub proof fn law_payload_skips_only_for_gas(qs: Seq<QueueView>, max_bytes: usize, max_gas: u64)
    requires
        queues_fit(qs),
    ensures
        ({
            let s = sort_by_tip(candidates_upto(qs, qs.len()));
            let sel = selected(qs, max_bytes, max_gas);
            forall|a: int, b: int|
                0 <= a < b < s.len() && !sel.contains(#[trigger] s[a]) && sel.contains(#[trigger] s[b])
                    ==> max_gas > 0 && selected_gas(qs, sel) + candidate_entry(qs, s[a]).fields.gas_limit
                    > max_gas
        }),
{
    let c = candidates_upto(qs, qs.len());
    lemma_candidates_distinct(qs, qs.len());
    lemma_sort_members(c);
    lemma_select_skips_for_gas(qs, sort_by_tip(c), 0, max_bytes, max_gas, 0, 0);
}

/// Payload selection leaves a transaction out only for want of room. Take
/// the candidates (each sender's lowest-nonce pending transaction) in order
/// of tip, highest first: each one the payload leaves out would take it
/// past the gas budget (when there is one), or comes at or after a left-out
/// candidate that would take it past the byte budget, where selection
/// stops. So a candidate with room under both budgets is never left out,
/// and one over the gas budget does not end the selection.
pub proof fn law_payload_maximal(qs: Seq<QueueView>, max_bytes: usize, max_gas: u64)
    requires
        queues_fit(qs),
    ensures
        ({
            let s = sort_by_tip(candidates_upto(qs, qs.len()));
            let sel = selected(qs, max_bytes, max_gas);
            let len = payload_bytes(qs, sel).len();
            forall|t: int|
                0 <= t < s.len() && !sel.contains(#[trigger] s[t]) ==> (max_gas > 0
                    && selected_gas(qs, sel) + candidate_entry(qs, s[t]).fields.gas_limit > max_gas)
                    || exists|u: int|
                    0 <= u <= t && !sel.contains(#[trigger] s[u]) && len + 4 + candidate_entry(
                        qs,
                        s[u],
                    ).raw.len() > max_bytes
        }),
{
    let c = candidates_upto(qs, qs.len());
    lemma_candidates_distinct(qs, qs.len());
    lemma_sort_members(c);
    let s = sort_by_tip(c);
    lemma_select_maximal(qs, s, 0, max_bytes, max_gas, 0, 0);
    lemma_payload_len(qs, selected(qs, max_bytes, max_gas));
}

} // verus!
