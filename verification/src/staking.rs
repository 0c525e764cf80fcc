//! Delegation bookkeeping for the staking precompile.
use vstd::prelude::*;
use crate::primitives::Address;
use crate::uint::{U256, u256_max};

verus! {

/// One delegation record: (delegator, validator) → amount.
#[derive(Clone, Copy, Debug)]
pub struct Delegation {
    pub delegator: Address,
    pub validator: Address,
    pub amount: U256,
}

/// Mathematical view of a delegation record.
pub struct DelegationView {
    pub delegator: Seq<u8>,
    pub validator: Seq<u8>,
    pub amount: nat,
}

impl View for Delegation {
    type V = DelegationView;

    open spec fn view(&self) -> DelegationView {
        DelegationView {
            delegator: self.delegator@,
            validator: self.validator@,
            amount: self.amount@,
        }
    }
}

/// `min(x, 2^256 - 1)`.
pub open spec fn cap256(x: nat) -> nat {
    if x <= u256_max() {
        x
    } else {
        u256_max()
    }
}

/// The index of the record for (d, v) at or after `i`.
pub open spec fn find_record_from(s: Seq<DelegationView>, d: Seq<u8>, v: Seq<u8>, i: nat) -> Option<
    int,
>
    decreases s.len() - i,
{
    if i >= s.len() {
        None
    } else if s[i as int].delegator == d && s[i as int].validator == v {
        Some(i as int)
    } else {
        find_record_from(s, d, v, i + 1)
    }
}

/// The index of the record for (d, v).
pub open spec fn find_record(s: Seq<DelegationView>, d: Seq<u8>, v: Seq<u8>) -> Option<int> {
    find_record_from(s, d, v, 0)
}

/// The amount `d` has delegated to `v` (zero when there is no record).
pub open spec fn stake_of(s: Seq<DelegationView>, d: Seq<u8>, v: Seq<u8>) -> nat {
    match find_record(s, d, v) {
        Some(i) => s[i].amount,
        None => 0,
    }
}

/// The sum of all amounts delegated to `v`.
pub open spec fn total_of(s: Seq<DelegationView>, v: Seq<u8>) -> nat
    decreases s.len(),
{
    if s.len() == 0 {
        0
    } else {
        total_of(s.drop_last(), v) + if s.last().validator == v {
            s.last().amount
        } else {
            0
        }
    }
}

/// The records after setting the amount of (d, v) to `a`, creating the
/// record when absent.
pub open spec fn upsert(s: Seq<DelegationView>, d: Seq<u8>, v: Seq<u8>, a: nat) -> Seq<
    DelegationView,
> {
    let r = DelegationView { delegator: d, validator: v, amount: a };
    match find_record(s, d, v) {
        Some(i) => s.update(i, r),
        None => s.push(r),
    }
}

/// No two records share a (delegator, validator) key.
pub open spec fn keys_unique(s: Seq<DelegationView>) -> bool {
    forall|i: int, j: int|
        0 <= i < s.len() && 0 <= j < s.len() && i != j ==> !(s[i].delegator == s[j].delegator
            && s[i].validator == s[j].validator)
}

/// Simple delegation record: (delegator, validator) → amount.
#[derive(Clone, Debug, Default)]
pub struct StakingState {
    delegations: Vec<Delegation>,
}

pub proof fn lemma_find_record_from(s: Seq<DelegationView>, d: Seq<u8>, v: Seq<u8>, i: nat)
    ensures
        match find_record_from(s, d, v, i) {
            Some(j) => i <= j < s.len() && s[j].delegator == d && s[j].validator == v,
            None => forall|m: int|
                i <= m < s.len() ==> !(s[m].delegator == d && s[m].validator == v),
        },
    decreases s.len() - i,
{
    if i < s.len() && !(s[i as int].delegator == d && s[i as int].validator == v) {
        lemma_find_record_from(s, d, v, i + 1);
    }
}

pub proof fn lemma_find_record(s: Seq<DelegationView>, d: Seq<u8>, v: Seq<u8>)
    ensures
        match find_record(s, d, v) {
            Some(j) => 0 <= j < s.len() && s[j].delegator == d && s[j].validator == v,
            None => forall|m: int|
                0 <= m < s.len() ==> !(s[m].delegator == d && s[m].validator == v),
        },
{
    lemma_find_record_from(s, d, v, 0);
}

pub proof fn lemma_upsert_unique(s: Seq<DelegationView>, d: Seq<u8>, v: Seq<u8>, a: nat)
    requires
        keys_unique(s),
    ensures
        keys_unique(upsert(s, d, v, a)),
{
    lemma_find_record(s, d, v);
    let r = upsert(s, d, v, a);
    match find_record(s, d, v) {
        Some(k) => {
            assert forall|i: int, j: int|
                0 <= i < r.len() && 0 <= j < r.len() && i != j implies !(r[i].delegator
                == r[j].delegator && r[i].validator == r[j].validator) by {
                if i != k && j != k {
                    assert(r[i] == s[i] && r[j] == s[j]);
                } else if i == k {
                    assert(r[j] == s[j]);
                } else {
                    assert(r[i] == s[i]);
                }
            }
        },
        None => {
            assert forall|i: int, j: int|
                0 <= i < r.len() && 0 <= j < r.len() && i != j implies !(r[i].delegator
                == r[j].delegator && r[i].validator == r[j].validator) by {
                if i < s.len() && j < s.len() {
                    assert(r[i] == s[i] && r[j] == s[j]);
                } else if i < s.len() {
                    assert(r[i] == s[i]);
                } else {
                    assert(r[j] == s[j]);
                }
            }
        },
    }
}

impl StakingState {
    /// The delegation records, in order of creation.
    pub closed spec fn records(&self) -> Seq<DelegationView> {
        Seq::new(self.delegations@.len(), |i: int| self.delegations@[i]@)
    }

    /// The invariant: keys are unique.
    pub open spec fn wf(&self) -> bool {
        keys_unique(self.records())
    }

    pub fn new() -> (r: Self)
        ensures
            r.wf(),
            r.records() == Seq::<DelegationView>::empty(),
    {
        let r = StakingState { delegations: Vec::new() };
        assert(r.records() =~= Seq::<DelegationView>::empty());
        r
    }

    /// The index of the record for (d, v).
    fn find_index(&self, d: &Address, v: &Address) -> (r: Option<usize>)
        ensures
            match r {
                Some(i) => find_record(self.records(), d@, v@) == Some(i as int),
                None => find_record(self.records(), d@, v@) is None,
            },
    {
        let ghost s = self.records();
        let mut i: usize = 0;
        while i < self.delegations.len()
            invariant
                s == self.records(),
                i <= s.len(),
                find_record(s, d@, v@) == find_record_from(s, d@, v@, i as nat),
            decreases s.len() - i,
        {
            let rec = &self.delegations[i];
            if rec.delegator.equals(d) && rec.validator.equals(v) {
                return Some(i);
            }
            i = i + 1;
        }
        None
    }

    /// Sets the amount of (d, v), creating the record when absent.
    fn put(&mut self, d: Address, v: Address, amount: U256, idx: Option<usize>)
        requires
            old(self).wf(),
            match idx {
                Some(i) => find_record(old(self).records(), d@, v@) == Some(i as int),
                None => find_record(old(self).records(), d@, v@) is None,
            },
        ensures
            final(self).wf(),
            final(self).records() == upsert(old(self).records(), d@, v@, amount@),
    {
        proof {
            lemma_find_record(self.records(), d@, v@);
            lemma_upsert_unique(self.records(), d@, v@, amount@);
        }
        let rec = Delegation { delegator: d, validator: v, amount };
        let ghost s = self.records();
        match idx {
            Some(i) => {
                self.delegations.set(i, rec);
                assert(self.records() =~= s.update(i as int, rec@));
            },
            None => {
                self.delegations.push(rec);
                assert(self.records() =~= s.push(rec@));
            },
        }
    }

    /// Adds `amount` to what `delegator` has delegated to `validator`
    /// (saturating at 2^256 - 1).
    pub fn delegate(&mut self, delegator: Address, validator: Address, amount: U256)
        requires
            old(self).wf(),
        ensures
            final(self).wf(),
            final(self).records() == upsert(
                old(self).records(),
                delegator@,
                validator@,
                cap256(stake_of(old(self).records(), delegator@, validator@) + amount@),
            ),
    {
        let idx = self.find_index(&delegator, &validator);
        proof {
            lemma_find_record(self.records(), delegator@, validator@);
        }
        let current = match idx {
            Some(i) => self.delegations[i].amount,
            None => U256::zero(),
        };
        let updated = current.saturating_add(&amount);
        self.put(delegator, validator, updated, idx);
    }

    /// Withdraws `amount` of what `delegator` has delegated to `validator`;
    /// refused with "insufficient delegation" when the delegation is
    /// smaller. Either way the (delegator, validator) record exists after
    /// the call.
    pub fn unbond(&mut self, delegator: Address, validator: Address, amount: U256) -> (r: Result<
        (),
        &'static str,
    >)
        requires
            old(self).wf(),
        ensures
            final(self).wf(),
            ({
                let cur = stake_of(old(self).records(), delegator@, validator@);
                if cur < amount@ {
                    &&& r matches Err(m) && m@ == "insufficient delegation"@
                    &&& final(self).records() == upsert(
                        old(self).records(),
                        delegator@,
                        validator@,
                        cur,
                    )
                } else {
                    &&& r is Ok
                    &&& final(self).records() == upsert(
                        old(self).records(),
                        delegator@,
                        validator@,
                        (cur - amount@) as nat,
                    )
                }
            }),
    {
        let idx = self.find_index(&delegator, &validator);
        proof {
            lemma_find_record(self.records(), delegator@, validator@);
        }
        let current = match idx {
            Some(i) => self.delegations[i].amount,
            None => U256::zero(),
        };
        if current.lt(&amount) {
            self.put(delegator, validator, current, idx);
            return Err("insufficient delegation");
        }
        let updated = current.saturating_sub(&amount);
        self.put(delegator, validator, updated, idx);
        Ok(())
    }

    /// The amount `delegator` has delegated to `validator`.
    pub fn get_stake(&self, delegator: &Address, validator: &Address) -> (r: U256)
        ensures
            r@ == stake_of(self.records(), delegator@, validator@),
    {
        let idx = self.find_index(delegator, validator);
        proof {
            lemma_find_record(self.records(), delegator@, validator@);
        }
        match idx {
            Some(i) => self.delegations[i].amount,
            None => U256::zero(),
        }
    }

    /// The sum of everything delegated to `validator` (saturating at
    /// 2^256 - 1).
    pub fn total_stake(&self, validator: &Address) -> (r: U256)
        ensures
            r@ == cap256(total_of(self.records(), validator@)),
    {
        let ghost s = self.records();
        let mut acc = U256::zero();
        let mut i: usize = 0;
        while i < self.delegations.len()
            invariant
                s == self.records(),
                i <= s.len(),
                acc@ == cap256(total_of(s.subrange(0, i as int), validator@)),
            decreases s.len() - i,
        {
            proof {
                assert(s.subrange(0, i + 1).drop_last() =~= s.subrange(0, i as int));
                assert(s.subrange(0, i + 1).last() == s[i as int]);
            }
            let rec = &self.delegations[i];
            if rec.validator.equals(validator) {
                acc = acc.saturating_add(&rec.amount);
            }
            i = i + 1;
        }
        proof {
            assert(s.subrange(0, s.len() as int) =~= s);
        }
        acc
    }
}

/// The contribution of a record to `total_of(_, v)`.
pub open spec fn record_share(r: DelegationView, v: Seq<u8>) -> nat {
    if r.validator == v {
        r.amount
    } else {
        0
    }
}

proof fn lemma_total_update(s: Seq<DelegationView>, i: int, r: DelegationView, v: Seq<u8>)
    requires
        0 <= i < s.len(),
    ensures
        total_of(s.update(i, r), v) + record_share(s[i], v) == total_of(s, v) + record_share(r, v),
    decreases s.len(),
{
    let u = s.update(i, r);
    if i == s.len() - 1 {
        assert(u.drop_last() =~= s.drop_last());
    } else {
        assert(u.drop_last() =~= s.drop_last().update(i, r));
        lemma_total_update(s.drop_last(), i, r, v);
    }
}

proof fn lemma_find_unique(s: Seq<DelegationView>, d: Seq<u8>, v: Seq<u8>, j: int)
    requires
        keys_unique(s),
        0 <= j < s.len(),
        s[j].delegator == d && s[j].validator == v,
    ensures
        find_record(s, d, v) == Some(j),
{
    lemma_find_record(s, d, v);
}

/// After `delegate`, the (delegator, validator) stake is the old stake plus
/// the amount (saturating), and every other stake is unchanged.
pub proof fn law_delegate_stake(
    s: Seq<DelegationView>,
    d: Seq<u8>,
    v: Seq<u8>,
    amount: nat,
    d2: Seq<u8>,
    v2: Seq<u8>,
)
    requires
        keys_unique(s),
    ensures
        stake_of(upsert(s, d, v, cap256(stake_of(s, d, v) + amount)), d, v) == cap256(
            stake_of(s, d, v) + amount,
        ),
        !(d2 == d && v2 == v) ==> stake_of(upsert(s, d, v, cap256(stake_of(s, d, v) + amount)), d2, v2)
            == stake_of(s, d2, v2),
{
    law_upsert_stake(s, d, v, cap256(stake_of(s, d, v) + amount), d2, v2);
}

/// Setting the amount of (d, v) changes that stake only.
pub proof fn law_upsert_stake(
    s: Seq<DelegationView>,
    d: Seq<u8>,
    v: Seq<u8>,
    a: nat,
    d2: Seq<u8>,
    v2: Seq<u8>,
)
    requires
        keys_unique(s),
    ensures
        stake_of(upsert(s, d, v, a), d, v) == a,
        !(d2 == d && v2 == v) ==> stake_of(upsert(s, d, v, a), d2, v2) == stake_of(s, d2, v2),
{
    lemma_find_record(s, d, v);
    lemma_upsert_unique(s, d, v, a);
    let u = upsert(s, d, v, a);
    let k = match find_record(s, d, v) {
        Some(i) => i,
        None => s.len() as int,
    };
    assert(u[k].delegator == d && u[k].validator == v && u[k].amount == a);
    lemma_find_unique(u, d, v, k);
    if !(d2 == d && v2 == v) {
        lemma_find_record(s, d2, v2);
        lemma_find_record(u, d2, v2);
        match find_record(s, d2, v2) {
            Some(j) => {
                assert(j != k);
                assert(u[j] == s[j]);
                lemma_find_unique(u, d2, v2, j);
            },
            None => {
                match find_record(u, d2, v2) {
                    Some(j) => {
                        assert(j != k);
                        assert(u[j] == s[j]);
                    },
                    None => {},
                }
            },
        }
    }
}

/// Unbonding exactly what was just delegated restores the stake, when the
/// delegation did not saturate.
pub proof fn law_unbond_undoes_delegate(s: Seq<DelegationView>, d: Seq<u8>, v: Seq<u8>, amount: nat)
    requires
        keys_unique(s),
        stake_of(s, d, v) + amount <= crate::uint::u256_max(),
    ensures
        ({
            let s1 = upsert(s, d, v, cap256(stake_of(s, d, v) + amount));
            &&& amount <= stake_of(s1, d, v)
            &&& stake_of(upsert(s1, d, v, (stake_of(s1, d, v) - amount) as nat), d, v) == stake_of(
                s,
                d,
                v,
            )
        }),
{
    let s1 = upsert(s, d, v, cap256(stake_of(s, d, v) + amount));
    law_upsert_stake(s, d, v, cap256(stake_of(s, d, v) + amount), d, v);
    lemma_upsert_unique(s, d, v, cap256(stake_of(s, d, v) + amount));
    law_upsert_stake(s1, d, v, (stake_of(s1, d, v) - amount) as nat, d, v);
}

/// Setting the amount of a key twice leaves the records as setting it once
/// to the second amount does.
pub proof fn law_upsert_twice(s: Seq<DelegationView>, d: Seq<u8>, v: Seq<u8>, a: nat, b: nat)
    ensures
        upsert(upsert(s, d, v, a), d, v, b) == upsert(s, d, v, b),
{
    let s1 = upsert(s, d, v, a);
    lemma_find_record(s, d, v);
    lemma_find_record(s1, d, v);
    let k = match find_record(s, d, v) {
        Some(i) => i,
        None => s.len() as int,
    };
    assert(s1[k].delegator == d && s1[k].validator == v);
    assert forall|m: int| 0 <= m < k implies !(#[trigger] s1[m].delegator == d && s1[m].validator
        == v) by {
        assert(s1[m] == s[m]);
        if find_record(s, d, v) is Some {
            lemma_first_record(s, d, v, m);
        }
    }
    lemma_first_record_is(s1, d, v, k);
    assert(upsert(s1, d, v, b) =~= upsert(s, d, v, b));
}

/// No record before the one `find_record` names has its key.
proof fn lemma_first_record(s: Seq<DelegationView>, d: Seq<u8>, v: Seq<u8>, m: int)
    requires
        find_record(s, d, v) matches Some(i) && 0 <= m < i,
    ensures
        !(s[m].delegator == d && s[m].validator == v),
{
    lemma_first_record_from(s, d, v, 0, m);
}

proof fn lemma_first_record_from(s: Seq<DelegationView>, d: Seq<u8>, v: Seq<u8>, i: nat, m: int)
    requires
        find_record_from(s, d, v, i) matches Some(j) && i <= m < j,
    ensures
        !(s[m].delegator == d && s[m].validator == v),
    decreases s.len() - i,
{
    if m > i {
        lemma_first_record_from(s, d, v, i + 1, m);
    }
}

/// `find_record` names the first record with the key.
proof fn lemma_first_record_is(s: Seq<DelegationView>, d: Seq<u8>, v: Seq<u8>, k: int)
    requires
        0 <= k < s.len(),
        s[k].delegator == d && s[k].validator == v,
        forall|m: int| 0 <= m < k ==> !(#[trigger] s[m].delegator == d && s[m].validator == v),
    ensures
        find_record(s, d, v) == Some(k),
{
    lemma_first_record_is_from(s, d, v, k, 0);
}

proof fn lemma_first_record_is_from(s: Seq<DelegationView>, d: Seq<u8>, v: Seq<u8>, k: int, i: nat)
    requires
        i <= k < s.len(),
        s[k].delegator == d && s[k].validator == v,
        forall|m: int| 0 <= m < k ==> !(#[trigger] s[m].delegator == d && s[m].validator == v),
    ensures
        find_record_from(s, d, v, i) == Some(k),
    decreases s.len() - i,
{
    if i < k {
        assert(!(s[i as int].delegator == d && s[i as int].validator == v));
        lemma_first_record_is_from(s, d, v, k, i + 1);
    }
}

/// Setting the amount of (d, v) to `a` changes the total stake of `v` by
/// the difference, and leaves the totals of other validators unchanged.
pub proof fn law_total_after_upsert(s: Seq<DelegationView>, d: Seq<u8>, v: Seq<u8>, a: nat, w: Seq<u8>)
    requires
        keys_unique(s),
    ensures
        w == v ==> total_of(upsert(s, d, v, a), w) + stake_of(s, d, v) == total_of(s, w) + a,
        w != v ==> total_of(upsert(s, d, v, a), w) == total_of(s, w),
{
    lemma_find_record(s, d, v);
    let r = DelegationView { delegator: d, validator: v, amount: a };
    match find_record(s, d, v) {
        Some(i) => {
            lemma_total_update(s, i, r, w);
        },
        None => {
            assert(s.push(r).drop_last() =~= s);
        },
    }
}

} // verus!
