//! Read-only queries against a ledger snapshot.

use vstd::prelude::*;
use crate::account::Account;
use crate::cycle::spec_cycle_of;
use crate::ledger::Ledger;
use crate::records::StackingState;
use crate::reward_list::RewardCycleAddressListEntry;
use crate::types::{LedgerError, Principal, RewardAddress};

verus! {

broadcast use vstd::std_specs::hash::group_hash_axioms;

/// The entries of a list that were not retracted, in their order.
pub open spec fn live_entries(entries: Seq<RewardCycleAddressListEntry>) -> Seq<
    RewardCycleAddressListEntry,
>
    decreases entries.len(),
{
    if entries.len() == 0 {
        Seq::empty()
    } else if entries.last().amount_stacked > 0 {
        live_entries(entries.drop_last()).push(entries.last())
    } else {
        live_entries(entries.drop_last())
    }
}

/// Whether the hash `a` comes before the hash `b`, byte by byte: they agree
/// up to some byte, and there `a` has the smaller one.
pub open spec fn hash_precedes(a: [u8; 20], b: [u8; 20]) -> bool {
    exists|k: int|
        0 <= k < 20 && #[trigger] a[k] < b[k] && forall|j: int| 0 <= j < k ==> a[j] == b[j]
}

/// Whether `a` comes before `b` in a reward set: by the bytes of the reward
/// address, and by index where the bytes agree.
pub open spec fn entry_precedes(
    a: RewardCycleAddressListEntry,
    b: RewardCycleAddressListEntry,
) -> bool {
    hash_precedes(a.reward_address.hash, b.reward_address.hash) || (a.reward_address.hash
        == b.reward_address.hash && a.index < b.index)
}

/// Whether every entry of the list comes before all that follow it.
pub open spec fn in_reward_set_order(entries: Seq<RewardCycleAddressListEntry>) -> bool {
    forall|i: int, j: int|
        0 <= i < j < entries.len() ==> entry_precedes(#[trigger] entries[i], #[trigger] entries[j])
}

/// How one entry stands to another in a reward set.
#[derive(Clone, Copy, Debug, PartialEq, Eq, Structural)]
pub enum Rank {
    Before,
    Same,
    After,
}

/// The order of reward set entries carries over: what comes before an entry
/// comes before all that the entry comes before.
pub proof fn lemma_precedes_transitive(
    a: RewardCycleAddressListEntry,
    b: RewardCycleAddressListEntry,
    c: RewardCycleAddressListEntry,
)
    requires
        entry_precedes(a, b),
        entry_precedes(b, c),
    ensures
        entry_precedes(a, c),
{
    let (x, y, z) = (a.reward_address.hash, b.reward_address.hash, c.reward_address.hash);
    if hash_precedes(x, y) && hash_precedes(y, z) {
        let k1 = choose|k: int|
            0 <= k < 20 && #[trigger] x[k] < y[k] && forall|j: int| 0 <= j < k ==> x[j] == y[j];
        let k2 = choose|k: int|
            0 <= k < 20 && #[trigger] y[k] < z[k] && forall|j: int| 0 <= j < k ==> y[j] == z[j];
        let k = if k1 <= k2 {
            k1
        } else {
            k2
        };
        assert(x[k] < z[k]);
        assert(forall|j: int| 0 <= j < k ==> x[j] == z[j]);
    } else if hash_precedes(x, y) {
        assert(y == z);
    } else if hash_precedes(y, z) {
        assert(x == y);
    }
}

/// How `a` stands to `b` in a reward set.
pub fn entry_rank(a: &RewardCycleAddressListEntry, b: &RewardCycleAddressListEntry) -> (r: Rank)
    ensures
        r == Rank::Before ==> entry_precedes(*a, *b),
        r == Rank::After ==> entry_precedes(*b, *a),
        r == Rank::Same ==> a.reward_address.hash == b.reward_address.hash && a.index == b.index,
{
    let mut k: usize = 0;
    while k < 20
        invariant
            k <= 20,
            forall|j: int| 0 <= j < k ==> a.reward_address.hash[j] == b.reward_address.hash[j],
        decreases 20 - k,
    {
        if a.reward_address.hash[k] < b.reward_address.hash[k] {
            assert(a.reward_address.hash[k as int] < b.reward_address.hash[k as int]);
            return Rank::Before;
        }
        if a.reward_address.hash[k] > b.reward_address.hash[k] {
            assert(b.reward_address.hash[k as int] < a.reward_address.hash[k as int]);
            return Rank::After;
        }
        k += 1;
    }
    assert(a.reward_address.hash =~= b.reward_address.hash);
    if a.index < b.index {
        Rank::Before
    } else if a.index > b.index {
        Rank::After
    } else {
        Rank::Same
    }
}

/// The reward set of the cycle that contains `at_burn_ht`: the entries of
/// that cycle's address list that hold an amount, ordered by the bytes of
/// their reward address, and by index where two addresses have the same
/// bytes. The order does not depend on which entry was made first.
pub fn get_reward_set_entries_at(ledger: &Ledger, at_burn_ht: u64) -> (r: Result<
    Vec<RewardCycleAddressListEntry>,
    LedgerError,
>)
    requires
        ledger.wf(),
    ensures
        r is Err <==> at_burn_ht < ledger.spec_params().cycles.first_burn_height,
        r matches Err(e) ==> e == LedgerError::InvalidHeight,
        r matches Ok(entries) ==> {
            &&& entries@.to_multiset() == live_entries(
                ledger.spec_entries(
                    spec_cycle_of(ledger.spec_params().cycles, at_burn_ht as int) as u64,
                ),
            ).to_multiset()
            &&& in_reward_set_order(entries@)
        },
{
    proof {
        ledger.lemma_wf();
    }
    let cycle = match ledger.params.cycles.cycle_of(at_burn_ht) {
        Err(_) => {
            return Err(LedgerError::InvalidHeight);
        },
        Ok(cycle) => cycle,
    };
    let all = ledger.cycles.entries(cycle);
    proof {
        ledger.cycles.lemma_total_reconciles(cycle);
    }
    let mut set: Vec<RewardCycleAddressListEntry> = Vec::new();
    let mut i: usize = 0;
    assert(all@.subrange(0, 0) =~= Seq::<RewardCycleAddressListEntry>::empty());
    while i < all.len()
        invariant
            i <= all@.len(),
            forall|m: int| 0 <= m < all@.len() ==> (#[trigger] all@[m]).index == m,
            set@.to_multiset() == live_entries(all@.subrange(0, i as int)).to_multiset(),
            in_reward_set_order(set@),
            forall|j: int| 0 <= j < set@.len() ==> (#[trigger] set@[j]).index < i,
        decreases all@.len() - i,
    {
        let entry = all[i];
        proof {
            let next = all@.subrange(0, i as int + 1);
            assert(next.drop_last() =~= all@.subrange(0, i as int));
            assert(next.last() == entry);
        }
        if entry.amount_stacked > 0 {
            let mut p: usize = 0;
            let mut found = false;
            while p < set.len() && !found
                invariant
                    p <= set@.len(),
                    entry.index == i,
                    forall|j: int| 0 <= j < set@.len() ==> (#[trigger] set@[j]).index < i,
                    forall|j: int| 0 <= j < p ==> entry_precedes(#[trigger] set@[j], entry),
                    found ==> p < set@.len() && entry_precedes(entry, set@[p as int]),
                decreases set@.len() - p + (if found { 0int } else { 1int }),
            {
                match entry_rank(&set[p], &entry) {
                    Rank::Before => {
                        p += 1;
                    },
                    _ => {
                        // the indexes differ, so the two do not stand level
                        assert(set@[p as int].index < i);
                        found = true;
                    },
                }
            }
            let ghost before = set@;
            proof {
                if p < before.len() {
                    assert forall|j: int| p < j < before.len() implies entry_precedes(
                        entry,
                        #[trigger] before[j],
                    ) by {
                        lemma_precedes_transitive(entry, before[p as int], before[j]);
                    }
                }
                vstd::seq_lib::to_multiset_insert(before, p as int, entry);
                vstd::seq_lib::to_multiset_build(
                    live_entries(all@.subrange(0, i as int)),
                    entry,
                );
            }
            set.insert(p, entry);
            proof {
                let after = set@;
                assert(after.len() == before.len() + 1);
                assert forall|x: int, y: int| 0 <= x < y < after.len() implies entry_precedes(
                    #[trigger] after[x],
                    #[trigger] after[y],
                ) by {
                    if x < p && y < p {
                        assert(after[x] == before[x] && after[y] == before[y]);
                    } else if x < p && y == p {
                        assert(after[x] == before[x] && after[y] == entry);
                    } else if x < p {
                        assert(after[x] == before[x] && after[y] == before[y - 1]);
                    } else if x == p {
                        assert(after[x] == entry && after[y] == before[y - 1]);
                    } else {
                        assert(after[x] == before[x - 1] && after[y] == before[y - 1]);
                    }
                }
                assert forall|j: int| 0 <= j < after.len() implies (#[trigger] after[j]).index < i
                    + 1 by {
                    if j < p {
                        assert(after[j] == before[j]);
                    } else if j > p {
                        assert(after[j] == before[j - 1]);
                    }
                }
            }
        }
        i += 1;
    }
    assert(all@.subrange(0, i as int) =~= all@);
    Ok(set)
}

/// The address list of the cycle that contains `at_burn_ht`, every slot in
/// index order, retracted ones included.
pub fn get_reward_set_entries_index_order_at(ledger: &Ledger, at_burn_ht: u64) -> (r: Result<
    Vec<RewardCycleAddressListEntry>,
    LedgerError,
>)
    requires
        ledger.wf(),
    ensures
        r is Err <==> at_burn_ht < ledger.spec_params().cycles.first_burn_height,
        r matches Err(e) ==> e == LedgerError::InvalidHeight,
        r matches Ok(entries) ==> entries@ == ledger.spec_entries(
            spec_cycle_of(ledger.spec_params().cycles, at_burn_ht as int) as u64,
        ),
{
    proof {
        ledger.lemma_wf();
    }
    match ledger.params.cycles.cycle_of(at_burn_ht) {
        Err(_) => Err(LedgerError::InvalidHeight),
        Ok(cycle) => Ok(ledger.cycles.entries(cycle)),
    }
}

/// The account of `account` as the snapshot holds it.
pub fn get_stx_account_at(ledger: &Ledger, account: Principal) -> (r: Account)
    ensures
        r == ledger.spec_account(account),
{
    ledger.account(account)
}

/// The stacking record of `account`, if the snapshot holds one.
pub fn get_stacking_state_pox_2(ledger: &Ledger, account: Principal) -> (r: Option<StackingState>)
    ensures
        r is Some <==> ledger.spec_stacking(account) is Some,
        r matches Some(state) ==> Some(state@) == ledger.spec_stacking(account),
{
    match ledger.stacking.get(&account.id) {
        None => None,
        Some(state) => Some(state.duplicate()),
    }
}

/// The total stacked in `cycle_number`; 0 for a cycle without entries.
pub fn get_reward_cycle_total(ledger: &Ledger, cycle_number: u64) -> (r: u128)
    ensures
        r == ledger.spec_total(cycle_number),
{
    ledger.cycles.total(cycle_number)
}

/// The amount that waits for `sender` under `pox_addr` in `cycle_number`; 0
/// where nothing was delegated or all of it was committed.
pub fn get_partial_stacked(
    ledger: &Ledger,
    pox_addr: RewardAddress,
    cycle_number: u64,
    sender: Principal,
) -> (r: u128)
    requires
        ledger.wf(),
    ensures
        r == ledger.spec_pending(pox_addr, cycle_number, sender),
{
    ledger.partial.pending(pox_addr, cycle_number, sender)
}

/// The index of the aggregate entry that the last commit of `sender` under
/// `pox_addr` in `cycle_number` created, if there was one.
pub fn get_committed_index(
    ledger: &Ledger,
    pox_addr: RewardAddress,
    cycle_number: u64,
    sender: Principal,
) -> (r: Option<u64>)
    requires
        ledger.wf(),
    ensures
        r == ledger.spec_committed(pox_addr, cycle_number, sender),
{
    ledger.partial.committed_index(pox_addr, cycle_number, sender)
}

/// Runs a read-only query against the snapshot and hands its result back.
pub fn with_clarity_db_ro<F, R>(ledger: &Ledger, query: F) -> (r: R) where F: FnOnce(&Ledger) -> R
    requires
        query.requires((ledger,)),
    ensures
        query.ensures((ledger,), r),
{
    query(ledger)
}

} // verus!
