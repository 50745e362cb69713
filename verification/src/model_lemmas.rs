//! Facts about the model's sequence functions: share sums, ticket counts,
//! record lookup, and the swap-remove scan.

use crate::model::{
    account_index, account_wf, count_owned, distinct_ids, has_account, remove_owned_from,
    sum_shares, swap_remove_seq, wf, AccountModel, PoolModel,
};
use vstd::prelude::*;

verus! {

/// A record found at some index is the record the lookup functions name.
pub proof fn lemma_account_index_agrees(s: Seq<AccountModel>, i: int)
    requires
        distinct_ids(s),
        0 <= i < s.len(),
    ensures
        has_account(s, s[i].account_id),
        account_index(s, s[i].account_id) == i,
{
    let id = s[i].account_id;
    assert(has_account(s, id));
    let j = account_index(s, id);
    assert(0 <= j < s.len() && s[j].account_id == id);
    if i < j {
        assert(s[i].account_id != s[j].account_id);
    } else if j < i {
        assert(s[j].account_id != s[i].account_id);
    }
}

/// Replacing one record moves the share sum by the difference of that
/// record's shares.
pub proof fn lemma_sum_shares_update(s: Seq<AccountModel>, i: int, a: AccountModel)
    requires
        0 <= i < s.len(),
    ensures
        sum_shares(s.update(i, a)) == sum_shares(s) - s[i].stake_shares + a.stake_shares,
    decreases s.len(),
{
    let s2 = s.update(i, a);
    if i == s.len() - 1 {
        assert(s2.drop_last() =~= s.drop_last());
    } else {
        assert(s2.drop_last() =~= s.drop_last().update(i, a));
        lemma_sum_shares_update(s.drop_last(), i, a);
    }
}

/// Appending a record adds its shares to the sum.
pub proof fn lemma_sum_shares_push(s: Seq<AccountModel>, a: AccountModel)
    ensures
        sum_shares(s.push(a)) == sum_shares(s) + a.stake_shares,
{
    assert(s.push(a).drop_last() =~= s);
}

/// With no negative share counts, the sum covers each single record.
pub proof fn lemma_sum_shares_ge_elem(s: Seq<AccountModel>, i: int)
    requires
        0 <= i < s.len(),
        forall|k: int| 0 <= k < s.len() ==> (#[trigger] s[k]).stake_shares >= 0,
    ensures
        s[i].stake_shares <= sum_shares(s),
    decreases s.len(),
{
    if i == s.len() - 1 {
        lemma_sum_shares_nonneg(s.drop_last());
    } else {
        lemma_sum_shares_ge_elem(s.drop_last(), i);
    }
}

/// With no negative share counts, the sum is not negative.
pub proof fn lemma_sum_shares_nonneg(s: Seq<AccountModel>)
    requires
        forall|k: int| 0 <= k < s.len() ==> (#[trigger] s[k]).stake_shares >= 0,
    ensures
        sum_shares(s) >= 0,
    decreases s.len(),
{
    if s.len() > 0 {
        lemma_sum_shares_nonneg(s.drop_last());
    }
}

/// A well-formed pool always has outstanding shares and backing value:
/// the construction-time surplus of shares over what the records claim
/// never disappears.
pub proof fn lemma_wf_positive(m: PoolModel)
    requires
        wf(m),
    ensures
        m.total_stake_shares > 0,
        m.total_staked_balance > 0,
        sum_shares(m.accounts) >= 0,
{
    assert forall|k: int| 0 <= k < m.accounts.len() implies (#[trigger] m.accounts[k]).stake_shares
        >= 0 by {
        assert(account_wf(m.accounts[k]));
    }
    lemma_sum_shares_nonneg(m.accounts);
}

/// A slot count is never negative and never exceeds the number of slots.
pub proof fn lemma_count_owned_bounds(slots: Seq<Seq<char>>, id: Seq<char>)
    ensures
        0 <= count_owned(slots, id) <= slots.len(),
    decreases slots.len(),
{
    if slots.len() > 0 {
        lemma_count_owned_bounds(slots.drop_last(), id);
    }
}

/// Appending a slot raises exactly its owner's count.
pub proof fn lemma_count_owned_push(slots: Seq<Seq<char>>, x: Seq<char>, id: Seq<char>)
    ensures
        count_owned(slots.push(x), id) == count_owned(slots, id) + if x == id {
            1int
        } else {
            0int
        },
{
    assert(slots.push(x).drop_last() =~= slots);
}

/// Replacing the slot at `i` swaps its owner's contribution for the new
/// owner's.
pub proof fn lemma_count_owned_update(slots: Seq<Seq<char>>, i: int, x: Seq<char>, id: Seq<char>)
    requires
        0 <= i < slots.len(),
    ensures
        count_owned(slots.update(i, x), id) == count_owned(slots, id) - (if slots[i] == id {
            1int
        } else {
            0int
        }) + if x == id {
            1int
        } else {
            0int
        },
    decreases slots.len(),
{
    let s2 = slots.update(i, x);
    if i == slots.len() - 1 {
        assert(s2.drop_last() =~= slots.drop_last());
    } else {
        assert(s2.drop_last() =~= slots.drop_last().update(i, x));
        lemma_count_owned_update(slots.drop_last(), i, x, id);
    }
}

/// A swap-removal at `i` lowers exactly the removed owner's count.
pub proof fn lemma_count_owned_swap_remove(slots: Seq<Seq<char>>, i: int, id: Seq<char>)
    requires
        0 <= i < slots.len(),
    ensures
        count_owned(swap_remove_seq(slots, i), id) == count_owned(slots, id) - if slots[i] == id {
            1int
        } else {
            0int
        },
{
    let last = slots.last();
    lemma_count_owned_update(slots, i, last, id);
    let s2 = slots.update(i, last);
    assert(count_owned(s2, id) == count_owned(s2.drop_last(), id) + if s2.last() == id {
        1int
    } else {
        0int
    });
    assert(s2.last() == last);
}

/// An owner without slots is exactly an owner with count zero.
pub proof fn lemma_count_owned_zero(slots: Seq<Seq<char>>, id: Seq<char>)
    ensures
        count_owned(slots, id) == 0 <==> (forall|j: int|
            0 <= j < slots.len() ==> slots[j] != id),
    decreases slots.len(),
{
    if slots.len() > 0 {
        lemma_count_owned_zero(slots.drop_last(), id);
        lemma_count_owned_bounds(slots.drop_last(), id);
        if count_owned(slots, id) == 0 {
            assert forall|j: int| 0 <= j < slots.len() implies slots[j] != id by {
                if j < slots.len() - 1 {
                    assert(slots.drop_last()[j] == slots[j]);
                }
            }
        } else {
            if exists|j: int| 0 <= j < slots.len() && slots[j] == id {
            }
        }
    }
}

/// An owner holding every slot owns each single slot.
pub proof fn lemma_count_owned_full(slots: Seq<Seq<char>>, id: Seq<char>)
    requires
        count_owned(slots, id) == slots.len(),
    ensures
        forall|j: int| 0 <= j < slots.len() ==> slots[j] == id,
    decreases slots.len(),
{
    if slots.len() > 0 {
        lemma_count_owned_bounds(slots.drop_last(), id);
        assert(slots.last() == id);
        lemma_count_owned_full(slots.drop_last(), id);
        assert forall|j: int| 0 <= j < slots.len() implies slots[j] == id by {
            if j < slots.len() - 1 {
                assert(slots.drop_last()[j] == slots[j]);
            }
        }
    }
}

/// What the swap-remove scan from position `i` does, provided no slot
/// before `i` is owned by `id` and the owner holds at least `k` slots: it
/// removes exactly `k` slots of that owner, touches no other owner's count,
/// and introduces no slot that was not already there.
pub proof fn lemma_remove_owned_from_props(slots: Seq<Seq<char>>, id: Seq<char>, k: int, i: int)
    requires
        0 <= i <= slots.len(),
        0 <= k,
        forall|j: int| 0 <= j < i ==> slots[j] != id,
        k <= count_owned(slots, id),
    ensures
        remove_owned_from(slots, id, k, i).len() == slots.len() - k,
        count_owned(remove_owned_from(slots, id, k, i), id) == count_owned(slots, id) - k,
        forall|other: Seq<char>|
            other != id ==> count_owned(remove_owned_from(slots, id, k, i), other) == count_owned(
                slots,
                other,
            ),
        forall|j: int|
            0 <= j < remove_owned_from(slots, id, k, i).len() ==> slots.contains(
                #[trigger] remove_owned_from(slots, id, k, i)[j],
            ),
    decreases slots.len() - i,
{
    let result = remove_owned_from(slots, id, k, i);
    if i >= slots.len() {
        lemma_count_owned_zero(slots, id);
        assert(count_owned(slots, id) == 0);
        assert(result == slots);
        assert forall|j: int| 0 <= j < result.len() implies slots.contains(#[trigger] result[j]) by {
            assert(slots[j] == result[j]);
        }
    } else if k <= 0 {
        assert(result == slots);
        assert forall|j: int| 0 <= j < result.len() implies slots.contains(#[trigger] result[j]) by {
            assert(slots[j] == result[j]);
        }
    } else if slots[i] == id {
        let s1 = swap_remove_seq(slots, i);
        lemma_count_owned_swap_remove(slots, i, id);
        assert forall|j: int| 0 <= j < i implies s1[j] != id by {
            assert(s1[j] == slots[j]);
        }
        lemma_remove_owned_from_props(s1, id, k - 1, i);
        assert(result == remove_owned_from(s1, id, k - 1, i));
        assert forall|other: Seq<char>| other != id implies count_owned(result, other)
            == count_owned(slots, other) by {
            lemma_count_owned_swap_remove(slots, i, other);
        }
        assert forall|j: int| 0 <= j < result.len() implies slots.contains(#[trigger] result[j]) by {
            assert(s1.contains(result[j]));
            let j1 = choose|j1: int| 0 <= j1 < s1.len() && s1[j1] == result[j];
            if j1 == i {
                assert(slots[slots.len() - 1] == s1[j1]);
            } else {
                assert(slots[j1] == s1[j1]);
            }
        }
    } else {
        lemma_remove_owned_from_props(slots, id, k, i + 1);
        assert(result == remove_owned_from(slots, id, k, i + 1));
    }
}

/// Replacing a record with one carrying the same identifier leaves the set
/// of known identifiers, their distinctness, and the lookup index alone.
pub proof fn lemma_update_same_id(s: Seq<AccountModel>, i: int, a: AccountModel)
    requires
        distinct_ids(s),
        0 <= i < s.len(),
        a.account_id == s[i].account_id,
    ensures
        distinct_ids(s.update(i, a)),
        forall|x: Seq<char>| #[trigger] has_account(s.update(i, a), x) <==> has_account(s, x),
        account_index(s.update(i, a), a.account_id) == i,
{
    let s2 = s.update(i, a);
    assert forall|x: Seq<char>| #[trigger] has_account(s2, x) <==> has_account(s, x) by {
        if has_account(s2, x) {
            let j = choose|j: int| 0 <= j < s2.len() && s2[j].account_id == x;
            assert(s[j].account_id == x);
        }
        if has_account(s, x) {
            let j = choose|j: int| 0 <= j < s.len() && s[j].account_id == x;
            assert(s2[j].account_id == x);
        }
    }
    lemma_account_index_agrees(s2, i);
}

/// Appending a record with a fresh identifier keeps the identifiers
/// distinct, extends the set of known identifiers by exactly that one, and
/// the new record is looked up at the end.
pub proof fn lemma_push_new_id(s: Seq<AccountModel>, a: AccountModel)
    requires
        distinct_ids(s),
        !has_account(s, a.account_id),
    ensures
        distinct_ids(s.push(a)),
        forall|x: Seq<char>| #[trigger] has_account(s.push(a), x) <==> (has_account(s, x) || x
            == a.account_id),
        account_index(s.push(a), a.account_id) == s.len(),
{
    let s2 = s.push(a);
    assert forall|i: int, j: int|
        0 <= i < j < s2.len() implies s2[i].account_id != s2[j].account_id by {
        if j < s.len() {
        } else {
            assert(s2[j] == a);
            assert(s2[i] == s[i]);
            assert(has_account(s, s[i].account_id));
        }
    }
    assert forall|x: Seq<char>| #[trigger] has_account(s2, x) <==> (has_account(s, x) || x
        == a.account_id) by {
        if has_account(s2, x) {
            let j = choose|j: int| 0 <= j < s2.len() && s2[j].account_id == x;
            if j < s.len() {
                assert(s[j].account_id == x);
            }
        }
        if has_account(s, x) {
            let j = choose|j: int| 0 <= j < s.len() && s[j].account_id == x;
            assert(s2[j].account_id == x);
        }
        if x == a.account_id {
            assert(s2[s.len() as int].account_id == x);
        }
    }
    lemma_account_index_agrees(s2, s.len() as int);
}

/// Appending `t` slots of one owner raises exactly that owner's count by
/// `t`.
pub proof fn lemma_count_owned_append_repeat(
    slots: Seq<Seq<char>>,
    owner: Seq<char>,
    t: int,
    id: Seq<char>,
)
    requires
        0 <= t,
    ensures
        count_owned(slots + Seq::new(t as nat, |k: int| owner), id) == count_owned(slots, id) + if id
            == owner {
            t
        } else {
            0int
        },
    decreases t,
{
    if t == 0 {
        assert(slots + Seq::new(0, |k: int| owner) =~= slots);
    } else {
        lemma_count_owned_append_repeat(slots, owner, t - 1, id);
        let shorter = slots + Seq::new((t - 1) as nat, |k: int| owner);
        assert(slots + Seq::new(t as nat, |k: int| owner) =~= shorter.push(owner));
        lemma_count_owned_push(shorter, owner, id);
    }
}

} // verus!
