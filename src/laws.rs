//! What holds of the ledger across several calls.
use vstd::prelude::*;

use crate::assoc::{keys_of, lemma_position_push, lemma_position_range, lemma_position_remove, position};
use crate::store::{
    balance_in, balances_ok, credit_entries, credit_overflows, credited, ledger_or_empty, page,
    settled, with_amount, withdrawable, Balances,
};

verus! {

/// The balance of (`a`, `t`), zero where there is no entry.
pub open spec fn balance_or_zero(m: Balances, a: Seq<char>, t: Seq<char>) -> int {
    match balance_in(m, a, t) {
        Some(x) => x as int,
        None => 0,
    }
}

proof fn lemma_present_has_ledger(m: Balances, a: Seq<char>, t: Seq<char>)
    requires
        balance_in(m, a, t) is Some,
    ensures
        m.contains_key(a),
        0 <= position(keys_of(m[a]), t) < m[a].len(),
        m[a][position(keys_of(m[a]), t)] == (t, balance_in(m, a, t)->Some_0),
{
    if !m.contains_key(a) {
        assert(position(keys_of(Seq::<(Seq<char>, u128)>::empty()), t) == -1);
    }
    let e = m[a];
    lemma_position_range(keys_of(e), t);
    let p = position(keys_of(e), t);
    assert(keys_of(e)[p] == e[p].0);
}

/// Setting an entry that exists, then reading it, gives the value set.
pub proof fn lemma_set_then_read(m: Balances, a: Seq<char>, t: Seq<char>, v: u128)
    requires
        balance_in(m, a, t) is Some,
    ensures
        balance_in(with_amount(m, a, t, v), a, t) == Some(v),
        with_amount(m, a, t, v).contains_key(a),
{
    lemma_present_has_ledger(m, a, t);
    let e = m[a];
    let p = position(keys_of(e), t);
    let e2 = e.update(p, (t, v));
    assert(keys_of(e2) =~= keys_of(e));
}

/// Crediting `x` to an entry adds `x` to what it held (zero where absent).
pub proof fn lemma_credit_reads(m: Balances, a: Seq<char>, t: Seq<char>, x: u128)
    requires
        !credit_overflows(m, a, t, x),
    ensures
        balance_in(credited(m, a, t, x), a, t) == Some((balance_or_zero(m, a, t) + x) as u128),
        balance_or_zero(m, a, t) + x <= u128::MAX,
{
    let e = ledger_or_empty(m, a);
    let ks = keys_of(e);
    let p = position(ks, t);
    lemma_position_range(ks, t);
    let e2 = credit_entries(e, t, x);
    assert(ledger_or_empty(credited(m, a, t, x), a) == e2);
    if p >= 0 {
        assert(ks[p] == e[p].0);
        assert(keys_of(e2) =~= ks);
    } else {
        assert(keys_of(e2) =~= ks.push(t));
        lemma_position_push(ks, t, t);
    }
}

/// Depositing `x` and then `y` of one token for one account adds `x + y` to
/// its balance, where the sum fits.
pub proof fn lemma_credit_additive(m: Balances, a: Seq<char>, t: Seq<char>, x: u128, y: u128)
    requires
        balance_or_zero(m, a, t) + x + y <= u128::MAX,
    ensures
        !credit_overflows(m, a, t, x),
        !credit_overflows(credited(m, a, t, x), a, t, y),
        balance_in(credited(credited(m, a, t, x), a, t, y), a, t) == Some(
            (balance_or_zero(m, a, t) + x + y) as u128,
        ),
{
    lemma_credit_reads(m, a, t, x);
    lemma_credit_reads(credited(m, a, t, x), a, t, y);
}

/// A successful settlement removes the entry; where it was the account's
/// last, the account's ledger goes too and lists no entries.
pub proof fn lemma_settle_removes(m: Balances, a: Seq<char>, t: Seq<char>)
    requires
        balances_ok(m),
        balance_in(m, a, t) is Some,
    ensures
        balance_in(settled(m, a, t), a, t) is None,
        m[a].len() == 1 ==> !settled(m, a, t).contains_key(a),
{
    lemma_present_has_ledger(m, a, t);
    let e = m[a];
    let ks = keys_of(e);
    let p = position(ks, t);
    assert(ks[p] == t);
    lemma_position_remove(ks, p, t);
    assert(keys_of(e.remove(p)) =~= ks.remove(p));
}

/// After the last entry of an account is settled, listing that account gives
/// nothing, from any start and with any limit.
pub proof fn lemma_settled_last_lists_nothing(
    m: Balances,
    a: Seq<char>,
    t: Seq<char>,
    from: Option<u32>,
    limit: Option<u32>,
)
    requires
        balances_ok(m),
        balance_in(m, a, t) is Some,
        m[a].len() == 1,
    ensures
        page(ledger_or_empty(settled(m, a, t), a), from, limit) == Seq::<(Seq<char>, u128)>::empty(),
{
    lemma_settle_removes(m, a, t);
    assert(page(ledger_or_empty(settled(m, a, t), a), from, limit) =~= Seq::<
        (Seq<char>, u128),
    >::empty());
}

/// A withdrawal whose transfer fails leaves the ledger exactly as it was
/// before the debit, so the balance is back to `v` and can be withdrawn again.
pub proof fn lemma_failed_withdrawal_restores(m: Balances, a: Seq<char>, t: Seq<char>, v: u128)
    requires
        withdrawable(m, a, t),
        balance_in(m, a, t) == Some(v),
    ensures
        with_amount(with_amount(m, a, t, 0), a, t, v) == m,
        balance_in(with_amount(with_amount(m, a, t, 0), a, t, v), a, t) == Some(v),
        withdrawable(with_amount(with_amount(m, a, t, 0), a, t, v), a, t),
{
    lemma_present_has_ledger(m, a, t);
    lemma_set_then_read(m, a, t, 0);
    let e = m[a];
    let p = position(keys_of(e), t);
    let e1 = e.update(p, (t, 0u128));
    assert(keys_of(e1) =~= keys_of(e));
    assert(e1.update(p, (t, v)) =~= e);
    assert(with_amount(with_amount(m, a, t, 0), a, t, v) =~= m);
}

/// While a withdrawal is pending, the entry holds zero: a second withdrawal
/// of the same token by the same account is refused as a zero balance.
pub proof fn lemma_pending_withdrawal_blocks(m: Balances, a: Seq<char>, t: Seq<char>)
    requires
        withdrawable(m, a, t),
    ensures
        with_amount(m, a, t, 0).contains_key(a),
        balance_in(with_amount(m, a, t, 0), a, t) == Some(0u128),
        !withdrawable(with_amount(m, a, t, 0), a, t),
{
    lemma_set_then_read(m, a, t, 0);
}

} // verus!
