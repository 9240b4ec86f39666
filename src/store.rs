//! The balance store: for each account, its ledger of token balances.
use vstd::prelude::*;

use crate::assoc::{
    find_key, keys_distinct, keys_of, lemma_position_found, lemma_position_push,
    lemma_position_range, lemma_position_remove, lemma_push_fresh, lookup, position, string_keys,
};
use crate::error::LedgerError;

verus! {

/// One account's ledger as a model: (token, amount) pairs in listing order.
pub type Entries = Seq<(Seq<char>, u128)>;

/// The store as a model: each account that holds a ledger, mapped to it.
pub type Balances = Map<Seq<char>, Entries>;

/// The model of a ledger held as a vector of (token, amount) pairs.
pub open spec fn entries_view(v: Seq<(String, u128)>) -> Entries {
    v.map_values(|p: (String, u128)| (p.0@, p.1))
}

/// The model of a store held as a vector of (account, ledger) pairs: an
/// account maps to the ledger paired with it.
pub open spec fn accounts_view(s: Seq<(String, Vec<(String, u128)>)>) -> Balances {
    Map::new(
        |a: Seq<char>| position(string_keys(s), a) >= 0,
        |a: Seq<char>| entries_view(s[position(string_keys(s), a)].1@),
    )
}

/// A ledger that is kept: not empty, and no token twice.
pub open spec fn ledger_ok(e: Entries) -> bool {
    e.len() > 0 && keys_of(e).no_duplicates()
}

/// Every ledger of the store is well formed.
pub open spec fn balances_ok(m: Balances) -> bool {
    forall|a: Seq<char>| m.contains_key(a) ==> ledger_ok(#[trigger] m[a])
}

/// The ledger of `a`, empty where the account has none.
pub open spec fn ledger_or_empty(m: Balances, a: Seq<char>) -> Entries {
    if m.contains_key(a) {
        m[a]
    } else {
        Seq::empty()
    }
}

/// The balance of token `t` held for account `a`, if there is an entry.
pub open spec fn balance_in(m: Balances, a: Seq<char>, t: Seq<char>) -> Option<u128> {
    lookup(ledger_or_empty(m, a), t)
}

/// Whether crediting `amount` would take the balance past the largest `u128`.
pub open spec fn credit_overflows(m: Balances, a: Seq<char>, t: Seq<char>, amount: u128) -> bool {
    match balance_in(m, a, t) {
        Some(x) => x + amount > u128::MAX,
        None => false,
    }
}

/// Whether the entry of (`a`, `t`) exists and holds more than zero.
pub open spec fn withdrawable(m: Balances, a: Seq<char>, t: Seq<char>) -> bool {
    match balance_in(m, a, t) {
        Some(x) => x > 0,
        None => false,
    }
}

/// A ledger with `amount` added to token `t`: its entry grows in place, or a
/// new entry comes last.
pub open spec fn credit_entries(e: Entries, t: Seq<char>, amount: u128) -> Entries {
    let p = position(keys_of(e), t);
    if p >= 0 {
        e.update(p, (t, (e[p].1 + amount) as u128))
    } else {
        e.push((t, amount))
    }
}

/// The store with `amount` credited to (`a`, `t`); a ledger is created for
/// an account that has none.
pub open spec fn credited(m: Balances, a: Seq<char>, t: Seq<char>, amount: u128) -> Balances {
    m.insert(a, credit_entries(ledger_or_empty(m, a), t, amount))
}

/// A ledger whose entry for `t`, if there is one, now holds `v`.
pub open spec fn set_entry(e: Entries, t: Seq<char>, v: u128) -> Entries {
    let p = position(keys_of(e), t);
    if p >= 0 {
        e.update(p, (t, v))
    } else {
        e
    }
}

/// The store with the entry of (`a`, `t`) set to `v`.
pub open spec fn with_amount(m: Balances, a: Seq<char>, t: Seq<char>, v: u128) -> Balances {
    m.insert(a, set_entry(m[a], t, v))
}

/// A ledger without its entry for `t`; the others keep their order.
pub open spec fn remove_entry(e: Entries, t: Seq<char>) -> Entries {
    let p = position(keys_of(e), t);
    if p >= 0 {
        e.remove(p)
    } else {
        e
    }
}

/// The store without the entry of (`a`, `t`), and without the ledger of `a`
/// where that leaves it empty.
pub open spec fn settled(m: Balances, a: Seq<char>, t: Seq<char>) -> Balances {
    if m.contains_key(a) {
        let e = remove_entry(m[a], t);
        if e.len() == 0 {
            m.remove(a)
        } else {
            m.insert(a, e)
        }
    } else {
        m
    }
}

/// The entries from position `from` (default 0), at most `limit` of them
/// (default: all that remain).
pub open spec fn page(e: Entries, from: Option<u32>, limit: Option<u32>) -> Entries {
    let f: int = match from {
        Some(f) => f as int,
        None => 0,
    };
    let start: int = if f < e.len() {
        f
    } else {
        e.len() as int
    };
    let end: int = match limit {
        Some(l) => if start + l < e.len() {
            start + l
        } else {
            e.len() as int
        },
        None => e.len() as int,
    };
    e.subrange(start, end)
}

/// The keys of a ledger's model are the characters of its token strings.
pub proof fn lemma_entries_keys(v: Seq<(String, u128)>)
    ensures
        keys_of(entries_view(v)) == string_keys(v),
{
    assert(keys_of(entries_view(v)) =~= string_keys(v));
}

proof fn lemma_view_push(s: Seq<(String, Vec<(String, u128)>)>, x: (String, Vec<(String, u128)>))
    requires
        string_keys(s).no_duplicates(),
        position(string_keys(s), x.0@) < 0,
    ensures
        string_keys(s.push(x)) == string_keys(s).push(x.0@),
        string_keys(s.push(x)).no_duplicates(),
        accounts_view(s.push(x)) == accounts_view(s).insert(x.0@, entries_view(x.1@)),
{
    let ks = string_keys(s);
    assert(string_keys(s.push(x)) =~= ks.push(x.0@));
    lemma_push_fresh(ks, x.0@);
    assert forall|a: Seq<char>| true implies #[trigger] position(string_keys(s.push(x)), a) == if a
        == x.0@ {
        s.len() as int
    } else {
        position(ks, a)
    } by {
        lemma_position_push(ks, x.0@, a);
    }
    assert forall|a: Seq<char>| position(ks, a) >= 0 implies #[trigger] s.push(x)[position(ks, a)]
        == s[position(ks, a)] by {
        lemma_position_range(ks, a);
    }
    assert(accounts_view(s.push(x)) =~= accounts_view(s).insert(x.0@, entries_view(x.1@)));
}

proof fn lemma_view_update(
    s: Seq<(String, Vec<(String, u128)>)>,
    i: int,
    x: (String, Vec<(String, u128)>),
)
    requires
        string_keys(s).no_duplicates(),
        0 <= i < s.len(),
        x.0@ == s[i].0@,
    ensures
        string_keys(s.update(i, x)) == string_keys(s),
        accounts_view(s.update(i, x)) == accounts_view(s).insert(x.0@, entries_view(x.1@)),
{
    let ks = string_keys(s);
    let t = s.update(i, x);
    assert(string_keys(t) =~= ks);
    assert(ks[i] == x.0@);
    lemma_position_found(ks, x.0@, i);
    let lhs = accounts_view(t);
    let rhs = accounts_view(s).insert(x.0@, entries_view(x.1@));
    assert forall|a: Seq<char>| #[trigger] lhs.contains_key(a) == rhs.contains_key(a) by {
        if a == x.0@ {
        } else {
            lemma_position_range(ks, a);
        }
    }
    assert forall|a: Seq<char>| lhs.contains_key(a) implies #[trigger] lhs[a] == rhs[a] by {
        lemma_position_range(ks, a);
        if a != x.0@ {
            assert(position(ks, a) != i);
        }
    }
    assert(lhs =~= rhs);
}

proof fn lemma_view_remove(s: Seq<(String, Vec<(String, u128)>)>, i: int)
    requires
        string_keys(s).no_duplicates(),
        0 <= i < s.len(),
    ensures
        string_keys(s.remove(i)) == string_keys(s).remove(i),
        string_keys(s.remove(i)).no_duplicates(),
        accounts_view(s.remove(i)) == accounts_view(s).remove(s[i].0@),
{
    let ks = string_keys(s);
    assert(string_keys(s.remove(i)) =~= ks.remove(i));
    lemma_position_remove(ks, i, s[i].0@);
    assert forall|a: Seq<char>| true implies #[trigger] position(string_keys(s.remove(i)), a) == if a
        == ks[i] {
        -1
    } else if position(ks, a) < i {
        position(ks, a)
    } else {
        position(ks, a) - 1
    } by {
        lemma_position_remove(ks, i, a);
    }
    assert forall|a: Seq<char>| a != ks[i] && position(ks, a) >= 0 implies #[trigger] s.remove(i)[
        position(string_keys(s.remove(i)), a)] == s[position(ks, a)] by {
        lemma_position_range(ks, a);
        if position(ks, a) == i {
            assert(ks[i] == a);
        }
    }
    let lhs = accounts_view(s.remove(i));
    let rhs = accounts_view(s).remove(s[i].0@);
    assert(ks[i] == s[i].0@);
    assert forall|a: Seq<char>| #[trigger] lhs.contains_key(a) == rhs.contains_key(a) by {
        lemma_position_range(ks, a);
        if a == ks[i] {
            lemma_position_found(ks, a, i);
        }
    }
    assert forall|a: Seq<char>| lhs.contains_key(a) implies #[trigger] lhs[a] == rhs[a] by {
        lemma_position_range(ks, a);
        if a == ks[i] {
            lemma_position_found(ks, a, i);
        }
    }
    assert(lhs =~= rhs);
}

/// A list of accounts with their ledgers that a store can hold: no account
/// twice, and every ledger well formed.
pub open spec fn accounts_ok(s: Seq<(String, Vec<(String, u128)>)>) -> bool {
    &&& string_keys(s).no_duplicates()
    &&& forall|i: int| 0 <= i < s.len() ==> ledger_ok(#[trigger] entries_view(s[i].1@))
}

/// A copy of a ledger's entries.
fn clone_entries(v: &Vec<(String, u128)>) -> (r: Vec<(String, u128)>)
    ensures
        entries_view(r@) == entries_view(v@),
{
    let mut r: Vec<(String, u128)> = Vec::new();
    let mut j: usize = 0;
    while j < v.len()
        invariant
            j <= v.len(),
            entries_view(r@) =~= entries_view(v@).subrange(0, j as int),
        decreases v.len() - j,
    {
        let ghost prev = r@;
        r.push((v[j].0.clone(), v[j].1));
        proof {
            assert(entries_view(r@) =~= entries_view(prev).push(entries_view(v@)[j as int]));
        }
        j = j + 1;
    }
    assert(entries_view(v@).subrange(0, v@.len() as int) =~= entries_view(v@));
    r
}

/// For each account that holds tokens, its ledger of (token, amount) pairs.
pub struct BalanceStore {
    accounts: Vec<(String, Vec<(String, u128)>)>,
}

impl View for BalanceStore {
    type V = Balances;

    closed spec fn view(&self) -> Balances {
        accounts_view(self.accounts@)
    }
}

impl BalanceStore {
    /// No account twice, and every kept ledger well formed.
    pub closed spec fn wf(&self) -> bool {
        accounts_ok(self.accounts@)
    }

    /// The invariant keeps every ledger of the model well formed.
    pub proof fn lemma_wf_balances_ok(&self)
        requires
            self.wf(),
        ensures
            balances_ok(self@),
    {
        assert forall|a: Seq<char>| self@.contains_key(a) implies ledger_ok(#[trigger] self@[a]) by {
            lemma_position_range(string_keys(self.accounts@), a);
        }
    }

    /// Position of `a`'s ledger, and what it says of the model.
    fn find_account(&self, a: &String) -> (r: Option<usize>)
        requires
            self.wf(),
        ensures
            match r {
                Some(i) => i < self.accounts@.len() && self.accounts@[i as int].0@ == a@
                    && self@.contains_key(a@) && self@[a@] == entries_view(
                    self.accounts@[i as int].1@,
                ),
                None => !self@.contains_key(a@),
            },
    {
        let r = find_key(&self.accounts, a);
        proof {
            let ks = string_keys(self.accounts@);
            lemma_position_range(ks, a@);
            if let Some(i) = r {
                assert(position(ks, a@) == i as int);
                assert(ks[i as int] == self.accounts@[i as int].0@);
                assert(self@.contains_key(a@));
                assert(self@[a@] == entries_view(self.accounts@[i as int].1@));
            }
        }
        r
    }

    /// An empty store.
    pub fn new() -> (r: Self)
        ensures
            r.wf(),
            r@ == Balances::empty(),
    {
        let r = BalanceStore { accounts: Vec::new() };
        assert(r@ =~= Balances::empty());
        r
    }

    /// The balance of `token` held for `account`; `None` where there is no entry.
    pub fn get_balance(&self, account: &String, token: &String) -> (r: Option<u128>)
        requires
            self.wf(),
        ensures
            r == balance_in(self@, account@, token@),
    {
        match self.find_account(account) {
            None => None,
            Some(i) => {
                let tokens = &self.accounts[i].1;
                proof {
                    lemma_entries_keys(tokens@);
                    lemma_position_range(string_keys(tokens@), token@);
                }
                match find_key(tokens, token) {
                    None => None,
                    Some(p) => Some(tokens[p].1),
                }
            },
        }
    }

    /// Adds `amount` to the balance of `token` held for `account`, creating the
    /// account's ledger or the token's entry where absent. Refused, with no
    /// change, where the sum would not fit in a `u128`.
    pub fn credit(&mut self, account: &String, token: &String, amount: u128) -> (r: Result<
        (),
        LedgerError,
    >)
        requires
            old(self).wf(),
        ensures
            final(self).wf(),
            match r {
                Ok(()) => !credit_overflows(old(self)@, account@, token@, amount) && final(self)@
                    == credited(old(self)@, account@, token@, amount),
                Err(e) => e == LedgerError::Overflow && credit_overflows(
                    old(self)@,
                    account@,
                    token@,
                    amount,
                ) && final(self)@ == old(self)@,
            },
    {
        match self.find_account(account) {
            None => {
                let mut tokens: Vec<(String, u128)> = Vec::new();
                tokens.push((token.clone(), amount));
                let entry = (account.clone(), tokens);
                proof {
                    lemma_position_range(string_keys(self.accounts@), account@);
                    lemma_view_push(self.accounts@, entry);
                    assert(entries_view(entry.1@) =~= seq![(token@, amount)]);
                    assert(keys_of(seq![(token@, amount)]) =~= seq![token@]);
                    assert(position(keys_of(Seq::<(Seq<char>, u128)>::empty()), token@) == -1);
                }
                self.accounts.push(entry);
                proof {
                    assert(self@ == credited(old(self)@, account@, token@, amount));
                    assert forall|j: int| 0 <= j < self.accounts@.len() implies ledger_ok(
                        #[trigger] entries_view(self.accounts@[j].1@),
                    ) by {
                        if j < old(self).accounts@.len() {
                            assert(self.accounts@[j] == old(self).accounts@[j]);
                        }
                    }
                }
                Ok(())
            },
            Some(i) => {
                let ghost old_tokens = self.accounts@[i as int].1@;
                proof {
                    lemma_entries_keys(old_tokens);
                    lemma_position_range(string_keys(old_tokens), token@);
                }
                match find_key(&self.accounts[i].1, token) {
                    Some(p) => {
                        let cur = self.accounts[i].1[p].1;
                        if cur > u128::MAX - amount {
                            return Err(LedgerError::Overflow);
                        }
                        let tokens = &mut self.accounts[i].1;
                        tokens.set(p, (token.clone(), cur + amount));
                        proof {
                            assert(string_keys(tokens@) =~= string_keys(old_tokens));
                            assert(entries_view(tokens@) =~= credit_entries(
                                entries_view(old_tokens),
                                token@,
                                amount,
                            ));
                        }
                    },
                    None => {
                        let tokens = &mut self.accounts[i].1;
                        tokens.push((token.clone(), amount));
                        proof {
                            assert(string_keys(tokens@) =~= string_keys(old_tokens).push(token@));
                            lemma_push_fresh(string_keys(old_tokens), token@);
                            assert(entries_view(tokens@) =~= credit_entries(
                                entries_view(old_tokens),
                                token@,
                                amount,
                            ));
                        }
                    },
                }
                proof {
                    let x = self.accounts@[i as int];
                    assert(self.accounts@ == old(self).accounts@.update(i as int, x));
                    lemma_view_update(old(self).accounts@, i as int, x);
                    lemma_entries_keys(x.1@);
                    assert forall|j: int| 0 <= j < self.accounts@.len() implies ledger_ok(
                        #[trigger] entries_view(self.accounts@[j].1@),
                    ) by {
                        if j != i {
                            assert(self.accounts@[j] == old(self).accounts@[j]);
                        }
                    }
                }
                Ok(())
            },
        }
    }

    /// Sets the existing entry of (`account`, `token`) to `v`.
    fn set_amount(&mut self, account: &String, token: &String, v: u128)
        requires
            old(self).wf(),
            balance_in(old(self)@, account@, token@) is Some,
        ensures
            final(self).wf(),
            final(self)@ == with_amount(old(self)@, account@, token@, v),
    {
        let i = match self.find_account(account) {
            Some(i) => i,
            None => {
                assert(false);
                return ;
            },
        };
        let ghost old_tokens = self.accounts@[i as int].1@;
        proof {
            lemma_entries_keys(old_tokens);
            lemma_position_range(string_keys(old_tokens), token@);
        }
        let p = match find_key(&self.accounts[i].1, token) {
            Some(p) => p,
            None => {
                assert(false);
                return ;
            },
        };
        let tokens = &mut self.accounts[i].1;
        tokens.set(p, (token.clone(), v));
        proof {
            assert(string_keys(tokens@) =~= string_keys(old_tokens));
            assert(entries_view(tokens@) =~= set_entry(entries_view(old_tokens), token@, v));
        }
        proof {
            let x = self.accounts@[i as int];
            assert(self.accounts@ == old(self).accounts@.update(i as int, x));
            lemma_view_update(old(self).accounts@, i as int, x);
            lemma_entries_keys(x.1@);
            assert forall|j: int| 0 <= j < self.accounts@.len() implies ledger_ok(
                #[trigger] entries_view(self.accounts@[j].1@),
            ) by {
                if j != i {
                    assert(self.accounts@[j] == old(self).accounts@[j]);
                }
            }
        }
    }

    /// Reads the balance of (`account`, `token`) and sets it to zero, keeping
    /// the entry. Refused, with no change, where the account has no ledger or
    /// the balance is zero or absent.
    pub fn debit_to_zero(&mut self, account: &String, token: &String) -> (r: Result<
        u128,
        LedgerError,
    >)
        requires
            old(self).wf(),
        ensures
            final(self).wf(),
            r is Ok <==> withdrawable(old(self)@, account@, token@),
            match r {
                Ok(v) => balance_in(old(self)@, account@, token@) == Some(v) && final(self)@
                    == with_amount(old(self)@, account@, token@, 0),
                Err(e) => final(self)@ == old(self)@ && e == if old(self)@.contains_key(account@) {
                    LedgerError::ZeroBalance
                } else {
                    LedgerError::NoTokensForAccount
                },
            },
    {
        if self.find_account(account).is_none() {
            return Err(LedgerError::NoTokensForAccount);
        }
        match self.get_balance(account, token) {
            Some(v) => {
                if v == 0 {
                    return Err(LedgerError::ZeroBalance);
                }
                self.set_amount(account, token, 0);
                Ok(v)
            },
            None => Err(LedgerError::ZeroBalance),
        }
    }

    /// Sets the existing entry of (`account`, `token`) back to `amount`.
    pub fn restore(&mut self, account: &String, token: &String, amount: u128)
        requires
            old(self).wf(),
            balance_in(old(self)@, account@, token@) is Some,
        ensures
            final(self).wf(),
            final(self)@ == with_amount(old(self)@, account@, token@, amount),
    {
        self.set_amount(account, token, amount);
    }

    /// Removes the entry of (`account`, `token`), and the account's ledger if
    /// that leaves it empty. Where there is no such entry, nothing changes.
    pub fn finalize_remove(&mut self, account: &String, token: &String)
        requires
            old(self).wf(),
        ensures
            final(self).wf(),
            final(self)@ == settled(old(self)@, account@, token@),
    {
        let i = match self.find_account(account) {
            Some(i) => i,
            None => {
                return ;
            },
        };
        let ghost old_tokens = self.accounts@[i as int].1@;
        proof {
            lemma_entries_keys(old_tokens);
            lemma_position_range(string_keys(old_tokens), token@);
        }
        let p = match find_key(&self.accounts[i].1, token) {
            Some(p) => p,
            None => {
                proof {
                    assert(self@.insert(account@, self@[account@]) =~= self@);
                }
                return ;
            },
        };
        let tokens = &mut self.accounts[i].1;
        tokens.remove(p);
        proof {
            assert(string_keys(tokens@) =~= string_keys(old_tokens).remove(p as int));
            lemma_position_remove(string_keys(old_tokens), p as int, token@);
            assert(entries_view(tokens@) =~= remove_entry(entries_view(old_tokens), token@));
        }
        let ghost mid = self.accounts@;
        proof {
            let x = self.accounts@[i as int];
            assert(mid == old(self).accounts@.update(i as int, x));
            lemma_view_update(old(self).accounts@, i as int, x);
            lemma_entries_keys(x.1@);
        }
        if self.accounts[i].1.len() == 0 {
            self.accounts.remove(i);
            proof {
                lemma_view_remove(mid, i as int);
                assert(self@ =~= settled(old(self)@, account@, token@));
                assert forall|j: int| 0 <= j < self.accounts@.len() implies ledger_ok(
                    #[trigger] entries_view(self.accounts@[j].1@),
                ) by {
                    let j0 = if j < i {
                        j
                    } else {
                        j + 1
                    };
                    assert(self.accounts@[j] == old(self).accounts@[j0]);
                }
            }
        } else {
            proof {
                assert forall|j: int| 0 <= j < self.accounts@.len() implies ledger_ok(
                    #[trigger] entries_view(self.accounts@[j].1@),
                ) by {
                    if j != i {
                        assert(self.accounts@[j] == old(self).accounts@[j]);
                    }
                }
            }
        }
    }

    /// The entries of `account`'s ledger in listing order, from position
    /// `from` (default 0), at most `limit` of them (default: all that remain).
    /// An account with no ledger, or a start past the end, gives no entries.
    pub fn list(&self, account: &String, from: Option<u32>, limit: Option<u32>) -> (r: Vec<
        (String, u128),
    >)
        requires
            self.wf(),
        ensures
            entries_view(r@) == page(ledger_or_empty(self@, account@), from, limit),
    {
        let mut out: Vec<(String, u128)> = Vec::new();
        let i = match self.find_account(account) {
            Some(i) => i,
            None => {
                assert(entries_view(out@) =~= page(ledger_or_empty(self@, account@), from, limit));
                return out;
            },
        };
        let tokens = &self.accounts[i].1;
        let n = tokens.len();
        let start: usize = match from {
            Some(f) => if (f as usize) < n {
                f as usize
            } else {
                n
            },
            None => 0,
        };
        let end: usize = match limit {
            Some(l) => if (l as usize) < n - start {
                start + l as usize
            } else {
                n
            },
            None => n,
        };
        let mut j: usize = start;
        while j < end
            invariant
                start <= j <= end <= n == tokens@.len(),
                entries_view(out@) =~= entries_view(tokens@).subrange(start as int, j as int),
            decreases end - j,
        {
            let ghost prev = out@;
            out.push((tokens[j].0.clone(), tokens[j].1));
            proof {
                assert(entries_view(out@) =~= entries_view(prev).push(entries_view(tokens@)[j as int]));
            }
            j = j + 1;
        }
        out
    }

    /// A store that holds `accounts`, where they form a valid store: no
    /// account twice, no ledger empty, no token twice in a ledger.
    pub fn from_accounts(accounts: Vec<(String, Vec<(String, u128)>)>) -> (r: Option<Self>)
        ensures
            r is Some <==> accounts_ok(accounts@),
            match r {
                Some(st) => st.wf() && st@ == accounts_view(accounts@),
                None => true,
            },
    {
        if !keys_distinct(&accounts) {
            return None;
        }
        let mut i: usize = 0;
        while i < accounts.len()
            invariant
                i <= accounts.len(),
                forall|k: int| 0 <= k < i ==> ledger_ok(#[trigger] entries_view(accounts@[k].1@)),
            decreases accounts.len() - i,
        {
            let tokens = &accounts[i].1;
            proof {
                lemma_entries_keys(tokens@);
            }
            if tokens.len() == 0 || !keys_distinct(tokens) {
                assert(!ledger_ok(entries_view(accounts@[i as int].1@)));
                return None;
            }
            i = i + 1;
        }
        Some(BalanceStore { accounts })
    }

    /// A copy of the accounts and their ledgers, in the store's order.
    pub fn to_accounts(&self) -> (r: Vec<(String, Vec<(String, u128)>)>)
        requires
            self.wf(),
        ensures
            accounts_ok(r@),
            accounts_view(r@) == self@,
    {
        let mut r: Vec<(String, Vec<(String, u128)>)> = Vec::new();
        let mut i: usize = 0;
        while i < self.accounts.len()
            invariant
                i <= self.accounts.len(),
                r@.len() == i,
                forall|k: int|
                    0 <= k < i ==> #[trigger] r@[k].0@ == self.accounts@[k].0@ && entries_view(
                        r@[k].1@,
                    ) == entries_view(self.accounts@[k].1@),
            decreases self.accounts.len() - i,
        {
            let tokens = clone_entries(&self.accounts[i].1);
            r.push((self.accounts[i].0.clone(), tokens));
            i = i + 1;
        }
        proof {
            let ks = string_keys(self.accounts@);
            assert(string_keys(r@) =~= ks);
            assert forall|k: int| 0 <= k < r@.len() implies ledger_ok(
                #[trigger] entries_view(r@[k].1@),
            ) by {
                assert(r@[k].0@ == self.accounts@[k].0@);
            }
            assert forall|a: Seq<char>| #[trigger] accounts_view(r@).contains_key(a) implies accounts_view(
                r@,
            )[a] == self@[a] by {
                lemma_position_range(ks, a);
                assert(r@[position(ks, a)].0@ == self.accounts@[position(ks, a)].0@);
            }
            assert(accounts_view(r@) =~= self@);
        }
        r
    }
}

} // verus!
