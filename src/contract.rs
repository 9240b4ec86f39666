//! The coordinator: accepts deposit notifications from the trusted custodian
//! and runs each withdrawal as a debit followed by a settling callback.
use vstd::prelude::*;

use crate::error::LedgerError;
use crate::store::{
    accounts_ok, accounts_view, balance_in, balances_ok, credit_overflows, credited, ledger_or_empty, page, settled, with_amount,
    withdrawable, BalanceStore, Balances,
};

verus! {

/// The character sequences of a list of strings.
pub open spec fn strings_view(v: Seq<String>) -> Seq<Seq<char>> {
    v.map_values(|s: String| s@)
}

/// Why a deposit notification is refused, checked in this order; `None` when
/// it is accepted.
pub open spec fn deposit_error(
    custodian: Seq<char>,
    predecessor: Seq<char>,
    owners: Seq<Seq<char>>,
    tokens: Seq<Seq<char>>,
    amounts: Seq<u128>,
    m: Balances,
) -> Option<LedgerError> {
    if tokens.len() != 1 {
        Some(LedgerError::MultipleTokens)
    } else if owners.len() != 1 || amounts.len() != 1 {
        Some(LedgerError::InvalidInputLength)
    } else if predecessor != custodian {
        Some(LedgerError::UntrustedSender)
    } else if amounts[0] == 0 {
        Some(LedgerError::ZeroAmount)
    } else if credit_overflows(m, owners[0], tokens[0], amounts[0]) {
        Some(LedgerError::Overflow)
    } else {
        None
    }
}

/// The key under which the balance store is persisted.
#[derive(Debug, Clone, Copy, PartialEq, Eq, Structural)]
pub enum StorageKey {
    Balances,
}

impl StorageKey {
    /// The storage prefix of the key: the index of its variant, as one byte.
    pub fn into_storage_key(&self) -> (r: Vec<u8>)
        ensures
            r@ == seq![0u8],
    {
        match self {
            StorageKey::Balances => {
                let mut r: Vec<u8> = Vec::new();
                r.push(0u8);
                r
            },
        }
    }
}

/// The instruction that a withdrawal hands out: move `amount` of `token_id`
/// at the custodian `contract_id` to `receiver_id`, then call back.
#[derive(Debug, Clone)]
pub struct TransferRequest {
    pub contract_id: String,
    pub receiver_id: String,
    pub token_id: String,
    pub amount: u128,
}

/// The ledger of balances held for accounts at one trusted custodian.
pub struct Contract {
    intents_contract_id: String,
    balances: BalanceStore,
}

impl Contract {
    /// The invariant of the balance store.
    pub closed spec fn wf(&self) -> bool {
        self.balances.wf()
    }

    /// The custodian from which deposits are accepted, fixed at construction.
    pub closed spec fn custodian(&self) -> Seq<char> {
        self.intents_contract_id@
    }

    /// The ledger of each account.
    pub closed spec fn balances(&self) -> Balances {
        self.balances@
    }

    /// Every ledger that the contract keeps is well formed.
    pub proof fn lemma_balances_ok(&self)
        requires
            self.wf(),
        ensures
            balances_ok(self.balances()),
    {
        self.balances.lemma_wf_balances_ok();
    }

    /// A ledger with no accounts, that trusts `intents_contract_id`.
    pub fn new(intents_contract_id: String) -> (r: Self)
        ensures
            r.wf(),
            r.custodian() == intents_contract_id@,
            r.balances() == Balances::empty(),
    {
        Contract { intents_contract_id, balances: BalanceStore::new() }
    }

    /// A ledger that trusts `intents_contract_id` and holds `accounts`, where
    /// they form a valid store (see `BalanceStore::from_accounts`).
    pub fn from_snapshot(
        intents_contract_id: String,
        accounts: Vec<(String, Vec<(String, u128)>)>,
    ) -> (r: Option<Self>)
        ensures
            r is Some <==> accounts_ok(accounts@),
            match r {
                Some(c) => c.wf() && c.custodian() == intents_contract_id@ && c.balances()
                    == accounts_view(accounts@),
                None => true,
            },
    {
        match BalanceStore::from_accounts(accounts) {
            Some(balances) => Some(Contract { intents_contract_id, balances }),
            None => None,
        }
    }

    /// A copy of every account with its ledger, from which `from_snapshot`
    /// rebuilds this ledger.
    pub fn snapshot(&self) -> (r: Vec<(String, Vec<(String, u128)>)>)
        requires
            self.wf(),
        ensures
            accounts_ok(r@),
            accounts_view(r@) == self.balances(),
    {
        self.balances.to_accounts()
    }

    /// The custodian from which deposits are accepted.
    pub fn intents_contract_id(&self) -> (r: &String)
        ensures
            r@ == self.custodian(),
    {
        &self.intents_contract_id
    }

    /// Handles a transfer notification that `predecessor_id` delivers: one
    /// token, one previous owner and one amount, credited in full to that
    /// owner. The result lists the amount handed back for each token (none).
    /// `sender_id` and `msg` are not read.
    pub fn mt_on_transfer(
        &mut self,
        predecessor_id: &String,
        sender_id: String,
        previous_owner_ids: Vec<String>,
        token_ids: Vec<String>,
        amounts: Vec<u128>,
        msg: String,
    ) -> (r: Result<Vec<u128>, LedgerError>)
        requires
            old(self).wf(),
        ensures
            final(self).wf(),
            final(self).custodian() == old(self).custodian(),
            predecessor_id@ != old(self).custodian() ==> r is Err && final(self).balances() == old(
                self,
            ).balances(),
            match r {
                Ok(v) => deposit_error(
                    old(self).custodian(),
                    predecessor_id@,
                    strings_view(previous_owner_ids@),
                    strings_view(token_ids@),
                    amounts@,
                    old(self).balances(),
                ) is None && v@ == seq![0u128] && final(self).balances() == credited(
                    old(self).balances(),
                    previous_owner_ids@[0]@,
                    token_ids@[0]@,
                    amounts@[0],
                ),
                Err(e) => deposit_error(
                    old(self).custodian(),
                    predecessor_id@,
                    strings_view(previous_owner_ids@),
                    strings_view(token_ids@),
                    amounts@,
                    old(self).balances(),
                ) == Some(e) && final(self).balances() == old(self).balances(),
            },
    {
        if token_ids.len() != 1 {
            return Err(LedgerError::MultipleTokens);
        }
        if previous_owner_ids.len() != 1 || amounts.len() != 1 {
            return Err(LedgerError::InvalidInputLength);
        }
        if *predecessor_id != self.intents_contract_id {
            return Err(LedgerError::UntrustedSender);
        }
        let token_id = &token_ids[0];
        let previous_owner_id = &previous_owner_ids[0];
        let amount = amounts[0];
        if amount == 0 {
            return Err(LedgerError::ZeroAmount);
        }
        match self.balances.credit(previous_owner_id, token_id, amount) {
            Ok(()) => {
                let mut unused: Vec<u128> = Vec::new();
                unused.push(0u128);
                Ok(unused)
            },
            Err(e) => Err(e),
        }
    }

    /// Begins the withdrawal by `predecessor_id` of its whole balance of
    /// `token_id`: the balance drops to zero at once, and the returned request
    /// says what the custodian is to transfer. Refused, with no change, where
    /// the account has no ledger or the balance is zero or absent.
    pub fn withdraw_token(&mut self, predecessor_id: &String, token_id: String) -> (r: Result<
        TransferRequest,
        LedgerError,
    >)
        requires
            old(self).wf(),
        ensures
            final(self).wf(),
            final(self).custodian() == old(self).custodian(),
            r is Ok <==> withdrawable(old(self).balances(), predecessor_id@, token_id@),
            match r {
                Ok(req) => req.contract_id@ == old(self).custodian() && req.receiver_id@
                    == predecessor_id@ && req.token_id@ == token_id@ && balance_in(
                    old(self).balances(),
                    predecessor_id@,
                    token_id@,
                ) == Some(req.amount) && final(self).balances() == with_amount(
                    old(self).balances(),
                    predecessor_id@,
                    token_id@,
                    0,
                ) && balance_in(final(self).balances(), predecessor_id@, token_id@) == Some(
                    0u128,
                ),
                Err(e) => final(self).balances() == old(self).balances() && e == if old(
                    self,
                ).balances().contains_key(predecessor_id@) {
                    LedgerError::ZeroBalance
                } else {
                    LedgerError::NoTokensForAccount
                },
            },
    {
        match self.balances.debit_to_zero(predecessor_id, &token_id) {
            Ok(amount) => {
                proof {
                    crate::laws::lemma_set_then_read(
                        old(self).balances(),
                        predecessor_id@,
                        token_id@,
                        0,
                    );
                }
                Ok(
                    TransferRequest {
                        contract_id: self.intents_contract_id.clone(),
                        receiver_id: predecessor_id.clone(),
                        token_id,
                        amount,
                    },
                )
            },
            Err(e) => Err(e),
        }
    }

    /// Settles a withdrawal of `amount` of `token_id` by `account_id` once the
    /// custodian's transfer is known: on success the entry goes, and the
    /// account's ledger with it where that empties it, and the result is 0;
    /// on failure the entry is set back to `amount`, which is the result.
    /// An account or token without an entry is refused, with no change.
    pub fn withdraw_callback(
        &mut self,
        transfer_succeeded: bool,
        token_id: String,
        amount: u128,
        account_id: String,
    ) -> (r: Result<u128, LedgerError>)
        requires
            old(self).wf(),
        ensures
            final(self).wf(),
            final(self).custodian() == old(self).custodian(),
            r is Err <==> balance_in(old(self).balances(), account_id@, token_id@) is None,
            r is Ok && transfer_succeeded && old(self).balances()[account_id@].len() == 1
                ==> !final(self).balances().contains_key(account_id@),
            match r {
                Ok(v) => if transfer_succeeded {
                    v == 0 && final(self).balances() == settled(
                        old(self).balances(),
                        account_id@,
                        token_id@,
                    ) && balance_in(final(self).balances(), account_id@, token_id@) is None
                } else {
                    v == amount && final(self).balances() == with_amount(
                        old(self).balances(),
                        account_id@,
                        token_id@,
                        amount,
                    ) && balance_in(final(self).balances(), account_id@, token_id@) == Some(
                        amount,
                    )
                },
                Err(e) => e == LedgerError::MissingEntry && final(self).balances() == old(
                    self,
                ).balances(),
            },
    {
        if self.balances.get_balance(&account_id, &token_id).is_none() {
            return Err(LedgerError::MissingEntry);
        }
        proof {
            self.balances.lemma_wf_balances_ok();
        }
        if transfer_succeeded {
            self.balances.finalize_remove(&account_id, &token_id);
            proof {
                crate::laws::lemma_settle_removes(old(self).balances(), account_id@, token_id@);
            }
            Ok(0)
        } else {
            self.balances.restore(&account_id, &token_id, amount);
            proof {
                crate::laws::lemma_set_then_read(
                    old(self).balances(),
                    account_id@,
                    token_id@,
                    amount,
                );
            }
            Ok(amount)
        }
    }

    /// The balance of `token_id` held for `account`; `None` where there is no
    /// entry.
    pub fn get_token_balance_for_account(&self, account: &String, token_id: &String) -> (r:
        Option<u128>)
        requires
            self.wf(),
        ensures
            r == balance_in(self.balances(), account@, token_id@),
    {
        self.balances.get_balance(account, token_id)
    }

    /// The (token, amount) entries of `account`'s ledger in listing order, from
    /// `from_index` (default 0), at most `limit` of them (default: all that
    /// remain).
    pub fn get_tokens_for_account(
        &self,
        account: String,
        from_index: &Option<u32>,
        limit: &Option<u32>,
    ) -> (r: Vec<(String, u128)>)
        requires
            self.wf(),
        ensures
            crate::store::entries_view(r@) == page(
                ledger_or_empty(self.balances(), account@),
                *from_index,
                *limit,
            ),
    {
        self.balances.list(&account, *from_index, *limit)
    }
}

} // verus!
