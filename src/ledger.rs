use vstd::prelude::*;
use std::collections::HashMap;
use crate::origin::{ensure_signed, signer_of, AccountId, Origin};

verus! {

broadcast use vstd::std_specs::hash::group_hash_axioms;

/// An amount of the ledger's single currency.
pub type Balance = u128;

/// Why a transfer or a mint was refused. A refused operation changes nothing.
#[derive(Clone, Copy, Debug, PartialEq, Eq, Structural)]
pub enum LedgerError {
    /// The origin does not identify a signed caller.
    Unauthorized,
    /// The sender has no balance record.
    NonExistentAccount,
    /// The sender holds less than the amount asked for.
    InsufficientBalance,
    /// A balance or the total issuance would exceed the largest `Balance`.
    Overflow,
}

/// Sum of all balances held in a finite map.
pub open spec fn sum_of(m: Map<AccountId, Balance>) -> int
    decreases m.dom().len(),
{
    if m.dom().finite() && exists|k: AccountId| m.contains_key(k) {
        let k = choose|k: AccountId| m.contains_key(k);
        m[k] + sum_of(m.remove(k))
    } else {
        0
    }
}

/// The balance of `who`, reading a missing record as zero.
pub open spec fn balance_or_zero(m: Map<AccountId, Balance>, who: AccountId) -> int {
    if m.contains_key(who) {
        m[who] as int
    } else {
        0
    }
}

/// Any one record of a finite map can be taken out of its sum.
pub proof fn lemma_sum_remove(m: Map<AccountId, Balance>, k: AccountId)
    requires
        m.dom().finite(),
        m.contains_key(k),
    ensures
        sum_of(m) == m[k] + sum_of(m.remove(k)),
    decreases m.dom().len(),
{
    let j = choose|j: AccountId| m.contains_key(j);
    if j != k {
        lemma_sum_remove(m.remove(j), k);
        lemma_sum_remove(m.remove(k), j);
        assert(m.remove(j).remove(k) =~= m.remove(k).remove(j));
    }
}

/// Writing `v` for `k` changes the sum by `v` less the record it replaces.
pub proof fn lemma_sum_insert(m: Map<AccountId, Balance>, k: AccountId, v: Balance)
    requires
        m.dom().finite(),
    ensures
        sum_of(m.insert(k, v)) == sum_of(m) - balance_or_zero(m, k) + v,
{
    let n = m.insert(k, v);
    lemma_sum_remove(n, k);
    assert(n.remove(k) =~= m.remove(k));
    if m.contains_key(k) {
        lemma_sum_remove(m, k);
    } else {
        assert(m.remove(k) =~= m);
    }
}

/// The balances after `from` sends `amount` to `to`: the sender is debited
/// first, then the receiver is credited, so a transfer to oneself leaves the
/// balance as it was.
pub open spec fn after_transfer(
    m: Map<AccountId, Balance>,
    from: AccountId,
    to: AccountId,
    amount: Balance,
) -> Map<AccountId, Balance> {
    let debited = m.insert(from, (m[from] - amount) as Balance);
    debited.insert(to, (balance_or_zero(debited, to) + amount) as Balance)
}

/// The refusal, if any, that a transfer of `amount` from `origin` to `to`
/// meets on the balances `m`, in the order the checks are made.
pub open spec fn transfer_error(
    origin: Origin,
    m: Map<AccountId, Balance>,
    to: AccountId,
    amount: Balance,
) -> Option<LedgerError> {
    match signer_of(origin) {
        None => Some(LedgerError::Unauthorized),
        Some(from) => {
            if !m.contains_key(from) {
                Some(LedgerError::NonExistentAccount)
            } else if m[from] < amount {
                Some(LedgerError::InsufficientBalance)
            } else if balance_or_zero(m.insert(from, (m[from] - amount) as Balance), to) + amount
                > Balance::MAX {
                Some(LedgerError::Overflow)
            } else {
                None
            }
        },
    }
}

/// The refusal, if any, that minting `amount` into `to` meets.
pub open spec fn mint_error(
    m: Map<AccountId, Balance>,
    issuance: Option<Balance>,
    to: AccountId,
    amount: Balance,
) -> Option<LedgerError> {
    if balance_or_zero(m, to) + amount > Balance::MAX {
        Some(LedgerError::Overflow)
    } else if issuance.unwrap_or(0) + amount > Balance::MAX {
        Some(LedgerError::Overflow)
    } else {
        None
    }
}

/// The ledger's store: a balance record per account and the total issuance,
/// absent until the first mint.
pub struct Pallet {
    balances: HashMap<AccountId, Balance>,
    total_issuance: Option<Balance>,
}

impl Pallet {
    /// The balance records, by account.
    pub closed spec fn balances(&self) -> Map<AccountId, Balance> {
        self.balances@
    }

    /// The total issuance, `None` before anything was minted.
    pub closed spec fn issuance(&self) -> Option<Balance> {
        self.total_issuance
    }

    /// Only finitely many accounts ever hold a record.
    pub proof fn lemma_finite(&self)
        ensures
            self.balances().dom().finite(),
    {
    }

    /// An empty store: no account records and no issuance.
    pub fn new() -> (r: Pallet)
        ensures
            r.balances() == Map::<AccountId, Balance>::empty(),
            r.issuance() == None::<Balance>,
    {
        Pallet { balances: HashMap::new(), total_issuance: None }
    }

    /// The balance record of `who`, if there is one.
    pub fn get(&self, who: &AccountId) -> (r: Option<Balance>)
        ensures
            r == self.balances().get(*who),
    {
        match self.balances.get(who) {
            Some(b) => Some(*b),
            None => None,
        }
    }

    /// Writes the balance record of `who`, with no validation.
    pub fn set(&mut self, who: AccountId, balance: Balance)
        ensures
            final(self).balances() == old(self).balances().insert(who, balance),
            final(self).issuance() == old(self).issuance(),
    {
        self.balances.insert(who, balance);
    }

    /// The total issuance, if anything was ever minted.
    pub fn get_total_issuance(&self) -> (r: Option<Balance>)
        ensures
            r == self.issuance(),
    {
        self.total_issuance
    }

    /// Writes the total issuance, with no validation.
    pub fn set_total_issuance(&mut self, issuance: Balance)
        ensures
            final(self).balances() == old(self).balances(),
            final(self).issuance() == Some(issuance),
    {
        self.total_issuance = Some(issuance);
    }

    /// Moves `amount` from the signer of `origin` to `dest`.
    ///
    /// Fails, changing nothing, when the origin is not signed, when the
    /// sender has no record, when it holds less than `amount`, or when the
    /// receiver's balance would overflow. The total issuance never changes.
    pub fn transfer(&mut self, origin: Origin, dest: AccountId, amount: Balance) -> (r: Result<
        (),
        LedgerError,
    >)
        ensures
            final(self).issuance() == old(self).issuance(),
            match transfer_error(origin, old(self).balances(), dest, amount) {
                Some(e) => r == Err::<(), LedgerError>(e) && final(self).balances() == old(
                    self,
                ).balances(),
                None => r == Ok::<(), LedgerError>(()) && final(self).balances() == after_transfer(
                    old(self).balances(),
                    signer_of(origin).unwrap(),
                    dest,
                    amount,
                ),
            },
            signer_of(origin) is None ==> r == Err::<(), LedgerError>(LedgerError::Unauthorized),
            r is Err ==> final(self).balances() == old(self).balances(),
            r is Ok ==> sum_of(final(self).balances()) == sum_of(old(self).balances()),
    {
        let sender = match ensure_signed(&origin) {
            Some(who) => who,
            None => return Err(LedgerError::Unauthorized),
        };
        let sender_balance = match self.get(&sender) {
            Some(b) => b,
            None => return Err(LedgerError::NonExistentAccount),
        };
        if sender_balance < amount {
            return Err(LedgerError::InsufficientBalance);
        }
        let remainder = match sender_balance.checked_sub(amount) {
            Some(b) => b,
            None => return Err(LedgerError::InsufficientBalance),
        };
        let dest_before = if dest == sender {
            remainder
        } else {
            match self.get(&dest) {
                Some(b) => b,
                None => 0,
            }
        };
        let credited = match dest_before.checked_add(amount) {
            Some(b) => b,
            None => return Err(LedgerError::Overflow),
        };
        proof {
            let m = self.balances();
            self.lemma_finite();
            lemma_transfer_conserves(m, sender, dest, amount);
        }
        self.set(sender, remainder);
        self.set(dest, credited);
        Ok(())
    }

    /// Creates `amount` in the balance of `dest` and in the total issuance.
    ///
    /// Any origin may mint: the caller is resolved but not checked. Fails,
    /// changing nothing, when the balance or the issuance would overflow.
    pub fn mint_unsafe(&mut self, origin: Origin, dest: AccountId, amount: Balance) -> (r: Result<
        (),
        LedgerError,
    >)
        ensures
            match mint_error(old(self).balances(), old(self).issuance(), dest, amount) {
                Some(e) => r == Err::<(), LedgerError>(e) && final(self).balances() == old(
                    self,
                ).balances() && final(self).issuance() == old(self).issuance(),
                None => r == Ok::<(), LedgerError>(()) && final(self).balances() == old(
                    self,
                ).balances().insert(dest, (balance_or_zero(old(self).balances(), dest)
                    + amount) as Balance) && final(self).issuance() == Some(
                    (old(self).issuance().unwrap_or(0) + amount) as Balance,
                ),
            },
            r is Ok ==> balance_or_zero(final(self).balances(), dest) == balance_or_zero(
                old(self).balances(),
                dest,
            ) + amount,
            r is Ok ==> final(self).issuance().unwrap_or(0) == old(self).issuance().unwrap_or(0)
                + amount,
            r is Ok ==> sum_of(final(self).balances()) == sum_of(old(self).balances()) + amount,
            r is Err ==> final(self).balances() == old(self).balances() && final(self).issuance()
                == old(self).issuance(),
    {
        let _ = ensure_signed(&origin);
        let dest_before = match self.get(&dest) {
            Some(b) => b,
            None => 0,
        };
        let credited = match dest_before.checked_add(amount) {
            Some(b) => b,
            None => return Err(LedgerError::Overflow),
        };
        let issued_before = match self.total_issuance {
            Some(t) => t,
            None => 0,
        };
        let issued = match issued_before.checked_add(amount) {
            Some(t) => t,
            None => return Err(LedgerError::Overflow),
        };
        proof {
            self.lemma_finite();
            lemma_sum_insert(self.balances(), dest, credited);
        }
        self.set(dest, credited);
        self.set_total_issuance(issued);
        Ok(())
    }
}

/// A transfer that passes its checks leaves the sum of all balances as it
/// was.
pub proof fn lemma_transfer_conserves(
    m: Map<AccountId, Balance>,
    from: AccountId,
    to: AccountId,
    amount: Balance,
)
    requires
        m.dom().finite(),
        m.contains_key(from),
        m[from] >= amount,
        balance_or_zero(m.insert(from, (m[from] - amount) as Balance), to) + amount
            <= Balance::MAX,
    ensures
        sum_of(after_transfer(m, from, to, amount)) == sum_of(m),
{
    let debited = m.insert(from, (m[from] - amount) as Balance);
    lemma_sum_insert(m, from, (m[from] - amount) as Balance);
    lemma_sum_insert(debited, to, (balance_or_zero(debited, to) + amount) as Balance);
}

/// Any chain of transfers that all pass their checks leaves both the sum of
/// all balances and the total issuance as they were before the chain.
///
/// `states[i]` holds the balances and the issuance before the `i`-th
/// transfer, which `moves[i]` gives as sender, receiver and amount.
pub proof fn lemma_transfers_conserve(
    states: Seq<(Map<AccountId, Balance>, Option<Balance>)>,
    moves: Seq<(AccountId, AccountId, Balance)>,
)
    requires
        states.len() == moves.len() + 1,
        states[0].0.dom().finite(),
        forall|i: int|
            #![trigger moves[i]]
            0 <= i < moves.len() ==> {
                &&& transfer_error(Origin::Signed(moves[i].0), states[i].0, moves[i].1, moves[i].2)
                    is None
                &&& states[i + 1].0 == after_transfer(states[i].0, moves[i].0, moves[i].1, moves[i].2)
                &&& states[i + 1].1 == states[i].1
            },
    ensures
        states.last().0.dom().finite(),
        sum_of(states.last().0) == sum_of(states[0].0),
        states.last().1 == states[0].1,
    decreases moves.len(),
{
    if moves.len() > 0 {
        let n = moves.len() - 1;
        lemma_transfers_conserve(states.drop_last(), moves.drop_last());
        assert(states.drop_last().last() == states[n]);
        let mv = moves[n];
        lemma_transfer_conserves(states[n].0, mv.0, mv.1, mv.2);
    }
}

} // verus!
