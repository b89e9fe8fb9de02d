//! Accounts and the transfer arithmetic.
//!
//! An account is a plain signed balance. A transfer moves an amount from one
//! account to another; the contracts state the exact effect on both balances,
//! including that the total over the two accounts is conserved. Negative
//! balances and negative amounts are deliberately permitted: the model has no
//! overdraft protection and no validation.

use vstd::prelude::*;

verus! {

/// A mutable balance holder. The balance is a signed machine integer and may
/// go negative; mutation in a concurrent setting must happen only under the
/// account's exclusive lock, which the callers arrange (see `locking`).
pub struct BankAccount {
    balance: i32,
}

impl View for BankAccount {
    type V = int;

    closed spec fn view(&self) -> int {
        self.balance as int
    }
}

/// The arithmetic effect of moving `amount` out of the first balance and into
/// the second: the source decreases by exactly the amount and the destination
/// increases by exactly the amount. A negative amount therefore moves value
/// the opposite way.
pub open spec fn transfer_effect(from_balance: int, to_balance: int, amount: int) -> (int, int) {
    (from_balance - amount, to_balance + amount)
}

impl BankAccount {
    /// Construct an account with the given starting balance.
    pub fn new(balance: i32) -> (account: BankAccount)
        ensures
            account@ == balance as int,
    {
        BankAccount { balance }
    }

    /// Read the current balance.
    pub fn balance(&self) -> (balance: i32)
        ensures
            balance == self@,
    {
        self.balance
    }

    /// Add `amount` to the balance. The caller must hold the account's
    /// exclusive lock when the account is shared. The precondition only rules
    /// out machine overflow; no business rule is checked.
    pub fn increment(&mut self, amount: i32)
        requires
            i32::MIN <= old(self)@ + amount <= i32::MAX,
        ensures
            final(self)@ == old(self)@ + amount,
    {
        self.balance = self.balance + amount;
    }

    /// Subtract `amount` from the balance; the result may be negative. The
    /// caller must hold the account's exclusive lock when the account is
    /// shared. The precondition only rules out machine overflow.
    pub fn decrement(&mut self, amount: i32)
        requires
            i32::MIN <= old(self)@ - amount <= i32::MAX,
        ensures
            final(self)@ == old(self)@ - amount,
    {
        self.balance = self.balance - amount;
    }

    /// Move `amount` from `from` to `to`: the source decreases by exactly
    /// `amount`, the destination increases by exactly `amount`, and the total
    /// over the two accounts is unchanged. In a concurrent setting the caller
    /// must hold both accounts' locks for the duration of the call.
    pub fn transfer(from: &mut BankAccount, to: &mut BankAccount, amount: i32)
        requires
            i32::MIN <= old(from)@ - amount <= i32::MAX,
            i32::MIN <= old(to)@ + amount <= i32::MAX,
        ensures
            (final(from)@, final(to)@) == transfer_effect(old(from)@, old(to)@, amount as int),
            final(from)@ == old(from)@ - amount,
            final(to)@ == old(to)@ + amount,
            final(from)@ + final(to)@ == old(from)@ + old(to)@,
    {
        from.decrement(amount);
        to.increment(amount);
    }
}

/// Law: a transfer conserves the total balance, whatever the amount.
pub proof fn lemma_transfer_conserves_total(from_balance: int, to_balance: int, amount: int)
    ensures
        transfer_effect(from_balance, to_balance, amount).0 + transfer_effect(
            from_balance,
            to_balance,
            amount,
        ).1 == from_balance + to_balance,
{
}

/// Law: a transfer of amount zero leaves both balances unchanged.
pub proof fn lemma_zero_transfer_is_noop(from_balance: int, to_balance: int)
    ensures
        transfer_effect(from_balance, to_balance, 0) == (from_balance, to_balance),
{
}

/// Law: a transfer of a negative amount is exactly a transfer of the negated
/// amount in the opposite direction.
pub proof fn lemma_negative_transfer_reverses(from_balance: int, to_balance: int, amount: int)
    ensures
        transfer_effect(from_balance, to_balance, -amount).0 == transfer_effect(
            to_balance,
            from_balance,
            amount,
        ).1,
        transfer_effect(from_balance, to_balance, -amount).1 == transfer_effect(
            to_balance,
            from_balance,
            amount,
        ).0,
{
}

/// The direction of one transfer between a fixed pair of accounts.
#[derive(Clone, Copy, PartialEq, Eq, Structural, Debug)]
pub enum Direction {
    /// Move value out of the first account of the pair into the second.
    FirstToSecond,
    /// Move value out of the second account of the pair into the first.
    SecondToFirst,
}

/// One requested transfer between a fixed pair of accounts: a direction and
/// an amount. Ephemeral — it exists only to be applied.
#[derive(Clone, Copy, PartialEq, Eq, Structural, Debug)]
pub struct TransferRequest {
    pub direction: Direction,
    pub amount: i32,
}

/// The amount a request moves from the first account of the pair to the
/// second, counted negatively when it moves the other way.
pub open spec fn signed_flow(request: TransferRequest) -> int {
    match request.direction {
        Direction::FirstToSecond => request.amount as int,
        Direction::SecondToFirst => -(request.amount as int),
    }
}

/// The net amount a sequence of requests moves from the first account of the
/// pair to the second: the sum of the signed flows.
pub open spec fn net_flow(requests: Seq<TransferRequest>) -> int
    decreases requests.len(),
{
    if requests.len() == 0 {
        0
    } else {
        net_flow(requests.drop_last()) + signed_flow(requests.last())
    }
}

proof fn lemma_net_flow_step(requests: Seq<TransferRequest>, i: int)
    requires
        0 <= i < requests.len(),
    ensures
        net_flow(requests.take(i + 1)) == net_flow(requests.take(i)) + signed_flow(requests[i]),
{
    assert(requests.take(i + 1).drop_last() =~= requests.take(i));
    assert(requests.take(i + 1).last() == requests[i]);
}

/// Law: applying a sequence of transfers one after the other produces exactly
/// the balances given by the arithmetic sum of their effects — no update is
/// lost and none is applied twice. The precondition only rules out machine
/// overflow at every intermediate state.
pub fn run_transfers(
    first: &mut BankAccount,
    second: &mut BankAccount,
    requests: &Vec<TransferRequest>,
)
    requires
        forall|i: int|
            0 <= i <= requests@.len() ==> {
                &&& i32::MIN <= old(first)@ - net_flow(#[trigger] requests@.take(i)) <= i32::MAX
                &&& i32::MIN <= old(second)@ + net_flow(requests@.take(i)) <= i32::MAX
            },
    ensures
        final(first)@ == old(first)@ - net_flow(requests@),
        final(second)@ == old(second)@ + net_flow(requests@),
        final(first)@ + final(second)@ == old(first)@ + old(second)@,
{
    let ghost first_start: int = first@;
    let ghost second_start: int = second@;
    let mut k: usize = 0;
    proof {
        assert(requests@.take(0) =~= Seq::<TransferRequest>::empty());
    }
    while k < requests.len()
        invariant
            k <= requests.len(),
            first@ == first_start - net_flow(requests@.take(k as int)),
            second@ == second_start + net_flow(requests@.take(k as int)),
            forall|i: int|
                0 <= i <= requests@.len() ==> {
                    &&& i32::MIN <= first_start - net_flow(#[trigger] requests@.take(i))
                        <= i32::MAX
                    &&& i32::MIN <= second_start + net_flow(requests@.take(i)) <= i32::MAX
                },
        decreases requests.len() - k,
    {
        let request = requests[k];
        proof {
            lemma_net_flow_step(requests@, k as int);
            assert(i32::MIN <= first_start - net_flow(requests@.take(k as int + 1)) <= i32::MAX);
            assert(i32::MIN <= second_start + net_flow(requests@.take(k as int + 1)) <= i32::MAX);
        }
        match request.direction {
            Direction::FirstToSecond => BankAccount::transfer(first, second, request.amount),
            Direction::SecondToFirst => BankAccount::transfer(second, first, request.amount),
        }
        k = k + 1;
    }
    proof {
        assert(requests@.take(requests@.len() as int) =~= requests@);
    }
}

} // verus!
