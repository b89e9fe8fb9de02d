use bank_transfer::account::{run_transfers, BankAccount, Direction, TransferRequest};

#[test]
fn transfer_moves_exact_amount_and_conserves_total() {
    let mut x = BankAccount::new(10);
    let mut y = BankAccount::new(5);
    BankAccount::transfer(&mut x, &mut y, 5);
    assert_eq!(x.balance(), 5);
    assert_eq!(y.balance(), 10);
    assert_eq!(x.balance() + y.balance(), 15);
}

#[test]
fn zero_amount_transfer_is_a_noop() {
    let mut x = BankAccount::new(10);
    let mut y = BankAccount::new(5);
    BankAccount::transfer(&mut x, &mut y, 0);
    assert_eq!(x.balance(), 10);
    assert_eq!(y.balance(), 5);
}

#[test]
fn negative_amount_transfers_in_the_opposite_direction() {
    let mut x = BankAccount::new(10);
    let mut y = BankAccount::new(5);
    BankAccount::transfer(&mut x, &mut y, -3);
    assert_eq!(x.balance(), 13);
    assert_eq!(y.balance(), 2);

    let mut a = BankAccount::new(10);
    let mut b = BankAccount::new(5);
    BankAccount::transfer(&mut b, &mut a, 3);
    assert_eq!(a.balance(), x.balance());
    assert_eq!(b.balance(), y.balance());
}

#[test]
fn balances_may_go_negative() {
    let mut x = BankAccount::new(10);
    let mut y = BankAccount::new(5);
    BankAccount::transfer(&mut x, &mut y, 25);
    assert_eq!(x.balance(), -15);
    assert_eq!(y.balance(), 30);
}

#[test]
fn increment_and_decrement_adjust_the_balance() {
    let mut account = BankAccount::new(7);
    account.increment(4);
    assert_eq!(account.balance(), 11);
    account.decrement(20);
    assert_eq!(account.balance(), -9);
    account.increment(-1);
    assert_eq!(account.balance(), -10);
}

#[test]
fn transfer_works_at_the_integer_extremes() {
    let mut x = BankAccount::new(i32::MAX);
    let mut y = BankAccount::new(i32::MIN);
    BankAccount::transfer(&mut x, &mut y, i32::MAX);
    assert_eq!(x.balance(), 0);
    assert_eq!(y.balance(), -1);
}

#[test]
fn sequential_transfers_equal_the_arithmetic_sum_of_effects() {
    let mut first = BankAccount::new(10);
    let mut second = BankAccount::new(5);
    let requests = vec![
        TransferRequest { direction: Direction::FirstToSecond, amount: 5 },
        TransferRequest { direction: Direction::SecondToFirst, amount: 2 },
        TransferRequest { direction: Direction::FirstToSecond, amount: 1 },
    ];
    run_transfers(&mut first, &mut second, &requests);
    assert_eq!(first.balance(), 10 - 5 + 2 - 1);
    assert_eq!(second.balance(), 5 + 5 - 2 + 1);
}

#[test]
fn empty_batch_changes_nothing() {
    let mut first = BankAccount::new(42);
    let mut second = BankAccount::new(-3);
    let requests: Vec<TransferRequest> = vec![];
    run_transfers(&mut first, &mut second, &requests);
    assert_eq!(first.balance(), 42);
    assert_eq!(second.balance(), -3);
}

#[test]
fn demo_scenario_balances_are_deterministic_in_either_order() {
    let transfer_five = TransferRequest { direction: Direction::FirstToSecond, amount: 5 };
    let transfer_two = TransferRequest { direction: Direction::SecondToFirst, amount: 2 };

    let mut a = BankAccount::new(10);
    let mut b = BankAccount::new(5);
    run_transfers(&mut a, &mut b, &vec![transfer_five, transfer_two]);
    assert_eq!(a.balance(), 10 - 5 + 2);
    assert_eq!(b.balance(), 5 + 5 - 2);

    let mut a = BankAccount::new(10);
    let mut b = BankAccount::new(5);
    run_transfers(&mut a, &mut b, &vec![transfer_two, transfer_five]);
    assert_eq!(a.balance(), 7);
    assert_eq!(b.balance(), 8);
}
