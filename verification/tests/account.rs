use act::account::Account;

#[test]
fn test_account_creation() {
    let account = Account::new(100);
    assert_eq!(account.id(), 100);
    assert_eq!(account.total(), 0);
    assert_eq!(account.held(), 0);
    assert!(!account.is_locked());
}

#[test]
fn test_account_with_balance() {
    let account = Account::with_balance(200, 500);
    assert_eq!(account.id(), 200);
    assert_eq!(account.total(), 500);
    assert_eq!(account.held(), 0);
}

#[test]
fn test_account_deposit() {
    let mut account = Account::new(300);
    let balance = account.deposit(200);
    assert!(matches!(balance, Ok(200)));
    assert_eq!(account.total(), 200);
    assert!(matches!(account.available(), Ok(200)));
}

#[test]
fn test_account_withdraw() {
    let mut account = Account::with_balance(400, 300);
    let balance = account.withdraw(100);
    assert!(matches!(balance, Ok(200)));
    assert_eq!(account.total(), 200);
    assert!(matches!(account.available(), Ok(200)));
}

#[test]
fn test_account_hold() {
    let mut account = Account::with_balance(500, 300);
    let balance = account.hold(100);
    assert!(matches!(balance, Ok(200)));
    assert_eq!(account.held(), 100);
    assert!(matches!(account.available(), Ok(200)));
}

#[test]
fn test_account_hold_overflow() {
    let mut account = Account::with_balance(1, i64::MAX);
    assert!(account.hold(u64::MAX).is_ok());
    account.hold(1).expect_err("Hold should fail due to overflow");
}

#[test]
fn test_account_unhold() {
    let mut account = Account::with_balance(600, 300);
    account.hold(100).expect("Hold failed");
    let balance = account.unhold(50);
    assert!(matches!(balance, Ok(250)));
    assert_eq!(account.held(), 50);
    assert!(matches!(account.available(), Ok(250)));
}

#[test]
fn test_account_unhold_over() {
    let mut account = Account::with_balance(700, 300);
    account.hold(100).expect("Hold failed");
    account.unhold(200).expect_err("Unhold should fail due to insufficient held amount");
}

#[test]
fn test_withdraw_negative_balance() {
    let mut account = Account::new(800);
    account.withdraw(100).expect_err("Withdraw should fail due to insufficient balance");
    assert_eq!(account.total(), 0);
    assert_eq!(account.held(), 0);
}

#[test]
fn test_limit_values() {
    let mut account = Account::new(999);
    let balance = account.deposit(i64::MAX as u64).expect("Max deposit should succeed");
    assert_eq!(balance, i64::MAX);
    account.deposit(1).expect_err("Above max deposit should fail");
    assert_eq!(account.available().expect("Balance not available"), i64::MAX);
    let balance = account.hold(u64::MAX).expect("Holding max should succeed");
    assert_eq!(balance, i64::MIN);
    account.hold(1).expect_err("Holding beyong max should fail");
    assert_eq!(account.available().expect("Balance not available"), i64::MIN);
    let balance = account.unhold(u64::MAX).expect("Holding to zero should succeed");
    assert_eq!(balance, i64::MAX);
    account.withdraw(1).expect("Withdraw 1 should succeed");
    account.hold(u64::MAX).expect_err("Holding beyong max should fail");
    assert_eq!(account.available().expect("Balance not available"), i64::MAX - 1);
}
