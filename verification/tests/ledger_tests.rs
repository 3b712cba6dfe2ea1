use icp_token_wallet::Account;
use icp_token_wallet::ErrorKind;
use icp_token_wallet::TokenWallet;

// Helper to create test principal
fn test_principal(id: u8) -> Account {
    Account::from_bytes(vec![id])
}

#[test]
fn test_init() {
    let owner = test_principal(1);
    let mut wallet = TokenWallet::default();

    wallet.init(&owner);

    let balance: u64 = wallet.balance_of(&owner);
    assert_eq!(balance, 1000000);
}

#[test]
fn test_transfer() {
    let owner = test_principal(1);
    let recipient = test_principal(2);
    let mut wallet = TokenWallet::default();

    wallet.init(&owner);

    // Transfer tokens
    let result = wallet.transfer(&owner, &recipient, 100000);
    assert!(result.is_ok());

    // Check balances
    assert_eq!(wallet.balance_of(&owner), 900000);
    assert_eq!(wallet.balance_of(&recipient), 100000);
}

#[test]
fn test_insufficient_balance() {
    let owner = test_principal(1);
    let recipient = test_principal(2);
    let mut wallet = TokenWallet::default();

    wallet.init(&owner);

    // Try to transfer more than available
    let result = wallet.transfer(&owner, &recipient, 2000000);
    assert!(result.is_err());
    assert_eq!(result.unwrap_err().message(), "Insufficient balance");
}

#[test]
fn test_mint() {
    let owner = test_principal(1);
    let user = test_principal(2);
    let mut wallet = TokenWallet::default();

    wallet.init(&owner);

    // Mint tokens as owner
    let result = wallet.mint(&owner, &user, 500000);
    assert!(result.is_ok());
    assert_eq!(wallet.balance_of(&user), 500000);

    // Try minting as non-owner
    let result = wallet.mint(&user, &user, 500000);
    assert!(result.is_err());
}

#[test]
fn test_burn() {
    let owner = test_principal(1);
    let mut wallet = TokenWallet::default();

    wallet.init(&owner);

    let result = wallet.burn(&owner, 500000);
    assert!(result.is_ok());
    assert_eq!(wallet.balance_of(&owner), 500000);
    assert_eq!(wallet.total_supply(), 500000);
}

#[test]
fn init_sets_owner_supply_and_balance() {
    let x = test_principal(1);
    let mut wallet = TokenWallet::default();

    wallet.init(&x);

    assert_eq!(wallet.balance_of(&x), 1_000_000);
    assert_eq!(wallet.total_supply(), 1_000_000);
    assert_eq!(wallet.get_owner(), x);
}

#[test]
fn fresh_wallet_is_empty_with_anonymous_owner() {
    let wallet = TokenWallet::default();

    assert_eq!(wallet.total_supply(), 0);
    assert_eq!(wallet.balance_of(&test_principal(1)), 0);
    assert_eq!(wallet.get_owner(), Account::anonymous());
    assert!(wallet.list_accounts().is_empty());
}

#[test]
fn reads_are_idempotent() {
    let x = test_principal(1);
    let y = test_principal(2);
    let mut wallet = TokenWallet::default();

    wallet.init(&x);
    wallet.transfer(&x, &y, 250).unwrap();

    assert_eq!(wallet.balance_of(&x), wallet.balance_of(&x));
    assert_eq!(wallet.balance_of(&y), wallet.balance_of(&y));
    assert_eq!(wallet.total_supply(), wallet.total_supply());
    assert_eq!(wallet.get_owner(), wallet.get_owner());
    let first = wallet.list_accounts();
    let second = wallet.list_accounts();
    assert_eq!(first.len(), second.len());
    for (a, b) in first.iter().zip(second.iter()) {
        assert_eq!(a.0, b.0);
        assert_eq!(a.1, b.1);
    }
}

#[test]
fn transfer_conserves_supply_and_moves_exact_amount() {
    let x = test_principal(1);
    let y = test_principal(2);
    let mut wallet = TokenWallet::default();

    wallet.init(&x);
    let bx: u64 = wallet.balance_of(&x);
    let by: u64 = wallet.balance_of(&y);
    let supply: u64 = wallet.total_supply();

    wallet.transfer(&x, &y, 123_456).unwrap();

    assert_eq!(wallet.balance_of(&x), bx - 123_456);
    assert_eq!(wallet.balance_of(&y), by + 123_456);
    assert_eq!(wallet.total_supply(), supply);
}

#[test]
fn transfer_of_zero_succeeds_without_effect() {
    let x = test_principal(1);
    let y = test_principal(2);
    let mut wallet = TokenWallet::default();

    wallet.init(&x);

    let result = wallet.transfer(&x, &y, 0);
    assert!(result.is_ok());
    assert_eq!(wallet.balance_of(&x), 1_000_000);
    assert_eq!(wallet.balance_of(&y), 0);
    assert_eq!(wallet.total_supply(), 1_000_000);
}

#[test]
fn transfer_to_self_is_rejected() {
    let x = test_principal(1);
    let mut wallet = TokenWallet::default();

    wallet.init(&x);

    let result = wallet.transfer(&x, &x, 1);
    assert_eq!(result.unwrap_err(), ErrorKind::SelfTransfer);
    assert_eq!(result.unwrap_err().message(), "Cannot transfer to yourself");
    assert_eq!(wallet.balance_of(&x), 1_000_000);
}

#[test]
fn failed_transfer_leaves_balances_unchanged() {
    let x = test_principal(1);
    let y = test_principal(2);
    let mut wallet = TokenWallet::default();

    wallet.init(&x);

    let result = wallet.transfer(&x, &y, 2_000_000);
    assert_eq!(result.unwrap_err(), ErrorKind::InsufficientBalance);
    assert_eq!(wallet.balance_of(&x), 1_000_000);
    assert_eq!(wallet.balance_of(&y), 0);
    assert_eq!(wallet.total_supply(), 1_000_000);
}

#[test]
fn mint_by_owner_raises_balance_and_supply() {
    let x = test_principal(1);
    let y = test_principal(2);
    let mut wallet = TokenWallet::default();

    wallet.init(&x);

    wallet.mint(&x, &y, 500_000).unwrap();
    assert_eq!(wallet.balance_of(&y), 500_000);
    assert_eq!(wallet.total_supply(), 1_500_000);

    let result = wallet.mint(&y, &y, 500_000);
    assert_eq!(result.unwrap_err(), ErrorKind::Unauthorized);
    assert_eq!(result.unwrap_err().message(), "Only the owner can mint tokens");
    assert_eq!(wallet.balance_of(&y), 500_000);
    assert_eq!(wallet.total_supply(), 1_500_000);
}

#[test]
fn mint_that_would_overflow_supply_is_rejected() {
    let x = test_principal(1);
    let y = test_principal(2);
    let mut wallet = TokenWallet::default();

    wallet.init(&x);

    let result = wallet.mint(&x, &y, u64::MAX);
    assert_eq!(result.unwrap_err(), ErrorKind::Overflow);
    assert_eq!(result.unwrap_err().message(), "Arithmetic overflow");
    assert_eq!(wallet.balance_of(&y), 0);
    assert_eq!(wallet.total_supply(), 1_000_000);

    // The largest mint that still fits succeeds.
    let headroom: u64 = u64::MAX - 1_000_000;
    wallet.mint(&x, &y, headroom).unwrap();
    assert_eq!(wallet.total_supply(), u64::MAX);
    assert_eq!(wallet.balance_of(&y), headroom);
}

#[test]
fn burn_lowers_balance_and_supply() {
    let x = test_principal(1);
    let mut wallet = TokenWallet::default();

    wallet.init(&x);

    wallet.burn(&x, 500_000).unwrap();
    assert_eq!(wallet.balance_of(&x), 500_000);
    assert_eq!(wallet.total_supply(), 500_000);
}

#[test]
fn burn_beyond_balance_is_rejected() {
    let x = test_principal(1);
    let y = test_principal(2);
    let mut wallet = TokenWallet::default();

    wallet.init(&x);

    let result = wallet.burn(&y, 1);
    assert_eq!(result.unwrap_err(), ErrorKind::InsufficientBalance);
    assert_eq!(wallet.total_supply(), 1_000_000);

    let result = wallet.burn(&x, 1_000_001);
    assert_eq!(result.unwrap_err(), ErrorKind::InsufficientBalance);
    assert_eq!(wallet.balance_of(&x), 1_000_000);
}

#[test]
fn list_accounts_reports_positive_balances_exactly() {
    let x = test_principal(1);
    let y = test_principal(2);
    let mut wallet = TokenWallet::default();

    wallet.init(&x);
    wallet.transfer(&x, &y, 100_000).unwrap();

    let listed = wallet.list_accounts();
    assert_eq!(listed.len(), 2);
    assert!(listed.iter().any(|p| p.0 == x && p.1 == 900_000));
    assert!(listed.iter().any(|p| p.0 == y && p.1 == 100_000));
}

#[test]
fn list_accounts_never_contains_zero_balances() {
    let x = test_principal(1);
    let y = test_principal(2);
    let z = test_principal(3);
    let mut wallet = TokenWallet::default();

    wallet.init(&x);
    wallet.transfer(&x, &y, 100_000).unwrap();
    wallet.mint(&x, &z, 500_000).unwrap();
    // Empty two accounts: one by transferring everything away, one by burning.
    wallet.transfer(&y, &z, 100_000).unwrap();
    wallet.burn(&z, 600_000).unwrap();

    let listed = wallet.list_accounts();
    assert!(listed.iter().all(|p| p.1 > 0));
    assert!(!listed.iter().any(|p| p.0 == y));
    assert!(!listed.iter().any(|p| p.0 == z));
    assert_eq!(listed.len(), 1);
    assert!(listed.iter().any(|p| p.0 == x && p.1 == 900_000));
}

#[test]
fn supply_equals_sum_of_balances_through_a_history() {
    let x = test_principal(1);
    let y = test_principal(2);
    let z = test_principal(3);
    let mut wallet = TokenWallet::default();

    wallet.init(&x);
    wallet.transfer(&x, &y, 300_000).unwrap();
    wallet.mint(&x, &z, 200_000).unwrap();
    wallet.burn(&y, 50_000).unwrap();
    let _ = wallet.transfer(&z, &y, 999_999_999);
    let _ = wallet.mint(&y, &z, 1);

    let listed = wallet.list_accounts();
    let total: u64 = listed.iter().map(|p| p.1).sum();
    assert_eq!(total, wallet.total_supply());
    assert_eq!(wallet.total_supply(), 1_150_000);
}

#[test]
fn account_equality_follows_bytes() {
    let a = Account::from_bytes(vec![1, 2, 3]);
    let b = Account::from_bytes(vec![1, 2, 3]);
    let c = Account::from_bytes(vec![1, 2]);
    assert_eq!(a, b);
    assert_ne!(a, c);
    assert_eq!(a.as_bytes(), &vec![1, 2, 3]);
    assert_eq!(Account::anonymous().as_bytes(), &vec![4]);
    assert_eq!(a.clone(), a);
}
