use pass_manager::{PassManager, UserAccount, VaultError};

const DEPOSIT: u128 = 10000000000000000000000;
const BYTE_COST: u128 = 10000000000000000000;

fn manager() -> PassManager {
    PassManager::new("milos21.testnet".to_string())
}

fn add_paid(m: &mut PassManager, user: &str, website: &str, username: &str, password: &str) {
    assert_eq!(
        Ok(()),
        m.add_account(user.to_string(), website.to_string(), username.to_string(), password.to_string(), DEPOSIT)
    );
    assert_eq!(Ok(DEPOSIT - 200 * BYTE_COST), m.settle_add(1000, 1200, BYTE_COST));
}

fn account(id: u128, user: &str, website: &str, username: &str, password: &str) -> UserAccount {
    UserAccount {
        id,
        user_id: user.to_string(),
        website: website.to_string(),
        username: username.to_string(),
        password: password.to_string(),
    }
}

#[test]
fn add_account_success_test() {
    let mut pass_manager = manager();
    assert_eq!(
        Ok(()),
        pass_manager.add_account(
            "1.milos21.testnet".to_string(),
            "instagram".to_string(),
            "user1".to_string(),
            "pass1".to_string(),
            DEPOSIT
        )
    );
    assert!(pass_manager.has_pending());
    assert!(pass_manager.settle_add(1000, 1200, BYTE_COST).is_ok());
    assert!(!pass_manager.has_pending());
}

#[test]
fn add_account_panic_test() {
    let mut pass_manager = manager();
    assert_eq!(
        Err(VaultError::NoDeposit),
        pass_manager.add_account(
            "1.milos21.testnet".to_string(),
            "instagram".to_string(),
            "user1".to_string(),
            "pass1".to_string(),
            0
        )
    );
    assert_eq!(0, pass_manager.get_users_count());
    assert_eq!(None, pass_manager.get_one_account("1.milos21.testnet".to_string(), "instagram".to_string()));
}

#[test]
fn get_one_account_find_some_test() {
    let mut pass_manager = manager();
    add_paid(&mut pass_manager, "1.milos21.testnet", "instagram", "user1", "pass1");
    assert_eq!(
        Some(account(1, "1.milos21.testnet", "instagram", "user1", "pass1")),
        pass_manager.get_one_account("1.milos21.testnet".to_string(), "instagram".to_string())
    );
}

#[test]
fn get_one_account_invalid_user_test() {
    let mut pass_manager = manager();
    add_paid(&mut pass_manager, "1.milos21.testnet", "instagram", "user1", "pass1");
    assert_eq!(None, pass_manager.get_one_account("2.milos21.testnet".to_string(), "instagram".to_string()));
}

#[test]
fn get_one_account_invalid_website_test() {
    let mut pass_manager = manager();
    add_paid(&mut pass_manager, "1.milos21.testnet", "instagram", "user1", "pass1");
    assert_eq!(None, pass_manager.get_one_account("1.milos21.testnet".to_string(), "facebook".to_string()));
}

#[test]
fn get_accounts_per_user_find_some_test() {
    let mut pass_manager = manager();
    add_paid(&mut pass_manager, "1.milos21.testnet", "instagram", "user1", "pass1");
    add_paid(&mut pass_manager, "1.milos21.testnet", "facebook", "user2", "pass2");
    add_paid(&mut pass_manager, "1.milos21.testnet", "reddit", "user3", "pass3");
    add_paid(&mut pass_manager, "1.milos21.testnet", "twitter", "user4", "pass4");
    let acc_vec = vec![
        account(1, "1.milos21.testnet", "instagram", "user1", "pass1"),
        account(2, "1.milos21.testnet", "facebook", "user2", "pass2"),
        account(3, "1.milos21.testnet", "reddit", "user3", "pass3"),
        account(4, "1.milos21.testnet", "twitter", "user4", "pass4"),
    ];
    assert_eq!(Ok(acc_vec), pass_manager.get_accounts_per_user("1.milos21.testnet".to_string()));
}

#[test]
fn get_accounts_per_user_non_existent_user_test() {
    let mut pass_manager = manager();
    add_paid(&mut pass_manager, "1.milos21.testnet", "instagram", "user1", "pass1");
    assert_eq!(
        Err(VaultError::UnknownUser),
        pass_manager.get_accounts_per_user("2.milos21.testnet".to_string())
    );
}

#[test]
fn get_users_count_test() {
    let mut pass_manager = manager();
    add_paid(&mut pass_manager, "1.milos21.testnet", "instagram", "user1", "pass1");
    assert_eq!(1, pass_manager.get_users_count());
}

#[test]
fn remove_account_sucess_test() {
    let mut pass_manager = manager();
    add_paid(&mut pass_manager, "1.milos21.testnet", "instagram", "user1", "pass1");
    assert_eq!(Ok(()), pass_manager.remove_account("1.milos21.testnet".to_string(), 1));
}

#[test]
fn remove_account_invalid_user_test() {
    let mut pass_manager = manager();
    add_paid(&mut pass_manager, "1.milos21.testnet", "instagram", "user1", "pass1");
    assert_eq!(
        Err(VaultError::UnknownUser),
        pass_manager.remove_account("2.milos21.testnet".to_string(), 1)
    );
}

#[test]
fn remove_account_invalid_account_test() {
    let mut pass_manager = manager();
    add_paid(&mut pass_manager, "1.milos21.testnet", "instagram", "user1", "pass1");
    assert_eq!(
        Err(VaultError::AccountNotFound),
        pass_manager.remove_account("1.milos21.testnet".to_string(), 2)
    );
}
