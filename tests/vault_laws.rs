use pass_manager::{
    decode, encode, release_refund, storage_cost, text_from_decoded, CodecError, PassManager, UserAccount, VaultError,
};

fn record(id: u128, user: &str, website: &str, username: &str, password: &str) -> UserAccount {
    UserAccount {
        id,
        user_id: user.to_string(),
        website: website.to_string(),
        username: username.to_string(),
        password: password.to_string(),
    }
}

fn add(m: &mut PassManager, user: &str, website: &str, username: &str, password: &str) {
    assert_eq!(
        Ok(()),
        m.add_account(user.to_string(), website.to_string(), username.to_string(), password.to_string(), 1000)
    );
    assert_eq!(Ok(900), m.settle_add(10, 20, 10));
}

#[test]
fn upsert_keeps_one_record() {
    let mut m = PassManager::new("owner".to_string());
    add(&mut m, "u1", "instagram", "user1", "pass1");
    add(&mut m, "u1", "instagram", "other", "secret");
    assert_eq!(1, m.get_users_count());
    assert_eq!(1, m.account_id_counter());
    assert_eq!(
        Some(record(1, "u1", "instagram", "other", "secret")),
        m.get_one_account("u1".to_string(), "instagram".to_string())
    );
    assert_eq!(Ok(vec![record(1, "u1", "instagram", "other", "secret")]), m.get_accounts_per_user("u1".to_string()));
}

#[test]
fn codec_round_trip() {
    for p in ["", "pass1", "user name with spaces", "çà€𝄞", "ab", "abc", "abcd"] {
        assert_eq!(Ok(p.to_string()), decode(&encode(p)));
    }
}

#[test]
fn codec_stores_base64() {
    assert_eq!("dXNlcjE=", encode("user1"));
    assert_eq!("", encode(""));
    assert_eq!(Ok("pass1".to_string()), decode("cGFzczE="));
}

#[test]
fn codec_rejects_malformed() {
    assert_eq!(Err(CodecError::MalformedEncoding), decode("not base64!"));
}

#[test]
fn codec_rejects_invalid_utf8() {
    assert_eq!(Err(CodecError::InvalidUtf8), decode("/w=="));
    assert_eq!(Err(CodecError::InvalidUtf8), text_from_decoded(Some(vec![0xff])));
    assert_eq!(Err(CodecError::MalformedEncoding), text_from_decoded(None));
    assert_eq!(Ok("ok".to_string()), text_from_decoded(Some(vec![b'o', b'k'])));
}

#[test]
fn rollback_of_new_record_is_exact() {
    let mut m = PassManager::new("owner".to_string());
    assert_eq!(
        Ok(()),
        m.add_account("u1".to_string(), "instagram".to_string(), "user1".to_string(), "pass1".to_string(), 5)
    );
    assert_eq!(Err(VaultError::InsufficientPayment(100)), m.settle_add(0, 10, 10));
    assert!(!m.has_pending());
    assert_eq!(0, m.get_users_count());
    assert_eq!(0, m.account_id_counter());
    assert_eq!(None, m.get_one_account("u1".to_string(), "instagram".to_string()));
    assert_eq!(Err(VaultError::UnknownUser), m.get_accounts_per_user("u1".to_string()));
    add(&mut m, "u1", "instagram", "user1", "pass1");
    assert_eq!(
        Some(record(1, "u1", "instagram", "user1", "pass1")),
        m.get_one_account("u1".to_string(), "instagram".to_string())
    );
}

#[test]
fn rollback_of_update_restores_previous() {
    let mut m = PassManager::new("owner".to_string());
    add(&mut m, "u1", "instagram", "user1", "pass1");
    add(&mut m, "u1", "facebook", "user2", "pass2");
    assert_eq!(
        Ok(()),
        m.add_account("u1".to_string(), "instagram".to_string(), "new".to_string(), "newpass".to_string(), 1)
    );
    assert_eq!(Err(VaultError::InsufficientPayment(2)), m.settle_add(7, 8, 2));
    assert_eq!(2, m.account_id_counter());
    assert_eq!(
        Ok(vec![record(1, "u1", "instagram", "user1", "pass1"), record(2, "u1", "facebook", "user2", "pass2")]),
        m.get_accounts_per_user("u1".to_string())
    );
}

#[test]
fn rollback_of_second_user_keeps_first() {
    let mut m = PassManager::new("owner".to_string());
    add(&mut m, "u1", "instagram", "user1", "pass1");
    assert_eq!(
        Ok(()),
        m.add_account("u2".to_string(), "reddit".to_string(), "user3".to_string(), "pass3".to_string(), 3)
    );
    assert_eq!(2, m.get_users_count());
    assert_eq!(Err(VaultError::InsufficientPayment(4)), m.settle_add(0, 2, 2));
    assert_eq!(1, m.get_users_count());
    assert_eq!(1, m.account_id_counter());
    assert_eq!(Err(VaultError::UnknownUser), m.get_accounts_per_user("u2".to_string()));
}

#[test]
fn zero_deposit_creates_nothing() {
    let mut m = PassManager::new("owner".to_string());
    assert_eq!(
        Err(VaultError::NoDeposit),
        m.add_account("u1".to_string(), "instagram".to_string(), "user1".to_string(), "pass1".to_string(), 0)
    );
    assert!(!m.has_pending());
    assert_eq!(0, m.get_users_count());
    assert_eq!(0, m.account_id_counter());
}

#[test]
fn four_sites_then_remove() {
    let mut m = PassManager::new("owner".to_string());
    add(&mut m, "u1", "instagram", "user1", "pass1");
    add(&mut m, "u1", "facebook", "user2", "pass2");
    add(&mut m, "u1", "reddit", "user3", "pass3");
    add(&mut m, "u1", "twitter", "user4", "pass4");
    let listed = m.get_accounts_per_user("u1".to_string()).unwrap();
    assert_eq!(4, listed.len());
    assert_eq!(vec![1, 2, 3, 4], listed.iter().map(|a| a.id).collect::<Vec<u128>>());
    assert_eq!(Err(VaultError::UnknownUser), m.get_accounts_per_user("u2".to_string()));

    assert_eq!(Ok(()), m.remove_account("u1".to_string(), 1));
    assert_eq!(None, m.get_one_account("u1".to_string(), "instagram".to_string()));
    assert_eq!(Err(VaultError::AccountNotFound), m.remove_account("u1".to_string(), 1));
    assert_eq!(
        Ok(vec![
            record(2, "u1", "facebook", "user2", "pass2"),
            record(3, "u1", "reddit", "user3", "pass3"),
            record(4, "u1", "twitter", "user4", "pass4"),
        ]),
        m.get_accounts_per_user("u1".to_string())
    );
    assert_eq!(Err(VaultError::UnknownUser), m.remove_account("nonexistent_user".to_string(), 1));
}

#[test]
fn removing_last_account_drops_user() {
    let mut m = PassManager::new("owner".to_string());
    add(&mut m, "u1", "instagram", "user1", "pass1");
    add(&mut m, "u2", "instagram", "user2", "pass2");
    assert_eq!(2, m.get_users_count());
    assert_eq!(Ok(()), m.remove_account("u1".to_string(), 1));
    assert_eq!(1, m.get_users_count());
    assert_eq!(Err(VaultError::UnknownUser), m.get_accounts_per_user("u1".to_string()));
    assert_eq!(Err(VaultError::AccountNotFound), m.remove_account("u2".to_string(), 1));
    add(&mut m, "u1", "instagram", "again", "again");
    assert_eq!(3, m.account_id_counter());
}

#[test]
fn ids_are_not_reused_after_removal() {
    let mut m = PassManager::new("owner".to_string());
    add(&mut m, "u1", "instagram", "user1", "pass1");
    assert_eq!(Ok(()), m.remove_account("u1".to_string(), 1));
    add(&mut m, "u1", "instagram", "user1", "pass1");
    assert_eq!(
        Some(record(2, "u1", "instagram", "user1", "pass1")),
        m.get_one_account("u1".to_string(), "instagram".to_string())
    );
}

#[test]
fn storage_cost_values() {
    assert_eq!(200, storage_cost(100, 120, 10));
    assert_eq!(0, storage_cost(120, 100, 10));
    assert_eq!(0, storage_cost(100, 100, 10));
    assert_eq!(u128::MAX, storage_cost(0, u64::MAX, u128::MAX));
}

#[test]
fn surplus_of_one_unit_is_kept() {
    let mut m = PassManager::new("owner".to_string());
    assert_eq!(
        Ok(()),
        m.add_account("u1".to_string(), "a".to_string(), "b".to_string(), "c".to_string(), 21)
    );
    assert_eq!(Ok(0), m.settle_add(0, 2, 10));
    assert_eq!(
        Ok(()),
        m.add_account("u1".to_string(), "d".to_string(), "e".to_string(), "f".to_string(), 22)
    );
    assert_eq!(Ok(2), m.settle_add(0, 2, 10));
    assert_eq!(
        Ok(()),
        m.add_account("u1".to_string(), "g".to_string(), "h".to_string(), "i".to_string(), 20)
    );
    assert_eq!(Ok(0), m.settle_add(0, 2, 10));
    assert_eq!(3, m.account_id_counter());
}

#[test]
fn release_refund_values() {
    assert_eq!(500, release_refund(150, 100, 10));
    assert_eq!(0, release_refund(100, 150, 10));
    assert_eq!(0, release_refund(101, 100, 1));
    assert_eq!(2, release_refund(102, 100, 1));
}

#[test]
fn owner_is_kept() {
    let m = PassManager::new("milos21.testnet".to_string());
    assert_eq!("milos21.testnet", m.owner_id());
    assert_eq!(0, m.get_users_count());
}
