use bramha::middleware::auth::{bearer_token, rejection_status, ApiKeyInfo, AuthManager, Role};

#[test]
fn test_role_hierarchy_comparisons() {
    assert!(Role::Admin > Role::Write);
    assert!(Role::Write > Role::ReadOnly);
    assert!(Role::Admin >= Role::Admin);
}

#[test]
fn test_auth_manager_authorization_rules() {
    let manager = AuthManager::new();
    // 1. Default keys
    let keys = AuthManager::default_keys();
    assert!(keys.iter().any(|k| k.key == "admin_key"));
    assert!(keys.iter().any(|k| k.key == "write_key"));
    assert!(keys.iter().any(|k| k.key == "read_key"));

    // 2. Authorize admin for Admin role
    let admin_info = manager.authorize(&keys, "admin_key", Role::Admin).unwrap();
    assert_eq!(admin_info.role, Role::Admin);

    // 3. Authorize admin for ReadOnly role (hierarchy check)
    let read_info = manager.authorize(&keys, "admin_key", Role::ReadOnly).unwrap();
    assert_eq!(read_info.role, Role::Admin);

    // 4. Authorize read_key for Write role (should fail!)
    let write_fail = manager.authorize(&keys, "read_key", Role::Write);
    assert!(write_fail.is_err());
    assert!(write_fail.unwrap_err().contains("Forbidden"));

    // 5. Authorize invalid key (should fail!)
    let invalid_fail = manager.authorize(&keys, "bad_key", Role::ReadOnly);
    assert!(invalid_fail.is_err());
    assert!(invalid_fail.unwrap_err().contains("Unauthorized"));
}

#[test]
fn authorization_messages_and_paths() {
    let manager = AuthManager::new();
    assert_eq!(manager.keys_path(), "storage/keys.json");
    let keys = AuthManager::default_keys();
    assert_eq!(
        manager.authorize(&keys, "read_key", Role::Admin).unwrap_err(),
        "Forbidden: Insufficient privileges. Required role: Admin"
    );
    assert_eq!(manager.authorize(&keys, "", Role::ReadOnly).unwrap_err(), "Unauthorized: Invalid API Key");
    assert_eq!(manager.authorize(&keys, "write_key", Role::Write).unwrap().key, "write_key");
    assert!(Role::Write.covers(Role::ReadOnly) && !Role::ReadOnly.covers(Role::Write));
}

#[test]
fn bearer_token_extraction() {
    assert_eq!(bearer_token("Bearer abc"), Some("abc".to_string()));
    assert_eq!(bearer_token("Bearer "), Some(String::new()));
    assert_eq!(bearer_token("bearer abc"), None);
    assert_eq!(bearer_token("Basic xyz"), None);
    assert_eq!(bearer_token("Bear"), None);
}

#[test]
fn refusals_map_to_http_status() {
    assert_eq!(rejection_status("Forbidden: Insufficient privileges. Required role: Admin"), 403);
    assert_eq!(rejection_status("Unauthorized: Invalid API Key"), 401);
    assert_eq!(rejection_status("Forbid"), 401);
}

#[test]
fn unique_keys_give_their_role_wherever_they_stand() {
    let manager = AuthManager::new();
    let mut keys: Vec<ApiKeyInfo> = AuthManager::default_keys();
    keys.reverse();
    keys.push(ApiKeyInfo { key: "other".to_string(), role: Role::Write });
    for k in keys.clone() {
        let info = manager.authorize(&keys, &k.key, Role::ReadOnly).unwrap();
        assert_eq!(info.key, k.key);
        assert_eq!(info.role, k.role);
    }
}
