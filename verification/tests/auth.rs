use darkdb::auth::basic_credentials;
use darkdb::auth::AuthConfig;

fn config_with(user: &str, password: &str) -> AuthConfig {
    let hash = bcrypt::hash(password, 4).expect("hashing succeeds");
    AuthConfig {
        users: vec![(user.to_string(), hash)],
    }
}

#[test]
fn the_configured_password_is_accepted() {
    let config = config_with("alice", "secret");
    let user = config.authenticate("alice", "secret").expect("valid credentials");
    assert_eq!(user.username, "alice");
}

#[test]
fn wrong_password_and_unknown_user_are_rejected() {
    let config = config_with("alice", "secret");
    assert!(config.authenticate("alice", "wrong").is_none());
    assert!(config.authenticate("bob", "secret").is_none());
}

#[test]
fn a_malformed_stored_hash_rejects_without_panicking() {
    let config = AuthConfig {
        users: vec![("alice".to_string(), "not-a-hash".to_string())],
    };
    assert!(config.authenticate("alice", "secret").is_none());
}

#[test]
fn basic_header_credentials_are_extracted() {
    let header = format!("Basic {}", base64::encode("alice:s3cr:et"));
    let (name, password) = basic_credentials(&header).expect("well-formed header");
    assert_eq!(name, "alice");
    // Only the first colon separates the name from the password.
    assert_eq!(password, "s3cr:et");
}

#[test]
fn malformed_basic_headers_are_rejected() {
    assert!(basic_credentials("").is_none());
    assert!(basic_credentials("Bearer abc").is_none());
    assert!(basic_credentials("Basic !!!not-base64!!!").is_none());
    // No colon between name and password.
    let no_colon = format!("Basic {}", base64::encode("alicesecret"));
    assert!(basic_credentials(&no_colon).is_none());
}

#[test]
fn a_full_basic_header_authenticates_end_to_end() {
    let config = config_with("alice", "secret");
    let header = format!("Basic {}", base64::encode("alice:secret"));
    let user = config.authenticate_basic(&header).expect("valid header");
    assert_eq!(user.username, "alice");
    let bad = format!("Basic {}", base64::encode("alice:wrong"));
    assert!(config.authenticate_basic(&bad).is_none());
}
