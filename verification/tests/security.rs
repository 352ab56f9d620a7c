use clipsync::accounts::{AuthService, Session, User, UserService};
use clipsync::clipboard::ClipboardService;
use clipsync::crypto::{
    base64_decode, base64_encode, decrypt_data, encrypt_data, generate_encryption_key,
    generate_nonce, hash_password, verify_password,
};
use clipsync::error::AppError;
use clipsync::item::ClipboardItem;
use clipsync::requests::{
    effective_limit, effective_offset, item_request_of, should_capture, AddClipboardItemRequest,
};

#[test]
fn test_password_hash_verify() {
    let password = "StrongPassword123!";

    let hash_result = hash_password(password);
    assert!(hash_result.is_ok(), "password hashing failed");

    let hash = hash_result.unwrap();
    let verify_result = verify_password(&hash, password);

    assert!(verify_result.is_ok(), "password verification failed");
    assert!(verify_result.unwrap(), "the password should verify");

    let wrong_password = "WrongPassword123!";
    let verify_wrong_result = verify_password(&hash, wrong_password);

    assert!(verify_wrong_result.is_ok(), "password verification failed");
    assert!(!verify_wrong_result.unwrap(), "a wrong password should not verify");
}

#[test]
fn test_encrypt_decrypt() {
    let data = "Sensitive data that needs encryption";

    let key = generate_encryption_key();
    let nonce = generate_nonce();

    let encrypted_result = encrypt_data(data.as_bytes(), &key, &nonce);
    assert!(encrypted_result.is_ok(), "data encryption failed");

    let encrypted_data = encrypted_result.unwrap();

    let decrypted_result = decrypt_data(&encrypted_data, &key, &nonce);
    assert!(decrypted_result.is_ok(), "data decryption failed");

    let decrypted_data = decrypted_result.unwrap();
    assert_eq!(decrypted_data, data, "decrypted data should equal the original");

    let wrong_key = generate_encryption_key();
    let decrypt_wrong_key_result = decrypt_data(&encrypted_data, &wrong_key, &nonce);
    assert!(decrypt_wrong_key_result.is_err(), "a wrong key should not decrypt");
}

#[test]
fn base64_wrappers_match_known_values() {
    assert_eq!(base64_encode(b"abc"), "YWJj");
    assert_eq!(base64_encode(b""), "");
    assert_eq!(base64_decode("YWJj").unwrap(), b"abc");
    assert!(base64_decode("!!!").is_err());
}

#[test]
fn sealed_content_unpacks_to_the_original() {
    let key = generate_encryption_key();
    let nonce = generate_nonce();
    let sealed = ClipboardService::seal_content("clipboard text", &key, &nonce).unwrap();
    assert_ne!(sealed, "clipboard text");
    let opened = ClipboardService::decrypt_item_content(true, &sealed, &key).unwrap();
    assert_eq!(opened, "clipboard text");
}

#[test]
fn prepare_content_passes_plain_and_seals_encrypted() {
    let key = generate_encryption_key().to_vec();
    let nonce = generate_nonce();
    let (plain, flag) =
        ClipboardService::prepare_content("as is".to_string(), false, None, &nonce).unwrap();
    assert_eq!(plain, "as is");
    assert!(!flag);

    let missing =
        ClipboardService::prepare_content("secret".to_string(), true, None, &nonce);
    assert!(matches!(missing, Err(AppError::NotFound(_))));

    let (sealed, flag) =
        ClipboardService::prepare_content("secret".to_string(), true, Some(&key), &nonce).unwrap();
    assert!(flag);
    let opened = ClipboardService::decrypt_item_content(true, &sealed, &key).unwrap();
    assert_eq!(opened, "secret");
}

#[test]
fn unencrypted_content_is_returned_unchanged() {
    let key = generate_encryption_key();
    let out = ClipboardService::decrypt_item_content(false, "plain", &key).unwrap();
    assert_eq!(out, "plain");
}

#[test]
fn damaged_sealed_content_is_refused() {
    let key = generate_encryption_key();
    let not_base64 = ClipboardService::decrypt_item_content(true, "!!!", &key);
    assert!(matches!(not_base64, Err(AppError::CryptoError(_))));
    // Valid base64, but shorter than a nonce.
    let short = ClipboardService::decrypt_item_content(true, "YWJj", &key);
    assert!(matches!(short, Err(AppError::InvalidData(_))));
}

#[test]
fn session_checks_expiry_strictly() {
    let session = AuthService::build_session("u1", "dev", 1000);
    assert_eq!(session.user_id, "u1");
    assert_eq!(session.expires_at, 1000 + 2592000);
    assert_eq!(session.token.len(), 36);

    let fresh = Session { ..session };
    let ok = AuthService::check_session(Some(fresh), 1000);
    assert!(ok.is_ok());

    let expired = AuthService::build_session("u1", "dev", 0);
    let at_expiry = expired.expires_at;
    let rejected = AuthService::check_session(Some(expired), at_expiry);
    assert!(matches!(rejected, Err(AppError::InvalidData(_))), "expiry is strict");

    let missing = AuthService::check_session(None, 0);
    assert!(matches!(missing, Err(AppError::NotFound(_))));
}

#[test]
fn password_gate_maps_outcomes() {
    assert!(AuthService::password_gate(Ok(true)).is_ok());
    assert!(matches!(
        AuthService::password_gate(Ok(false)),
        Err(AppError::InvalidCredentials)
    ));
    assert!(matches!(
        AuthService::password_gate(Err("bad hash".to_string())),
        Err(AppError::CryptoError(_))
    ));
}

#[test]
fn reset_tokens_expire_in_a_day_and_gate_on_presence() {
    let (token, expires_at) = AuthService::build_reset_token(100);
    assert_eq!(token.len(), 36);
    assert_eq!(expires_at, 100 + 86400);
    assert!(matches!(AuthService::reset_gate(None), Err(AppError::InvalidData(_))));
    assert_eq!(AuthService::reset_gate(Some("u9".to_string())).unwrap(), "u9");
}

#[test]
fn usernames_derive_from_emails() {
    assert_eq!(UserService::username_from_email("ada@example.com"), "ada");
    assert_eq!(UserService::username_from_email("no-at-sign"), "no-at-sign");
    assert_eq!(UserService::username_from_email("a@b@c"), "a");
    assert_eq!(UserService::username_from_email("@leading"), "");
}

#[test]
fn registration_gate_and_profile() {
    assert!(matches!(
        UserService::register_gate(false, false),
        Err(AppError::InvalidData(_))
    ));
    assert!(matches!(
        UserService::register_gate(true, true),
        Err(AppError::InvalidData(_))
    ));
    assert!(UserService::register_gate(true, false).is_ok());

    let stored = "123456".to_string();
    assert!(UserService::code_matches(Some(&stored), "123456"));
    assert!(!UserService::code_matches(Some(&stored), "654321"));
    assert!(!UserService::code_matches(None, "123456"));

    let user = UserService::build_user("ada@example.com", 77);
    assert_eq!(user.username, "ada");
    assert_eq!(user.email.as_deref(), Some("ada@example.com"));
    assert_eq!(user.id.len(), 36);

    let profile = UserService::profile_of(&user);
    assert_eq!(profile.username, "ada");
    assert_eq!(profile.created_at, 77);

    let updated = UserService::apply_profile_update(&user, "lovelace", "ada@new.org", 99);
    assert_eq!(updated.username, "lovelace");
    assert_eq!(updated.email.as_deref(), Some("ada@new.org"));
    assert_eq!(updated.created_at, 77);
    assert_eq!(updated.updated_at, 99);
    assert_eq!(updated.id, user.id);
}

#[test]
fn request_helpers_apply_defaults() {
    assert_eq!(effective_limit(None), 50);
    assert_eq!(effective_limit(Some(10)), 10);
    assert_eq!(effective_offset(None), 0);
    assert_eq!(effective_offset(Some(5)), 5);
    let req = item_request_of(AddClipboardItemRequest {
        token: "t".to_string(),
        content: "c".to_string(),
        content_type: "text/plain".to_string(),
        encrypt: true,
    });
    assert_eq!(req.content, "c");
    assert!(req.encrypt);
    assert!(should_capture("new", "old"));
    assert!(!should_capture("", "old"));
    assert!(!should_capture("same", "same"));
}

#[test]
fn fresh_items_carry_the_clock_and_no_pin() {
    let item = ClipboardItem::new("content".to_string(), Some("title".to_string()), 123);
    assert_eq!(item.created_at, 123);
    assert_eq!(item.updated_at, 123);
    assert!(!item.is_pinned);
    assert_eq!(item.id.len(), 36);
    let copy = item.duplicate();
    assert_eq!(copy.id, item.id);
    assert_eq!(copy.content, "content");
}

#[test]
fn generated_user_ids_differ() {
    let a = User { ..UserService::build_user("x@y", 0) };
    let b = UserService::build_user("x@y", 0);
    assert_ne!(a.id, b.id);
}
