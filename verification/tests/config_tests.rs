use gallery::config::{
    config_flag, decrypt_xai_key, encrypt_xai_key, encrypt_xai_key_with_nonce, flag_text,
    gallery_preferences_from_config, gallery_preferences_to_save, normalize_gallery_mode,
    stored_key_nonce_fits, normalize_gallery_preferences,
    normalize_windows_close_behavior, platform_name, thumbnail_cache_key, windows_startup_settings,
    windows_startup_settings_from_config, xai_encryption_key, xai_key_from_store, xai_key_to_store,
    xai_key_to_store_with_nonce,
};

fn hex(bytes: &[u8]) -> String {
    bytes.iter().map(|b| format!("{b:02x}")).collect()
}

#[test]
fn flags_read_back_as_written() {
    assert!(config_flag(flag_text(true)));
    assert!(!config_flag(flag_text(false)));
    assert!(!config_flag("TRUE"));
    assert!(!config_flag(""));
}

#[test]
fn close_behavior_is_normalized() {
    assert_eq!(normalize_windows_close_behavior("exit".to_string()), "exit");
    assert_eq!(normalize_windows_close_behavior("tray".to_string()), "tray");
    assert_eq!(normalize_windows_close_behavior("ask".to_string()), "ask");
    assert_eq!(normalize_windows_close_behavior("minimize".to_string()), "ask");
    let once = normalize_windows_close_behavior("bogus".to_string());
    assert_eq!(normalize_windows_close_behavior(once.clone()), once);
}

#[test]
fn desktop_background_startup_needs_startup() {
    let s = windows_startup_settings(false, true);
    assert!(!s.startup_enabled && !s.startup_desktop_background);
    let s = windows_startup_settings(true, true);
    assert!(s.startup_enabled && s.startup_desktop_background);
    let s = windows_startup_settings_from_config("true", "false");
    assert!(s.startup_enabled && !s.startup_desktop_background);
    let s = windows_startup_settings_from_config("false", "true");
    assert!(!s.startup_enabled && !s.startup_desktop_background);
}

#[test]
fn gallery_preferences_are_normalized() {
    let p = normalize_gallery_preferences(true, "black".to_string());
    assert!(p.has_gap);
    assert_eq!(p.theme, "black");
    assert_eq!(p.min_column_width, 280);
    assert_eq!(normalize_gallery_preferences(false, "sepia".to_string()).theme, "white");
    assert_eq!(gallery_preferences_from_config("true", "black".to_string(), "320").min_column_width, 320);
    assert_eq!(gallery_preferences_from_config("true", "black".to_string(), "50").min_column_width, 100);
    assert_eq!(gallery_preferences_from_config("true", "black".to_string(), "9000").min_column_width, 600);
    assert_eq!(gallery_preferences_from_config("true", "black".to_string(), "wide").min_column_width, 280);
    assert_eq!(gallery_preferences_from_config("true", "black".to_string(), "+300").min_column_width, 300);
    assert!(!gallery_preferences_from_config("yes", "white".to_string(), "280").has_gap);
}

#[test]
fn gallery_mode_falls_back_to_preferences() {
    let gap_black = normalize_gallery_preferences(true, "black".to_string());
    let gap_white = normalize_gallery_preferences(true, "white".to_string());
    let no_gap = normalize_gallery_preferences(false, "black".to_string());
    assert_eq!(normalize_gallery_mode("gap".to_string(), &no_gap), "gap");
    assert_eq!(normalize_gallery_mode("".to_string(), &no_gap), "none");
    assert_eq!(normalize_gallery_mode("masonry".to_string(), &gap_black), "black");
    assert_eq!(normalize_gallery_mode("masonry".to_string(), &gap_white), "white");
}

#[test]
fn platforms_are_named() {
    assert_eq!(platform_name("linux"), "linux");
    assert_eq!(platform_name("macos"), "macos");
    assert_eq!(platform_name("windows"), "windows");
    assert_eq!(platform_name("freebsd"), "unknown");
}

#[test]
fn encryption_key_digests_the_user_context() {
    let key = xai_encryption_key("/data", "alice", "", "/home/alice", "");
    assert_eq!(hex(&key), "b3f076fe0e385fdef5cf36d316de03ca3fd0f75c3c2f0fd81adb93f81dc14339");
}

#[test]
fn thumbnail_keys_digest_path_time_and_size() {
    let key = thumbnail_cache_key("/photos/a.jpg", 1700000000, 2048);
    assert_eq!(key, "ab9efa44000f952833411d15f0c521f867209ee3612a9ca07b166c2b0523e912");
    assert_ne!(thumbnail_cache_key("/photos/a.jpg", 1700000001, 2048), key);
}

#[test]
fn encrypted_keys_read_back() {
    let key = xai_encryption_key("/data", "alice", "", "/home/alice", "");
    let nonce = [7u8; 12];
    let stored = encrypt_xai_key_with_nonce(&key, &nonce, "xai-secret").unwrap();
    assert_eq!(stored, "enc:v1:BwcHBwcHBwcHBwcH:NoAr/pm9kfqqLFNCslVw8oY/dDOpKXAIeUY=");
    assert_eq!(decrypt_xai_key(&key, &stored), Ok("xai-secret".to_string()));
    let fresh = encrypt_xai_key(&key, "another").unwrap();
    assert_eq!(decrypt_xai_key(&key, &fresh), Ok("another".to_string()));
    let other = xai_encryption_key("/other", "bob", "", "", "");
    assert_eq!(decrypt_xai_key(&other, &stored), Err("Failed to decrypt xAI key".to_string()));
}

#[test]
fn stored_keys_are_trimmed_and_blank_keys_are_empty() {
    let key = xai_encryption_key("/d", "", "", "", "");
    assert_eq!(xai_key_to_store(&key, "   "), Ok(String::new()));
    let stored = xai_key_to_store_with_nonce(&key, &[1u8; 12], "  padded  ").unwrap();
    assert_eq!(xai_key_from_store(&key, &stored), Ok("padded".to_string()));
    let fresh = xai_key_to_store(&key, " k ").unwrap();
    assert_eq!(xai_key_from_store(&key, &fresh), Ok("k".to_string()));
    assert_eq!(xai_key_from_store(&key, ""), Ok(String::new()));
}

#[test]
fn malformed_stored_keys_are_refused() {
    let key = [0u8; 32];
    assert_eq!(decrypt_xai_key(&key, "plain-key"), Ok("plain-key".to_string()));
    assert_eq!(decrypt_xai_key(&key, "enc:v1:nocolon"), Err("Invalid encrypted xAI key".to_string()));
    assert_eq!(decrypt_xai_key(&key, "enc:v1:!!!!:AAAA"), Err("Invalid base64 data".to_string()));
    assert_eq!(
        decrypt_xai_key(&key, "enc:v1:AAAAAAAAAAAAAAAA:AAAA"),
        Err("Failed to decrypt xAI key".to_string())
    );
}

#[test]
fn saved_gallery_preferences_read_back() {
    let (kept, stored) = gallery_preferences_to_save("unknown".to_string(), true, "black".to_string(), 900);
    assert!(kept.has_gap);
    assert_eq!(kept.theme, "black");
    assert_eq!(kept.min_column_width, 600);
    assert_eq!(stored.mode, "black");
    assert_eq!(stored.has_gap, "true");
    assert_eq!(stored.theme, "black");
    assert_eq!(stored.min_column_width, "600");
    let read = gallery_preferences_from_config(&stored.has_gap, stored.theme.clone(), &stored.min_column_width);
    assert_eq!((read.has_gap, read.theme.as_str(), read.min_column_width), (true, "black", 600));

    let (kept, stored) = gallery_preferences_to_save("gap".to_string(), false, "sepia".to_string(), 42);
    assert_eq!((kept.theme.as_str(), kept.min_column_width), ("white", 100));
    assert_eq!((stored.mode.as_str(), stored.has_gap.as_str(), stored.min_column_width.as_str()), ("gap", "false", "100"));
    let read = gallery_preferences_from_config(&stored.has_gap, stored.theme.clone(), &stored.min_column_width);
    assert_eq!((read.has_gap, read.theme.as_str(), read.min_column_width), (false, "white", 100));

    let (_, stored) = gallery_preferences_to_save("x".to_string(), false, "white".to_string(), 333);
    assert_eq!(stored.mode, "none");
    assert_eq!(stored.min_column_width, "333");
}

#[test]
fn saved_startup_settings_read_back() {
    for (enabled, background) in [(true, true), (true, false), (false, true), (false, false)] {
        let kept = windows_startup_settings(enabled, background);
        let read = windows_startup_settings_from_config(
            flag_text(kept.startup_enabled),
            flag_text(kept.startup_desktop_background),
        );
        assert_eq!(read.startup_enabled, kept.startup_enabled);
        assert_eq!(read.startup_desktop_background, kept.startup_desktop_background);
    }
}

#[test]
fn stored_key_nonces_are_checked_before_decrypting() {
    assert!(stored_key_nonce_fits("plain-key"));
    assert!(stored_key_nonce_fits("enc:v1:nocolon"));
    assert!(stored_key_nonce_fits("enc:v1:!!!!:AAAA"));
    assert!(stored_key_nonce_fits("enc:v1:BwcHBwcHBwcHBwcH:AAAA"));
    assert!(!stored_key_nonce_fits("enc:v1:AAAA:AAAA"));
}
