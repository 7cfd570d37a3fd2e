//! Stored settings: how their texts are read and normalised, and how the xAI key is
//! kept encrypted at rest.

use vstd::prelude::*;
use vstd::string::StringSliceAdditionalSpecFns;
use vstd::utf8::{decode_utf8, encode_utf8, valid_utf8};

use crate::encoding::{base64_decode, base64_encode, base64_spec, invalid_base64_message};
use crate::text::{
    chars_of, decimal, decimal_chars, extend_str, lemma_parse_decimal, parse_u32, parse_u32_spec, seq_starts_with, split_once, split_once_spec,
    starts_with, str_eq, string_from_chars, sub_chars, trim_spec, trim_str,
};

verus! {

// ---------------------------------------------------------------------------
// Flags and choices
// ---------------------------------------------------------------------------

/// A stored flag is set only when its text is exactly `true`.
pub fn config_flag(value: &str) -> (r: bool)
    ensures
        r == (value@ == "true"@),
{
    str_eq(value, "true")
}

/// The text a flag is stored as.
pub fn flag_text(value: bool) -> (r: &'static str)
    ensures
        r@ == (if value { "true"@ } else { "false"@ }),
{
    if value {
        "true"
    } else {
        "false"
    }
}

/// A flag written as [`flag_text`] reads back as the same flag.
pub proof fn lemma_flag_round_trip(value: bool)
    ensures
        (if value { "true"@ } else { "false"@ }) == "true"@ <==> value,
{
    reveal_strlit("true");
    reveal_strlit("false");
    assert("false"@.len() != "true"@.len());
}

pub open spec fn is_close_behavior(value: Seq<char>) -> bool {
    value == "exit"@ || value == "tray"@ || value == "ask"@
}

/// A close behaviour as kept: `exit`, `tray` or `ask` as it is; anything else is `ask`.
pub open spec fn close_behavior_spec(value: Seq<char>) -> Seq<char> {
    if is_close_behavior(value) { value } else { "ask"@ }
}

/// What closing the main window does: `exit`, `tray` or `ask`; anything else means `ask`.
pub fn normalize_windows_close_behavior(value: String) -> (r: String)
    ensures
        r@ == close_behavior_spec(value@),
        is_close_behavior(r@),
{
    if str_eq(value.as_str(), "exit") || str_eq(value.as_str(), "tray") || str_eq(
        value.as_str(),
        "ask",
    ) {
        value
    } else {
        "ask".to_owned()
    }
}

/// Normalising a close behaviour twice changes nothing more than normalising it once: the
/// behaviour stored is the one read back.
pub proof fn lemma_close_behavior_idempotent(value: Seq<char>)
    ensures
        close_behavior_spec(close_behavior_spec(value)) == close_behavior_spec(value),
        is_close_behavior(close_behavior_spec(value)),
{
}

/// Whether the app starts with the system, and whether it then opens as the desktop
/// background.
#[derive(Clone, Copy, Debug)]
pub struct WindowsStartupSettings {
    pub startup_enabled: bool,
    pub startup_desktop_background: bool,
}

/// Startup settings as kept: opening as the desktop background only when starting with
/// the system.
pub fn windows_startup_settings(
    startup_enabled: bool,
    startup_desktop_background: bool,
) -> (r: WindowsStartupSettings)
    ensures
        r.startup_enabled == startup_enabled,
        r.startup_desktop_background == (startup_enabled && startup_desktop_background),
{
    WindowsStartupSettings {
        startup_enabled,
        startup_desktop_background: startup_enabled && startup_desktop_background,
    }
}

/// Startup settings read from their stored texts.
pub fn windows_startup_settings_from_config(enabled_text: &str, background_text: &str) -> (r:
    WindowsStartupSettings)
    ensures
        r.startup_enabled == (enabled_text@ == "true"@),
        r.startup_desktop_background == (enabled_text@ == "true"@ && background_text@ == "true"@),
{
    windows_startup_settings(config_flag(enabled_text), config_flag(background_text))
}

/// The startup settings stored as flag texts read back as the settings that were kept.
pub proof fn lemma_saved_startup_settings_read_back(startup_enabled: bool, startup_desktop_background: bool)
    ensures
        ({
            let kept_background = startup_enabled && startup_desktop_background;
            let enabled_text = if startup_enabled { "true"@ } else { "false"@ };
            let background_text = if kept_background { "true"@ } else { "false"@ };
            &&& (enabled_text == "true"@) == startup_enabled
            &&& (enabled_text == "true"@ && background_text == "true"@) == kept_background
        }),
{
    lemma_flag_round_trip(startup_enabled);
    lemma_flag_round_trip(startup_enabled && startup_desktop_background);
}

/// How the gallery is laid out.
#[derive(Clone, Debug)]
pub struct GalleryPreferences {
    pub has_gap: bool,
    pub theme: String,
    pub min_column_width: u32,
}

pub const DEFAULT_MIN_COLUMN_WIDTH: u32 = 280;

/// Preferences with the theme limited to `black` or `white` and the default column width.
pub fn normalize_gallery_preferences(has_gap: bool, theme: String) -> (r: GalleryPreferences)
    ensures
        r.has_gap == has_gap,
        r.theme@ == (if theme@ == "black"@ { "black"@ } else { "white"@ }),
        r.min_column_width == DEFAULT_MIN_COLUMN_WIDTH,
{
    GalleryPreferences {
        has_gap,
        theme: if str_eq(theme.as_str(), "black") {
            "black".to_owned()
        } else {
            "white".to_owned()
        },
        min_column_width: DEFAULT_MIN_COLUMN_WIDTH,
    }
}

/// The column width kept from its stored text: the number, or 280 when it is not one,
/// clamped to 100..=600.
pub open spec fn column_width_spec(text: Seq<char>) -> u32 {
    let n = match parse_u32_spec(text) {
        Some(v) => v,
        None => 280u32,
    };
    if n < 100 {
        100
    } else if n > 600 {
        600
    } else {
        n
    }
}

/// Preferences read from their stored texts.
pub fn gallery_preferences_from_config(
    has_gap_text: &str,
    theme_text: String,
    min_column_width_text: &str,
) -> (r: GalleryPreferences)
    ensures
        r.has_gap == (has_gap_text@ == "true"@),
        r.theme@ == theme_spec(theme_text@),
        r.min_column_width == column_width_spec(min_column_width_text@),
        100 <= r.min_column_width <= 600,
{
    let mut preferences = normalize_gallery_preferences(config_flag(has_gap_text), theme_text);
    let parsed = match parse_u32(&chars_of(min_column_width_text)) {
        Some(v) => v,
        None => 280,
    };
    preferences.min_column_width = if parsed < 100 {
        100
    } else if parsed > 600 {
        600
    } else {
        parsed
    };
    preferences
}

/// The theme kept: `black`, or else `white`.
pub open spec fn theme_spec(theme: Seq<char>) -> Seq<char> {
    if theme == "black"@ { "black"@ } else { "white"@ }
}

/// The column width kept when saving: clamped to 100..=600.
pub open spec fn saved_width_spec(width: u32) -> u32 {
    if width < 100 { 100 } else if width > 600 { 600 } else { width }
}

/// The preferences as the settings store them, each as text.
#[derive(Debug)]
pub struct StoredGalleryPreferences {
    pub mode: String,
    pub has_gap: String,
    pub theme: String,
    pub min_column_width: String,
}

/// Saving the gallery preferences: the preferences kept (theme limited to black or white,
/// column width clamped to 100..=600) and the texts stored for them.
pub fn gallery_preferences_to_save(mode: String, has_gap: bool, theme: String, min_column_width: u32) -> (r: (
    GalleryPreferences,
    StoredGalleryPreferences,
))
    ensures
        r.0.has_gap == has_gap,
        r.0.theme@ == theme_spec(theme@),
        r.0.min_column_width == saved_width_spec(min_column_width),
        r.1.mode@ == (if is_gallery_mode(mode@) {
            mode@
        } else if !has_gap {
            "none"@
        } else if theme_spec(theme@) == "black"@ {
            "black"@
        } else {
            "white"@
        }),
        r.1.has_gap@ == (if has_gap { "true"@ } else { "false"@ }),
        r.1.theme@ == r.0.theme@,
        r.1.min_column_width@ == decimal(r.0.min_column_width as nat),
{
    let mut preferences = normalize_gallery_preferences(has_gap, theme);
    preferences.min_column_width = if min_column_width < 100 {
        100
    } else if min_column_width > 600 {
        600
    } else {
        min_column_width
    };
    let stored_mode = normalize_gallery_mode(mode, &preferences);
    let stored = StoredGalleryPreferences {
        mode: stored_mode,
        has_gap: flag_text(has_gap).to_owned(),
        theme: preferences.theme.clone(),
        min_column_width: string_from_chars(&decimal_chars(preferences.min_column_width as u64)),
    };
    (preferences, stored)
}

/// Saved gallery preferences read back as the preferences that were kept: the flag, the
/// theme and the column width each survive being stored as text.
pub proof fn lemma_saved_preferences_read_back(has_gap: bool, theme: Seq<char>, width: u32)
    ensures
        ((if has_gap { "true"@ } else { "false"@ }) == "true"@) == has_gap,
        theme_spec(theme_spec(theme)) == theme_spec(theme),
        column_width_spec(decimal(saved_width_spec(width) as nat)) == saved_width_spec(width),
{
    lemma_flag_round_trip(has_gap);
    lemma_parse_decimal(saved_width_spec(width));
}

pub open spec fn is_gallery_mode(mode: Seq<char>) -> bool {
    mode == "gap"@ || mode == "none"@ || mode == "black"@ || mode == "white"@
}

/// The gallery mode: a known mode as it is; otherwise the one the preferences imply.
pub fn normalize_gallery_mode(mode: String, preferences: &GalleryPreferences) -> (r: String)
    ensures
        r@ == (if is_gallery_mode(mode@) {
            mode@
        } else if !preferences.has_gap {
            "none"@
        } else if preferences.theme@ == "black"@ {
            "black"@
        } else {
            "white"@
        }),
{
    let m = mode.as_str();
    if str_eq(m, "gap") || str_eq(m, "none") || str_eq(m, "black") || str_eq(m, "white") {
        mode
    } else if !preferences.has_gap {
        "none".to_owned()
    } else if str_eq(preferences.theme.as_str(), "black") {
        "black".to_owned()
    } else {
        "white".to_owned()
    }
}

/// The platform name shown in settings, from the operating system's name.
pub fn platform_name(os: &str) -> (r: String)
    ensures
        r@ == (if os@ == "windows"@ || os@ == "macos"@ || os@ == "linux"@ {
            os@
        } else {
            "unknown"@
        }),
{
    if str_eq(os, "windows") || str_eq(os, "macos") || str_eq(os, "linux") {
        os.to_owned()
    } else {
        "unknown".to_owned()
    }
}

// ---------------------------------------------------------------------------
// Digests
// ---------------------------------------------------------------------------

/// The SHA-256 digest of a byte string.
pub uninterp spec fn sha256_spec(data: Seq<u8>) -> Seq<u8>;

/// `sha2::Sha256::digest(data)`: the 32-byte SHA-256 digest of `data`. Feeding the
/// hasher piece by piece, as the crate allows, digests the pieces joined.
#[verifier::external_body]
fn sha256_digest(data: &[u8]) -> (r: [u8; 32])
    ensures
        r@ == sha256_spec(data@),
{
    <sha2::Sha256 as sha2::Digest>::digest(data).into()
}

fn append_bytes(out: &mut Vec<u8>, s: &str)
    ensures
        final(out)@ == old(out)@ + s.spec_bytes(),
{
    let b = s.as_bytes();
    let mut i: usize = 0;
    while i < b.len()
        invariant
            i <= b@.len(),
            b@ == s.spec_bytes(),
            out@ == old(out)@ + b@.take(i as int),
        decreases b.len() - i,
    {
        out.push(b[i]);
        assert(b@.take(i as int + 1) =~= b@.take(i as int).push(b@[i as int]));
        i += 1;
    }
    assert(b@.take(b@.len() as int) =~= b@);
}

pub open spec fn key_material(
    app_dir: Seq<char>,
    user: Seq<char>,
    username: Seq<char>,
    home: Seq<char>,
    userprofile: Seq<char>,
) -> Seq<u8> {
    encode_utf8("gallery2:xai-key:v1"@) + encode_utf8(app_dir) + encode_utf8(user)
        + encode_utf8(username) + encode_utf8(home) + encode_utf8(userprofile)
}

/// The key the xAI key is encrypted with: the SHA-256 digest of a fixed label, the app
/// data directory and the user's `USER`, `USERNAME`, `HOME` and `USERPROFILE` (empty
/// when unset), in that order.
pub fn xai_encryption_key(
    app_dir: &str,
    user: &str,
    username: &str,
    home: &str,
    userprofile: &str,
) -> (r: [u8; 32])
    ensures
        r@ == sha256_spec(key_material(app_dir@, user@, username@, home@, userprofile@)),
{
    let mut data: Vec<u8> = Vec::new();
    append_bytes(&mut data, "gallery2:xai-key:v1");
    append_bytes(&mut data, app_dir);
    append_bytes(&mut data, user);
    append_bytes(&mut data, username);
    append_bytes(&mut data, home);
    append_bytes(&mut data, userprofile);
    assert(data@ =~= key_material(app_dir@, user@, username@, home@, userprofile@));
    sha256_digest(data.as_slice())
}

/// Little-endian bytes of a 64-bit integer (`i64::to_le_bytes`).
pub open spec fn le_bytes_spec(v: u64) -> Seq<u8> {
    Seq::new(8, |k: int| ((v as int / vstd::arithmetic::power2::pow2((8 * k) as nat) as int) % 256) as u8)
}

fn le_bytes(v: i64) -> (r: Vec<u8>)
    ensures
        r@ == le_bytes_spec(v as u64),
{
    let u = #[verifier::truncate] (v as u64);
    let mut out: Vec<u8> = Vec::new();
    proof {
        vstd::arithmetic::power2::lemma2_to64();
        assert(u as int / 1 == u as int);
    }
    let mut rest = u;
    let mut k: usize = 0;
    while k < 8
        invariant
            k <= 8,
            out@.len() == k,
            rest as int == u as int / vstd::arithmetic::power2::pow2((8 * k) as nat) as int,
            forall|j: int| 0 <= j < k ==> out@[j] == le_bytes_spec(u)[j],
        decreases 8 - k,
    {
        out.push((rest % 256) as u8);
        proof {
            vstd::arithmetic::power2::lemma_pow2_adds((8 * k) as nat, 8);
            vstd::arithmetic::power2::lemma2_to64();
            vstd::arithmetic::power2::lemma_pow2_pos((8 * k) as nat);
            vstd::arithmetic::div_mod::lemma_div_denominator(
                u as int,
                vstd::arithmetic::power2::pow2((8 * k) as nat) as int,
                256,
            );
        }
        rest = rest / 256;
        k += 1;
    }
    assert(out@ =~= le_bytes_spec(u));
    out
}

pub open spec fn thumbnail_key_material(path: Seq<char>, modified: i64, size: i64) -> Seq<u8> {
    encode_utf8(path) + le_bytes_spec(modified as u64) + le_bytes_spec(size as u64)
}

/// The name of a thumbnail in the cache: the lowercase hex SHA-256 digest of the source's
/// path, then its modification time and size as little-endian 64-bit integers.
pub fn thumbnail_cache_key(path: &str, modified: i64, size: i64) -> (r: String)
    ensures
        r@ == crate::encoding::hex_spec(sha256_spec(thumbnail_key_material(path@, modified, size))),
        r@.len() == 64,
{
    let mut data: Vec<u8> = Vec::new();
    append_bytes(&mut data, path);
    let m = le_bytes(modified);
    let s = le_bytes(size);
    let mut i: usize = 0;
    let ghost base = data@;
    while i < 8
        invariant
            i <= 8,
            m@.len() == 8,
            data@ == base + m@.take(i as int),
        decreases 8 - i,
    {
        data.push(m[i]);
        assert(m@.take(i as int + 1) =~= m@.take(i as int).push(m@[i as int]));
        i += 1;
    }
    let ghost mid = data@;
    let mut j: usize = 0;
    while j < 8
        invariant
            j <= 8,
            s@.len() == 8,
            data@ == mid + s@.take(j as int),
        decreases 8 - j,
    {
        data.push(s[j]);
        assert(s@.take(j as int + 1) =~= s@.take(j as int).push(s@[j as int]));
        j += 1;
    }
    assert(m@.take(8) =~= m@);
    assert(s@.take(8) =~= s@);
    assert(data@ =~= thumbnail_key_material(path@, modified, size));
    let digest = sha256_digest(data.as_slice());
    proof {
        crate::encoding::lemma_hex_len(digest@);
    }
    crate::encoding::hex_encode(&digest)
}

// ---------------------------------------------------------------------------
// The xAI key at rest
// ---------------------------------------------------------------------------

/// What AES-256-GCM (no associated data) makes of a plaintext under a key and a nonce.
pub uninterp spec fn aes256gcm_seal(key: Seq<u8>, nonce: Seq<u8>, plaintext: Seq<u8>) -> Option<Seq<u8>>;

/// What AES-256-GCM (no associated data) opens a ciphertext to under a key and a nonce;
/// `None` when the ciphertext does not authenticate.
pub uninterp spec fn aes256gcm_open(key: Seq<u8>, nonce: Seq<u8>, ciphertext: Seq<u8>) -> Option<Seq<u8>>;

/// `Aes256Gcm::new(key).encrypt(nonce, plaintext)`: fails only for a plaintext longer than
/// 2^36 bytes; the ciphertext is the plaintext's length plus a 16-byte tag, and decrypting
/// it under the same key and nonce gives the plaintext back.
#[verifier::external_body]
fn aes_gcm_encrypt(key: &[u8; 32], nonce: &[u8; 12], plaintext: &[u8]) -> (r: Option<Vec<u8>>)
    ensures
        match r {
            Some(c) => aes256gcm_seal(key@, nonce@, plaintext@) == Some(c@),
            None => aes256gcm_seal(key@, nonce@, plaintext@) is None,
        },
        r is Some <==> plaintext@.len() <= 0x10_0000_0000,
        r matches Some(c) ==> c@.len() == plaintext@.len() + 16 && aes256gcm_open(key@, nonce@, c@)
            == Some(plaintext@),
{
    let cipher = <aes_gcm::Aes256Gcm as aes_gcm::KeyInit>::new(&(*key).into());
    <aes_gcm::Aes256Gcm as aes_gcm::aead::Aead>::encrypt(&cipher, &(*nonce).into(), plaintext).ok()
}

/// `Aes256Gcm::new(key).decrypt(nonce, ciphertext)`: the plaintext, or `None` when the
/// ciphertext does not authenticate under the key and nonce.
#[verifier::external_body]
fn aes_gcm_decrypt(key: &[u8; 32], nonce: &[u8; 12], ciphertext: &[u8]) -> (r: Option<Vec<u8>>)
    ensures
        match r {
            Some(p) => aes256gcm_open(key@, nonce@, ciphertext@) == Some(p@),
            None => aes256gcm_open(key@, nonce@, ciphertext@) is None,
        },
{
    let cipher = <aes_gcm::Aes256Gcm as aes_gcm::KeyInit>::new(&(*key).into());
    <aes_gcm::Aes256Gcm as aes_gcm::aead::Aead>::decrypt(&cipher, &(*nonce).into(), ciphertext).ok()
}

/// `Aes256Gcm::generate_nonce(&mut OsRng)`: twelve bytes from the operating system's
/// random source. Nothing is claimed of their values.
#[verifier::external_body]
fn random_nonce() -> [u8; 12] {
    <aes_gcm::Aes256Gcm as aes_gcm::AeadCore>::generate_nonce(&mut aes_gcm::aead::OsRng).into()
}

/// `String::from_utf8(bytes).ok()`: the text the bytes encode, when they are valid UTF-8.
#[verifier::external_body]
fn string_from_utf8(bytes: Vec<u8>) -> (r: Option<String>)
    ensures
        r is Some <==> valid_utf8(bytes@),
        r matches Some(s) ==> s@ == decode_utf8(bytes@),
{
    String::from_utf8(bytes).ok()
}

pub open spec fn encrypted_key_prefix() -> Seq<char> {
    "enc:v1:"@
}

/// How an encrypted key is stored: `enc:v1:{base64 nonce}:{base64 ciphertext}`.
pub open spec fn encrypted_key_text(nonce: Seq<u8>, ciphertext: Seq<u8>) -> Seq<char> {
    encrypted_key_prefix() + base64_spec(nonce) + ":"@ + base64_spec(ciphertext)
}

pub open spec fn encrypt_failed_message() -> Seq<char> {
    "Failed to encrypt xAI key"@
}

/// Encrypts the xAI key under `key` with the nonce `nonce`, in its stored form.
pub fn encrypt_xai_key_with_nonce(key: &[u8; 32], nonce: &[u8; 12], plaintext: &str) -> (r: Result<
    String,
    String,
>)
    ensures
        r is Ok <==> encode_utf8(plaintext@).len() <= 0x10_0000_0000,
        r matches Ok(s) ==> (aes256gcm_seal(key@, nonce@, encode_utf8(plaintext@)) matches Some(c)
            && s@ == encrypted_key_text(nonce@, c) && aes256gcm_open(key@, nonce@, c) == Some(
            encode_utf8(plaintext@),
        )),
        r matches Err(e) ==> e@ == encrypt_failed_message(),
{
    match aes_gcm_encrypt(key, nonce, plaintext.as_bytes()) {
        Some(ciphertext) => {
            let mut out: Vec<char> = Vec::new();
            extend_str(&mut out, "enc:v1:");
            let n = base64_encode(nonce);
            extend_str(&mut out, n.as_str());
            extend_str(&mut out, ":");
            let c = base64_encode(ciphertext.as_slice());
            extend_str(&mut out, c.as_str());
            Ok(string_from_chars(&out))
        },
        None => Err("Failed to encrypt xAI key".to_owned()),
    }
}

/// Encrypts the xAI key under `key` with a fresh random nonce, in its stored form.
pub fn encrypt_xai_key(key: &[u8; 32], plaintext: &str) -> (r: Result<String, String>)
    ensures
        r is Ok <==> encode_utf8(plaintext@).len() <= 0x10_0000_0000,
        r matches Ok(s) ==> exists|nonce: Seq<u8>, c: Seq<u8>|
            nonce.len() == 12 && s@ == encrypted_key_text(nonce, c) && aes256gcm_open(key@, nonce, c)
                == Some(encode_utf8(plaintext@)),
        r matches Err(e) ==> e@ == encrypt_failed_message(),
{
    let nonce = random_nonce();
    encrypt_xai_key_with_nonce(key, &nonce, plaintext)
}

/// The bytes whose base64 text is `text`, if any.
pub open spec fn base64_bytes(text: Seq<char>) -> Option<Seq<u8>> {
    if exists|b: Seq<u8>| base64_spec(b) == text {
        Some(choose|b: Seq<u8>| base64_spec(b) == text)
    } else {
        None
    }
}

pub open spec fn invalid_encrypted_key_message() -> Seq<char> {
    "Invalid encrypted xAI key"@
}

pub open spec fn decrypt_failed_message() -> Seq<char> {
    "Failed to decrypt xAI key"@
}

pub open spec fn invalid_decrypted_key_message() -> Seq<char> {
    "Invalid decrypted xAI key"@
}

/// The xAI key a stored text holds: a text without the `enc:v1:` prefix is the key itself;
/// otherwise the nonce and the ciphertext after it are decoded and the ciphertext
/// decrypted, each step with its own error.
pub open spec fn decrypt_xai_key_spec(key: Seq<u8>, stored: Seq<char>) -> Result<Seq<char>, Seq<char>> {
    if !seq_starts_with(stored, encrypted_key_prefix()) {
        Ok(stored)
    } else {
        match split_once_spec(stored.skip(7), ':') {
            None => Err(invalid_encrypted_key_message()),
            Some((nonce_text, cipher_text)) => match base64_bytes(nonce_text) {
                None => Err(invalid_base64_message()),
                Some(nonce) => match base64_bytes(cipher_text) {
                    None => Err(invalid_base64_message()),
                    Some(c) => match aes256gcm_open(key, nonce, c) {
                        None => Err(decrypt_failed_message()),
                        Some(p) => if valid_utf8(p) {
                            Ok(decode_utf8(p))
                        } else {
                            Err(invalid_decrypted_key_message())
                        },
                    },
                },
            },
        }
    }
}

/// A stored text whose decryption, if it is reached, is given a twelve-byte nonce.
pub open spec fn stored_nonce_fits(stored: Seq<char>) -> bool {
    seq_starts_with(stored, encrypted_key_prefix()) ==> match split_once_spec(stored.skip(7), ':') {
        Some((nonce_text, cipher_text)) => match (base64_bytes(nonce_text), base64_bytes(cipher_text)) {
            (Some(nonce), Some(_)) => nonce.len() == 12,
            _ => true,
        },
        None => true,
    }
}

proof fn lemma_base64_bytes_of(b: Seq<u8>, text: Seq<char>)
    requires
        base64_spec(b) == text,
    ensures
        base64_bytes(text) == Some(b),
{
    let c = choose|c: Seq<u8>| base64_spec(c) == text;
    crate::encoding::lemma_base64_injective(b, c);
}

fn decode_base64_text(text: &Vec<char>) -> (r: Result<Vec<u8>, String>)
    ensures
        match r {
            Ok(b) => base64_bytes(text@) == Some(b@),
            Err(e) => base64_bytes(text@) is None && e@ == invalid_base64_message(),
        },
{
    let s = string_from_chars(text);
    match base64_decode(s.as_str()) {
        Ok(b) => {
            proof {
                lemma_base64_bytes_of(b@, text@);
            }
            Ok(b)
        },
        Err(e) => Err(e),
    }
}

/// Whether decrypting `stored` would hand the cipher a twelve-byte nonce (the cipher
/// accepts no other length).
pub fn stored_key_nonce_fits(stored: &str) -> (r: bool)
    ensures
        r == stored_nonce_fits(stored@),
{
    let v = chars_of(stored);
    let prefix = chars_of("enc:v1:");
    proof {
        reveal_strlit("enc:v1:");
    }
    if !starts_with(&v, &prefix) {
        return true;
    }
    let rest = sub_chars(&v, 7, v.len());
    assert(rest@ =~= stored@.skip(7));
    match split_once(&rest, ':') {
        None => true,
        Some((nonce_text, cipher_text)) => match (decode_base64_text(&nonce_text), decode_base64_text(&cipher_text)) {
            (Ok(nonce), Ok(_)) => nonce.len() == 12,
            _ => true,
        },
    }
}

/// Reads the xAI key back from its stored form.
pub fn decrypt_xai_key(key: &[u8; 32], stored: &str) -> (r: Result<String, String>)
    requires
        stored_nonce_fits(stored@),
    ensures
        match r {
            Ok(s) => decrypt_xai_key_spec(key@, stored@) == Ok::<Seq<char>, Seq<char>>(s@),
            Err(e) => decrypt_xai_key_spec(key@, stored@) == Err::<Seq<char>, Seq<char>>(e@),
        },
{
    let v = chars_of(stored);
    let prefix = chars_of("enc:v1:");
    proof {
        reveal_strlit("enc:v1:");
    }
    if !starts_with(&v, &prefix) {
        return Ok(stored.to_owned());
    }
    let payload = sub_chars(&v, 7, v.len());
    assert(payload@ =~= stored@.skip(7));
    let (nonce_text, cipher_text) = match split_once(&payload, ':') {
        Some(p) => p,
        None => {
            return Err("Invalid encrypted xAI key".to_owned());
        },
    };
    let nonce = decode_base64_text(&nonce_text)?;
    let ciphertext = decode_base64_text(&cipher_text)?;
    assert(nonce@.len() == 12);
    let nonce_array: [u8; 12] = [
        nonce[0],
        nonce[1],
        nonce[2],
        nonce[3],
        nonce[4],
        nonce[5],
        nonce[6],
        nonce[7],
        nonce[8],
        nonce[9],
        nonce[10],
        nonce[11],
    ];
    assert(nonce_array@ =~= nonce@);
    let plaintext = match aes_gcm_decrypt(key, &nonce_array, ciphertext.as_slice()) {
        Some(p) => p,
        None => {
            return Err("Failed to decrypt xAI key".to_owned());
        },
    };
    match string_from_utf8(plaintext) {
        Some(s) => Ok(s),
        None => Err("Invalid decrypted xAI key".to_owned()),
    }
}

proof fn lemma_base64_has_no_colon(b: Seq<u8>)
    ensures
        forall|i: int| 0 <= i < base64_spec(b).len() ==> base64_spec(b)[i] != ':',
    decreases b.len(),
{
    reveal(crate::encoding::b64_group);
    if b.len() > 3 {
        lemma_base64_has_no_colon(b.skip(3));
        let g = crate::encoding::b64_group(b.take(3));
        let rest = base64_spec(b.skip(3));
        assert forall|i: int| 0 <= i < base64_spec(b).len() implies base64_spec(b)[i] != ':' by {
            if i >= g.len() {
                assert(base64_spec(b)[i] == rest[i - g.len()]);
            }
        }
    }
}

/// What is stored for a key reads back as that key: decrypting the stored form of an
/// encryption gives the plaintext back, and that stored form is given a twelve-byte nonce.
pub proof fn lemma_xai_key_round_trip(key: Seq<u8>, nonce: Seq<u8>, c: Seq<u8>, plaintext: Seq<char>)
    requires
        nonce.len() == 12,
        aes256gcm_open(key, nonce, c) == Some(encode_utf8(plaintext)),
    ensures
        decrypt_xai_key_spec(key, encrypted_key_text(nonce, c)) == Ok::<Seq<char>, Seq<char>>(plaintext),
        stored_nonce_fits(encrypted_key_text(nonce, c)),
{
    reveal_strlit("enc:v1:");
    reveal_strlit(":");
    let stored = encrypted_key_text(nonce, c);
    let nt = base64_spec(nonce);
    let ct = base64_spec(c);
    let payload = stored.skip(7);
    assert(seq_starts_with(stored, encrypted_key_prefix())) by {
        assert(stored.subrange(0, 7) =~= encrypted_key_prefix());
    }
    assert(payload =~= nt + seq![':'] + ct);
    lemma_base64_has_no_colon(nonce);
    let k = nt.len() as int;
    assert(crate::text::is_first_index(payload, ':', k)) by {
        assert forall|j: int| 0 <= j < k implies payload[j] != ':' by {
            assert(payload[j] == nt[j]);
        }
    }
    crate::text::lemma_first_index_unique(payload, ':', k);
    assert(payload.subrange(0, k) =~= nt);
    assert(payload.subrange(k + 1, payload.len() as int) =~= ct);
    lemma_base64_bytes_of(nonce, nt);
    lemma_base64_bytes_of(c, ct);
    vstd::utf8::encode_utf8_valid_utf8(plaintext);
    vstd::utf8::encode_utf8_decode_utf8(plaintext);
}

/// The text the xAI key is stored as: empty for a blank key, else the trimmed key
/// encrypted with the nonce `nonce`.
pub fn xai_key_to_store_with_nonce(key: &[u8; 32], nonce: &[u8; 12], xai_key: &str) -> (r: Result<
    String,
    String,
>)
    ensures
        trim_spec(xai_key@).len() == 0 ==> (r matches Ok(s) && s@.len() == 0),
        trim_spec(xai_key@).len() > 0 ==> (r is Ok <==> encode_utf8(trim_spec(xai_key@)).len()
            <= 0x10_0000_0000),
        trim_spec(xai_key@).len() > 0 ==> (r matches Ok(s) ==> (aes256gcm_seal(
            key@,
            nonce@,
            encode_utf8(trim_spec(xai_key@)),
        ) matches Some(c) && s@ == encrypted_key_text(nonce@, c) && aes256gcm_open(key@, nonce@, c)
            == Some(encode_utf8(trim_spec(xai_key@))))),
        r matches Err(e) ==> e@ == encrypt_failed_message(),
{
    let trimmed = trim_str(xai_key);
    if trimmed.len() == 0 {
        return Ok(String::new());
    }
    let t = string_from_chars(&trimmed);
    encrypt_xai_key_with_nonce(key, nonce, t.as_str())
}

/// The text the xAI key is stored as, encrypted with a fresh random nonce.
pub fn xai_key_to_store(key: &[u8; 32], xai_key: &str) -> (r: Result<String, String>)
    ensures
        trim_spec(xai_key@).len() == 0 ==> (r matches Ok(s) && s@.len() == 0),
        trim_spec(xai_key@).len() > 0 ==> (r is Ok <==> encode_utf8(trim_spec(xai_key@)).len()
            <= 0x10_0000_0000),
        trim_spec(xai_key@).len() > 0 ==> (r matches Ok(s) ==> exists|nonce: Seq<u8>, c: Seq<u8>|
            nonce.len() == 12 && s@ == encrypted_key_text(nonce, c) && aes256gcm_open(key@, nonce, c)
                == Some(encode_utf8(trim_spec(xai_key@)))),
        r matches Err(e) ==> e@ == encrypt_failed_message(),
{
    let nonce = random_nonce();
    xai_key_to_store_with_nonce(key, &nonce, xai_key)
}

/// The xAI key read from its stored text: empty when nothing is stored.
pub fn xai_key_from_store(key: &[u8; 32], stored: &str) -> (r: Result<String, String>)
    requires
        stored_nonce_fits(stored@),
    ensures
        stored@.len() == 0 ==> (r matches Ok(s) && s@.len() == 0),
        stored@.len() > 0 ==> match r {
            Ok(s) => decrypt_xai_key_spec(key@, stored@) == Ok::<Seq<char>, Seq<char>>(s@),
            Err(e) => decrypt_xai_key_spec(key@, stored@) == Err::<Seq<char>, Seq<char>>(e@),
        },
{
    if stored.is_empty() {
        return Ok(String::new());
    }
    decrypt_xai_key(key, stored)
}

} // verus!
