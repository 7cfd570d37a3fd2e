use gallery::paths::{LibPath, PathPart};
use gallery::release::{
    append_notarization_env, artifact_url, choose_latest_candidate, file_name_contains,
    is_semver_number, is_semver_suffix, is_semver_version, json_escape, json_first_array_string,
    json_string_field, json_truthy_field, json_value_start, latest_json, load_windows_build_env,
    macos_signing_identity, parse_absolute_env_path, parse_env_file, parse_env_value,
    parse_json_string_at, read_option_value, release_signature, release_url,
    replace_json_string_field, required_env, signing_identity_listed, skip_ws, split_chars,
    split_semver_suffix, strip_sig_extension, text_lines, trim_trailing_slashes, updater_arch,
    url_path_segment, AppConfig, ArtifactCandidate, Args, EnvConfig, Platform,
};

fn path(text: &str) -> LibPath {
    let mut parts = Vec::new();
    if text.starts_with('/') {
        parts.push(PathPart::Root);
    }
    for piece in text.split('/').filter(|p| !p.is_empty()) {
        parts.push(PathPart::Normal(piece.to_string()));
    }
    LibPath { parts }
}

fn strings(items: &[&str]) -> Vec<String> {
    items.iter().map(|s| s.to_string()).collect()
}

fn pairs(items: &[(&str, &str)]) -> Vec<(String, String)> {
    items.iter().map(|(k, v)| (k.to_string(), v.to_string())).collect()
}

fn config(process: &[(&str, &str)], values: &[(&str, &str)]) -> EnvConfig {
    EnvConfig { process: pairs(process), values: pairs(values) }
}

const CONF: &str = r#"{
  "productName": "Gallery",
  "version": "0.2.1",
  "bundle": { "createUpdaterArtifacts": true },
  "plugins": { "updater": { "pubkey": "PUBKEY", "endpoints": [ "https://x.example/releases/latest.json" ] } }
}"#;

#[test]
fn env_values_lose_matching_quotes() {
    assert_eq!(parse_env_value("  'abc' "), "abc");
    assert_eq!(parse_env_value("\"x y\""), "x y");
    assert_eq!(parse_env_value("'a\""), "'a\"");
    assert_eq!(parse_env_value("'"), "'");
    assert_eq!(parse_env_value("''"), "");
    assert_eq!(parse_env_value(" plain "), "plain");
}

#[test]
fn text_splits_into_lines() {
    let lines: Vec<String> = text_lines("a\r\nb\n\nc").into_iter().map(|l| l.into_iter().collect()).collect();
    assert_eq!(lines, strings(&["a", "b", "", "c"]));
    assert!(text_lines("").is_empty());
    assert_eq!(text_lines("x\n").len(), 1);
}

#[test]
fn env_file_assignments() {
    let source = "# comment\n\nexport GALLERY_RELEASES_ROOT_URL = \"https://x/releases\"\nKEY_2=v=w\nKEY_2=again\n";
    let mut parsed = parse_env_file(source).unwrap();
    parsed.sort();
    assert_eq!(parsed, pairs(&[("GALLERY_RELEASES_ROOT_URL", "https://x/releases"), ("KEY_2", "again")]));
    assert_eq!(parse_env_file("").unwrap(), vec![]);
}

#[test]
fn env_file_errors_name_the_line() {
    assert_eq!(parse_env_file("A=1\nnoequals").unwrap_err(), ".env 第 2 行缺少 '='。");
    assert_eq!(parse_env_file("lower=1").unwrap_err(), ".env 第 1 行变量名无效: lower");
    assert_eq!(parse_env_file(" =1").unwrap_err(), ".env 第 1 行变量名无效: ");
}

#[test]
fn settings_prefer_the_process_environment() {
    let c = config(&[("K", "proc"), ("BLANK", "  ")], &[("K", "file"), ("BLANK", "from file"), ("ONLY", "f")]);
    assert_eq!(c.get("K"), Some("proc".to_string()));
    assert_eq!(c.get("BLANK"), Some("from file".to_string()));
    assert_eq!(c.get("ONLY"), Some("f".to_string()));
    assert_eq!(c.get("MISSING"), None);
    assert_eq!(required_env(&c, "K"), Ok("proc".to_string()));
    assert_eq!(required_env(&c, "MISSING"), Err("缺少 MISSING。请在 .env 或环境变量中设置。".to_string()));
}

#[test]
fn key_paths_must_be_absolute() {
    let ok = parse_absolute_env_path("GALLERY_SIGNING_KEY_PATH", path("/keys/k"), false).unwrap();
    assert_eq!(ok.parts.len(), 3);
    assert_eq!(
        parse_absolute_env_path("GALLERY_SIGNING_KEY_PATH", path("keys/k"), false).unwrap_err(),
        "GALLERY_SIGNING_KEY_PATH 只支持绝对路径，请使用 /Users/...、C:\\... 或 UNC 路径，不要使用相对路径或 ~。"
    );
}

#[test]
fn command_line_options() {
    let args = Args::parse(strings(&["--dry-run", "--base-url", "https://a", "--out=x.json"])).unwrap();
    assert!(args.dry_run && !args.help);
    assert_eq!(args.base_url, Some("https://a".to_string()));
    assert_eq!(args.out, Some("x.json".to_string()));
    let help = Args::parse(strings(&["-h", "--base-url="])).unwrap();
    assert!(help.help);
    assert_eq!(help.base_url, Some(String::new()));
    assert_eq!(Args::parse(strings(&["--base-url"])).unwrap_err(), "缺少 --base-url 的参数值");
    assert_eq!(Args::parse(strings(&["--out", "--dry-run"])).unwrap_err(), "缺少 --out 的参数值");
    assert_eq!(Args::parse(strings(&["--bogus"])).unwrap_err(), "未知参数: --bogus");
    let none = Args::parse(Vec::new()).unwrap();
    assert!(!none.dry_run && !none.help && none.base_url.is_none() && none.out.is_none());
    assert_eq!(read_option_value(&strings(&["a", "b"]), 1, "--out"), Ok("b".to_string()));
    assert_eq!(read_option_value(&strings(&["a"]), 1, "--out"), Err("缺少 --out 的参数值".to_string()));
}

#[test]
fn platforms_and_architectures() {
    assert_eq!(Platform::current("linux"), Ok(Platform::Linux));
    assert_eq!(Platform::current("macos"), Ok(Platform::Mac));
    assert_eq!(Platform::current("windows"), Ok(Platform::Windows));
    assert_eq!(Platform::current("freebsd"), Err("不支持的打包平台: freebsd".to_string()));
    assert_eq!(Platform::Mac.build_steps(), vec![vec!["build", "--bundles", "app,dmg"]]);
    assert_eq!(Platform::Linux.build_steps(), vec![vec!["build", "--bundles", "appimage"]]);
    assert_eq!(Platform::Windows.build_steps(), vec![vec!["build", "--bundles", "nsis"]]);
    assert_eq!(Platform::Mac.platform_key("aarch64"), "darwin-aarch64");
    assert_eq!(Platform::Windows.platform_key("x86"), "windows-i686");
    assert_eq!(updater_arch("arm"), "armv7");
    assert_eq!(updater_arch("x86_64"), "x86_64");
    assert_eq!(updater_arch("riscv64"), "riscv64");
}

#[test]
fn semantic_versions() {
    assert_eq!(
        split_semver_suffix("1.2.3-beta+x"),
        Some(("1.2.3".to_string(), Some("-beta+x".to_string())))
    );
    assert_eq!(split_semver_suffix("1.2+b-c"), Some(("1.2".to_string(), Some("+b-c".to_string()))));
    assert_eq!(split_semver_suffix("1.2.3"), Some(("1.2.3".to_string(), None)));
    assert_eq!(split_semver_suffix("-x"), None);
    assert!(is_semver_number("0"));
    assert!(is_semver_number("12"));
    assert!(!is_semver_number("01"));
    assert!(!is_semver_number(""));
    assert!(!is_semver_number("1a"));
    assert!(is_semver_suffix("-rc.1"));
    assert!(is_semver_suffix("+build-7"));
    assert!(!is_semver_suffix("-rc."));
    assert!(!is_semver_suffix("+"));
    assert!(!is_semver_suffix("x"));
    assert!(!is_semver_suffix("-a_b"));
    assert!(is_semver_version("0.2.1"));
    assert!(is_semver_version("1.2.3-rc.1+build.5"));
    assert!(!is_semver_version("1.2"));
    assert!(!is_semver_version("1.2.3.4"));
    assert!(!is_semver_version("01.2.3"));
    assert!(!is_semver_version("1.2.3-"));
    assert!(!is_semver_version(""));
    let parts: Vec<String> = split_chars(&"a.b..c".chars().collect(), '.').into_iter().map(|p| p.into_iter().collect()).collect();
    assert_eq!(parts, strings(&["a", "b", "", "c"]));
}

#[test]
fn artifact_names_and_urls() {
    assert_eq!(trim_trailing_slashes("https://x///"), "https://x");
    assert_eq!(trim_trailing_slashes("///"), "");
    assert_eq!(strip_sig_extension("/b/app.tar.gz.sig"), Some("/b/app.tar.gz".to_string()));
    assert_eq!(strip_sig_extension("/b/app.sigx"), None);
    assert!(file_name_contains(&path("/b/Gallery_0.2.1_x64.exe"), "0.2.1"));
    assert!(!file_name_contains(&path("/0.2.1/Gallery.exe"), "0.2.1"));
    assert_eq!(url_path_segment("Gallery 0.2.1 (x64).exe"), "Gallery%200.2.1%20%28x64%29.exe");
    assert_eq!(url_path_segment("画~_-."), "%E7%94%BB~_-.");
    assert_eq!(artifact_url(&path("/b/My App.exe"), "https://x/r/"), "https://x/r/My%20App.exe");
}

#[test]
fn latest_artifact_prefers_the_version_then_the_newest() {
    let candidate = |p: &str, modified: u128| ArtifactCandidate {
        path: path(p),
        signature_path: path(&format!("{p}.sig")),
        modified,
    };
    let candidates = vec![
        candidate("/b/Gallery_0.2.0.exe", 500),
        candidate("/b/Gallery_0.2.1_old.exe", 5),
        candidate("/b/Gallery_0.2.1.exe", 9),
    ];
    assert_eq!(choose_latest_candidate(candidates, "0.2.1"), Some(2));
    let tied = vec![candidate("/b/z.exe", 1), candidate("/b/a.exe", 1)];
    assert_eq!(choose_latest_candidate(tied, "9.9.9"), Some(1));
    assert_eq!(choose_latest_candidate(Vec::new(), "1.0.0"), None);
}

#[test]
fn json_strings_and_fields() {
    assert_eq!(skip_ws(b"  \t\nx", 0), 4);
    assert_eq!(skip_ws(b"ab", 5), 5);
    assert_eq!(parse_json_string_at("\"a\\nb\" tail", 0), Some(("a\nb".to_string(), 6)));
    assert_eq!(parse_json_string_at("\"\\u0041\\/\"", 0), Some(("A/".to_string(), 10)));
    assert_eq!(parse_json_string_at("\"\\x\"", 0), None);
    assert_eq!(parse_json_string_at("\"open", 0), None);
    assert_eq!(parse_json_string_at("x\"a\"", 0), None);
    assert_eq!(parse_json_string_at("x\"a\"", 1), Some(("a".to_string(), 4)));
    assert_eq!(parse_json_string_at("\"é\"", 0), Some(("\u{c3}\u{a9}".to_string(), 4)));
    assert_eq!(json_value_start("{\"version\": \"1.0\"}", "version"), Some(12));
    assert_eq!(json_value_start("{\"version\" \"1.0\"}", "version"), None);
    assert_eq!(json_string_field(CONF, "version"), Some("0.2.1".to_string()));
    assert_eq!(json_string_field("{\"v\": 3}", "v"), None);
    assert_eq!(json_first_array_string(CONF, "endpoints"), Some("https://x.example/releases/latest.json".to_string()));
    assert_eq!(json_first_array_string("{\"endpoints\": []}", "endpoints"), None);
    assert!(json_truthy_field(CONF, "createUpdaterArtifacts"));
    assert!(json_truthy_field("{\"createUpdaterArtifacts\": \"v1Compatible\"}", "createUpdaterArtifacts"));
    assert!(!json_truthy_field("{\"createUpdaterArtifacts\": false}", "createUpdaterArtifacts"));
    assert!(!json_truthy_field("{}", "createUpdaterArtifacts"));
}

#[test]
fn json_escaping_and_replacing() {
    assert_eq!(json_escape("a\"b\\c\n\u{1}\t"), "a\\\"b\\\\c\\n\\u0001\\t");
    assert_eq!(json_escape("画"), "画");
    assert_eq!(
        replace_json_string_field("{\"version\": \"0.1.0\", \"x\": 1}", "version", "0.2.0"),
        Some("{\"version\": \"0.2.0\", \"x\": 1}".to_string())
    );
    assert_eq!(
        replace_json_string_field("{\"名\": \"旧\", \"v\": 1}", "v", "x"),
        None
    );
    assert_eq!(
        replace_json_string_field("{\"名\": \"旧\", \"k\": \"a\"}", "k", "say \"hi\""),
        Some("{\"名\": \"旧\", \"k\": \"say \\\"hi\\\"\"}".to_string())
    );
}

#[test]
fn app_configuration() {
    let c = AppConfig::from_json(CONF).unwrap();
    assert_eq!(c.version, "0.2.1");
    assert_eq!(c.product_name, "Gallery");
    assert_eq!(c.pubkey, "PUBKEY");
    assert!(c.create_updater_artifacts);
    assert_eq!(c.release_base_url(), Some("https://x.example/releases".to_string()));
    let bare = AppConfig::from_json("{\"version\": \"1.0.0\"}").unwrap();
    assert_eq!(bare.product_name, "Gallery");
    assert_eq!(bare.pubkey, "");
    assert!(bare.endpoint.is_none() && !bare.create_updater_artifacts);
    assert_eq!(bare.release_base_url(), None);
    assert_eq!(AppConfig::from_json("{}").unwrap_err(), "src-tauri/tauri.conf.json 缺少 version。");
    let templated = AppConfig {
        endpoint: Some("https://x/{{target}}/latest.json".to_string()),
        ..AppConfig::from_json(CONF).unwrap()
    };
    assert_eq!(templated.release_base_url(), None);
}

#[test]
fn release_urls() {
    let c = AppConfig::from_json(CONF).unwrap();
    assert_eq!(release_url(Some("https://given".to_string()), None, &c), Ok("https://given".to_string()));
    assert_eq!(release_url(None, Some("https://root/".to_string()), &c), Ok("https://root/0.2.1".to_string()));
    assert_eq!(release_url(None, None, &c), Ok("https://x.example/releases/0.2.1".to_string()));
    let bare = AppConfig::from_json("{\"version\": \"1.0.0\"}").unwrap();
    assert_eq!(
        release_url(None, None, &bare),
        Err("请通过 --base-url、.env 的 GALLERY_RELEASES_ROOT_URL，或 updater endpoint 配置产物 URL 前缀。".to_string())
    );
}

#[test]
fn updater_manifest() {
    let c = AppConfig::from_json(CONF).unwrap();
    assert_eq!(release_signature("  SIG\n"), Some("SIG".to_string()));
    assert_eq!(release_signature(" \n "), None);
    let text = latest_json(&c, "darwin-aarch64", "SIG", "https://x/a b.tar.gz");
    let expected = "{\n  \"version\": \"0.2.1\",\n  \"notes\": \"Gallery 0.2.1\",\n  \"platforms\": {\n    \"darwin-aarch64\": {\n      \"signature\": \"SIG\",\n      \"url\": \"https://x/a b.tar.gz\"\n    }\n  }\n}\n";
    assert_eq!(text, expected);
}

#[test]
fn macos_signing() {
    let adhoc = config(&[("APPLE_SIGNING_IDENTITY", "-")], &[]);
    assert_eq!(
        macos_signing_identity(&adhoc),
        Err("macOS 发布包不能使用 ad-hoc 签名 identity '-'。请使用 Developer ID Application 证书。".to_string())
    );
    let real = config(&[], &[("APPLE_SIGNING_IDENTITY", "Developer ID Application: X")]);
    assert_eq!(macos_signing_identity(&real), Ok("Developer ID Application: X".to_string()));
    assert_eq!(
        macos_signing_identity(&config(&[], &[])),
        Err("缺少 APPLE_SIGNING_IDENTITY。请在 .env 或环境变量中设置。".to_string())
    );
    let listing = "  1) ABCDEF \"Developer ID Application: X\"\n     1 valid identities found";
    assert_eq!(signing_identity_listed(listing, "Developer ID Application: X"), Ok(()));
    assert_eq!(
        signing_identity_listed(listing, "Developer ID Application: Y"),
        Err("本机 codesigning identity 中未找到 Developer ID Application: Y。请执行 security find-identity -v -p codesigning 确认 APPLE_SIGNING_IDENTITY。".to_string())
    );
}

#[test]
fn notarization_settings() {
    let api = config(&[("APPLE_API_ISSUER", "issuer"), ("APPLE_API_KEY", "key")], &[("APPLE_ID", "me")]);
    let mut values = pairs(&[("APPLE_SIGNING_IDENTITY", "X")]);
    assert_eq!(append_notarization_env(&api, Ok(Some("/keys/k.p8".to_string())), &mut values), Ok(()));
    assert_eq!(
        values,
        pairs(&[
            ("APPLE_SIGNING_IDENTITY", "X"),
            ("APPLE_API_ISSUER", "issuer"),
            ("APPLE_API_KEY", "key"),
            ("APPLE_API_KEY_PATH", "/keys/k.p8"),
        ])
    );
    let apple_id = config(&[("APPLE_ID", "me"), ("APPLE_PASSWORD", "pw")], &[("APPLE_TEAM_ID", "T")]);
    let mut values = Vec::new();
    assert_eq!(append_notarization_env(&apple_id, Ok(None), &mut values), Ok(()));
    assert_eq!(values, pairs(&[("APPLE_ID", "me"), ("APPLE_PASSWORD", "pw"), ("APPLE_TEAM_ID", "T")]));
    let mut untouched = Vec::new();
    assert_eq!(
        append_notarization_env(&api, Err("bad path".to_string()), &mut untouched),
        Err("bad path".to_string())
    );
    assert!(untouched.is_empty());
    assert_eq!(
        append_notarization_env(&config(&[], &[]), Ok(None), &mut untouched),
        Err("缺少 macOS notarization 配置。请在 .env 或环境变量中配置 App Store Connect API: APPLE_API_ISSUER, APPLE_API_KEY, APPLE_API_KEY_PATH，或 Apple ID: APPLE_ID, APPLE_PASSWORD, APPLE_TEAM_ID。".to_string())
    );
    assert!(untouched.is_empty());
    assert!(load_windows_build_env(&config(&[("X", "1")], &[])).is_empty());
}

#[test]
fn replaced_version_reads_back() {
    let source = "{\n  \"productName\": \"画廊\",\n  \"version\": \"0.2.0\"\n}";
    let updated = replace_json_string_field(source, "version", "0.3.0-rc.1").unwrap();
    assert_eq!(json_string_field(&updated, "version"), Some("0.3.0-rc.1".to_string()));
    let tricky = "a\"b\\c\n\u{7}\u{85}";
    let updated = replace_json_string_field(source, "version", tricky).unwrap();
    assert_eq!(json_string_field(&updated, "version"), Some(tricky.to_string()));
    // From U+00A0 on, the reader takes each UTF-8 byte as a character of its own.
    let updated = replace_json_string_field(source, "version", "é").unwrap();
    assert_eq!(json_string_field(&updated, "version"), Some("\u{c3}\u{a9}".to_string()));
}

#[test]
fn escaped_text_reads_back_as_json_string() {
    for value in ["a\"b\\c\n\u{1}", "plain", "", "\u{7f}\u{85}\u{9f}/\u{8}\u{c}\r\t"] {
        let escaped = json_escape(value);
        assert!(!escaped.chars().any(|c| c.is_control()));
        let quoted = format!("\"{}\"", escaped);
        assert_eq!(parse_json_string_at(&quoted, 0), Some((value.to_string(), escaped.len() + 2)));
    }
    assert_eq!(json_escape("a\"b\\c\n\u{1}"), r#"a\"b\\c\n\u0001"#);
}
