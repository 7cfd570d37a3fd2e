use gallery::paths::{LibPath, PathPart};
use gallery::xai::{
    archive_file_name, check_xai_edit_inputs, data_uri_parts, describe_xai_http_error,
    format_xai_http_error, generated_image_name, image_data_uri, image_input_key, images_in_reply, is_xai_billing_error,
    json_pointer, json_str_at, mime_extension, normalize_optional_text,
    output_image_from_response, output_images_from_response, prepare_xai_edit_request,
    url_before_query, url_image_extension, validate_xai_image_aspect_ratio,
    validate_xai_image_resolution, xai_key_configured, JsonValue,
};

fn text(value: &str) -> JsonValue {
    JsonValue::Str(value.to_string())
}

fn object(members: Vec<(&str, JsonValue)>) -> JsonValue {
    JsonValue::Object(members.into_iter().map(|(k, v)| (k.to_string(), v)).collect())
}

fn path(parts: &[&str]) -> LibPath {
    let mut all = vec![PathPart::Root];
    all.extend(parts.iter().map(|p| PathPart::Normal(p.to_string())));
    LibPath { parts: all }
}

fn chars(v: Option<Vec<char>>) -> Option<String> {
    v.map(|c| c.into_iter().collect())
}

#[test]
fn json_pointers_follow_members_and_indices() {
    let doc = object(vec![(
        "data",
        JsonValue::Array(vec![object(vec![("url", text("https://x/a.png"))])]),
    )]);
    assert!(json_pointer(&doc, &["data", "0", "url"]).is_some());
    assert!(json_pointer(&doc, &["data", "1", "url"]).is_none());
    assert!(json_pointer(&doc, &["data", "00", "url"]).is_none());
    assert!(json_pointer(&doc, &["data", "+0", "url"]).is_none());
    assert_eq!(json_str_at(&doc, &["data", "0", "url"]), Some("https://x/a.png".to_string()));
    assert_eq!(json_str_at(&doc, &["data"]), None);
    assert!(json_pointer(&doc, &[]).is_some());
}

#[test]
fn reply_images_prefer_urls_then_base64() {
    let with_url = object(vec![("url", text("https://x/a.webp?sig=1"))]);
    assert_eq!(output_image_from_response(&with_url), Some("https://x/a.webp?sig=1".to_string()));
    let with_b64 = object(vec![("b64_json", text("AAAA"))]);
    assert_eq!(
        output_image_from_response(&with_b64),
        Some("data:image/png;base64,AAAA".to_string())
    );
    let with_data_uri = object(vec![("base64", text("data:image/jpeg;base64,BBBB"))]);
    assert_eq!(
        output_image_from_response(&with_data_uri),
        Some("data:image/jpeg;base64,BBBB".to_string())
    );
    // A URL entry that is not a string leads to the base64 entries.
    let odd = object(vec![("url", JsonValue::Null), ("base64", text("CCCC"))]);
    assert_eq!(output_image_from_response(&odd), Some("data:image/png;base64,CCCC".to_string()));
    assert_eq!(output_image_from_response(&object(vec![])), None);
}

#[test]
fn reply_image_lists_come_from_data_items() {
    let reply = object(vec![(
        "data",
        JsonValue::Array(vec![
            object(vec![("url", text("https://x/1.png"))]),
            object(vec![("nothing", JsonValue::Null)]),
            object(vec![("b64_json", text("QUJD"))]),
        ]),
    )]);
    assert_eq!(
        output_images_from_response(&reply),
        vec!["https://x/1.png".to_string(), "data:image/png;base64,QUJD".to_string()]
    );
    let empty_items = object(vec![
        ("data", JsonValue::Array(vec![object(vec![])])),
        ("url", text("https://x/top.png")),
    ]);
    assert_eq!(output_images_from_response(&empty_items), vec!["https://x/top.png".to_string()]);
    assert!(output_images_from_response(&object(vec![])).is_empty());
    assert_eq!(images_in_reply(&object(vec![])), Err("未返回图片".to_string()));
    assert_eq!(images_in_reply(&empty_items), Ok(vec!["https://x/top.png".to_string()]));
}

#[test]
fn billing_errors_are_recognised() {
    assert!(is_xai_billing_error("insufficient credits on account"));
    assert!(is_xai_billing_error("余额不足"));
    assert!(is_xai_billing_error("usage limit reached"));
    assert!(!is_xai_billing_error("invalid prompt"));
}

#[test]
fn http_errors_are_described() {
    let body: Vec<char> = "raw".chars().collect();
    let detail = Some("bad size".chars().collect::<Vec<char>>());
    let code = Some("E1".chars().collect::<Vec<char>>());
    assert_eq!(
        describe_xai_http_error(400, "400 Bad Request", code.clone(), detail.clone(), &body),
        "xAI 请求失败：bad size"
    );
    assert_eq!(
        describe_xai_http_error(400, "400 Bad Request", None, None, &body),
        "xAI 请求失败，请检查提示词和参考图"
    );
    assert_eq!(describe_xai_http_error(401, "401 Unauthorized", None, None, &body), "xAI Key 无效或已失效");
    assert_eq!(describe_xai_http_error(403, "403 Forbidden", None, None, &body), "xAI Key 无效或已失效");
    assert_eq!(describe_xai_http_error(408, "408", None, None, &body), "xAI 请求超时，请稍后重试");
    assert_eq!(describe_xai_http_error(429, "429", None, None, &body), "请求过于频繁，请稍后重试");
    assert_eq!(describe_xai_http_error(503, "503", None, None, &body), "xAI 服务暂时不可用，请稍后重试");
    assert_eq!(
        describe_xai_http_error(418, "418 I'm a teapot", None, None, &body),
        "xAI 请求失败（HTTP 418 I'm a teapot）"
    );
    assert_eq!(describe_xai_http_error(418, "418", code, None, &body), "xAI 请求失败：E1");
    let moderation: Vec<char> = "Blocked by Content Moderation".chars().collect();
    assert_eq!(
        describe_xai_http_error(400, "400", None, None, &moderation),
        "内容审核未通过，请调整提示词或参考图后重试"
    );
    let billing: Vec<char> = "Your BALANCE is empty".chars().collect();
    assert_eq!(
        describe_xai_http_error(402, "402", None, None, &billing),
        "xAI 账户额度不足，请充值或调整账单后重试"
    );
}

#[test]
fn http_errors_read_json_replies() {
    let body = br#"{"code":"invalid_argument","error":"  Image too large  "}"#;
    assert_eq!(format_xai_http_error(400, "400 Bad Request", body), "xAI 请求失败：Image too large");
    let nested = br#"{"error":{"code":"c9","message":"nested detail"}}"#;
    assert_eq!(format_xai_http_error(400, "400 Bad Request", nested), "xAI 请求失败：nested detail");
    assert_eq!(format_xai_http_error(404, "404 Not Found", b"  not json  "), "xAI 请求失败（HTTP 404 Not Found）");
    assert_eq!(
        format_xai_http_error(400, "400", br#"{"error":"quota exceeded"}"#),
        "xAI 账户额度不足，请充值或调整账单后重试"
    );
}

#[test]
fn data_uris_split_into_mime_and_payload() {
    assert_eq!(
        data_uri_parts("data:image/png;base64,AAAA"),
        Ok(("image/png".to_string(), "AAAA".to_string()))
    );
    assert_eq!(data_uri_parts("no comma here"), Err("Invalid data URI".to_string()));
    assert_eq!(data_uri_parts("image/png;base64,AAAA"), Err("Invalid data URI header".to_string()));
    assert_eq!(data_uri_parts("data:image/png,AAAA"), Err("Invalid data URI header".to_string()));
}

#[test]
fn image_data_uris_read_back() {
    let bytes = vec![0x89u8, 0x50, 0x4e, 0x47, 0, 1, 2];
    let uri = image_data_uri("image/png", &bytes);
    assert_eq!(uri, "data:image/png;base64,iVBORwABAg==");
    let (mime, payload) = data_uri_parts(&uri).unwrap();
    assert_eq!(mime, "image/png");
    assert_eq!(gallery::encoding::base64_decode(&payload), Ok(bytes));
}

#[test]
fn mime_types_name_extensions() {
    assert_eq!(mime_extension("image/jpeg"), "jpg");
    assert_eq!(mime_extension("image/png"), "png");
    assert_eq!(mime_extension("image/webp"), "webp");
    assert_eq!(mime_extension("image/gif"), "gif");
    assert_eq!(mime_extension("image/bmp"), "bmp");
    assert_eq!(mime_extension("image/tiff"), "tiff");
    assert_eq!(mime_extension("image/heic"), "png");
}

#[test]
fn options_are_normalized_and_validated() {
    assert_eq!(normalize_optional_text(Some("  16:9 ".to_string())), Some("16:9".to_string()));
    assert_eq!(normalize_optional_text(Some("   ".to_string())), None);
    assert_eq!(normalize_optional_text(None), None);
    assert_eq!(validate_xai_image_aspect_ratio("20:9"), Ok(()));
    assert_eq!(validate_xai_image_aspect_ratio("auto"), Ok(()));
    assert_eq!(validate_xai_image_aspect_ratio("5:4"), Err("不支持的图片比例".to_string()));
    assert_eq!(validate_xai_image_resolution("2k"), Ok(()));
    assert_eq!(validate_xai_image_resolution("4k"), Err("不支持的图片分辨率".to_string()));
    assert!(xai_key_configured(" xai-123 "));
    assert!(!xai_key_configured("  "));
}

#[test]
fn edit_inputs_are_checked_in_order() {
    assert_eq!(check_xai_edit_inputs(1, 1, "  "), Err("提示词不能为空".to_string()));
    assert_eq!(check_xai_edit_inputs(0, 1, "make it blue"), Err("参考图不能为空".to_string()));
    assert_eq!(check_xai_edit_inputs(2, 1, "make it blue"), Err("参考图数据不完整".to_string()));
    assert_eq!(check_xai_edit_inputs(2, 2, "make it blue"), Ok(()));
}

#[test]
fn edit_requests_are_prepared() {
    let paths = vec!["/p/a.png".to_string(), "/p/b.png".to_string(), "/p/c.png".to_string(), "/p/d.png".to_string()];
    let uris = vec!["u1".to_string(), "u2".to_string(), "u3".to_string(), "u4".to_string()];
    let first = path(&["p", "a.png"]);
    let request = prepare_xai_edit_request(
        "key", &paths, &first, &uris, "  paint it ", Some(" auto ".to_string()), Some("1k".to_string()), Some(9),
    )
    .unwrap();
    assert_eq!(request.model, "grok-imagine-image-quality");
    assert_eq!(request.prompt, "paint it");
    assert_eq!(request.image_count, 4);
    assert_eq!(request.aspect_ratio, None);
    assert_eq!(request.resolution, Some("1k".to_string()));
    assert_eq!(request.images, vec!["u1".to_string(), "u2".to_string(), "u3".to_string()]);
    assert_eq!(request.source_path, "/p/a.png");
    assert_eq!(request.source_label, "a.png");

    let one = prepare_xai_edit_request("key", &paths[..1].to_vec(), &first, &uris[..1].to_vec(), "x", None, None, Some(0)).unwrap();
    assert_eq!(one.image_count, 1);
    let unset = prepare_xai_edit_request("key", &paths[..1].to_vec(), &first, &uris[..1].to_vec(), "x", None, None, None).unwrap();
    assert_eq!(unset.image_count, 1);

    assert_eq!(
        prepare_xai_edit_request(" ", &paths, &first, &uris, "x", None, None, None).unwrap_err(),
        "xAI Key 未设置"
    );
    assert_eq!(
        prepare_xai_edit_request("key", &paths, &first, &uris, "x", Some("7:5".to_string()), None, None).unwrap_err(),
        "不支持的图片比例"
    );
    assert_eq!(
        prepare_xai_edit_request("key", &paths, &first, &uris, "x", None, Some("8k".to_string()), None).unwrap_err(),
        "不支持的图片分辨率"
    );
    assert_eq!(
        prepare_xai_edit_request("key", &paths, &first, &uris, " ", None, None, None).unwrap_err(),
        "提示词不能为空"
    );
    let root_only = LibPath { parts: vec![PathPart::Root] };
    let labelled = prepare_xai_edit_request("key", &paths[..1].to_vec(), &root_only, &uris[..1].to_vec(), "x", None, None, None).unwrap();
    assert_eq!(labelled.source_label, "image");
}

#[test]
fn generated_files_are_named_after_the_source() {
    assert_eq!(generated_image_name(&path(&["p", "cat.photo.png"]), 1700000000, "webp"), "cat.photo-xai-1700000000.webp");
    assert_eq!(generated_image_name(&LibPath { parts: vec![PathPart::Root] }, 5, "png"), "image-xai-5.png");
    assert_eq!(archive_file_name(&path(&["p", "dog.jpg"]), 42), "dog-42.json");
}

#[test]
fn downloaded_images_take_the_url_extension() {
    assert_eq!(url_before_query("https://x/a.jpg?sig=1&b=2"), "https://x/a.jpg");
    assert_eq!(url_before_query("https://x/a.jpg"), "https://x/a.jpg");
    assert_eq!(url_image_extension(&path(&["x", "a.jpg"])), "jpg");
    assert_eq!(url_image_extension(&path(&["x", "image"])), "png");
    assert_eq!(url_image_extension(&path(&["x", "image."])), "png");
}

#[test]
fn reply_error_fields_are_trimmed() {
    let reply = object(vec![("message", text("  spaced  ")), ("code", text("   "))]);
    assert_eq!(chars(gallery::xai::error_detail_of(&reply)), Some("spaced".to_string()));
    assert_eq!(chars(gallery::xai::error_code_of(&reply)), None);
}

#[test]
fn reference_images_member() {
    assert_eq!(image_input_key(1), "image");
    assert_eq!(image_input_key(2), "images");
    assert_eq!(image_input_key(3), "images");
}
