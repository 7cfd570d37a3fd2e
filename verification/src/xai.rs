//! The xAI image-editing workflow: JSON replies and their errors, data URIs, request
//! options and the names of the files that generated images are saved under.

use vstd::prelude::*;

use crate::paths::{extension, extension_spec, file_name, file_name_spec, file_stem, file_stem_spec, LibPath};
use crate::text::{
    ascii_lower, chars_of, contains, decimal, extend_chars, extend_str, seq_contains,
    seq_starts_with, split_once, split_once_spec, starts_with, str_eq, string_from_chars,
    to_ascii_lowercase, trim, trim_spec, trim_str,
};

verus! {

// ---------------------------------------------------------------------------
// JSON documents
// ---------------------------------------------------------------------------

/// A parsed JSON document. Objects keep their members in the order the parser gives
/// them (sorted by key, one member per key); numbers keep their printed form.
#[derive(Debug)]
pub enum JsonValue {
    Null,
    Bool(bool),
    Number(String),
    Str(String),
    Array(Vec<JsonValue>),
    Object(Vec<(String, JsonValue)>),
}

#[verifier::external_type_specification]
#[verifier::external_body]
pub struct ExJsonDocument(serde_json::Value);

/// What `serde_json` parses a byte string into, when it is one JSON document.
pub uninterp spec fn json_parse(bytes: Seq<u8>) -> Option<JsonValue>;

/// `serde_json::from_slice::<serde_json::Value>(bytes).ok()`, taken into [`JsonValue`]:
/// `Some` of the document that `bytes` hold, `None` where they are not valid JSON.
/// The contract only names the result; nothing is claimed of how the parser reads.
#[verifier::external_body]
fn parse_json(bytes: &[u8]) -> (r: Option<JsonValue>)
    ensures
        r == json_parse(bytes@),
{
    serde_json::from_slice::<serde_json::Value>(bytes).ok().map(json_from_serde)
}

/// Takes a `serde_json::Value` into [`JsonValue`] node by node (the conversion of
/// `parse_json`); numbers become their printed form.
#[verifier::external_body]
fn json_from_serde(value: serde_json::Value) -> JsonValue {
    match value {
        serde_json::Value::Null => JsonValue::Null,
        serde_json::Value::Bool(b) => JsonValue::Bool(b),
        serde_json::Value::Number(n) => JsonValue::Number(n.to_string()),
        serde_json::Value::String(s) => JsonValue::Str(s),
        serde_json::Value::Array(items) => JsonValue::Array(items.into_iter().map(json_from_serde).collect()),
        serde_json::Value::Object(m) => JsonValue::Object(m.into_iter().map(|(k, v)| (k, json_from_serde(v))).collect()),
    }
}

/// The first member of an object named `key`.
pub open spec fn member_named(entries: Seq<(String, JsonValue)>, key: Seq<char>) -> Option<JsonValue>
    decreases entries.len(),
{
    if entries.len() == 0 {
        None
    } else if entries[0].0@ == key {
        Some(entries[0].1)
    } else {
        member_named(entries.drop_first(), key)
    }
}

/// A JSON-pointer array index: decimal digits without a leading `+` or a superfluous
/// leading zero, whose value fits in `usize`.
pub open spec fn array_index_spec(token: Seq<char>) -> Option<usize> {
    if token.len() > 0 && crate::text::all_digits(token) && !(token[0] == '0' && token.len() != 1)
        && crate::text::digits_value(token) <= usize::MAX {
        Some(crate::text::digits_value(token) as usize)
    } else {
        None
    }
}

/// One step of a JSON pointer: a member of an object, or an element of an array.
pub open spec fn json_step(v: JsonValue, token: Seq<char>) -> Option<JsonValue> {
    match v {
        JsonValue::Object(entries) => member_named(entries@, token),
        JsonValue::Array(items) => match array_index_spec(token) {
            Some(i) => if i < items@.len() {
                Some(items@[i as int])
            } else {
                None
            },
            None => None,
        },
        _ => None,
    }
}

/// The value that the pointer made of `tokens` (`/t0/t1/...`) names in `v`.
pub open spec fn json_at(v: JsonValue, tokens: Seq<Seq<char>>) -> Option<JsonValue>
    decreases tokens.len(),
{
    if tokens.len() == 0 {
        Some(v)
    } else {
        match json_step(v, tokens[0]) {
            Some(c) => json_at(c, tokens.drop_first()),
            None => None,
        }
    }
}

pub open spec fn token_seqs(tokens: Seq<&str>) -> Seq<Seq<char>> {
    tokens.map_values(|t: &str| t@)
}

/// The text of a JSON string.
pub open spec fn json_text(v: Option<JsonValue>) -> Option<Seq<char>> {
    match v {
        Some(JsonValue::Str(s)) => Some(s@),
        _ => None,
    }
}

fn array_index(token: &Vec<char>) -> (r: Option<usize>)
    ensures
        r == array_index_spec(token@),
{
    if token.len() == 0 || (token[0] == '0' && token.len() != 1) {
        return None;
    }
    let mut value: usize = 0;
    let mut i: usize = 0;
    while i < token.len()
        invariant
            0 < token@.len(),
            !(token@[0] == '0' && token@.len() != 1),
            i <= token@.len(),
            forall|k: int| 0 <= k < i ==> crate::text::is_digit(#[trigger] token@[k]),
            value == crate::text::digits_value(token@.take(i as int)),
        decreases token.len() - i,
    {
        let c = token[i];
        if !('0' <= c && c <= '9') {
            assert(!crate::text::all_digits(token@));
            return None;
        }
        let ghost t = token@.take(i as int + 1);
        assert(t.drop_last() == token@.take(i as int));
        let d = ((c as u32) - 48) as usize;
        if value > (usize::MAX - d) / 10 {
            proof {
                if crate::text::all_digits(token@) {
                    crate::text::lemma_digits_value_monotone(token@, i as int + 1);
                    assert(crate::text::digits_value(t) > usize::MAX) by (nonlinear_arith)
                        requires
                            crate::text::digits_value(t) == value * 10 + d,
                            value > (usize::MAX - d) / 10,
                            d <= 9,
                    ;
                }
            }
            return None;
        }
        assert(value * 10 + d <= usize::MAX) by (nonlinear_arith)
            requires
                value <= (usize::MAX - d) / 10,
                d <= 9,
        ;
        value = value * 10 + d;
        i += 1;
    }
    assert(token@.take(token@.len() as int) == token@);
    Some(value)
}

fn member_lookup<'a>(entries: &'a Vec<(String, JsonValue)>, key: &str) -> (r: Option<&'a JsonValue>)
    ensures
        match r {
            Some(x) => member_named(entries@, key@) == Some(*x),
            None => member_named(entries@, key@) is None,
        },
{
    let mut i: usize = 0;
    assert(entries@.skip(0) =~= entries@);
    while i < entries.len()
        invariant
            i <= entries@.len(),
            member_named(entries@, key@) == member_named(entries@.skip(i as int), key@),
        decreases entries.len() - i,
    {
        let ghost rest = entries@.skip(i as int);
        assert(rest.drop_first() == entries@.skip(i as int + 1));
        if str_eq(entries[i].0.as_str(), key) {
            return Some(&entries[i].1);
        }
        i += 1;
    }
    None
}

fn json_step_exec<'a>(v: &'a JsonValue, token: &str) -> (r: Option<&'a JsonValue>)
    ensures
        match r {
            Some(x) => json_step(*v, token@) == Some(*x),
            None => json_step(*v, token@) is None,
        },
{
    match v {
        JsonValue::Object(entries) => member_lookup(entries, token),
        JsonValue::Array(items) => {
            let t = chars_of(token);
            match array_index(&t) {
                Some(i) => if i < items.len() {
                    Some(&items[i])
                } else {
                    None
                },
                None => None,
            }
        },
        _ => None,
    }
}

/// The value at the pointer made of `tokens` (`value.pointer("/t0/t1/...")`).
pub fn json_pointer<'a>(v: &'a JsonValue, tokens: &[&str]) -> (r: Option<&'a JsonValue>)
    ensures
        match r {
            Some(x) => json_at(*v, token_seqs(tokens@)) == Some(*x),
            None => json_at(*v, token_seqs(tokens@)) is None,
        },
{
    let mut cur: &JsonValue = v;
    let mut i: usize = 0;
    assert(token_seqs(tokens@).skip(0) =~= token_seqs(tokens@));
    while i < tokens.len()
        invariant
            i <= tokens@.len(),
            json_at(*v, token_seqs(tokens@)) == json_at(*cur, token_seqs(tokens@).skip(i as int)),
        decreases tokens.len() - i,
    {
        let ghost rest = token_seqs(tokens@).skip(i as int);
        assert(rest.drop_first() == token_seqs(tokens@).skip(i as int + 1));
        assert(rest[0] == tokens@[i as int]@);
        match json_step_exec(cur, tokens[i]) {
            Some(next) => {
                cur = next;
            },
            None => {
                return None;
            },
        }
        i += 1;
    }
    assert(token_seqs(tokens@).skip(tokens@.len() as int) =~= Seq::<Seq<char>>::empty());
    Some(cur)
}

/// The text of the string at the pointer made of `tokens`, if it is a string.
pub fn json_str_at(v: &JsonValue, tokens: &[&str]) -> (r: Option<String>)
    ensures
        match r {
            Some(s) => json_text(json_at(*v, token_seqs(tokens@))) == Some(s@),
            None => json_text(json_at(*v, token_seqs(tokens@))) is None,
        },
{
    match json_pointer(v, tokens) {
        Some(JsonValue::Str(s)) => Some(s.clone()),
        _ => None,
    }
}

// ---------------------------------------------------------------------------
// Errors reported by the xAI service
// ---------------------------------------------------------------------------

/// The trimmed text of the string at a pointer, when there is one and it is not blank.
pub open spec fn trimmed_text_at(v: JsonValue, tokens: Seq<Seq<char>>) -> Option<Seq<char>> {
    match json_text(json_at(v, tokens)) {
        Some(t) => if trim_spec(t).len() > 0 {
            Some(trim_spec(t))
        } else {
            None
        },
        None => None,
    }
}

pub open spec fn or_else_text(a: Option<Seq<char>>, b: Option<Seq<char>>) -> Option<Seq<char>> {
    if a is Some {
        a
    } else {
        b
    }
}

/// The error code of a reply: the first non-blank of `/code`, `/error/code`.
pub open spec fn reply_error_code(v: JsonValue) -> Option<Seq<char>> {
    or_else_text(
        trimmed_text_at(v, seq!["code"@]),
        trimmed_text_at(v, seq!["error"@, "code"@]),
    )
}

/// The error detail of a reply: the first non-blank of `/error`, `/message`, `/error/message`.
pub open spec fn reply_error_detail(v: JsonValue) -> Option<Seq<char>> {
    or_else_text(
        trimmed_text_at(v, seq!["error"@]),
        or_else_text(
            trimmed_text_at(v, seq!["message"@]),
            trimmed_text_at(v, seq!["error"@, "message"@]),
        ),
    )
}

pub open spec fn word_and_space(w: Option<Seq<char>>) -> Seq<char> {
    match w {
        Some(t) => t + seq![' '],
        None => Seq::empty(),
    }
}

/// The code, the detail and the body, those present, joined with single spaces.
pub open spec fn error_summary(
    code: Option<Seq<char>>,
    detail: Option<Seq<char>>,
    body_text: Seq<char>,
) -> Seq<char> {
    word_and_space(code) + word_and_space(detail) + body_text
}

pub open spec fn billing_keywords() -> Seq<Seq<char>> {
    seq![
        "billing"@,
        "balance"@,
        "credit"@,
        "credits"@,
        "quota"@,
        "insufficient"@,
        "payment"@,
        "funds"@,
        "spend"@,
        "usage limit"@,
        "额度"@,
        "余额"@,
        "费用"@,
        "充值"@,
        "账单"@,
    ]
}

/// Whether a (lower-cased) error text speaks of billing, credit or quota.
pub open spec fn is_billing_text(message: Seq<char>) -> bool {
    exists|i: int| 0 <= i < billing_keywords().len() && seq_contains(message, #[trigger] billing_keywords()[i])
}

/// Whether an error text speaks of billing, credit or quota.
pub fn is_xai_billing_error(message: &str) -> (r: bool)
    ensures
        r == is_billing_text(message@),
{
    let keywords: [&str; 15] = [
        "billing",
        "balance",
        "credit",
        "credits",
        "quota",
        "insufficient",
        "payment",
        "funds",
        "spend",
        "usage limit",
        "额度",
        "余额",
        "费用",
        "充值",
        "账单",
    ];
    let v = chars_of(message);
    let mut i: usize = 0;
    while i < 15
        invariant
            i <= 15,
            v@ == message@,
            forall|k: int| 0 <= k < 15 ==> (#[trigger] keywords@[k])@ == billing_keywords()[k],
            forall|k: int| 0 <= k < i ==> !seq_contains(message@, #[trigger] billing_keywords()[k]),
        decreases 15 - i,
    {
        let needle = chars_of(keywords[i]);
        if contains(&v, &needle) {
            assert(seq_contains(message@, billing_keywords()[i as int]));
            return true;
        }
        i += 1;
    }
    false
}

pub open spec fn moderation_message() -> Seq<char> {
    "内容审核未通过，请调整提示词或参考图后重试"@
}

pub open spec fn billing_message() -> Seq<char> {
    "xAI 账户额度不足，请充值或调整账单后重试"@
}

pub open spec fn request_failed_prefix() -> Seq<char> {
    "xAI 请求失败："@
}

/// The message shown for a failed xAI request, from the HTTP status (as a number and as
/// printed), the reply's error code and detail, and the reply's text.
pub open spec fn xai_error_message(
    status: u16,
    status_text: Seq<char>,
    code: Option<Seq<char>>,
    detail: Option<Seq<char>>,
    body_text: Seq<char>,
) -> Seq<char> {
    let normalized = ascii_lower(error_summary(code, detail, body_text));
    let reason = or_else_text(detail, code);
    if seq_contains(normalized, "moderation"@) {
        moderation_message()
    } else if is_billing_text(normalized) {
        billing_message()
    } else if status == 400 {
        match reason {
            Some(m) => request_failed_prefix() + m,
            None => "xAI 请求失败，请检查提示词和参考图"@,
        }
    } else if status == 401 || status == 403 {
        "xAI Key 无效或已失效"@
    } else if status == 408 {
        "xAI 请求超时，请稍后重试"@
    } else if status == 429 {
        "请求过于频繁，请稍后重试"@
    } else if 500 <= status <= 599 {
        "xAI 服务暂时不可用，请稍后重试"@
    } else {
        match reason {
            Some(m) => request_failed_prefix() + m,
            None => "xAI 请求失败（HTTP "@ + status_text + "）"@,
        }
    }
}

fn trimmed_text_exec(v: &JsonValue, tokens: &[&str]) -> (r: Option<Vec<char>>)
    ensures
        match r {
            Some(t) => trimmed_text_at(*v, token_seqs(tokens@)) == Some(t@),
            None => trimmed_text_at(*v, token_seqs(tokens@)) is None,
        },
{
    match json_str_at(v, tokens) {
        Some(s) => {
            let t = trim(&chars_of(s.as_str()));
            if t.len() > 0 {
                Some(t)
            } else {
                None
            }
        },
        None => None,
    }
}

/// The error code of a reply (see [`reply_error_code`]).
pub fn error_code_of(v: &JsonValue) -> (r: Option<Vec<char>>)
    ensures
        match r {
            Some(t) => reply_error_code(*v) == Some(t@),
            None => reply_error_code(*v) is None,
        },
{
    let a: [&str; 1] = ["code"];
    let b: [&str; 2] = ["error", "code"];
    proof {
        assert(token_seqs(a@) =~= seq!["code"@]);
        assert(token_seqs(b@) =~= seq!["error"@, "code"@]);
    }
    match trimmed_text_exec(v, &a) {
        Some(t) => Some(t),
        None => trimmed_text_exec(v, &b),
    }
}

/// The error detail of a reply (see [`reply_error_detail`]).
pub fn error_detail_of(v: &JsonValue) -> (r: Option<Vec<char>>)
    ensures
        match r {
            Some(t) => reply_error_detail(*v) == Some(t@),
            None => reply_error_detail(*v) is None,
        },
{
    let a: [&str; 1] = ["error"];
    let b: [&str; 1] = ["message"];
    let c: [&str; 2] = ["error", "message"];
    proof {
        assert(token_seqs(a@) =~= seq!["error"@]);
        assert(token_seqs(b@) =~= seq!["message"@]);
        assert(token_seqs(c@) =~= seq!["error"@, "message"@]);
    }
    match trimmed_text_exec(v, &a) {
        Some(t) => Some(t),
        None => match trimmed_text_exec(v, &b) {
            Some(t) => Some(t),
            None => trimmed_text_exec(v, &c),
        },
    }
}

pub open spec fn opt_view(o: Option<Vec<char>>) -> Option<Seq<char>> {
    match o {
        Some(v) => Some(v@),
        None => None,
    }
}

/// The message for a failed xAI request, given what was read from its reply: the error
/// code and detail (when the reply is JSON) and the trimmed reply text.
pub fn describe_xai_http_error(
    status: u16,
    status_text: &str,
    code: Option<Vec<char>>,
    detail: Option<Vec<char>>,
    body_text: &Vec<char>,
) -> (r: String)
    ensures
        r@ == xai_error_message(status, status_text@, opt_view(code), opt_view(detail), body_text@),
{
    let ghost cv = opt_view(code);
    let ghost dv = opt_view(detail);
    let mut summary: Vec<char> = Vec::new();
    match &code {
        Some(c) => {
            extend_chars(&mut summary, c);
            summary.push(' ');
        },
        None => {},
    }
    match &detail {
        Some(d) => {
            extend_chars(&mut summary, d);
            summary.push(' ');
        },
        None => {},
    }
    extend_chars(&mut summary, body_text);
    assert(summary@ =~= error_summary(cv, dv, body_text@));
    let normalized = to_ascii_lowercase(&summary);
    let moderation = chars_of("moderation");
    if contains(&normalized, &moderation) {
        return "内容审核未通过，请调整提示词或参考图后重试".to_owned();
    }
    let lowered = string_from_chars(&normalized);
    if is_xai_billing_error(lowered.as_str()) {
        return "xAI 账户额度不足，请充值或调整账单后重试".to_owned();
    }
    let reason = match detail {
        Some(d) => Some(d),
        None => code,
    };
    assert(opt_view(reason) == or_else_text(dv, cv));
    if status == 401 || status == 403 {
        "xAI Key 无效或已失效".to_owned()
    } else if status == 408 {
        "xAI 请求超时，请稍后重试".to_owned()
    } else if status == 429 {
        "请求过于频繁，请稍后重试".to_owned()
    } else if 500 <= status && status <= 599 {
        "xAI 服务暂时不可用，请稍后重试".to_owned()
    } else {
        match reason {
            Some(m) => {
                let mut out: Vec<char> = Vec::new();
                extend_str(&mut out, "xAI 请求失败：");
                extend_chars(&mut out, &m);
                string_from_chars(&out)
            },
            None => {
                if status == 400 {
                    "xAI 请求失败，请检查提示词和参考图".to_owned()
                } else {
                    let mut out: Vec<char> = Vec::new();
                    extend_str(&mut out, "xAI 请求失败（HTTP ");
                    extend_str(&mut out, status_text);
                    extend_str(&mut out, "）");
                    string_from_chars(&out)
                }
            },
        }
    }
}

/// The text that `String::from_utf8_lossy` makes of a byte string.
pub uninterp spec fn utf8_lossy(bytes: Seq<u8>) -> Seq<char>;

/// `String::from_utf8_lossy(bytes)`: the bytes read as UTF-8, each invalid sequence
/// replaced by U+FFFD. The contract names the result, and states it only for valid
/// UTF-8, where it is the text the bytes encode.
#[verifier::external_body]
fn lossy_text(bytes: &[u8]) -> (r: String)
    ensures
        r@ == utf8_lossy(bytes@),
        vstd::utf8::valid_utf8(bytes@) ==> r@ == vstd::utf8::decode_utf8(bytes@),
{
    String::from_utf8_lossy(bytes).into_owned()
}

pub open spec fn code_of_reply(payload: Option<JsonValue>) -> Option<Seq<char>> {
    match payload {
        Some(v) => reply_error_code(v),
        None => None,
    }
}

pub open spec fn detail_of_reply(payload: Option<JsonValue>) -> Option<Seq<char>> {
    match payload {
        Some(v) => reply_error_detail(v),
        None => None,
    }
}

/// The message for a failed xAI request with HTTP status `status` (printed as
/// `status_text`) and reply body `body`.
pub fn format_xai_http_error(status: u16, status_text: &str, body: &[u8]) -> (r: String)
    ensures
        r@ == xai_error_message(
            status,
            status_text@,
            code_of_reply(json_parse(body@)),
            detail_of_reply(json_parse(body@)),
            trim_spec(utf8_lossy(body@)),
        ),
{
    let payload = parse_json(body);
    let text = lossy_text(body);
    let body_text = trim(&chars_of(text.as_str()));
    let (code, detail) = match &payload {
        Some(v) => (error_code_of(v), error_detail_of(v)),
        None => (None, None),
    };
    describe_xai_http_error(status, status_text, code, detail, &body_text)
}

// ---------------------------------------------------------------------------
// Images in a reply
// ---------------------------------------------------------------------------

pub open spec fn first_present(a: Option<JsonValue>, b: Option<JsonValue>) -> Option<JsonValue> {
    if a is Some {
        a
    } else {
        b
    }
}

/// The first of `/url`, `/image/url`, `/image_url`, `/data/0/url`, `/data/0/image_url`
/// that is present.
pub open spec fn url_entry(v: JsonValue) -> Option<JsonValue> {
    first_present(
        json_at(v, seq!["url"@]),
        first_present(
            json_at(v, seq!["image"@, "url"@]),
            first_present(
                json_at(v, seq!["image_url"@]),
                first_present(
                    json_at(v, seq!["data"@, "0"@, "url"@]),
                    json_at(v, seq!["data"@, "0"@, "image_url"@]),
                ),
            ),
        ),
    )
}

/// The first of `/base64`, `/b64_json`, `/image/base64`, `/data/0/b64_json`,
/// `/data/0/base64` that is present.
pub open spec fn base64_entry(v: JsonValue) -> Option<JsonValue> {
    first_present(
        json_at(v, seq!["base64"@]),
        first_present(
            json_at(v, seq!["b64_json"@]),
            first_present(
                json_at(v, seq!["image"@, "base64"@]),
                first_present(
                    json_at(v, seq!["data"@, "0"@, "b64_json"@]),
                    json_at(v, seq!["data"@, "0"@, "base64"@]),
                ),
            ),
        ),
    )
}

pub open spec fn png_data_uri_prefix() -> Seq<char> {
    "data:image/png;base64,"@
}

/// The image one reply item offers: the URL when the URL entry is a string; otherwise the
/// base64 entry as a data URI (taken as it is when it already starts with `data:`,
/// else as PNG data).
pub open spec fn output_image_spec(v: JsonValue) -> Option<Seq<char>> {
    match json_text(url_entry(v)) {
        Some(u) => Some(u),
        None => match json_text(base64_entry(v)) {
            Some(b) => if seq_starts_with(b, "data:"@) {
                Some(b)
            } else {
                Some(png_data_uri_prefix() + b)
            },
            None => None,
        },
    }
}

/// The images of the items of a list, in order, skipping items that offer none.
pub open spec fn images_of_items(items: Seq<JsonValue>) -> Seq<Seq<char>>
    decreases items.len(),
{
    if items.len() == 0 {
        Seq::empty()
    } else {
        images_of_items(items.drop_last()) + match output_image_spec(items.last()) {
            Some(i) => seq![i],
            None => Seq::empty(),
        }
    }
}

/// The images a reply offers: those of the items of its `/data` list when that list has
/// any, else the one the reply itself offers, if any.
pub open spec fn output_images_spec(v: JsonValue) -> Seq<Seq<char>> {
    let from_items = match json_at(v, seq!["data"@]) {
        Some(JsonValue::Array(items)) => images_of_items(items@),
        _ => Seq::empty(),
    };
    if from_items.len() > 0 {
        from_items
    } else {
        match output_image_spec(v) {
            Some(i) => seq![i],
            None => Seq::empty(),
        }
    }
}

fn url_entry_exec(v: &JsonValue) -> (r: Option<&JsonValue>)
    ensures
        match r {
            Some(x) => url_entry(*v) == Some(*x),
            None => url_entry(*v) is None,
        },
{
    let p1: [&str; 1] = ["url"];
    let p2: [&str; 2] = ["image", "url"];
    let p3: [&str; 1] = ["image_url"];
    let p4: [&str; 3] = ["data", "0", "url"];
    let p5: [&str; 3] = ["data", "0", "image_url"];
    proof {
        assert(token_seqs(p1@) =~= seq!["url"@]);
        assert(token_seqs(p2@) =~= seq!["image"@, "url"@]);
        assert(token_seqs(p3@) =~= seq!["image_url"@]);
        assert(token_seqs(p4@) =~= seq!["data"@, "0"@, "url"@]);
        assert(token_seqs(p5@) =~= seq!["data"@, "0"@, "image_url"@]);
    }
    if let Some(x) = json_pointer(v, &p1) {
        return Some(x);
    }
    if let Some(x) = json_pointer(v, &p2) {
        return Some(x);
    }
    if let Some(x) = json_pointer(v, &p3) {
        return Some(x);
    }
    if let Some(x) = json_pointer(v, &p4) {
        return Some(x);
    }
    json_pointer(v, &p5)
}

fn base64_entry_exec(v: &JsonValue) -> (r: Option<&JsonValue>)
    ensures
        match r {
            Some(x) => base64_entry(*v) == Some(*x),
            None => base64_entry(*v) is None,
        },
{
    let p1: [&str; 1] = ["base64"];
    let p2: [&str; 1] = ["b64_json"];
    let p3: [&str; 2] = ["image", "base64"];
    let p4: [&str; 3] = ["data", "0", "b64_json"];
    let p5: [&str; 3] = ["data", "0", "base64"];
    proof {
        assert(token_seqs(p1@) =~= seq!["base64"@]);
        assert(token_seqs(p2@) =~= seq!["b64_json"@]);
        assert(token_seqs(p3@) =~= seq!["image"@, "base64"@]);
        assert(token_seqs(p4@) =~= seq!["data"@, "0"@, "b64_json"@]);
        assert(token_seqs(p5@) =~= seq!["data"@, "0"@, "base64"@]);
    }
    if let Some(x) = json_pointer(v, &p1) {
        return Some(x);
    }
    if let Some(x) = json_pointer(v, &p2) {
        return Some(x);
    }
    if let Some(x) = json_pointer(v, &p3) {
        return Some(x);
    }
    if let Some(x) = json_pointer(v, &p4) {
        return Some(x);
    }
    json_pointer(v, &p5)
}

/// `img` is the image read from `v` as far as the string `u` goes: the pointer rules of
/// [`lemma_reply_image_sources`], each an implication from where `u` lies in `v`.
pub open spec fn follows_image_sources(v: JsonValue, u: Seq<char>, img: Option<Seq<char>>) -> bool {
    &&& (json_text(json_at(v, seq!["url"@])) == Some(u) ==> img == Some(u))
    &&& (json_at(v, seq!["url"@]) is None && json_text(json_at(v, seq!["image"@, "url"@])) == Some(u)
            ==> img == Some(u))
    &&& (json_at(v, seq!["url"@]) is None && json_at(v, seq!["image"@, "url"@]) is None && json_text(
            json_at(v, seq!["image_url"@]),
        ) == Some(u) ==> img == Some(u))
    &&& (json_at(v, seq!["url"@]) is None && json_at(v, seq!["image"@, "url"@]) is None && json_at(
            v,
            seq!["image_url"@],
        ) is None && json_text(json_at(v, seq!["data"@, "0"@, "url"@])) == Some(u) ==> img == Some(
            u,
        ))
    &&& (json_at(v, seq!["url"@]) is None && json_at(v, seq!["image"@, "url"@]) is None && json_at(
            v,
            seq!["image_url"@],
        ) is None && json_at(v, seq!["data"@, "0"@, "url"@]) is None && json_text(
            json_at(v, seq!["data"@, "0"@, "image_url"@]),
        ) == Some(u) ==> img == Some(u))
    &&& (no_url_pointer(v) && json_text(json_at(v, seq!["base64"@])) == Some(u) ==> img == Some(
            as_data_uri(u),
        ))
    &&& (no_url_pointer(v) && json_at(v, seq!["base64"@]) is None && json_text(json_at(v, seq!["b64_json"@]))
            == Some(u) ==> img == Some(as_data_uri(u)))
    &&& (no_url_pointer(v) && json_at(v, seq!["base64"@]) is None && json_at(v, seq!["b64_json"@]) is None
            && json_text(json_at(v, seq!["image"@, "base64"@])) == Some(u) ==> img == Some(
            as_data_uri(u),
        ))
    &&& (no_url_pointer(v) && json_at(v, seq!["base64"@]) is None && json_at(v, seq!["b64_json"@]) is None
            && json_at(v, seq!["image"@, "base64"@]) is None && json_text(json_at(v, seq!["data"@, "0"@, "b64_json"@]))
            == Some(u) ==> img == Some(as_data_uri(u)))
    &&& (no_url_pointer(v) && json_at(v, seq!["base64"@]) is None && json_at(v, seq!["b64_json"@]) is None
            && json_at(v, seq!["image"@, "base64"@]) is None && json_at(v, seq!["data"@, "0"@, "b64_json"@]) is None
            && json_text(json_at(v, seq!["data"@, "0"@, "base64"@])) == Some(u) ==> img == Some(
            as_data_uri(u),
        ))
}

/// Where a reply's image is read from. The URL is looked for at `/url`, `/image/url`,
/// `/image_url`, `/data/0/url` and `/data/0/image_url`, in that order: a string at the
/// first of those pointers that names a value is the image. When none of them names a
/// value, the base64 payload is looked for at `/base64`, `/b64_json`, `/image/base64`,
/// `/data/0/b64_json` and `/data/0/base64`, in that order: a string there that starts with
/// `data:` is the image as it is, any other string is PNG data.
pub proof fn lemma_reply_image_sources(v: JsonValue, u: Seq<char>)
    ensures
        follows_image_sources(v, u, output_image_spec(v)),
{
    reveal_strlit("data:");
    assert(seq_starts_with(u, "data:"@) == (u.len() >= 5 && u.subrange(0, 5) == "data:"@));
}

/// None of the pointers a URL is looked for at names a value.
pub open spec fn no_url_pointer(v: JsonValue) -> bool {
    &&& json_at(v, seq!["url"@]) is None
    &&& json_at(v, seq!["image"@, "url"@]) is None
    &&& json_at(v, seq!["image_url"@]) is None
    &&& json_at(v, seq!["data"@, "0"@, "url"@]) is None
    &&& json_at(v, seq!["data"@, "0"@, "image_url"@]) is None
}

/// A base64 payload as an image: as it is when it already starts with `data:`, else as
/// PNG data.
pub open spec fn as_data_uri(b: Seq<char>) -> Seq<char> {
    if b.len() >= 5 && b.subrange(0, 5) == "data:"@ {
        b
    } else {
        "data:image/png;base64,"@ + b
    }
}

/// The image one reply (or reply item) offers, as a URL or a data URI.
pub fn output_image_from_response(v: &JsonValue) -> (r: Option<String>)
    ensures
        match r {
            Some(s) => output_image_spec(*v) == Some(s@),
            None => output_image_spec(*v) is None,
        },
        forall|u: Seq<char>| #[trigger] follows_image_sources(*v, u, opt_string_view(r)),
{
    proof {
        assert forall|u: Seq<char>| #[trigger] follows_image_sources(*v, u, output_image_spec(*v)) by {
            lemma_reply_image_sources(*v, u);
        }
    }
    if let Some(JsonValue::Str(u)) = url_entry_exec(v) {
        return Some(u.clone());
    }
    match base64_entry_exec(v) {
        Some(JsonValue::Str(b)) => {
            let bv = chars_of(b.as_str());
            let prefix = chars_of("data:");
            if starts_with(&bv, &prefix) {
                Some(b.clone())
            } else {
                let mut out: Vec<char> = Vec::new();
                extend_str(&mut out, "data:image/png;base64,");
                extend_chars(&mut out, &bv);
                Some(string_from_chars(&out))
            }
        },
        _ => None,
    }
}

/// The error for a reply that offers no image.
pub open spec fn no_image_message() -> Seq<char> {
    "未返回图片"@
}

/// The images of a reply, in order; an error when it offers none.
pub fn images_in_reply(v: &JsonValue) -> (r: Result<Vec<String>, String>)
    ensures
        output_images_spec(*v).len() == 0 ==> (r matches Err(e) && e@ == no_image_message()),
        output_images_spec(*v).len() > 0 ==> (r matches Ok(images) && images@.map_values(|s: String| s@)
            == output_images_spec(*v)),
{
    let images = output_images_from_response(v);
    if images.len() == 0 {
        assert(images@.map_values(|s: String| s@).len() == 0);
        Err("未返回图片".to_owned())
    } else {
        Ok(images)
    }
}

/// When every item of a list offers an image, the list's images are those, one per
/// item and in order.
proof fn lemma_every_item_offers(items: Seq<JsonValue>)
    ensures
        (forall|k: int| 0 <= k < items.len() ==> output_image_spec(#[trigger] items[k]) is Some) ==> images_of_items(
            items,
        ).len() == items.len() && forall|k: int|
            0 <= k < items.len() ==> output_image_spec(#[trigger] items[k]) == Some(images_of_items(items)[k]),
    decreases items.len(),
{
    if items.len() > 0 && forall|k: int| 0 <= k < items.len() ==> output_image_spec(#[trigger] items[k]) is Some {
        let init = items.drop_last();
        assert forall|k: int| 0 <= k < init.len() implies output_image_spec(#[trigger] init[k]) is Some by {
            assert(init[k] == items[k]);
        }
        lemma_every_item_offers(init);
        assert(output_image_spec(items[items.len() - 1]) is Some);
        assert forall|k: int| 0 <= k < items.len() implies output_image_spec(#[trigger] items[k]) == Some(
            images_of_items(items)[k],
        ) by {
            if k < init.len() {
                assert(init[k] == items[k]);
            }
        }
    }
}

/// The images a reply offers, in order (see [`output_images_spec`]).
pub fn output_images_from_response(v: &JsonValue) -> (r: Vec<String>)
    ensures
        r@.map_values(|s: String| s@) == output_images_spec(*v),
        json_at(*v, seq!["data"@]) matches Some(JsonValue::Array(items)) ==> (items@.len() > 0 && (forall|k: int|
            0 <= k < items@.len() ==> output_image_spec(#[trigger] items@[k]) is Some) ==> r@.len() == items@.len()
            && forall|k: int| 0 <= k < items@.len() ==> output_image_spec(#[trigger] items@[k]) == Some(r@[k]@)),
{
    proof {
        if let Some(JsonValue::Array(items)) = json_at(*v, seq!["data"@]) {
            lemma_every_item_offers(items@);
        }
    }
    let p: [&str; 1] = ["data"];
    proof {
        assert(token_seqs(p@) =~= seq!["data"@]);
    }
    let mut images: Vec<String> = Vec::new();
    let ghost mut listed: Seq<JsonValue> = Seq::empty();
    if let Some(JsonValue::Array(items)) = json_pointer(v, &p) {
        proof {
            listed = items@;
        }
        let mut i: usize = 0;
        while i < items.len()
            invariant
                i <= items@.len(),
                listed == items@,
                images@.map_values(|s: String| s@) == images_of_items(items@.take(i as int)),
            decreases items.len() - i,
        {
            let ghost before = images@;
            assert(items@.take(i as int + 1).drop_last() =~= items@.take(i as int));
            match output_image_from_response(&items[i]) {
                Some(img) => {
                    images.push(img);
                    assert(images@.map_values(|s: String| s@) =~= before.map_values(|s: String| s@).push(img@));
                },
                None => {},
            }
            i += 1;
        }
        assert(items@.take(items@.len() as int) =~= items@);
        if images.len() > 0 {
            return images;
        }
    }
    assert(images@.map_values(|s: String| s@).len() == 0);
    let mut out: Vec<String> = Vec::new();
    match output_image_from_response(v) {
        Some(img) => {
            out.push(img);
            assert(out@.map_values(|s: String| s@) =~= seq![img@]);
        },
        None => {
            assert(out@.map_values(|s: String| s@) =~= Seq::<Seq<char>>::empty());
        },
    }
    out
}

// ---------------------------------------------------------------------------
// Data URIs
// ---------------------------------------------------------------------------

/// The MIME type and the payload of a data URI `data:{mime};{...},{payload}`.
pub open spec fn data_uri_parts_spec(uri: Seq<char>) -> Result<(Seq<char>, Seq<char>), Seq<char>> {
    match split_once_spec(uri, ',') {
        None => Err("Invalid data URI"@),
        Some((header, data)) => if seq_starts_with(header, "data:"@) {
            match split_once_spec(header.skip(5), ';') {
                Some((mime, _)) => Ok((mime, data)),
                None => Err("Invalid data URI header"@),
            }
        } else {
            Err("Invalid data URI header"@)
        },
    }
}

/// Splits a data URI into its MIME type and its payload.
pub fn data_uri_parts(data_uri: &str) -> (r: Result<(String, String), String>)
    ensures
        match r {
            Ok((m, d)) => data_uri_parts_spec(data_uri@) == Ok::<(Seq<char>, Seq<char>), Seq<char>>((m@, d@)),
            Err(e) => data_uri_parts_spec(data_uri@) == Err::<(Seq<char>, Seq<char>), Seq<char>>(e@),
        },
{
    let v = chars_of(data_uri);
    match split_once(&v, ',') {
        None => Err("Invalid data URI".to_owned()),
        Some((header, data)) => {
            let prefix = chars_of("data:");
            proof {
                reveal_strlit("data:");
            }
            if !starts_with(&header, &prefix) {
                return Err("Invalid data URI header".to_owned());
            }
            let rest = crate::text::sub_chars(&header, 5, header.len());
            assert(rest@ =~= header@.skip(5));
            match split_once(&rest, ';') {
                Some((mime, _)) => Ok((string_from_chars(&mime), string_from_chars(&data))),
                None => Err("Invalid data URI header".to_owned()),
            }
        },
    }
}

/// The file extension used for an image of a MIME type (`png` for unknown types).
pub open spec fn mime_extension_spec(mime: Seq<char>) -> Seq<char> {
    if mime == "image/jpeg"@ {
        "jpg"@
    } else if mime == "image/png"@ {
        "png"@
    } else if mime == "image/webp"@ {
        "webp"@
    } else if mime == "image/gif"@ {
        "gif"@
    } else if mime == "image/bmp"@ {
        "bmp"@
    } else if mime == "image/tiff"@ {
        "tiff"@
    } else {
        "png"@
    }
}

/// The file extension used for an image of a MIME type.
pub fn mime_extension(mime_type: &str) -> (r: &'static str)
    ensures
        r@ == mime_extension_spec(mime_type@),
{
    if str_eq(mime_type, "image/jpeg") {
        "jpg"
    } else if str_eq(mime_type, "image/png") {
        "png"
    } else if str_eq(mime_type, "image/webp") {
        "webp"
    } else if str_eq(mime_type, "image/gif") {
        "gif"
    } else if str_eq(mime_type, "image/bmp") {
        "bmp"
    } else if str_eq(mime_type, "image/tiff") {
        "tiff"
    } else {
        "png"
    }
}

// ---------------------------------------------------------------------------
// Request options
// ---------------------------------------------------------------------------

/// An optional text, trimmed, and dropped when blank.
pub open spec fn normalized_text(value: Option<Seq<char>>) -> Option<Seq<char>> {
    match value {
        Some(t) => if trim_spec(t).len() > 0 {
            Some(trim_spec(t))
        } else {
            None
        },
        None => None,
    }
}

pub open spec fn opt_string_view(o: Option<String>) -> Option<Seq<char>> {
    match o {
        Some(s) => Some(s@),
        None => None,
    }
}

/// Trims an optional text and drops it when blank.
pub fn normalize_optional_text(value: Option<String>) -> (r: Option<String>)
    ensures
        opt_string_view(r) == normalized_text(opt_string_view(value)),
{
    match value {
        Some(text) => {
            let t = trim_str(text.as_str());
            if t.len() > 0 {
                Some(string_from_chars(&t))
            } else {
                None
            }
        },
        None => None,
    }
}

pub open spec fn supported_aspect_ratios() -> Seq<Seq<char>> {
    seq![
        "1:1"@,
        "16:9"@,
        "9:16"@,
        "4:3"@,
        "3:4"@,
        "3:2"@,
        "2:3"@,
        "2:1"@,
        "1:2"@,
        "20:9"@,
        "9:20"@,
        "auto"@,
    ]
}

pub open spec fn unsupported_aspect_ratio_message() -> Seq<char> {
    "不支持的图片比例"@
}

pub open spec fn unsupported_resolution_message() -> Seq<char> {
    "不支持的图片分辨率"@
}

/// Accepts the aspect ratios that the image-editing service offers.
pub fn validate_xai_image_aspect_ratio(aspect_ratio: &str) -> (r: Result<(), String>)
    ensures
        r is Ok <==> supported_aspect_ratios().contains(aspect_ratio@),
        r matches Err(e) ==> e@ == unsupported_aspect_ratio_message(),
{
    let ratios: [&str; 12] = [
        "1:1",
        "16:9",
        "9:16",
        "4:3",
        "3:4",
        "3:2",
        "2:3",
        "2:1",
        "1:2",
        "20:9",
        "9:20",
        "auto",
    ];
    let mut i: usize = 0;
    while i < 12
        invariant
            i <= 12,
            forall|k: int| 0 <= k < 12 ==> (#[trigger] ratios@[k])@ == supported_aspect_ratios()[k],
            forall|k: int| 0 <= k < i ==> supported_aspect_ratios()[k] != aspect_ratio@,
        decreases 12 - i,
    {
        if str_eq(aspect_ratio, ratios[i]) {
            assert(supported_aspect_ratios()[i as int] == aspect_ratio@);
            return Ok(());
        }
        i += 1;
    }
    Err("不支持的图片比例".to_owned())
}

/// Accepts the resolutions `1k` and `2k`.
pub fn validate_xai_image_resolution(resolution: &str) -> (r: Result<(), String>)
    ensures
        r is Ok <==> (resolution@ == "1k"@ || resolution@ == "2k"@),
        r matches Err(e) ==> e@ == unsupported_resolution_message(),
{
    if str_eq(resolution, "1k") || str_eq(resolution, "2k") {
        Ok(())
    } else {
        Err("不支持的图片分辨率".to_owned())
    }
}

/// Whether a stored xAI key is set (not blank).
pub fn xai_key_configured(xai_key: &str) -> (r: bool)
    ensures
        r == (trim_spec(xai_key@).len() > 0),
{
    trim_str(xai_key).len() > 0
}

// ---------------------------------------------------------------------------
// Preparing an edit request
// ---------------------------------------------------------------------------

/// The image model edit requests ask for.
pub const XAI_IMAGE_MODEL: &'static str = "grok-imagine-image-quality";

/// What is sent to the image-editing service, and what is archived with its reply.
#[derive(Debug)]
pub struct XaiEditRequest {
    /// The model asked for: always [`XAI_IMAGE_MODEL`].
    pub model: &'static str,
    /// The trimmed prompt.
    pub prompt: String,
    /// How many images to ask for, between one and four.
    pub image_count: u8,
    /// The aspect ratio to ask for; `None` for the service's choice.
    pub aspect_ratio: Option<String>,
    /// The resolution to ask for, if any.
    pub resolution: Option<String>,
    /// The reference images (data URIs) sent: at most the first three.
    pub images: Vec<String>,
    /// The first reference image's path.
    pub source_path: String,
    /// The first reference image's file name (`image` when it has none).
    pub source_label: String,
}

pub open spec fn empty_prompt_message() -> Seq<char> {
    "提示词不能为空"@
}

pub open spec fn missing_reference_message() -> Seq<char> {
    "参考图不能为空"@
}

pub open spec fn incomplete_reference_message() -> Seq<char> {
    "参考图数据不完整"@
}

pub open spec fn missing_key_message() -> Seq<char> {
    "xAI Key 未设置"@
}

/// Why a request with these inputs is refused before the key is read, if it is.
pub open spec fn edit_inputs_error(paths_len: nat, uris_len: nat, prompt: Seq<char>) -> Option<
    Seq<char>,
> {
    if trim_spec(prompt).len() == 0 {
        Some(empty_prompt_message())
    } else if paths_len == 0 || uris_len == 0 {
        Some(missing_reference_message())
    } else if paths_len != uris_len {
        Some(incomplete_reference_message())
    } else {
        None
    }
}

/// Checks the prompt and the reference images of an edit request.
pub fn check_xai_edit_inputs(
    source_paths_len: usize,
    source_data_uris_len: usize,
    prompt: &str,
) -> (r: Result<(), String>)
    ensures
        match r {
            Ok(_) => edit_inputs_error(
                source_paths_len as nat,
                source_data_uris_len as nat,
                prompt@,
            ) is None,
            Err(e) => edit_inputs_error(
                source_paths_len as nat,
                source_data_uris_len as nat,
                prompt@,
            ) == Some(e@),
        },
{
    if trim_str(prompt).len() == 0 {
        return Err("提示词不能为空".to_owned());
    }
    if source_paths_len == 0 || source_data_uris_len == 0 {
        return Err("参考图不能为空".to_owned());
    }
    if source_paths_len != source_data_uris_len {
        return Err("参考图数据不完整".to_owned());
    }
    Ok(())
}

/// The aspect ratio asked for: the trimmed option, unless blank or `auto`.
pub open spec fn requested_aspect_ratio(value: Option<Seq<char>>) -> Option<Seq<char>> {
    match normalized_text(value) {
        Some(t) => if t == "auto"@ {
            None
        } else {
            Some(t)
        },
        None => None,
    }
}

/// Why an edit request is refused, if it is; the checks come in this order.
pub open spec fn edit_request_error(
    xai_key: Seq<char>,
    paths_len: nat,
    uris_len: nat,
    prompt: Seq<char>,
    aspect_ratio: Option<Seq<char>>,
    resolution: Option<Seq<char>>,
) -> Option<Seq<char>> {
    if edit_inputs_error(paths_len, uris_len, prompt) is Some {
        edit_inputs_error(paths_len, uris_len, prompt)
    } else if trim_spec(xai_key).len() == 0 {
        Some(missing_key_message())
    } else if requested_aspect_ratio(aspect_ratio) matches Some(r) && !supported_aspect_ratios().contains(r) {
        Some(unsupported_aspect_ratio_message())
    } else if normalized_text(resolution) matches Some(t) && !(t == "1k"@ || t == "2k"@) {
        Some(unsupported_resolution_message())
    } else {
        None
    }
}

/// The number of images asked for: one when unset, else the value clamped to 1..=4.
pub open spec fn requested_image_count(value: Option<u8>) -> u8 {
    match value {
        Some(n) => if n < 1 {
            1
        } else if n > 4 {
            4
        } else {
            n
        },
        None => 1,
    }
}

pub open spec fn strings_view(v: Seq<String>) -> Seq<Seq<char>> {
    v.map_values(|s: String| s@)
}

/// Checks an edit request and gathers what is sent: the trimmed prompt, the image count,
/// the aspect ratio and resolution asked for, the first three reference images, and the
/// first reference's path and label. `first_source` is the first of `source_paths` as a
/// path.
pub fn prepare_xai_edit_request(
    xai_key: &str,
    source_paths: &Vec<String>,
    first_source: &LibPath,
    source_data_uris: &Vec<String>,
    prompt: &str,
    aspect_ratio: Option<String>,
    resolution: Option<String>,
    image_count: Option<u8>,
) -> (r: Result<XaiEditRequest, String>)
    ensures
        match r {
            Ok(req) => {
                &&& edit_request_error(
                    xai_key@,
                    source_paths@.len(),
                    source_data_uris@.len(),
                    prompt@,
                    opt_string_view(aspect_ratio),
                    opt_string_view(resolution),
                ) is None
                &&& req.model@ == "grok-imagine-image-quality"@
                &&& req.prompt@ == trim_spec(prompt@)
                &&& req.image_count == requested_image_count(image_count)
                &&& opt_string_view(req.aspect_ratio) == requested_aspect_ratio(opt_string_view(aspect_ratio))
                &&& opt_string_view(req.resolution) == normalized_text(opt_string_view(resolution))
                &&& strings_view(req.images@) == strings_view(source_data_uris@).take(
                    if source_data_uris@.len() < 3 {
                        source_data_uris@.len() as int
                    } else {
                        3
                    },
                )
                &&& req.source_path@ == source_paths@[0]@
                &&& req.source_label@ == match file_name_spec(first_source@) {
                    Some(n) => n,
                    None => "image"@,
                }
            },
            Err(e) => edit_request_error(
                xai_key@,
                source_paths@.len(),
                source_data_uris@.len(),
                prompt@,
                opt_string_view(aspect_ratio),
                opt_string_view(resolution),
            ) == Some(e@),
        },
{
    check_xai_edit_inputs(source_paths.len(), source_data_uris.len(), prompt)?;
    if !xai_key_configured(xai_key) {
        return Err("xAI Key 未设置".to_owned());
    }
    let ratio = normalize_optional_text(aspect_ratio);
    let ratio = match ratio {
        Some(t) => if str_eq(t.as_str(), "auto") {
            None
        } else {
            Some(t)
        },
        None => None,
    };
    if let Some(t) = &ratio {
        validate_xai_image_aspect_ratio(t.as_str())?;
    }
    let size = normalize_optional_text(resolution);
    if let Some(t) = &size {
        validate_xai_image_resolution(t.as_str())?;
    }
    let count: u8 = match image_count {
        Some(n) => if n < 1 {
            1
        } else if n > 4 {
            4
        } else {
            n
        },
        None => 1,
    };
    let limit: usize = if source_data_uris.len() < 3 {
        source_data_uris.len()
    } else {
        3
    };
    let mut images: Vec<String> = Vec::new();
    let mut i: usize = 0;
    while i < limit
        invariant
            i <= limit <= source_data_uris@.len(),
            strings_view(images@) == strings_view(source_data_uris@).take(i as int),
        decreases limit - i,
    {
        let ghost before = images@;
        images.push(source_data_uris[i].clone());
        assert(strings_view(images@) =~= strings_view(before).push(source_data_uris@[i as int]@));
        assert(strings_view(source_data_uris@).take(i as int + 1) =~= strings_view(
            source_data_uris@,
        ).take(i as int).push(source_data_uris@[i as int]@));
        i += 1;
    }
    let label = match file_name(first_source) {
        Some(n) => string_from_chars(&n),
        None => "image".to_owned(),
    };
    let trimmed = trim_str(prompt);
    Ok(
        XaiEditRequest {
            model: XAI_IMAGE_MODEL,
            prompt: string_from_chars(&trimmed),
            image_count: count,
            aspect_ratio: ratio,
            resolution: size,
            images,
            source_path: source_paths[0].clone(),
            source_label: label,
        },
    )
}

/// The request member that carries the reference images: `image` (one object) for a
/// single image, `images` (an array) otherwise.
pub fn image_input_key(image_count: usize) -> (r: &'static str)
    ensures
        r@ == (if image_count == 1 { "image"@ } else { "images"@ }),
{
    if image_count == 1 {
        "image"
    } else {
        "images"
    }
}

// ---------------------------------------------------------------------------
// Names of saved images and archives
// ---------------------------------------------------------------------------

/// The stem a saved file is named after: the source's stem, or `image`.
pub open spec fn source_stem(source: Seq<crate::paths::PartView>) -> Seq<char> {
    match file_stem_spec(source) {
        Some(s) => s,
        None => "image"@,
    }
}

fn source_stem_exec(source: &LibPath) -> (r: Vec<char>)
    ensures
        r@ == source_stem(source@),
{
    match file_stem(source) {
        Some(s) => s,
        None => chars_of("image"),
    }
}

/// The name a generated image is first offered under: `{stem}-xai-{secs}.{extension}`.
pub fn generated_image_name(source: &LibPath, secs: u64, extension: &str) -> (r: String)
    ensures
        r@ == source_stem(source@) + "-xai-"@ + decimal(secs as nat) + "."@ + extension@,
{
    let mut out = source_stem_exec(source);
    extend_str(&mut out, "-xai-");
    let digits = crate::text::decimal_chars(secs);
    extend_chars(&mut out, &digits);
    extend_str(&mut out, ".");
    extend_str(&mut out, extension);
    string_from_chars(&out)
}

/// The name an edit archive is first offered under: `{stem}-{created_at}.json`.
pub fn archive_file_name(source: &LibPath, created_at: u64) -> (r: String)
    ensures
        r@ == source_stem(source@) + "-"@ + decimal(created_at as nat) + ".json"@,
{
    let mut out = source_stem_exec(source);
    extend_str(&mut out, "-");
    let digits = crate::text::decimal_chars(created_at);
    extend_chars(&mut out, &digits);
    extend_str(&mut out, ".json");
    string_from_chars(&out)
}

/// A URL without its query: the text before the first `?`.
pub open spec fn url_before_query_spec(url: Seq<char>) -> Seq<char> {
    match split_once_spec(url, '?') {
        Some((head, _)) => head,
        None => url,
    }
}

/// The text of a URL before its first `?`.
pub fn url_before_query(url: &str) -> (r: String)
    ensures
        r@ == url_before_query_spec(url@),
{
    let v = chars_of(url);
    match split_once(&v, '?') {
        Some((head, _)) => string_from_chars(&head),
        None => url.to_owned(),
    }
}

/// The extension a downloaded image is saved with: that of the URL's path (read as a
/// file path), unless missing or empty, else `png`.
pub open spec fn url_image_extension_spec(path: Seq<crate::paths::PartView>) -> Seq<char> {
    match extension_spec(path) {
        Some(e) => if e.len() > 0 {
            e
        } else {
            "png"@
        },
        None => "png"@,
    }
}

/// The extension a downloaded image is saved with, from the URL's path before its query.
pub fn url_image_extension(url_path: &LibPath) -> (r: String)
    ensures
        r@ == url_image_extension_spec(url_path@),
{
    match extension(url_path) {
        Some(e) => if e.len() > 0 {
            string_from_chars(&e)
        } else {
            "png".to_owned()
        },
        None => "png".to_owned(),
    }
}

// ---------------------------------------------------------------------------
// Reference images as data URIs
// ---------------------------------------------------------------------------

/// The data URI of an image: `data:{mime};base64,{payload}`.
pub open spec fn image_data_uri_spec(mime: Seq<char>, bytes: Seq<u8>) -> Seq<char> {
    "data:"@ + mime + ";base64,"@ + crate::encoding::base64_spec(bytes)
}

/// The data URI a reference image is sent as.
pub fn image_data_uri(mime_type: &str, bytes: &[u8]) -> (r: String)
    ensures
        r@ == image_data_uri_spec(mime_type@, bytes@),
{
    let mut out: Vec<char> = Vec::new();
    extend_str(&mut out, "data:");
    extend_str(&mut out, mime_type);
    extend_str(&mut out, ";base64,");
    extend_str(&mut out, crate::encoding::base64_encode(bytes).as_str());
    string_from_chars(&out)
}

proof fn lemma_base64_has_no_comma(b: Seq<u8>)
    ensures
        forall|i: int| 0 <= i < crate::encoding::base64_spec(b).len() ==> crate::encoding::base64_spec(b)[i] != ',',
    decreases b.len(),
{
    reveal(crate::encoding::b64_group);
    if b.len() > 3 {
        lemma_base64_has_no_comma(b.skip(3));
        let g = crate::encoding::b64_group(b.take(3));
        let rest = crate::encoding::base64_spec(b.skip(3));
        assert forall|i: int| 0 <= i < crate::encoding::base64_spec(b).len() implies crate::encoding::base64_spec(b)[i] != ',' by {
            if i >= g.len() {
                assert(crate::encoding::base64_spec(b)[i] == rest[i - g.len()]);
            }
        }
    }
}

/// An image sent as a data URI reads back as the same MIME type and base64 payload, and
/// the payload as the same bytes, when the MIME type holds neither `,` nor `;`.
pub proof fn lemma_image_data_uri_round_trip(mime: Seq<char>, bytes: Seq<u8>)
    requires
        !mime.contains(','),
        !mime.contains(';'),
    ensures
        data_uri_parts_spec(image_data_uri_spec(mime, bytes)) == Ok::<(Seq<char>, Seq<char>), Seq<char>>(
            (mime, crate::encoding::base64_spec(bytes)),
        ),
        forall|b: Seq<u8>| crate::encoding::base64_spec(b) == crate::encoding::base64_spec(bytes) ==> b == bytes,
{
    reveal_strlit("data:");
    reveal_strlit(";base64,");
    reveal_strlit(";base64");
    let payload = crate::encoding::base64_spec(bytes);
    let uri = image_data_uri_spec(mime, bytes);
    let header = "data:"@ + mime + ";base64"@;
    assert(uri =~= header + seq![','] + payload);
    lemma_base64_has_no_comma(bytes);
    let k = header.len() as int;
    assert(crate::text::is_first_index(uri, ',', k)) by {
        assert forall|j: int| 0 <= j < k implies uri[j] != ',' by {
            assert(uri[j] == header[j]);
            if 5 <= j < 5 + mime.len() {
                assert(header[j] == mime[j - 5]);
                if mime[j - 5] == ',' {
                    assert(mime.contains(','));
                }
            }
        }
    }
    crate::text::lemma_first_index_unique(uri, ',', k);
    assert(uri.subrange(0, k) =~= header);
    assert(uri.subrange(k + 1, uri.len() as int) =~= payload);
    assert(seq_starts_with(header, "data:"@)) by {
        assert(header.subrange(0, 5) =~= "data:"@);
    }
    let after = header.skip(5);
    assert(after =~= mime + ";base64"@);
    let m = mime.len() as int;
    assert(crate::text::is_first_index(after, ';', m)) by {
        assert forall|j: int| 0 <= j < m implies after[j] != ';' by {
            assert(after[j] == mime[j]);
            if mime[j] == ';' {
                assert(mime.contains(';'));
            }
        }
    }
    crate::text::lemma_first_index_unique(after, ';', m);
    assert(after.subrange(0, m) =~= mime);
    assert forall|b: Seq<u8>| crate::encoding::base64_spec(b) == crate::encoding::base64_spec(bytes) implies b == bytes by {
        crate::encoding::lemma_base64_injective(b, bytes);
    }
}

} // verus!
