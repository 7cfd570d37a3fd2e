//! Release packaging: the `.env` file and command line of the packaging tool, release
//! versions, the Tauri configuration it reads and edits, and the updater manifest it
//! writes.

use vstd::prelude::*;

use vstd::utf8::encode_utf8;

use crate::paths::{file_name, file_name_spec, is_absolute, is_absolute_spec, LibPath};
use crate::text::{
    chars_eq, chars_of, contains, decimal, decimal_chars, ends_with, extend_chars, extend_str,
    find_char, first_index, seq_contains, seq_ends_with, seq_starts_with, starts_with, str_eq,
    string_from_chars, sub_chars, trim, trim_bounds, trim_spec, trim_start_spec,
};

verus! {

pub const ENV_FILE_NAME: &'static str = ".env";
pub const ENV_RELEASES_ROOT_URL: &'static str = "GALLERY_RELEASES_ROOT_URL";
pub const ENV_SIGNING_KEY_PATH: &'static str = "GALLERY_SIGNING_KEY_PATH";

// ---------------------------------------------------------------------------
// The `.env` file
// ---------------------------------------------------------------------------

/// `line` without a trailing carriage return.
pub open spec fn strip_cr(line: Seq<char>) -> Seq<char> {
    if line.len() > 0 && line.last() == '\r' { line.drop_last() } else { line }
}

/// `str::lines`: the text cut at each `\n` (a `\r` before it dropped); a final line
/// ending adds no empty line.
pub open spec fn lines_spec(s: Seq<char>) -> Seq<Seq<char>>
    decreases s.len(),
{
    if s.len() == 0 {
        Seq::empty()
    } else {
        match first_index(s, '\n') {
            Some(k) => seq![strip_cr(s.subrange(0, k))] + lines_spec(s.subrange(k + 1, s.len() as int)),
            None => seq![s],
        }
    }
}

/// A value as written after `=`: trimmed, and without one pair of matching quotes.
pub open spec fn env_value_spec(value: Seq<char>) -> Seq<char> {
    let v = trim_spec(value);
    if v.len() >= 2 && (v[0] == '\'' || v[0] == '"') && v.last() == v[0] {
        v.subrange(1, v.len() - 1)
    } else {
        v
    }
}

/// The value of an assignment in the `.env` file (`parse_env_value`).
pub fn parse_env_value(value: &str) -> (r: String)
    ensures
        r@ == env_value_spec(value@),
{
    let v = crate::text::trim_str(value);
    let n = v.len();
    if n >= 2 && (v[0] == '\'' || v[0] == '"') && v[n - 1] == v[0] {
        string_from_chars(&sub_chars(&v, 1, n - 1))
    } else {
        string_from_chars(&v)
    }
}

pub open spec fn is_env_key_char(c: char) -> bool {
    ('A' <= c && c <= 'Z') || ('0' <= c && c <= '9') || c == '_'
}

pub open spec fn is_env_key(key: Seq<char>) -> bool {
    key.len() > 0 && forall|i: int| 0 <= i < key.len() ==> is_env_key_char(#[trigger] key[i])
}

/// What one line of the `.env` file holds.
pub enum EnvLine {
    /// Blank or a comment.
    Nothing,
    /// `KEY=value`.
    Assign(Seq<char>, Seq<char>),
    /// No `=`.
    MissingEquals,
    /// A key that is not upper-case letters, digits and `_`.
    BadKey(Seq<char>),
}

/// The reading of one line: trimmed; blank lines and `#` comments hold nothing; an
/// `export ` prefix is dropped; then `KEY=value`.
pub open spec fn env_line_spec(raw: Seq<char>) -> EnvLine {
    let line = trim_spec(raw);
    if line.len() == 0 || line[0] == '#' {
        EnvLine::Nothing
    } else {
        let body = if seq_starts_with(line, "export "@) { trim_start_spec(line.skip(7)) } else { line };
        match crate::text::split_once_spec(body, '=') {
            None => EnvLine::MissingEquals,
            Some((k, v)) => if is_env_key(trim_spec(k)) {
                EnvLine::Assign(trim_spec(k), env_value_spec(v))
            } else {
                EnvLine::BadKey(trim_spec(k))
            },
        }
    }
}

pub open spec fn missing_equals_message(line_number: nat) -> Seq<char> {
    ".env 第 "@ + decimal(line_number) + " 行缺少 '='。"@
}

pub open spec fn bad_key_message(line_number: nat, key: Seq<char>) -> Seq<char> {
    ".env 第 "@ + decimal(line_number) + " 行变量名无效: "@ + key
}

/// The assignments of the lines from `index` on, over `acc`; the first bad line is the error.
pub open spec fn env_lines_from(lines: Seq<Seq<char>>, index: nat, acc: Map<Seq<char>, Seq<char>>) -> Result<
    Map<Seq<char>, Seq<char>>,
    Seq<char>,
>
    decreases lines.len() - index,
{
    if index >= lines.len() {
        Ok(acc)
    } else {
        match env_line_spec(lines[index as int]) {
            EnvLine::Nothing => env_lines_from(lines, index + 1, acc),
            EnvLine::Assign(k, v) => env_lines_from(lines, index + 1, acc.insert(k, v)),
            EnvLine::MissingEquals => Err(missing_equals_message(index + 1)),
            EnvLine::BadKey(k) => Err(bad_key_message(index + 1, k)),
        }
    }
}

/// The variables a `.env` file sets (a later assignment wins), or why it is refused.
pub open spec fn env_file_spec(source: Seq<char>) -> Result<Map<Seq<char>, Seq<char>>, Seq<char>> {
    env_lines_from(lines_spec(source), 0, Map::empty())
}

/// A list of variables read as a map; keys are expected to be distinct.
pub open spec fn pairs_map(pairs: Seq<(String, String)>) -> Map<Seq<char>, Seq<char>>
    decreases pairs.len(),
{
    if pairs.len() == 0 {
        Map::empty()
    } else {
        pairs_map(pairs.drop_last()).insert(pairs.last().0@, pairs.last().1@)
    }
}

pub open spec fn distinct_keys(pairs: Seq<(String, String)>) -> bool {
    forall|a: int, b: int| 0 <= a < b < pairs.len() ==> (#[trigger] pairs[a]).0@ != (#[trigger] pairs[b]).0@
}

proof fn lemma_pairs_map_lookup(pairs: Seq<(String, String)>, k: int)
    requires
        distinct_keys(pairs),
        0 <= k < pairs.len(),
    ensures
        pairs_map(pairs).contains_key(pairs[k].0@),
        pairs_map(pairs)[pairs[k].0@] == pairs[k].1@,
    decreases pairs.len(),
{
    if k < pairs.len() - 1 {
        lemma_pairs_map_lookup(pairs.drop_last(), k);
    }
}

proof fn lemma_pairs_map_absent(pairs: Seq<(String, String)>, key: Seq<char>)
    requires
        forall|k: int| 0 <= k < pairs.len() ==> (#[trigger] pairs[k]).0@ != key,
    ensures
        !pairs_map(pairs).contains_key(key),
    decreases pairs.len(),
{
    if pairs.len() > 0 {
        lemma_pairs_map_absent(pairs.drop_last(), key);
    }
}

proof fn lemma_pairs_map_update(pairs: Seq<(String, String)>, k: int, v: String)
    requires
        distinct_keys(pairs),
        0 <= k < pairs.len(),
    ensures
        pairs_map(pairs.update(k, (pairs[k].0, v))) == pairs_map(pairs).insert(pairs[k].0@, v@),
    decreases pairs.len(),
{
    let updated = pairs.update(k, (pairs[k].0, v));
    if k == pairs.len() - 1 {
        assert(updated.drop_last() =~= pairs.drop_last());
        lemma_pairs_map_absent(pairs.drop_last(), pairs[k].0@);
        assert(pairs_map(pairs.drop_last()).insert(pairs[k].0@, pairs[k].1@).insert(pairs[k].0@, v@)
            =~= pairs_map(pairs.drop_last()).insert(pairs[k].0@, v@));
    } else {
        assert(updated.drop_last() =~= pairs.drop_last().update(k, (pairs[k].0, v)));
        lemma_pairs_map_update(pairs.drop_last(), k, v);
        assert(pairs.last().0@ != pairs[k].0@);
        assert(pairs_map(pairs.drop_last()).insert(pairs[k].0@, v@).insert(pairs.last().0@, pairs.last().1@)
            =~= pairs_map(pairs.drop_last()).insert(pairs.last().0@, pairs.last().1@).insert(pairs[k].0@, v@));
    }
}

/// Sets `key` to `value` in a list of variables with distinct keys.
fn insert_pair(pairs: &mut Vec<(String, String)>, key: String, value: String)
    requires
        distinct_keys(old(pairs)@),
    ensures
        distinct_keys(final(pairs)@),
        pairs_map(final(pairs)@) == pairs_map(old(pairs)@).insert(key@, value@),
{
    let mut k: usize = 0;
    while k < pairs.len()
        invariant
            k <= pairs@.len(),
            pairs@ == old(pairs)@,
            distinct_keys(pairs@),
            forall|j: int| 0 <= j < k ==> (#[trigger] pairs@[j]).0@ != key@,
        decreases pairs.len() - k,
    {
        if str_eq(pairs[k].0.as_str(), key.as_str()) {
            let name = pairs[k].0.clone();
            let ghost before = pairs@;
            pairs.set(k, (name, value));
            proof {
                lemma_pairs_map_update(before, k as int, value);
                assert(pairs@ == before.update(k as int, (before[k as int].0, value)));
                assert forall|a: int, b: int| 0 <= a < b < pairs@.len() implies (#[trigger] pairs@[a]).0@
                    != (#[trigger] pairs@[b]).0@ by {
                    assert(pairs@[a].0@ == before[a].0@ && pairs@[b].0@ == before[b].0@);
                }
            }
            return;
        }
        k += 1;
    }
    let ghost before = pairs@;
    pairs.push((key, value));
    proof {
        assert(pairs@.drop_last() =~= before);
        assert forall|a: int, b: int| 0 <= a < b < pairs@.len() implies (#[trigger] pairs@[a]).0@ != (
        #[trigger] pairs@[b]).0@ by {
            if b < before.len() {
                assert(pairs@[a] == before[a] && pairs@[b] == before[b]);
            } else {
                assert(pairs@[a] == before[a]);
            }
        }
    }
}

fn line_number_message(prefix: &str, line_number: usize, suffix: &str) -> (r: String)
    requires
        line_number <= u64::MAX,
    ensures
        r@ == prefix@ + decimal(line_number as nat) + suffix@,
{
    let mut out: Vec<char> = Vec::new();
    extend_str(&mut out, prefix);
    extend_chars(&mut out, &decimal_chars(line_number as u64));
    extend_str(&mut out, suffix);
    string_from_chars(&out)
}

fn env_line(raw: &Vec<char>) -> (r: (u8, Vec<char>, Vec<char>))
    ensures
        match env_line_spec(raw@) {
            EnvLine::Nothing => r.0 == 0,
            EnvLine::Assign(k, v) => r.0 == 1 && r.1@ == k && r.2@ == v,
            EnvLine::MissingEquals => r.0 == 2,
            EnvLine::BadKey(k) => r.0 == 3 && r.1@ == k,
        },
{
    let line = trim(raw);
    if line.len() == 0 || line[0] == '#' {
        return (0, Vec::new(), Vec::new());
    }
    let prefix = chars_of("export ");
    proof {
        reveal_strlit("export ");
    }
    let body = if starts_with(&line, &prefix) {
        let rest = sub_chars(&line, 7, line.len());
        assert(rest@ =~= line@.skip(7));
        let (i, _) = trim_bounds(&rest);
        sub_chars(&rest, i, rest.len())
    } else {
        line
    };
    match crate::text::split_once(&body, '=') {
        None => (2, Vec::new(), Vec::new()),
        Some((k, v)) => {
            let key = trim(&k);
            let mut good = key.len() > 0;
            let mut i: usize = 0;
            while i < key.len()
                invariant
                    i <= key@.len(),
                    good == (key@.len() > 0 && forall|j: int| 0 <= j < i ==> is_env_key_char(#[trigger] key@[j])),
                decreases key.len() - i,
            {
                let c = key[i];
                good = good && (('A' <= c && c <= 'Z') || ('0' <= c && c <= '9') || c == '_');
                i += 1;
            }
            if good {
                let vs = string_from_chars(&v);
                let value = parse_env_value(vs.as_str());
                (1, key, chars_of(value.as_str()))
            } else {
                (3, key, Vec::new())
            }
        },
    }
}

/// The lines of a text (`str::lines`).
pub fn text_lines(source: &str) -> (r: Vec<Vec<char>>)
    ensures
        r@.map_values(|l: Vec<char>| l@) == lines_spec(source@),
{
    let s = chars_of(source);
    let n = s.len();
    let mut out: Vec<Vec<char>> = Vec::new();
    let mut start: usize = 0;
    assert(s@.subrange(0, n as int) =~= s@);
    while start < n
        invariant
            start <= n == s@.len(),
            s@ == source@,
            lines_spec(source@) == out@.map_values(|l: Vec<char>| l@) + lines_spec(s@.subrange(start as int, n as int)),
        decreases n - start,
    {
        let ghost rest = s@.subrange(start as int, n as int);
        let rest_vec = sub_chars(&s, start, n);
        match find_char(&rest_vec, '\n') {
            Some(k) => {
                let mut end = start + k;
                let mut line = sub_chars(&s, start, end);
                if line.len() > 0 && line[line.len() - 1] == '\r' {
                    line.pop();
                }
                assert(line@ =~= strip_cr(rest.subrange(0, k as int)));
                let ghost before = out@;
                out.push(line);
                assert(rest.subrange(k + 1, rest.len() as int) =~= s@.subrange(start + k + 1, n as int));
                assert(out@.map_values(|l: Vec<char>| l@) =~= before.map_values(|l: Vec<char>| l@).push(
                    strip_cr(rest.subrange(0, k as int)),
                ));
                start = start + k + 1;
            },
            None => {
                let ghost before = out@;
                out.push(rest_vec);
                assert(out@.map_values(|l: Vec<char>| l@) =~= before.map_values(|l: Vec<char>| l@).push(rest));
                assert(s@.subrange(n as int, n as int) =~= Seq::<char>::empty());
                start = n;
            },
        }
    }
    assert(s@.subrange(n as int, n as int) =~= Seq::<char>::empty());
    assert(out@.map_values(|l: Vec<char>| l@) + Seq::<Seq<char>>::empty() =~= out@.map_values(|l: Vec<char>| l@));
    out
}

/// Reads a `.env` file: the variables it sets, or the first line it cannot read.
pub fn parse_env_file(source: &str) -> (r: Result<Vec<(String, String)>, String>)
    ensures
        match r {
            Ok(pairs) => distinct_keys(pairs@) && env_file_spec(source@) == Ok::<Map<Seq<char>, Seq<char>>, Seq<char>>(pairs_map(pairs@)),
            Err(e) => env_file_spec(source@) == Err::<Map<Seq<char>, Seq<char>>, Seq<char>>(e@),
        },
{
    let lines = text_lines(source);
    let ghost ls = lines@.map_values(|l: Vec<char>| l@);
    let mut values: Vec<(String, String)> = Vec::new();
    let mut index: usize = 0;
    while index < lines.len()
        invariant
            index <= lines@.len(),
            ls == lines@.map_values(|l: Vec<char>| l@),
            ls == lines_spec(source@),
            distinct_keys(values@),
            env_file_spec(source@) == env_lines_from(ls, index as nat, pairs_map(values@)),
        decreases lines.len() - index,
    {
        assert(ls[index as int] == lines@[index as int]@);
        let (kind, key, value) = env_line(&lines[index]);
        if kind == 2 {
            return Err(line_number_message(".env 第 ", index + 1, " 行缺少 '='。"));
        } else if kind == 3 {
            let mut msg: Vec<char> = Vec::new();
            extend_str(&mut msg, line_number_message(".env 第 ", index + 1, " 行变量名无效: ").as_str());
            extend_chars(&mut msg, &key);
            return Err(string_from_chars(&msg));
        } else if kind == 1 {
            insert_pair(&mut values, string_from_chars(&key), string_from_chars(&value));
        }
        index += 1;
    }
    Ok(values)
}

/// The settings of the packaging tool: the process environment and the `.env` file.
#[derive(Debug)]
pub struct EnvConfig {
    /// Variables of the process environment.
    pub process: Vec<(String, String)>,
    /// Variables of the `.env` file.
    pub values: Vec<(String, String)>,
}

/// The non-blank value of `key` in a list of variables.
pub open spec fn nonblank_lookup(pairs: Seq<(String, String)>, key: Seq<char>) -> Option<Seq<char>> {
    if pairs_map(pairs).contains_key(key) && trim_spec(pairs_map(pairs)[key]).len() > 0 {
        Some(pairs_map(pairs)[key])
    } else {
        None
    }
}

fn lookup_nonblank(pairs: &Vec<(String, String)>, key: &str) -> (r: Option<String>)
    requires
        distinct_keys(pairs@),
    ensures
        match r {
            Some(v) => nonblank_lookup(pairs@, key@) == Some(v@),
            None => nonblank_lookup(pairs@, key@) is None,
        },
{
    let mut k: usize = 0;
    while k < pairs.len()
        invariant
            k <= pairs@.len(),
            distinct_keys(pairs@),
            forall|j: int| 0 <= j < k ==> (#[trigger] pairs@[j]).0@ != key@,
        decreases pairs.len() - k,
    {
        if str_eq(pairs[k].0.as_str(), key) {
            proof {
                lemma_pairs_map_lookup(pairs@, k as int);
            }
            if crate::text::trim_str(pairs[k].1.as_str()).len() > 0 {
                return Some(pairs[k].1.clone());
            } else {
                return None;
            }
        }
        k += 1;
    }
    proof {
        lemma_pairs_map_absent(pairs@, key@);
    }
    None
}

impl EnvConfig {
    /// Both lists have distinct keys.
    pub open spec fn well_formed(&self) -> bool {
        distinct_keys(self.process@) && distinct_keys(self.values@)
    }

    /// A setting: the process environment's value unless blank, else the file's unless blank.
    pub fn get(&self, key: &str) -> (r: Option<String>)
        requires
            self.well_formed(),
        ensures
            match r {
                Some(v) => Some(v@) == (if nonblank_lookup(self.process@, key@) is Some {
                    nonblank_lookup(self.process@, key@)
                } else {
                    nonblank_lookup(self.values@, key@)
                }),
                None => nonblank_lookup(self.process@, key@) is None && nonblank_lookup(self.values@, key@) is None,
            },
    {
        match lookup_nonblank(&self.process, key) {
            Some(v) => Some(v),
            None => lookup_nonblank(&self.values, key),
        }
    }
}

pub open spec fn relative_path_message(key: Seq<char>) -> Seq<char> {
    key + " 只支持绝对路径，请使用 /Users/...、C:\\... 或 UNC 路径，不要使用相对路径或 ~。"@
}

/// A path setting must be absolute on the platform (`windows` or not).
pub fn parse_absolute_env_path(key: &str, path: LibPath, windows: bool) -> (r: Result<LibPath, String>)
    ensures
        is_absolute_spec(path@, windows) ==> (r matches Ok(p) && p@ == path@),
        !is_absolute_spec(path@, windows) ==> (r matches Err(e) && e@ == relative_path_message(key@)),
{
    if is_absolute(&path, windows) {
        Ok(path)
    } else {
        let mut out: Vec<char> = Vec::new();
        extend_str(&mut out, key);
        extend_str(&mut out, " 只支持绝对路径，请使用 /Users/...、C:\\... 或 UNC 路径，不要使用相对路径或 ~。");
        Err(string_from_chars(&out))
    }
}

// ---------------------------------------------------------------------------
// The command line
// ---------------------------------------------------------------------------

/// The options of the packaging tool.
#[derive(Clone, Debug)]
pub struct Args {
    pub base_url: Option<String>,
    pub dry_run: bool,
    pub help: bool,
    pub out: Option<String>,
}

/// The options as values.
pub struct ArgsView {
    pub base_url: Option<Seq<char>>,
    pub dry_run: bool,
    pub help: bool,
    pub out: Option<Seq<char>>,
}

pub open spec fn opt_text(o: Option<String>) -> Option<Seq<char>> {
    match o {
        Some(s) => Some(s@),
        None => None,
    }
}

impl Args {
    pub open spec fn view(&self) -> ArgsView {
        ArgsView { base_url: opt_text(self.base_url), dry_run: self.dry_run, help: self.help, out: opt_text(self.out) }
    }
}

pub open spec fn missing_value_message(name: Seq<char>) -> Seq<char> {
    "缺少 "@ + name + " 的参数值"@
}

/// The value that follows an option: present and not itself an option.
pub open spec fn option_value_spec(argv: Seq<Seq<char>>, index: int, name: Seq<char>) -> Result<Seq<char>, Seq<char>> {
    if index >= argv.len() || seq_starts_with(argv[index], "--"@) {
        Err(missing_value_message(name))
    } else {
        Ok(argv[index])
    }
}

/// The options read from `argv[index..]` over `acc`; an unknown option or a missing
/// value is the error.
pub open spec fn args_from(argv: Seq<Seq<char>>, index: int, acc: ArgsView) -> Result<ArgsView, Seq<char>>
    decreases argv.len() - index,
{
    if index < 0 || index >= argv.len() {
        Ok(acc)
    } else {
        let t = argv[index];
        if t == "--help"@ || t == "-h"@ {
            args_from(argv, index + 1, ArgsView { help: true, ..acc })
        } else if t == "--dry-run"@ {
            args_from(argv, index + 1, ArgsView { dry_run: true, ..acc })
        } else if t == "--base-url"@ {
            match option_value_spec(argv, index + 1, "--base-url"@) {
                Ok(v) => args_from(argv, index + 2, ArgsView { base_url: Some(v), ..acc }),
                Err(e) => Err(e),
            }
        } else if t == "--out"@ {
            match option_value_spec(argv, index + 1, "--out"@) {
                Ok(v) => args_from(argv, index + 2, ArgsView { out: Some(v), ..acc }),
                Err(e) => Err(e),
            }
        } else if seq_starts_with(t, "--base-url="@) {
            args_from(argv, index + 1, ArgsView { base_url: Some(t.skip(11)), ..acc })
        } else if seq_starts_with(t, "--out="@) {
            args_from(argv, index + 1, ArgsView { out: Some(t.skip(6)), ..acc })
        } else {
            Err("未知参数: "@ + t)
        }
    }
}

pub open spec fn texts(v: Seq<String>) -> Seq<Seq<char>> {
    v.map_values(|s: String| s@)
}

/// The value after an option (`read_option_value`).
pub fn read_option_value(argv: &Vec<String>, index: usize, name: &str) -> (r: Result<String, String>)
    ensures
        match r {
            Ok(v) => option_value_spec(texts(argv@), index as int, name@) == Ok::<Seq<char>, Seq<char>>(v@),
            Err(e) => option_value_spec(texts(argv@), index as int, name@) == Err::<Seq<char>, Seq<char>>(e@),
        },
{
    if index >= argv.len() || starts_with(&chars_of(argv[index].as_str()), &chars_of("--")) {
        let mut out: Vec<char> = Vec::new();
        extend_str(&mut out, "缺少 ");
        extend_str(&mut out, name);
        extend_str(&mut out, " 的参数值");
        return Err(string_from_chars(&out));
    }
    Ok(argv[index].clone())
}

impl Args {
    /// Reads the command line (without the program name).
    pub fn parse(argv: Vec<String>) -> (r: Result<Args, String>)
        ensures
            match r {
                Ok(a) => args_from(texts(argv@), 0, ArgsView { base_url: None, dry_run: false, help: false, out: None })
                    == Ok::<ArgsView, Seq<char>>(a.view()),
                Err(e) => args_from(texts(argv@), 0, ArgsView { base_url: None, dry_run: false, help: false, out: None })
                    == Err::<ArgsView, Seq<char>>(e@),
            },
    {
        let ghost tv = texts(argv@);
        proof {
            reveal_strlit("--help");
            reveal_strlit("-h");
            reveal_strlit("--dry-run");
            reveal_strlit("--base-url");
            reveal_strlit("--out");
            assert("--help"@.len() == 6 && "-h"@.len() == 2 && "--dry-run"@.len() == 9);
            assert("--base-url"@.len() == 10 && "--out"@.len() == 5);
        }
        let mut args = Args { base_url: None, dry_run: false, help: false, out: None };
        let mut index: usize = 0;
        while index < argv.len()
            invariant
                tv == texts(argv@),
                index <= argv@.len() + 1,
                args_from(tv, 0, ArgsView { base_url: None, dry_run: false, help: false, out: None })
                    == args_from(tv, index as int, args.view()),
            decreases argv.len() + 1 - index,
        {
            let token = chars_of(argv[index].as_str());
            assert(tv[index as int] == argv@[index as int]@);
            let t = argv[index].as_str();
            if str_eq(t, "--help") || str_eq(t, "-h") {
                args.help = true;
            } else if str_eq(t, "--dry-run") {
                args.dry_run = true;
            } else if str_eq(t, "--base-url") {
                let ghost i0 = index as int;
                assert(tv[i0] == "--base-url"@);
                assert(args_from(tv, i0, args.view()) == match option_value_spec(tv, i0 + 1, "--base-url"@) {
                    Ok(v) => args_from(tv, i0 + 2, ArgsView { base_url: Some(v), ..args.view() }),
                    Err(e) => Err(e),
                });
                index += 1;
                match read_option_value(&argv, index, "--base-url") {
                    Ok(v) => {
                        args.base_url = Some(v);
                    },
                    Err(e) => {
                        assert(option_value_spec(tv, i0 + 1, "--base-url"@) == Err::<Seq<char>, Seq<char>>(e@));
                        assert(args_from(tv, i0, args.view()) == Err::<ArgsView, Seq<char>>(e@));
                        return Err(e);
                    },
                }
            } else if str_eq(t, "--out") {
                let ghost i0 = index as int;
                assert(tv[i0] == "--out"@);
                assert(args_from(tv, i0, args.view()) == match option_value_spec(tv, i0 + 1, "--out"@) {
                    Ok(v) => args_from(tv, i0 + 2, ArgsView { out: Some(v), ..args.view() }),
                    Err(e) => Err(e),
                });
                index += 1;
                match read_option_value(&argv, index, "--out") {
                    Ok(v) => {
                        args.out = Some(v);
                    },
                    Err(e) => {
                        assert(option_value_spec(tv, i0 + 1, "--out"@) == Err::<Seq<char>, Seq<char>>(e@));
                        assert(args_from(tv, i0, args.view()) == Err::<ArgsView, Seq<char>>(e@));
                        return Err(e);
                    },
                }
            } else if starts_with(&token, &chars_of("--base-url=")) {
                proof {
                    reveal_strlit("--base-url=");
                }
                let rest = sub_chars(&token, 11, token.len());
                assert(rest@ =~= token@.skip(11));
                args.base_url = Some(string_from_chars(&rest));
            } else if starts_with(&token, &chars_of("--out=")) {
                proof {
                    reveal_strlit("--out=");
                }
                let rest = sub_chars(&token, 6, token.len());
                assert(rest@ =~= token@.skip(6));
                args.out = Some(string_from_chars(&rest));
            } else {
                let mut out: Vec<char> = Vec::new();
                extend_str(&mut out, "未知参数: ");
                extend_chars(&mut out, &token);
                return Err(string_from_chars(&out));
            }
            index += 1;
        }
        proof {
            assert(args_from(tv, index as int, args.view()) == Ok::<ArgsView, Seq<char>>(args.view()));
        }
        Ok(args)
    }
}

// ---------------------------------------------------------------------------
// Platforms
// ---------------------------------------------------------------------------

/// A platform releases are built for.
#[derive(Clone, Copy, Debug, PartialEq, Eq, Structural)]
pub enum Platform {
    Linux,
    Mac,
    Windows,
}

impl Platform {
    /// The platform of an operating system's name.
    pub fn current(os: &str) -> (r: Result<Platform, String>)
        ensures
            os@ == "linux"@ ==> r == Ok::<Platform, String>(Platform::Linux),
            os@ == "macos"@ ==> r == Ok::<Platform, String>(Platform::Mac),
            os@ == "windows"@ ==> r == Ok::<Platform, String>(Platform::Windows),
            !(os@ == "linux"@ || os@ == "macos"@ || os@ == "windows"@) ==> (r matches Err(e) && e@ == "不支持的打包平台: "@ + os@),
    {
        proof {
            reveal_strlit("linux");
            reveal_strlit("macos");
            reveal_strlit("windows");
            assert("linux"@[0] != "macos"@[0] && "linux"@[0] != "windows"@[0] && "macos"@[0] != "windows"@[0]);
        }
        if str_eq(os, "linux") {
            Ok(Platform::Linux)
        } else if str_eq(os, "macos") {
            Ok(Platform::Mac)
        } else if str_eq(os, "windows") {
            Ok(Platform::Windows)
        } else {
            let mut out: Vec<char> = Vec::new();
            extend_str(&mut out, "不支持的打包平台: ");
            extend_str(&mut out, os);
            Err(string_from_chars(&out))
        }
    }

    /// The Tauri build commands for the platform.
    pub fn build_steps(self) -> (r: Vec<Vec<&'static str>>)
        ensures
            r@.len() == 1,
            r@[0]@.len() == 3,
            r@[0]@[0]@ == "build"@,
            r@[0]@[1]@ == "--bundles"@,
            r@[0]@[2]@ == match self {
                Platform::Linux => "appimage"@,
                Platform::Mac => "app,dmg"@,
                Platform::Windows => "nsis"@,
            },
    {
        let bundles = match self {
            Platform::Linux => "appimage",
            Platform::Mac => "app,dmg",
            Platform::Windows => "nsis",
        };
        let mut step: Vec<&'static str> = Vec::new();
        step.push("build");
        step.push("--bundles");
        step.push(bundles);
        let mut steps: Vec<Vec<&'static str>> = Vec::new();
        steps.push(step);
        steps
    }

    /// The key of the platform in the updater manifest: `{os}-{arch}`.
    pub fn platform_key(self, arch: &str) -> (r: String)
        ensures
            r@ == match self {
                Platform::Linux => "linux"@,
                Platform::Mac => "darwin"@,
                Platform::Windows => "windows"@,
            } + "-"@ + updater_arch_spec(arch@),
    {
        let mut out: Vec<char> = Vec::new();
        extend_str(
            &mut out,
            match self {
                Platform::Linux => "linux",
                Platform::Mac => "darwin",
                Platform::Windows => "windows",
            },
        );
        extend_str(&mut out, "-");
        extend_str(&mut out, updater_arch(arch).as_str());
        string_from_chars(&out)
    }
}

/// The updater's name for a CPU architecture.
pub open spec fn updater_arch_spec(arch: Seq<char>) -> Seq<char> {
    if arch == "arm"@ {
        "armv7"@
    } else if arch == "x86"@ {
        "i686"@
    } else {
        arch
    }
}

/// The updater's name for a CPU architecture (`aarch64` and `x86_64` are kept).
pub fn updater_arch(arch: &str) -> (r: String)
    ensures
        r@ == updater_arch_spec(arch@),
{
    if str_eq(arch, "arm") {
        "armv7".to_owned()
    } else if str_eq(arch, "x86") {
        "i686".to_owned()
    } else {
        arch.to_owned()
    }
}

// ---------------------------------------------------------------------------
// Versions
// ---------------------------------------------------------------------------

/// `str::split` at a character.
pub open spec fn split_spec(s: Seq<char>, c: char) -> Seq<Seq<char>>
    decreases s.len(),
{
    match first_index(s, c) {
        Some(k) => seq![s.subrange(0, k)] + split_spec(s.subrange(k + 1, s.len() as int), c),
        None => seq![s],
    }
}

/// The first position of `-` or `+`.
pub open spec fn first_suffix_index(s: Seq<char>) -> Option<int> {
    match (first_index(s, '-'), first_index(s, '+')) {
        (Some(a), Some(b)) => Some(if a < b { a } else { b }),
        (Some(a), None) => Some(a),
        (None, Some(b)) => Some(b),
        (None, None) => None,
    }
}

/// A version split into its core and its pre-release or build suffix (from the first
/// `-` or `+`); `None` when the version starts with the suffix.
pub open spec fn split_semver_suffix_spec(value: Seq<char>) -> Option<(Seq<char>, Option<Seq<char>>)> {
    match first_suffix_index(value) {
        Some(k) => if k > 0 {
            Some((value.subrange(0, k), Some(value.subrange(k, value.len() as int))))
        } else {
            None
        },
        None => Some((value, None)),
    }
}

/// Splits a version into core and suffix.
pub fn split_semver_suffix(value: &str) -> (r: Option<(String, Option<String>)>)
    ensures
        match r {
            Some((core, suffix)) => split_semver_suffix_spec(value@) == Some((core@, opt_text(suffix))),
            None => split_semver_suffix_spec(value@) is None,
        },
{
    let v = chars_of(value);
    let k = match (find_char(&v, '-'), find_char(&v, '+')) {
        (Some(a), Some(b)) => Some(if a < b { a } else { b }),
        (Some(a), None) => Some(a),
        (None, Some(b)) => Some(b),
        (None, None) => None,
    };
    match k {
        Some(k) => if k > 0 {
            Some((string_from_chars(&sub_chars(&v, 0, k)), Some(string_from_chars(&sub_chars(&v, k, v.len())))))
        } else {
            None
        },
        None => Some((value.to_owned(), None)),
    }
}

/// A version number: digits, without a leading zero unless it is `0`.
pub open spec fn is_semver_number_spec(value: Seq<char>) -> bool {
    &&& value.len() > 0
    &&& crate::text::all_digits(value)
    &&& (value == "0"@ || value[0] != '0')
}

/// Whether a text is a version number.
pub fn is_semver_number(value: &str) -> (r: bool)
    ensures
        r == is_semver_number_spec(value@),
{
    let v = chars_of(value);
    if v.len() == 0 {
        return false;
    }
    let mut i: usize = 0;
    while i < v.len()
        invariant
            i <= v@.len(),
            v@ == value@,
            forall|j: int| 0 <= j < i ==> crate::text::is_digit(#[trigger] v@[j]),
        decreases v.len() - i,
    {
        if !('0' <= v[i] && v[i] <= '9') {
            assert(!crate::text::all_digits(v@));
            return false;
        }
        i += 1;
    }
    proof {
        reveal_strlit("0");
    }
    str_eq(value, "0") || v[0] != '0'
}

pub open spec fn is_suffix_char(c: char) -> bool {
    ('A' <= c && c <= 'Z') || ('a' <= c && c <= 'z') || ('0' <= c && c <= '9') || c == '-' || c == '.' || c == '+'
}

/// A version suffix: `-` or `+`, then letters, digits, `-`, `.` and `+`, not ending in
/// `-`, `.` or `+`.
pub open spec fn is_semver_suffix_spec(value: Seq<char>) -> bool {
    &&& value.len() > 0
    &&& (value[0] == '-' || value[0] == '+')
    &&& forall|i: int| 1 <= i < value.len() ==> is_suffix_char(#[trigger] value[i])
    &&& !(value.last() == '-' || value.last() == '.' || value.last() == '+')
}

/// Whether a text is a version suffix.
pub fn is_semver_suffix(value: &str) -> (r: bool)
    ensures
        r == is_semver_suffix_spec(value@),
{
    let v = chars_of(value);
    let n = v.len();
    if n == 0 || !(v[0] == '-' || v[0] == '+') {
        return false;
    }
    let mut i: usize = 1;
    while i < n
        invariant
            1 <= i <= n == v@.len(),
            v@ == value@,
            forall|j: int| 1 <= j < i ==> is_suffix_char(#[trigger] v@[j]),
        decreases n - i,
    {
        let c = v[i];
        if !(('A' <= c && c <= 'Z') || ('a' <= c && c <= 'z') || ('0' <= c && c <= '9') || c == '-' || c == '.' || c == '+') {
            return false;
        }
        i += 1;
    }
    let last = v[n - 1];
    !(last == '-' || last == '.' || last == '+')
}

/// A release version: `MAJOR.MINOR.PATCH` numbers, then an optional suffix.
pub open spec fn is_semver_version_spec(value: Seq<char>) -> bool {
    match split_semver_suffix_spec(value) {
        None => false,
        Some((core, suffix)) => {
            let parts = split_spec(core, '.');
            &&& parts.len() == 3
            &&& is_semver_number_spec(parts[0])
            &&& is_semver_number_spec(parts[1])
            &&& is_semver_number_spec(parts[2])
            &&& match suffix {
                Some(s) => is_semver_suffix_spec(s),
                None => true,
            }
        },
    }
}

proof fn lemma_split_nonempty(s: Seq<char>, c: char)
    ensures
        split_spec(s, c).len() >= 1,
        first_index(s, c) is None ==> split_spec(s, c) == seq![s],
{
}

/// A text that splits at `c` into three pieces has `c` at two positions `i < j`, and the
/// pieces are what lies before, between and after them.
proof fn lemma_split_three(s: Seq<char>, c: char) -> (ij: (int, int))
    requires
        split_spec(s, c).len() == 3,
    ensures
        0 <= ij.0 < ij.1 < s.len(),
        s[ij.0] == c && s[ij.1] == c,
        split_spec(s, c)[0] == s.subrange(0, ij.0),
        split_spec(s, c)[1] == s.subrange(ij.0 + 1, ij.1),
        split_spec(s, c)[2] == s.subrange(ij.1 + 1, s.len() as int),
{
    lemma_split_nonempty(s, c);
    let i = first_index(s, c)->0;
    assert(crate::text::is_first_index(s, c, i));
    let t = s.subrange(i + 1, s.len() as int);
    lemma_split_nonempty(t, c);
    assert(split_spec(t, c).len() == 2);
    let k = first_index(t, c)->0;
    assert(crate::text::is_first_index(t, c, k));
    let u = t.subrange(k + 1, t.len() as int);
    lemma_split_nonempty(u, c);
    assert(split_spec(u, c).len() == 1);
    if first_index(u, c) is Some {
        let m = first_index(u, c)->0;
        lemma_split_nonempty(u.subrange(m + 1, u.len() as int), c);
        assert(false);
    }
    let j = i + 1 + k;
    assert(s[j] == t[k]);
    assert(split_spec(s, c)[1] == split_spec(t, c)[0]);
    assert(split_spec(t, c)[0] == t.subrange(0, k));
    assert(t.subrange(0, k) =~= s.subrange(i + 1, j));
    assert(split_spec(s, c)[2] == split_spec(t, c)[1]);
    assert(split_spec(t, c)[1] == split_spec(u, c)[0]);
    assert(u =~= s.subrange(j + 1, s.len() as int));
    (i, j)
}

/// A text with `c` at `i < j` and nowhere else splits at `c` into the pieces before,
/// between and after them.
proof fn lemma_split_at_two(s: Seq<char>, c: char, i: int, j: int)
    requires
        0 <= i < j < s.len(),
        s[i] == c && s[j] == c,
        forall|t: int| 0 <= t < s.len() && t != i && t != j ==> s[t] != c,
    ensures
        split_spec(s, c) == seq![s.subrange(0, i), s.subrange(i + 1, j), s.subrange(j + 1, s.len() as int)],
{
    crate::text::lemma_first_index_unique(s, c, i);
    let t = s.subrange(i + 1, s.len() as int);
    assert(crate::text::is_first_index(t, c, j - i - 1));
    crate::text::lemma_first_index_unique(t, c, j - i - 1);
    let u = t.subrange(j - i, t.len() as int);
    assert(u =~= s.subrange(j + 1, s.len() as int));
    assert(!exists|k: int| crate::text::is_first_index(u, c, k)) by {
        assert forall|k: int| !crate::text::is_first_index(u, c, k) by {
            if 0 <= k < u.len() {
                assert(u[k] == s[j + 1 + k]);
            }
        }
    }
    lemma_split_nonempty(u, c);
    assert(t.subrange(0, j - i - 1) =~= s.subrange(i + 1, j));
    assert(split_spec(t, c) =~= seq![s.subrange(i + 1, j), s.subrange(j + 1, s.len() as int)]);
    assert(split_spec(s, c) =~= seq![s.subrange(0, i), s.subrange(i + 1, j), s.subrange(j + 1, s.len() as int)]);
}

/// Three numbers joined by two dots, with nothing after them, are a release version the
/// packaging tool accepts.
pub proof fn lemma_plain_version_accepted(v: Seq<char>, i: int, j: int)
    requires
        numbers_core_at(v, v.len() as int, i, j),
    ensures
        is_semver_version_spec(v),
{
    let e = v.len() as int;
    assert forall|t: int| 0 <= t < e implies v[t] != '-' && v[t] != '+' && (v[t] == '.' <==> (t == i || t == j)) by {
        if t != i && t != j {
            assert(crate::text::is_digit(v[t]));
        }
    }
    assert(!exists|k: int| crate::text::is_first_index(v, '-', k));
    assert(!exists|k: int| crate::text::is_first_index(v, '+', k));
    assert(split_semver_suffix_spec(v) == Some((v, None::<Seq<char>>)));
    lemma_split_at_two(v, '.', i, j);
    let p0 = v.subrange(0, i);
    let p1 = v.subrange(i + 1, j);
    let p2 = v.subrange(j + 1, e);
    reveal_strlit("0");
    assert forall|t: int| 0 <= t < p0.len() implies crate::text::is_digit(#[trigger] p0[t]) by {
        assert(p0[t] == v[t]);
    }
    assert forall|t: int| 0 <= t < p1.len() implies crate::text::is_digit(#[trigger] p1[t]) by {
        assert(p1[t] == v[i + 1 + t]);
    }
    assert forall|t: int| 0 <= t < p2.len() implies crate::text::is_digit(#[trigger] p2[t]) by {
        assert(p2[t] == v[j + 1 + t]);
    }
    assert(p0[0] == v[0] && p1[0] == v[i + 1] && p2[0] == v[j + 1]);
    if p0.len() == 1 && p0[0] == '0' {
        assert(p0 =~= "0"@);
    }
    if p1.len() == 1 && p1[0] == '0' {
        assert(p1 =~= "0"@);
    }
    if p2.len() == 1 && p2[0] == '0' {
        assert(p2 =~= "0"@);
    }
}

/// `v[..e]` is three numbers joined by dots at `i` and `j`, and ends at the end of `v` or at
/// a `-` or `+`: every other character before `e` is an ASCII digit, no number is empty,
/// and none starts with `0` unless it is `0`.
pub open spec fn numbers_core_at(v: Seq<char>, e: int, i: int, j: int) -> bool {
    &&& 0 < i && i + 1 < j && j + 1 < e && e <= v.len()
    &&& (e == v.len() || v[e] == '-' || v[e] == '+')
    &&& v[i] == '.' && v[j] == '.'
    &&& forall|t: int| 0 <= t < e && t != i && t != j ==> crate::text::is_digit(#[trigger] v[t])
    &&& (v[0] != '0' || i == 1)
    &&& (v[i + 1] != '0' || j == i + 2)
    &&& (v[j + 1] != '0' || e == j + 2)
}

/// A version the packaging tool accepts begins with three numbers joined by two dots: up
/// to the first `-` or `+` (or the end), every character but the two dots is an ASCII
/// digit, no number is empty, and none starts with `0` unless it is `0`.
pub proof fn lemma_accepted_version_core(v: Seq<char>)
    requires
        is_semver_version_spec(v),
    ensures
        exists|e: int, i: int, j: int| #[trigger] numbers_core_at(v, e, i, j),
{
    let (core, suffix) = split_semver_suffix_spec(v)->0;
    let e = match first_suffix_index(v) {
        Some(k) => k,
        None => v.len() as int,
    };
    match first_suffix_index(v) {
        Some(k) => {
            match (first_index(v, '-'), first_index(v, '+')) {
                (Some(a), Some(b)) => {
                    assert(crate::text::is_first_index(v, '-', a));
                    assert(crate::text::is_first_index(v, '+', b));
                },
                (Some(a), None) => {
                    assert(crate::text::is_first_index(v, '-', a));
                },
                (None, Some(b)) => {
                    assert(crate::text::is_first_index(v, '+', b));
                },
                (None, None) => {},
            }
            assert(v[e] == '-' || v[e] == '+');
        },
        None => {},
    }
    assert(core =~= v.subrange(0, e));
    let parts = split_spec(core, '.');
    let (i, j) = lemma_split_three(core, '.');
    let p0 = parts[0];
    let p1 = parts[1];
    let p2 = parts[2];
    assert forall|t: int| 0 <= t < e && t != i && t != j implies crate::text::is_digit(#[trigger] v[t]) by {
        assert(v[t] == core[t]);
        if t < i {
            assert(p0[t] == core[t]);
            assert(crate::text::is_digit(p0[t]));
        } else if t < j {
            assert(p1[t - i - 1] == core[t]);
            assert(crate::text::is_digit(p1[t - i - 1]));
        } else {
            assert(p2[t - j - 1] == core[t]);
            assert(crate::text::is_digit(p2[t - j - 1]));
        }
    }
    assert(p0.len() > 0 && p1.len() > 0 && p2.len() > 0);
    reveal_strlit("0");
    assert(p0[0] == v[0]);
    assert(p1[0] == v[i + 1]);
    assert(p2[0] == v[j + 1]);
    if v[0] == '0' {
        assert(p0 == "0"@);
    }
    if v[i + 1] == '0' {
        assert(p1 == "0"@);
    }
    if v[j + 1] == '0' {
        assert(p2 == "0"@);
    }
    assert(v[i] == core[i] && v[j] == core[j]);
    assert(numbers_core_at(v, e, i, j));
}

/// The pieces of `v` between `c`s.
pub fn split_chars(v: &Vec<char>, c: char) -> (r: Vec<Vec<char>>)
    ensures
        r@.map_values(|p: Vec<char>| p@) == split_spec(v@, c),
    decreases v@.len(),
{
    let n = v.len();
    match find_char(v, c) {
        Some(k) => {
            let head = sub_chars(v, 0, k);
            let tail = sub_chars(v, k + 1, n);
            let rest = split_chars(&tail, c);
            let mut out: Vec<Vec<char>> = Vec::new();
            out.push(head);
            let ghost first = out@;
            let mut i: usize = 0;
            while i < rest.len()
                invariant
                    i <= rest@.len(),
                    k < v@.len(),
                    out@.len() == i + 1,
                    out@[0]@ == v@.subrange(0, k as int),
                    forall|j: int| 1 <= j < out@.len() ==> (#[trigger] out@[j])@ == rest@[j - 1]@,
                decreases rest.len() - i,
            {
                out.push(sub_chars(&rest[i], 0, rest[i].len()));
                i += 1;
            }
            assert(out@.map_values(|p: Vec<char>| p@) =~= seq![v@.subrange(0, k as int)] + rest@.map_values(|p: Vec<char>| p@));
            out
        },
        None => {
            let mut out: Vec<Vec<char>> = Vec::new();
            out.push(sub_chars(v, 0, n));
            assert(out@[0]@ =~= v@);
            assert(out@.map_values(|p: Vec<char>| p@) =~= seq![v@]);
            out
        },
    }
}

/// Whether a text is a release version (`MAJOR.MINOR.PATCH[-pre][+build]`).
pub fn is_semver_version(value: &str) -> (r: bool)
    ensures
        r == is_semver_version_spec(value@),
        r ==> exists|e: int, i: int, j: int| #[trigger] numbers_core_at(value@, e, i, j),
        forall|i: int, j: int| #[trigger] numbers_core_at(value@, value@.len() as int, i, j) ==> r,
{
    proof {
        if is_semver_version_spec(value@) {
            lemma_accepted_version_core(value@);
        }
        assert forall|i: int, j: int| #[trigger] numbers_core_at(value@, value@.len() as int, i, j) implies
            is_semver_version_spec(value@) by {
            lemma_plain_version_accepted(value@, i, j);
        }
    }
    let (core, suffix) = match split_semver_suffix(value) {
        Some(p) => p,
        None => {
            return false;
        },
    };
    let parts = split_chars(&chars_of(core.as_str()), '.');
    let ghost pv = parts@.map_values(|p: Vec<char>| p@);
    if parts.len() != 3 {
        return false;
    }
    assert(pv[0] == parts@[0]@ && pv[1] == parts@[1]@ && pv[2] == parts@[2]@);
    let a = string_from_chars(&parts[0]);
    let b = string_from_chars(&parts[1]);
    let c = string_from_chars(&parts[2]);
    if !is_semver_number(a.as_str()) || !is_semver_number(b.as_str()) || !is_semver_number(c.as_str()) {
        return false;
    }
    match suffix {
        Some(s) => is_semver_suffix(s.as_str()),
        None => true,
    }
}

// ---------------------------------------------------------------------------
// URLs and names
// ---------------------------------------------------------------------------

/// A text without its trailing `/`s.
pub open spec fn trim_trailing_slashes_spec(s: Seq<char>) -> Seq<char>
    decreases s.len(),
{
    if s.len() > 0 && s.last() == '/' { trim_trailing_slashes_spec(s.drop_last()) } else { s }
}

/// A URL without its trailing `/`s.
pub fn trim_trailing_slashes(value: &str) -> (r: String)
    ensures
        r@ == trim_trailing_slashes_spec(value@),
{
    let v = chars_of(value);
    let mut j = v.len();
    assert(v@.subrange(0, v@.len() as int) =~= v@);
    while j > 0 && v[j - 1] == '/'
        invariant
            j <= v@.len(),
            trim_trailing_slashes_spec(v@) == trim_trailing_slashes_spec(v@.subrange(0, j as int)),
        decreases j,
    {
        assert(v@.subrange(0, j as int).drop_last() =~= v@.subrange(0, j - 1));
        j -= 1;
    }
    assert(v@.subrange(0, v@.len() as int) =~= v@);
    string_from_chars(&sub_chars(&v, 0, j))
}

/// The path of an artifact from the path of its signature: without the `.sig` suffix.
pub fn strip_sig_extension(path: &str) -> (r: Option<String>)
    ensures
        seq_ends_with(path@, ".sig"@) ==> (r matches Some(p) && p@ == path@.subrange(0, path@.len() - 4)),
        !seq_ends_with(path@, ".sig"@) ==> r is None,
{
    let v = chars_of(path);
    let suffix = chars_of(".sig");
    proof {
        reveal_strlit(".sig");
    }
    if ends_with(&v, &suffix) {
        Some(string_from_chars(&sub_chars(&v, 0, v.len() - 4)))
    } else {
        None
    }
}

/// Whether the file name of `path` contains `needle`.
pub fn file_name_contains(path: &LibPath, needle: &str) -> (r: bool)
    ensures
        r == (file_name_spec(path@) matches Some(n) && seq_contains(n, needle@)),
{
    match file_name(path) {
        Some(n) => contains(&n, &chars_of(needle)),
        None => false,
    }
}

/// A byte that a URL path segment carries as it is.
pub open spec fn is_unreserved(b: u8) -> bool {
    (0x41 <= b && b <= 0x5a) || (0x61 <= b && b <= 0x7a) || (0x30 <= b && b <= 0x39) || b == 0x2d
        || b == 0x2e || b == 0x5f || b == 0x7e
}

pub open spec fn upper_hex_digit(v: int) -> char {
    if v < 10 { ((v + 48) as u32) as char } else { ((v - 10 + 65) as u32) as char }
}

/// The URL path segment of a byte string: unreserved bytes as they are, others as `%XX`.
pub open spec fn percent_encode(b: Seq<u8>) -> Seq<char>
    decreases b.len(),
{
    if b.len() == 0 {
        Seq::empty()
    } else {
        percent_encode(b.drop_last()) + if is_unreserved(b.last()) {
            seq![b.last() as char]
        } else {
            seq!['%', upper_hex_digit(b.last() as int / 16), upper_hex_digit(b.last() as int % 16)]
        }
    }
}

/// An ASCII letter or digit, or one of `-`, `.`, `_`, `~`.
pub open spec fn plain_url_char(c: char) -> bool {
    ('A' <= c && c <= 'Z') || ('a' <= c && c <= 'z') || ('0' <= c && c <= '9') || c == '-' || c == '.'
        || c == '_' || c == '~'
}

proof fn lemma_percent_encode_plain(b: Seq<u8>)
    requires
        forall|k: int| 0 <= k < b.len() ==> is_unreserved(#[trigger] b[k]),
    ensures
        percent_encode(b) == Seq::new(b.len(), |k: int| b[k] as char),
    decreases b.len(),
{
    if b.len() > 0 {
        lemma_percent_encode_plain(b.drop_last());
        assert(percent_encode(b) =~= Seq::new(b.len(), |k: int| b[k] as char));
    }
}

/// A URL path segment holds only ASCII letters, digits, `-`, `.`, `_`, `~` and `%`: every
/// other byte of the name is written as `%` and two hex digits.
pub proof fn lemma_segment_chars_are_safe(b: Seq<u8>)
    ensures
        forall|k: int| 0 <= k < percent_encode(b).len() ==> plain_url_char(#[trigger] percent_encode(b)[k])
            || percent_encode(b)[k] == '%',
    decreases b.len(),
{
    if b.len() > 0 {
        let init = b.drop_last();
        lemma_segment_chars_are_safe(init);
        let x = b.last();
        let tail = if is_unreserved(x) {
            seq![x as char]
        } else {
            seq!['%', upper_hex_digit(x as int / 16), upper_hex_digit(x as int % 16)]
        };
        assert(percent_encode(b) == percent_encode(init) + tail);
        assert forall|k: int| 0 <= k < tail.len() implies plain_url_char(#[trigger] tail[k]) || tail[k] == '%' by {
            if !is_unreserved(x) && k > 0 {
                let d = if k == 1 { x as int / 16 } else { x as int % 16 };
                assert(0 <= d < 16);
                assert(tail[k] == upper_hex_digit(d));
            }
        }
        assert forall|k: int| 0 <= k < percent_encode(b).len() implies plain_url_char(#[trigger] percent_encode(b)[k])
            || percent_encode(b)[k] == '%' by {
            if k >= percent_encode(init).len() {
                assert(percent_encode(b)[k] == tail[k - percent_encode(init).len()]);
            } else {
                assert(percent_encode(b)[k] == percent_encode(init)[k]);
            }
        }
    }
}

/// A name made only of ASCII letters, digits, `-`, `.`, `_` and `~` is its own URL path
/// segment: `url_path_segment` leaves it as it is.
pub proof fn lemma_plain_name_is_its_own_segment(value: Seq<char>)
    requires
        forall|k: int| 0 <= k < value.len() ==> plain_url_char(#[trigger] value[k]),
    ensures
        percent_encode(encode_utf8(value)) == value,
{
    assert forall|k: int| 0 <= k < value.len() implies (value[k] as u32) < 0x80 by {
        assert(plain_url_char(value[k]));
    }
    lemma_encode_ascii(value);
    let b = encode_utf8(value);
    assert forall|k: int| 0 <= k < b.len() implies is_unreserved(#[trigger] b[k]) && b[k] as char == value[k] by {
        let x = value[k] as u32;
        assert(plain_url_char(value[k]));
        assert(b[k] == (x as u8));
        assert((x as u8) as u32 == x) by (bit_vector)
            requires
                x < 0x80,
        ;
        vstd::utf8::char_u32_cast(value[k], x);
    }
    lemma_percent_encode_plain(b);
    assert(percent_encode(b) =~= value);
}

fn upper_hex(v: u8) -> (c: char)
    requires
        v < 16,
    ensures
        c == upper_hex_digit(v as int),
{
    if v < 10 { (v + 48) as char } else { (v - 10 + 65) as char }
}

/// A text as a URL path segment (its UTF-8 bytes percent-encoded).
pub fn url_path_segment(value: &str) -> (r: String)
    ensures
        r@ == percent_encode(encode_utf8(value@)),
        forall|k: int| 0 <= k < r@.len() ==> plain_url_char(#[trigger] r@[k]) || r@[k] == '%',
        (forall|k: int| 0 <= k < value@.len() ==> plain_url_char(#[trigger] value@[k])) ==> r@ == value@,
{
    proof {
        lemma_segment_chars_are_safe(encode_utf8(value@));
        if forall|k: int| 0 <= k < value@.len() ==> plain_url_char(#[trigger] value@[k]) {
            lemma_plain_name_is_its_own_segment(value@);
        }
    }
    let bytes = value.as_bytes();
    let mut out: Vec<char> = Vec::new();
    let mut i: usize = 0;
    while i < bytes.len()
        invariant
            i <= bytes@.len(),
            bytes@ == encode_utf8(value@),
            out@ == percent_encode(bytes@.take(i as int)),
        decreases bytes.len() - i,
    {
        let b = bytes[i];
        assert(bytes@.take(i as int + 1).drop_last() =~= bytes@.take(i as int));
        assert(bytes@.take(i as int + 1).last() == b);
        if (0x41 <= b && b <= 0x5a) || (0x61 <= b && b <= 0x7a) || (0x30 <= b && b <= 0x39) || b == 0x2d
            || b == 0x2e || b == 0x5f || b == 0x7e {
            out.push(b as char);
        } else {
            out.push('%');
            out.push(upper_hex(b / 16));
            out.push(upper_hex(b % 16));
        }
        i += 1;
    }
    assert(bytes@.take(bytes@.len() as int) =~= bytes@);
    string_from_chars(&out)
}

/// The URL an artifact is published under: the release URL without trailing `/`s, a
/// `/`, and the artifact's file name as a path segment.
pub fn artifact_url(artifact: &LibPath, release_base_url: &str) -> (r: String)
    ensures
        r@ == trim_trailing_slashes_spec(release_base_url@) + "/"@ + percent_encode(encode_utf8(
            match file_name_spec(artifact@) {
                Some(n) => n,
                None => Seq::empty(),
            },
        )),
{
    let name = match file_name(artifact) {
        Some(n) => string_from_chars(&n),
        None => String::new(),
    };
    let mut out: Vec<char> = Vec::new();
    extend_str(&mut out, trim_trailing_slashes(release_base_url).as_str());
    extend_str(&mut out, "/");
    extend_str(&mut out, url_path_segment(name.as_str()).as_str());
    string_from_chars(&out)
}

/// An artifact found next to its signature.
#[derive(Debug)]
pub struct ArtifactCandidate {
    pub path: LibPath,
    pub signature_path: LibPath,
    /// Modification time in nanoseconds since the epoch (0 when unknown).
    pub modified: u128,
}

/// The artifact's file name holds the version.
pub open spec fn names_version(a: ArtifactCandidate, version: Seq<char>) -> bool {
    file_name_spec(a.path@) matches Some(n) && seq_contains(n, version)
}

/// `a` is preferred to `b`: its name holds the version when `b`'s does not; else it is
/// newer; else its path comes first.
pub open spec fn preferred(a: ArtifactCandidate, b: ArtifactCandidate, version: Seq<char>) -> bool {
    let ca = file_name_spec(a.path@) matches Some(n) && seq_contains(n, version);
    let cb = file_name_spec(b.path@) matches Some(n) && seq_contains(n, version);
    (ca && !cb) || (ca == cb && (a.modified > b.modified || (a.modified == b.modified
        && crate::paths::path_order(a.path@, b.path@) < 0)))
}

/// Preference between artifacts is a strict order whose ties are artifacts with the same
/// version mark, time and path.
pub proof fn lemma_preferred_order(a: ArtifactCandidate, b: ArtifactCandidate, c: ArtifactCandidate, version: Seq<char>)
    ensures
        !preferred(a, a, version),
        preferred(a, b, version) ==> !preferred(b, a, version),
        preferred(a, b, version) && preferred(b, c, version) ==> preferred(a, c, version),
        !preferred(a, b, version) && !preferred(b, a, version) && preferred(c, b, version) ==> preferred(c, a, version),
{
    crate::paths::lemma_path_order(a.path@, b.path@, c.path@);
    crate::paths::lemma_path_order(b.path@, c.path@, a.path@);
    crate::paths::lemma_path_order(c.path@, a.path@, b.path@);
    crate::paths::lemma_path_order(a.path@, a.path@, a.path@);
    crate::paths::lemma_path_order(b.path@, a.path@, c.path@);
    crate::paths::lemma_path_order(c.path@, b.path@, a.path@);
    crate::paths::lemma_path_order(a.path@, c.path@, b.path@);
}

/// The artifact to publish: the first one that no other is preferred to.
pub fn choose_latest_candidate(candidates: Vec<ArtifactCandidate>, version: &str) -> (r: Option<usize>)
    ensures
        candidates@.len() == 0 ==> r is None,
        candidates@.len() > 0 ==> (r matches Some(i) && i < candidates@.len()
            && (forall|j: int| 0 <= j < candidates@.len() ==> !preferred(#[trigger] candidates@[j], candidates@[i as int], version@))
            && (forall|j: int| 0 <= j < i ==> preferred(candidates@[i as int], #[trigger] candidates@[j], version@))),
        r matches Some(i) ==> forall|j: int|
            0 <= j < candidates@.len() ==> (names_version(#[trigger] candidates@[j], version@) ==> names_version(
                candidates@[i as int],
                version@,
            )) && (names_version(candidates@[j], version@) == names_version(candidates@[i as int], version@)
                ==> candidates@[j].modified <= candidates@[i as int].modified),
{
    if candidates.len() == 0 {
        return None;
    }
    let mut best: usize = 0;
    let mut best_has = file_name_contains(&candidates[0].path, version);
    proof {
        lemma_preferred_order(candidates@[0], candidates@[0], candidates@[0], version@);
    }
    let mut k: usize = 1;
    while k < candidates.len()
        invariant
            1 <= k <= candidates@.len(),
            best < k,
            best_has == (file_name_spec(candidates@[best as int].path@) matches Some(n) && seq_contains(n, version@)),
            forall|j: int| 0 <= j < k ==> !preferred(#[trigger] candidates@[j], candidates@[best as int], version@),
            forall|j: int| 0 <= j < best ==> preferred(candidates@[best as int], #[trigger] candidates@[j], version@),
        decreases candidates.len() - k,
    {
        let has = file_name_contains(&candidates[k].path, version);
        let better = (has && !best_has) || (has == best_has && (candidates[k].modified > candidates[best].modified
            || (candidates[k].modified == candidates[best].modified && crate::paths::compare_paths(
            &candidates[k].path,
            &candidates[best].path,
        ) < 0)));
        if !better {
            assert(!preferred(candidates@[k as int], candidates@[best as int], version@));
        }
        if better {
            proof {
                assert(preferred(candidates@[k as int], candidates@[best as int], version@));
                assert forall|j: int| 0 <= j < k + 1 implies !preferred(#[trigger] candidates@[j], candidates@[k as int], version@) by {
                    lemma_preferred_order(candidates@[j], candidates@[k as int], candidates@[best as int], version@);
                    lemma_preferred_order(candidates@[k as int], candidates@[k as int], candidates@[k as int], version@);
                }
                assert forall|j: int| 0 <= j < k implies preferred(candidates@[k as int], #[trigger] candidates@[j], version@) by {
                    lemma_preferred_order(candidates@[k as int], candidates@[best as int], candidates@[j], version@);
                    lemma_preferred_order(candidates@[j], candidates@[best as int], candidates@[k as int], version@);
                }
            }
            best = k;
            best_has = has;
        }
        k += 1;
    }
    Some(best)
}

// ---------------------------------------------------------------------------
// Reading and editing the Tauri configuration
// ---------------------------------------------------------------------------

pub open spec fn is_json_ws(b: u8) -> bool {
    b == 0x20 || b == 0x0a || b == 0x0d || b == 0x09
}

/// The first position from `i` on that is not JSON white space.
pub open spec fn skip_ws_spec(b: Seq<u8>, i: int) -> int
    decreases b.len() - i,
{
    if 0 <= i < b.len() && is_json_ws(b[i]) { skip_ws_spec(b, i + 1) } else { i }
}

proof fn lemma_skip_ws(b: Seq<u8>, i: int)
    requires
        0 <= i,
    ensures
        skip_ws_spec(b, i) >= i,
        i <= b.len() ==> skip_ws_spec(b, i) <= b.len(),
        skip_ws_spec(b, i) > i ==> is_json_ws(b[skip_ws_spec(b, i) - 1]),
    decreases b.len() - i,
{
    if 0 <= i < b.len() && is_json_ws(b[i]) {
        lemma_skip_ws(b, i + 1);
    }
}

/// Skips JSON white space.
pub fn skip_ws(bytes: &[u8], index: usize) -> (r: usize)
    ensures
        r == skip_ws_spec(bytes@, index as int),
{
    let mut i = index;
    while i < bytes.len() && (bytes[i] == 0x20 || bytes[i] == 0x0a || bytes[i] == 0x0d || bytes[i] == 0x09)
        invariant
            index <= i,
            skip_ws_spec(bytes@, index as int) == skip_ws_spec(bytes@, i as int),
        decreases bytes@.len() - i,
    {
        i += 1;
    }
    i
}

pub open spec fn hex_digit_value(c: u8) -> Option<int> {
    if 0x30 <= c && c <= 0x39 {
        Some(c - 0x30)
    } else if 0x61 <= c && c <= 0x66 {
        Some(c - 0x61 + 10)
    } else if 0x41 <= c && c <= 0x46 {
        Some(c - 0x41 + 10)
    } else {
        None
    }
}

pub open spec fn hex_digits_value(d: Seq<u8>) -> Option<int>
    decreases d.len(),
{
    if d.len() == 0 {
        Some(0)
    } else {
        match (hex_digits_value(d.drop_last()), hex_digit_value(d.last())) {
            (Some(a), Some(x)) => Some(a * 16 + x),
            _ => None,
        }
    }
}

/// `u16::from_str_radix(text, 16)` on four bytes (an optional `+`, then hex digits),
/// then `char::from_u32`: the character a `\u` escape names.
pub open spec fn unicode_escape(d: Seq<u8>) -> Option<char> {
    let body = if d.len() > 0 && d[0] == 0x2b { d.drop_first() } else { d };
    if body.len() == 0 {
        None
    } else {
        match hex_digits_value(body) {
            Some(v) => if 0xD800 <= v && v <= 0xDFFF { None } else { Some((v as u32) as char) },
            None => None,
        }
    }
}

/// The text of a JSON string whose body starts at `i`, read byte by byte (a byte outside
/// an escape is taken as the character of that number), with the position after its
/// closing quote.
pub open spec fn json_string_from(b: Seq<u8>, i: int, acc: Seq<char>) -> Option<(Seq<char>, int)>
    decreases b.len() - i,
{
    if i < 0 || i >= b.len() {
        None
    } else if b[i] == 0x22 {
        Some((acc, i + 1))
    } else if b[i] == 0x5c {
        if i + 1 >= b.len() {
            None
        } else {
            let e = b[i + 1];
            if e == 0x22 {
                json_string_from(b, i + 2, acc.push('"'))
            } else if e == 0x5c {
                json_string_from(b, i + 2, acc.push('\\'))
            } else if e == 0x2f {
                json_string_from(b, i + 2, acc.push('/'))
            } else if e == 0x62 {
                json_string_from(b, i + 2, acc.push('\u{8}'))
            } else if e == 0x66 {
                json_string_from(b, i + 2, acc.push('\u{c}'))
            } else if e == 0x6e {
                json_string_from(b, i + 2, acc.push('\n'))
            } else if e == 0x72 {
                json_string_from(b, i + 2, acc.push('\r'))
            } else if e == 0x74 {
                json_string_from(b, i + 2, acc.push('\t'))
            } else if e == 0x75 {
                if i + 6 <= b.len() {
                    match unicode_escape(b.subrange(i + 2, i + 6)) {
                        Some(c) => json_string_from(b, i + 6, acc.push(c)),
                        None => None,
                    }
                } else {
                    None
                }
            } else {
                None
            }
        }
    } else {
        json_string_from(b, i + 1, acc.push((b[i] as u32) as char))
    }
}

/// The JSON string that starts (with its quote) at `start`, and the position after it.
pub open spec fn json_string_at_spec(b: Seq<u8>, start: int) -> Option<(Seq<char>, int)> {
    if 0 <= start < b.len() && b[start] == 0x22 {
        json_string_from(b, start + 1, Seq::empty())
    } else {
        None
    }
}

pub proof fn lemma_json_string_bounds(b: Seq<u8>, i: int, acc: Seq<char>)
    ensures
        json_string_from(b, i, acc) matches Some((_, e)) ==> i < e <= b.len() && b[e - 1] == 0x22,
    decreases b.len() - i,
{
    if 0 <= i < b.len() && b[i] != 0x22 {
        if b[i] == 0x5c {
            if i + 1 < b.len() {
                let e = b[i + 1];
                if e == 0x75 {
                    if i + 6 <= b.len() {
                        match unicode_escape(b.subrange(i + 2, i + 6)) {
                            Some(c) => lemma_json_string_bounds(b, i + 6, acc.push(c)),
                            None => {},
                        }
                    }
                } else if e == 0x22 {
                    lemma_json_string_bounds(b, i + 2, acc.push('"'));
                } else if e == 0x5c {
                    lemma_json_string_bounds(b, i + 2, acc.push('\\'));
                } else if e == 0x2f {
                    lemma_json_string_bounds(b, i + 2, acc.push('/'));
                } else if e == 0x62 {
                    lemma_json_string_bounds(b, i + 2, acc.push('\u{8}'));
                } else if e == 0x66 {
                    lemma_json_string_bounds(b, i + 2, acc.push('\u{c}'));
                } else if e == 0x6e {
                    lemma_json_string_bounds(b, i + 2, acc.push('\n'));
                } else if e == 0x72 {
                    lemma_json_string_bounds(b, i + 2, acc.push('\r'));
                } else if e == 0x74 {
                    lemma_json_string_bounds(b, i + 2, acc.push('\t'));
                }
            }
        } else {
            lemma_json_string_bounds(b, i + 1, acc.push((b[i] as u32) as char));
        }
    }
}

fn hex_value(c: u8) -> (r: Option<u32>)
    ensures
        match r {
            Some(v) => hex_digit_value(c) == Some(v as int),
            None => hex_digit_value(c) is None,
        },
{
    if 0x30 <= c && c <= 0x39 {
        Some((c - 0x30) as u32)
    } else if 0x61 <= c && c <= 0x66 {
        Some((c - 0x61 + 10) as u32)
    } else if 0x41 <= c && c <= 0x46 {
        Some((c - 0x41 + 10) as u32)
    } else {
        None
    }
}

pub open spec fn pow16(n: nat) -> nat
    decreases n,
{
    if n == 0 { 1 } else { 16 * pow16((n - 1) as nat) }
}

proof fn lemma_hex_digits_none(d: Seq<u8>, k: int)
    requires
        0 <= k <= d.len(),
        hex_digits_value(d.take(k)) is None,
    ensures
        hex_digits_value(d) is None,
    decreases d.len() - k,
{
    if k < d.len() {
        let t = d.take(k + 1);
        assert(t.drop_last() =~= d.take(k));
        lemma_hex_digits_none(d, k + 1);
    } else {
        assert(d.take(k) =~= d);
    }
}

/// `char::from_u32`: the character with that code point, when there is one.
#[verifier::external_body]
fn char_from_u32(v: u32) -> (r: Option<char>)
    ensures
        r == (if v <= 0x10FFFF && !(0xD800 <= v && v <= 0xDFFF) { Some(v as char) } else { None::<char> }),
{
    char::from_u32(v)
}

fn unicode_escape_exec(b: &[u8], from: usize) -> (r: Option<char>)
    requires
        from + 4 <= b@.len(),
    ensures
        r == unicode_escape(b@.subrange(from as int, from + 4)),
{
    let ghost d = b@.subrange(from as int, from + 4);
    let start: usize = if b[from] == 0x2b { from + 1 } else { from };
    let ghost body = if d.len() > 0 && d[0] == 0x2b { d.drop_first() } else { d };
    assert(body =~= b@.subrange(start as int, from + 4));
    let mut value: u32 = 0;
    let mut i = start;
    let end = from + 4;
    assert(b@.subrange(start as int, start as int) =~= Seq::<u8>::empty());
    while i < end
        invariant
            start <= i <= end == from + 4 <= b@.len(),
            from <= start <= from + 1,
            body == b@.subrange(start as int, end as int),
            d == b@.subrange(from as int, from + 4),
            body == (if d.len() > 0 && d[0] == 0x2b { d.drop_first() } else { d }),
            hex_digits_value(b@.subrange(start as int, i as int)) == Some(value as int),
            value < pow16((i - start) as nat),
        decreases end - i,
    {
        let ghost t = b@.subrange(start as int, i + 1);
        assert(t.drop_last() =~= b@.subrange(start as int, i as int));
        assert(t.last() == b@[i as int]);
        match hex_value(b[i]) {
            Some(x) => {
                assert(pow16((i + 1 - start) as nat) == 16 * pow16((i - start) as nat));
                assert(pow16((i - start) as nat) <= 0x1000) by {
                    reveal_with_fuel(pow16, 5);
                }
                assert(value * 16 + x < 16 * pow16((i - start) as nat)) by (nonlinear_arith)
                    requires
                        value < pow16((i - start) as nat),
                        x < 16,
                ;
                value = value * 16 + x;
            },
            None => {
                proof {
                    lemma_hex_digits_none(body, (i + 1 - start) as int);
                    assert(body.take((i + 1 - start) as int) =~= t);
                }
                return None;
            },
        }
        i += 1;
    }
    if start >= end {
        return None;
    }
    if 0xD800 <= value && value <= 0xDFFF {
        None
    } else {
        assert(value <= 0xffff) by {
            reveal_with_fuel(pow16, 5);
        }
        char_from_u32(value)
    }
}

/// Reads the JSON string that starts (with its quote) at `start` in `source`: its text and
/// the position after its closing quote.
pub fn parse_json_string_at(source: &str, start: usize) -> (r: Option<(String, usize)>)
    ensures
        match r {
            Some((text, end)) => json_string_at_spec(encode_utf8(source@), start as int) == Some((text@, end as int)),
            None => json_string_at_spec(encode_utf8(source@), start as int) is None,
        },
{
    let bytes = source.as_bytes();
    let ghost b = bytes@;
    if start >= bytes.len() || bytes[start] != 0x22 {
        return None;
    }
    let mut out: Vec<char> = Vec::new();
    let mut index = start + 1;
    while index < bytes.len()
        invariant
            b == bytes@,
            b == encode_utf8(source@),
            start < index <= b.len() + 1,
            json_string_at_spec(b, start as int) == json_string_from(b, index as int, out@),
        decreases b.len() + 2 - index,
    {
        let byte = bytes[index];
        if byte == 0x22 {
            let text = string_from_chars(&out);
            return Some((text, index + 1));
        } else if byte == 0x5c {
            if index + 1 >= bytes.len() {
                return None;
            }
            let e = bytes[index + 1];
            if e == 0x22 {
                out.push('"');
            } else if e == 0x5c {
                out.push('\\');
            } else if e == 0x2f {
                out.push('/');
            } else if e == 0x62 {
                out.push('\u{8}');
            } else if e == 0x66 {
                out.push('\u{c}');
            } else if e == 0x6e {
                out.push('\n');
            } else if e == 0x72 {
                out.push('\r');
            } else if e == 0x74 {
                out.push('\t');
            } else if e == 0x75 {
                if bytes.len() - index < 6 {
                    return None;
                }
                match unicode_escape_exec(bytes, index + 2) {
                    Some(c) => {
                        out.push(c);
                    },
                    None => {
                        return None;
                    },
                }
                index = index + 6;
                continue;
            } else {
                return None;
            }
            index = index + 2;
        } else {
            out.push(byte as char);
            index = index + 1;
        }
    }
    None
}

/// Where the value of the first member named `key` begins, scanning from `i`: each quoted
/// text is read as a string; one equal to `key` and followed by `:` is the member.
pub open spec fn value_start_from(b: Seq<u8>, key: Seq<char>, i: int) -> Option<int>
    decreases b.len() - i,
{
    if i < 0 || i >= b.len() {
        None
    } else if b[i] != 0x22 {
        value_start_from(b, key, i + 1)
    } else {
        match json_string_at_spec(b, i) {
            None => None,
            Some((field, next)) => {
                proof {
                    lemma_json_string_bounds(b, i + 1, Seq::empty());
                }
                if field != key {
                    value_start_from(b, key, next)
                } else {
                    let colon = skip_ws_spec(b, next);
                    if 0 <= colon < b.len() && b[colon] == 0x3a {
                        Some(skip_ws_spec(b, colon + 1))
                    } else {
                        value_start_from(b, key, next)
                    }
                }
            },
        }
    }
}

/// Where the value of the member `key` begins in a JSON text (`json_value_start`).
pub fn json_value_start(source: &str, key: &str) -> (r: Option<usize>)
    ensures
        match r {
            Some(i) => value_start_from(encode_utf8(source@), key@, 0) == Some(i as int),
            None => value_start_from(encode_utf8(source@), key@, 0) is None,
        },
{
    let bytes = source.as_bytes();
    let ghost b = bytes@;
    let mut index: usize = 0;
    while index < bytes.len()
        invariant
            b == bytes@,
            b == encode_utf8(source@),
            index <= b.len(),
            value_start_from(b, key@, 0) == value_start_from(b, key@, index as int),
        decreases b.len() - index,
    {
        if bytes[index] != 0x22 {
            index += 1;
            continue;
        }
        let (field, next) = match parse_json_string_at(source, index) {
            Some(p) => p,
            None => {
                return None;
            },
        };
        proof {
            lemma_json_string_bounds(b, index + 1, Seq::empty());
        }
        let ghost i0 = index as int;
        index = next;
        if !str_eq(field.as_str(), key) {
            continue;
        }
        let colon = skip_ws(bytes, next);
        proof {
            lemma_skip_ws(b, next as int);
        }
        if colon >= bytes.len() || bytes[colon] != 0x3a {
            continue;
        }
        return Some(skip_ws(bytes, colon + 1));
    }
    None
}

/// The text of the string value of the member `key`, if it is a string.
pub open spec fn json_string_field_spec(b: Seq<u8>, key: Seq<char>) -> Option<Seq<char>> {
    match value_start_from(b, key, 0) {
        Some(start) => match json_string_at_spec(b, skip_ws_spec(b, start)) {
            Some((v, _)) => Some(v),
            None => None,
        },
        None => None,
    }
}

/// The string value of the member `key` (`json_string_field`).
pub fn json_string_field(source: &str, key: &str) -> (r: Option<String>)
    ensures
        opt_text(r) == json_string_field_spec(encode_utf8(source@), key@),
{
    let start = json_value_start(source, key)?;
    let index = skip_ws(source.as_bytes(), start);
    match parse_json_string_at(source, index) {
        Some((v, _)) => Some(v),
        None => None,
    }
}

/// The first string of the array value of the member `key`.
pub open spec fn json_first_array_string_spec(b: Seq<u8>, key: Seq<char>) -> Option<Seq<char>> {
    match value_start_from(b, key, 0) {
        Some(start) => {
            let i = skip_ws_spec(b, start);
            if 0 <= i < b.len() && b[i] == 0x5b {
                match json_string_at_spec(b, skip_ws_spec(b, i + 1)) {
                    Some((v, _)) => Some(v),
                    None => None,
                }
            } else {
                None
            }
        },
        None => None,
    }
}

/// The first string of the array value of the member `key` (`json_first_array_string`).
pub fn json_first_array_string(source: &str, key: &str) -> (r: Option<String>)
    ensures
        opt_text(r) == json_first_array_string_spec(encode_utf8(source@), key@),
{
    let start = json_value_start(source, key)?;
    let bytes = source.as_bytes();
    let index = skip_ws(bytes, start);
    if index >= bytes.len() || bytes[index] != 0x5b {
        return None;
    }
    let index = skip_ws(bytes, index + 1);
    match parse_json_string_at(source, index) {
        Some((v, _)) => Some(v),
        None => None,
    }
}

/// A control character (general category Cc).
pub open spec fn is_control_char(c: char) -> bool {
    (c as u32) <= 0x1f || (0x7f <= (c as u32) && (c as u32) <= 0x9f)
}

pub open spec fn lower_hex_digit(v: int) -> char {
    if v < 10 { ((v + 48) as u32) as char } else { ((v - 10 + 97) as u32) as char }
}

/// How `json_escape` writes one character.
pub open spec fn escape_char(c: char) -> Seq<char> {
    if c == '"' {
        seq!['\\', '"']
    } else if c == '\\' {
        seq!['\\', '\\']
    } else if c == '\n' {
        seq!['\\', 'n']
    } else if c == '\r' {
        seq!['\\', 'r']
    } else if c == '\t' {
        seq!['\\', 't']
    } else if c == '\u{8}' {
        seq!['\\', 'b']
    } else if c == '\u{c}' {
        seq!['\\', 'f']
    } else if is_control_char(c) {
        let v = c as u32 as int;
        seq!['\\', 'u', lower_hex_digit(v / 4096), lower_hex_digit((v / 256) % 16), lower_hex_digit((v / 16) % 16), lower_hex_digit(v % 16)]
    } else {
        seq![c]
    }
}

/// A text written as the inside of a JSON string.
pub open spec fn json_escape_spec(s: Seq<char>) -> Seq<char>
    decreases s.len(),
{
    if s.len() == 0 {
        Seq::empty()
    } else {
        json_escape_spec(s.drop_last()) + escape_char(s.last())
    }
}

fn lower_hex(v: u32) -> (c: char)
    requires
        v < 16,
    ensures
        c == lower_hex_digit(v as int),
{
    if v < 10 { ((v as u8) + 48) as char } else { ((v as u8) - 10 + 97) as char }
}

/// Escapes a text for a JSON string.
pub fn json_escape(value: &str) -> (r: String)
    ensures
        r@ == json_escape_spec(value@),
{
    let v = chars_of(value);
    let mut out: Vec<char> = Vec::new();
    let mut i: usize = 0;
    while i < v.len()
        invariant
            i <= v@.len(),
            out@ == json_escape_spec(v@.take(i as int)),
        decreases v.len() - i,
    {
        let c = v[i];
        let ghost before = out@;
        assert(v@.take(i as int + 1).drop_last() =~= v@.take(i as int));
        assert(v@.take(i as int + 1).last() == c);
        let code = c as u32;
        if c == '"' {
            out.push('\\');
            out.push('"');
        } else if c == '\\' {
            out.push('\\');
            out.push('\\');
        } else if c == '\n' {
            out.push('\\');
            out.push('n');
        } else if c == '\r' {
            out.push('\\');
            out.push('r');
        } else if c == '\t' {
            out.push('\\');
            out.push('t');
        } else if c == '\u{8}' {
            out.push('\\');
            out.push('b');
        } else if c == '\u{c}' {
            out.push('\\');
            out.push('f');
        } else if code <= 0x1f || (0x7f <= code && code <= 0x9f) {
            out.push('\\');
            out.push('u');
            out.push(lower_hex(code / 4096));
            out.push(lower_hex((code / 256) % 16));
            out.push(lower_hex((code / 16) % 16));
            out.push(lower_hex(code % 16));
        } else {
            out.push(c);
        }
        assert(out@ =~= before + escape_char(c));
        i += 1;
    }
    assert(v@.take(v@.len() as int) =~= v@);
    string_from_chars(&out)
}

proof fn lemma_decode_ascii_head(bytes: Seq<u8>)
    requires
        vstd::utf8::valid_utf8(bytes),
        bytes.len() > 0,
        bytes[0] < 0x80,
    ensures
        vstd::utf8::valid_utf8(bytes.drop_first()),
        vstd::utf8::decode_utf8(bytes) == seq![(bytes[0] as u32) as char] + vstd::utf8::decode_utf8(bytes.drop_first()),
{
    let b0 = bytes[0];
    assert((b0 & 0x7f) == b0) by (bit_vector)
        requires
            b0 < 0x80,
    ;
    assert(vstd::utf8::decode_first_scalar(bytes) == b0 as u32);
    assert(vstd::utf8::pop_first_scalar(bytes) =~= bytes.drop_first());
}

proof fn lemma_ascii_boundary(b: Seq<u8>, i: int)
    requires
        vstd::utf8::valid_utf8(b),
        0 <= i < b.len(),
        b[i] < 0x80,
    ensures
        vstd::utf8::is_char_boundary(b, i),
        vstd::utf8::valid_utf8(b.subrange(i, b.len() as int)),
        vstd::utf8::valid_utf8(b.subrange(0, i)),
{
    vstd::utf8::is_char_boundary_iff_is_leading_byte(b, i);
    vstd::utf8::valid_utf8_split(b, i);
}

/// The characters of the text whose UTF-8 bytes are `b[i..]`, when `b[i - 1]` is ASCII.
fn chars_after_ascii(source: &str, i: usize) -> (r: Vec<char>)
    requires
        1 <= i <= encode_utf8(source@).len(),
        encode_utf8(source@)[i - 1] < 0x80,
    ensures
        vstd::utf8::valid_utf8(encode_utf8(source@).subrange(i as int, encode_utf8(source@).len() as int)),
        r@ == vstd::utf8::decode_utf8(encode_utf8(source@).subrange(i as int, encode_utf8(source@).len() as int)),
{
    let ghost b = encode_utf8(source@);
    proof {
        vstd::utf8::encode_utf8_valid_utf8(source@);
        lemma_ascii_boundary(b, i - 1);
    }
    let (_, right) = source.split_at(i - 1);
    proof {
        let rb = b.subrange(i - 1, b.len() as int);
        assert(encode_utf8(right@) =~= rb);
        vstd::utf8::encode_utf8_decode_utf8(right@);
        lemma_decode_ascii_head(rb);
        assert(rb.drop_first() =~= b.subrange(i as int, b.len() as int));
    }
    let all = chars_of(right);
    let r = sub_chars(&all, 1, all.len());
    proof {
        assert(r@ =~= all@.drop_first());
    }
    r
}

/// The characters of the text whose UTF-8 bytes are `b[..i]`, when `b[i]` is ASCII.
fn chars_before_ascii(source: &str, i: usize) -> (r: Vec<char>)
    requires
        i < encode_utf8(source@).len(),
        encode_utf8(source@)[i as int] < 0x80,
    ensures
        r@ == vstd::utf8::decode_utf8(encode_utf8(source@).subrange(0, i as int)),
{
    let ghost b = encode_utf8(source@);
    proof {
        vstd::utf8::encode_utf8_valid_utf8(source@);
        lemma_ascii_boundary(b, i as int);
    }
    let (left, _) = source.split_at(i);
    proof {
        assert(encode_utf8(left@) =~= b.subrange(0, i as int));
        vstd::utf8::encode_utf8_decode_utf8(left@);
    }
    chars_of(left)
}

/// The text with the string value of the member `key` replaced by `value`.
pub open spec fn replace_json_string_field_spec(b: Seq<u8>, key: Seq<char>, value: Seq<char>) -> Option<Seq<char>> {
    match value_start_from(b, key, 0) {
        Some(st) => {
            let s = skip_ws_spec(b, st);
            match json_string_at_spec(b, s) {
                Some((_, end)) => Some(vstd::utf8::decode_utf8(b.subrange(0, s)) + seq!['"'] + json_escape_spec(value)
                    + seq!['"'] + vstd::utf8::decode_utf8(b.subrange(end, b.len() as int))),
                None => None,
            }
        },
        None => None,
    }
}

/// Replaces the string value of the member `key` (`replace_json_string_field`).
pub fn replace_json_string_field(source: &str, key: &str, value: &str) -> (r: Option<String>)
    ensures
        opt_text(r) == replace_json_string_field_spec(encode_utf8(source@), key@, value@),
{
    let bytes = source.as_bytes();
    let ghost b = bytes@;
    let start = json_value_start(source, key)?;
    let s = skip_ws(bytes, start);
    let end = match parse_json_string_at(source, s) {
        Some((_, end)) => end,
        None => {
            return None;
        },
    };
    proof {
        lemma_json_string_bounds(b, s + 1, Seq::empty());
    }
    let left = chars_before_ascii(source, s);
    let right = chars_after_ascii(source, end);
    let mut out: Vec<char> = left;
    out.push('"');
    extend_str(&mut out, json_escape(value).as_str());
    out.push('"');
    extend_chars(&mut out, &right);
    Some(string_from_chars(&out))
}

proof fn lemma_value_start_after_ascii(b: Seq<u8>, key: Seq<char>, i: int)
    ensures
        value_start_from(b, key, i) matches Some(st) ==> 1 <= st <= b.len() && (b[st - 1] == 0x3a || is_json_ws(b[st - 1])),
    decreases b.len() - i,
{
    if 0 <= i < b.len() {
        if b[i] != 0x22 {
            lemma_value_start_after_ascii(b, key, i + 1);
        } else {
            match json_string_at_spec(b, i) {
                None => {},
                Some((field, next)) => {
                    lemma_json_string_bounds(b, i + 1, Seq::empty());
                    lemma_value_start_after_ascii(b, key, next);
                    let colon = skip_ws_spec(b, next);
                    lemma_skip_ws(b, next);
                    if 0 <= colon < b.len() && b[colon] == 0x3a {
                        lemma_skip_ws(b, colon + 1);
                    }
                },
            }
        }
    }
}

// ---------------------------------------------------------------------------
// Reading a replaced member back
// ---------------------------------------------------------------------------

/// Skipping white space looks only at the bytes it passes and the one it stops at.
proof fn lemma_skip_ws_agree(b: Seq<u8>, c: Seq<u8>, j: int)
    requires
        0 <= j,
        skip_ws_spec(b, j) < b.len(),
        skip_ws_spec(b, j) < c.len(),
        forall|t: int| j <= t <= skip_ws_spec(b, j) ==> c[t] == b[t],
    ensures
        skip_ws_spec(c, j) == skip_ws_spec(b, j),
    decreases b.len() - j,
{
    lemma_skip_ws(b, j);
    if 0 <= j < b.len() && is_json_ws(b[j]) {
        lemma_skip_ws(b, j + 1);
        lemma_skip_ws_agree(b, c, j + 1);
        assert(c[j] == b[j]);
    } else {
        assert(c[j] == b[j]);
    }
}

/// Reading a JSON string looks only at the bytes up to its closing quote.
proof fn lemma_json_string_agree(b: Seq<u8>, c: Seq<u8>, i: int, acc: Seq<char>)
    requires
        0 <= i,
        json_string_from(b, i, acc) matches Some((_, e)) && e <= c.len() && forall|u: int| i <= u < e ==> c[u] == b[u],
    ensures
        json_string_from(c, i, acc) == json_string_from(b, i, acc),
    decreases b.len() - i,
{
    lemma_json_string_bounds(b, i, acc);
    assert(c[i] == b[i]);
    if b[i] == 0x22 {
    } else if b[i] == 0x5c {
        let x = b[i + 1];
        if x == 0x75 {
            let d = b.subrange(i + 2, i + 6);
            let ch = unicode_escape(d)->0;
            lemma_json_string_bounds(b, i + 6, acc.push(ch));
            assert(c[i + 1] == b[i + 1]);
            assert(c.subrange(i + 2, i + 6) =~= d);
            lemma_json_string_agree(b, c, i + 6, acc.push(ch));
        } else {
            let pushed = if x == 0x22 {
                '"'
            } else if x == 0x5c {
                '\\'
            } else if x == 0x2f {
                '/'
            } else if x == 0x62 {
                '\u{8}'
            } else if x == 0x66 {
                '\u{c}'
            } else if x == 0x6e {
                '\n'
            } else if x == 0x72 {
                '\r'
            } else {
                '\t'
            };
            lemma_json_string_bounds(b, i + 2, acc.push(pushed));
            assert(c[i + 1] == b[i + 1]);
            lemma_json_string_agree(b, c, i + 2, acc.push(pushed));
        }
    } else {
        lemma_json_string_bounds(b, i + 1, acc.push((b[i] as u32) as char));
        lemma_json_string_agree(b, c, i + 1, acc.push((b[i] as u32) as char));
    }
}

/// A member's value starts past every position the search began at or skipped.
proof fn lemma_value_start_after(b: Seq<u8>, key: Seq<char>, i: int)
    requires
        0 <= i,
    ensures
        value_start_from(b, key, i) matches Some(r) ==> r > skip_ws_spec(b, i) && r > i,
    decreases b.len() - i,
{
    lemma_skip_ws(b, i);
    if 0 <= i < b.len() {
        if b[i] != 0x22 {
            lemma_value_start_after(b, key, i + 1);
            lemma_skip_ws(b, i + 1);
        } else {
            match json_string_at_spec(b, i) {
                None => {},
                Some((field, next)) => {
                    lemma_json_string_bounds(b, i + 1, Seq::empty());
                    lemma_value_start_after(b, key, next);
                    lemma_skip_ws(b, next);
                    let colon = skip_ws_spec(b, next);
                    if 0 <= colon < b.len() && b[colon] == 0x3a {
                        lemma_skip_ws(b, colon + 1);
                    }
                },
            }
        }
    }
}

/// Finding a member's value looks only at the bytes up to where the value starts.
proof fn lemma_value_start_agree(b: Seq<u8>, c: Seq<u8>, key: Seq<char>, i: int)
    requires
        0 <= i,
        value_start_from(b, key, i) matches Some(r) && r < b.len() && r < c.len() && forall|u: int|
            0 <= u <= r ==> c[u] == b[u],
    ensures
        value_start_from(c, key, i) == value_start_from(b, key, i),
    decreases b.len() - i,
{
    let r = value_start_from(b, key, i)->0;
    lemma_value_start_after(b, key, i);
    assert(c[i] == b[i]);
    if b[i] != 0x22 {
        lemma_value_start_agree(b, c, key, i + 1);
    } else {
        let (field, next) = json_string_at_spec(b, i)->0;
        lemma_json_string_bounds(b, i + 1, Seq::empty());
        lemma_value_start_after(b, key, next);
        lemma_skip_ws(b, next);
        let colon = skip_ws_spec(b, next);
        if 0 <= colon < b.len() && b[colon] == 0x3a {
            lemma_skip_ws(b, colon + 1);
        }
        assert(next <= r);
        lemma_json_string_agree(b, c, i + 1, Seq::empty());
        assert(json_string_at_spec(c, i) == json_string_at_spec(b, i));
        if field != key {
            lemma_value_start_agree(b, c, key, next);
        } else if 0 <= colon < b.len() && b[colon] == 0x3a {
            lemma_skip_ws_agree(b, c, next);
            lemma_skip_ws_agree(b, c, colon + 1);
            assert(c[colon] == b[colon]);
        } else {
            assert(colon < r);
            lemma_skip_ws_agree(b, c, next);
            assert(c[colon] == b[colon]);
            lemma_value_start_agree(b, c, key, next);
        }
    }
}

proof fn lemma_encode_utf8_concat(a: Seq<char>, b: Seq<char>)
    ensures
        encode_utf8(a + b) == encode_utf8(a) + encode_utf8(b),
    decreases a.len(),
{
    if a.len() == 0 {
        assert(a + b =~= b);
        assert(encode_utf8(a) + encode_utf8(b) =~= encode_utf8(b));
    } else {
        assert((a + b).drop_first() =~= a.drop_first() + b);
        assert((a + b)[0] == a[0]);
        lemma_encode_utf8_concat(a.drop_first(), b);
        assert(encode_utf8(a + b) =~= encode_utf8(a) + encode_utf8(b));
    }
}

/// ASCII text is encoded one byte per character.
proof fn lemma_encode_ascii(s: Seq<char>)
    requires
        forall|k: int| 0 <= k < s.len() ==> (s[k] as u32) < 0x80,
    ensures
        encode_utf8(s).len() == s.len(),
        forall|k: int| 0 <= k < s.len() ==> #[trigger] encode_utf8(s)[k] == ((s[k] as u32) as u8),
    decreases s.len(),
{
    if s.len() > 0 {
        let x = s[0] as u32;
        assert((x & 0x7f) == x) by (bit_vector)
            requires
                x < 0x80,
        ;
        let rest = s.drop_first();
        lemma_encode_ascii(rest);
        assert forall|k: int| 0 <= k < s.len() implies #[trigger] encode_utf8(s)[k] == ((s[k] as u32) as u8) by {
            if k > 0 {
                assert(encode_utf8(s)[k] == encode_utf8(rest)[k - 1]);
                assert(rest[k - 1] == s[k]);
            }
        }
    }
}

proof fn lemma_escape_concat(a: Seq<char>, b: Seq<char>)
    ensures
        json_escape_spec(a + b) == json_escape_spec(a) + json_escape_spec(b),
    decreases b.len(),
{
    if b.len() == 0 {
        assert(a + b =~= a);
        assert(json_escape_spec(a) + json_escape_spec(b) =~= json_escape_spec(a));
    } else {
        assert((a + b).drop_last() =~= a + b.drop_last());
        assert((a + b).last() == b.last());
        lemma_escape_concat(a, b.drop_last());
        assert(json_escape_spec(a + b) =~= json_escape_spec(a) + json_escape_spec(b));
    }
}

proof fn lemma_lower_hex_digit(x: int)
    requires
        0 <= x < 16,
    ensures
        ((lower_hex_digit(x) as u32) as u8) as int == (if x < 10 { x + 48 } else { x + 87 }),
        hex_digit_value((lower_hex_digit(x) as u32) as u8) == Some(x),
        (lower_hex_digit(x) as u32) < 0x80,
{
}

/// The escape of one character (one below U+00A0) reads back as that character.
proof fn lemma_escape_char_reads_back(pre: Seq<u8>, c: char, rest: Seq<u8>, acc: Seq<char>)
    requires
        (c as u32) <= 0x9f,
    ensures
        ({
            let e = encode_utf8(escape_char(c));
            let b = pre + e + rest;
            json_string_from(b, pre.len() as int, acc) == json_string_from(b, (pre.len() + e.len()) as int, acc.push(c))
        }),
{
    let esc = escape_char(c);
    let v = c as u32;
    let i = pre.len() as int;
    vstd::utf8::char_u32_cast(c, v);
    if is_control_char(c) && !(c == '"' || c == '\\' || c == '\n' || c == '\r' || c == '\t' || c == '\u{8}' || c == '\u{c}') {
        let vi = v as int;
        lemma_lower_hex_digit(vi / 4096);
        lemma_lower_hex_digit((vi / 256) % 16);
        lemma_lower_hex_digit((vi / 16) % 16);
        lemma_lower_hex_digit(vi % 16);
    }
    assert forall|k: int| 0 <= k < esc.len() implies (esc[k] as u32) < 0x80 by {
        if is_control_char(c) && !(c == '"' || c == '\\' || c == '\n' || c == '\r' || c == '\t' || c
            == '\u{8}' || c == '\u{c}') {
            let vi = v as int;
            lemma_lower_hex_digit(vi / 4096);
            lemma_lower_hex_digit((vi / 256) % 16);
            lemma_lower_hex_digit((vi / 16) % 16);
            lemma_lower_hex_digit(vi % 16);
        }
    }
    lemma_encode_ascii(esc);
    let e = encode_utf8(esc);
    let b = pre + e + rest;
    assert forall|k: int| 0 <= k < e.len() implies #[trigger] b[i + k] == ((esc[k] as u32) as u8) by {
        assert(b[i + k] == e[k]);
    }
    assert(b[i] == ((esc[0] as u32) as u8));
    if c == '"' || c == '\\' || c == '\n' || c == '\r' || c == '\t' || c == '\u{8}' || c == '\u{c}' {
        assert(b[i + 1] == ((esc[1] as u32) as u8));
    } else if is_control_char(c) {
        let vi = v as int;
        assert(b[i + 1] == ((esc[1] as u32) as u8));
        let d = b.subrange(i + 2, i + 6);
        assert(d[0] == ((esc[2] as u32) as u8)) by {
            assert(b[i + 2] == ((esc[2] as u32) as u8));
        }
        assert(d[1] == ((esc[3] as u32) as u8)) by {
            assert(b[i + 3] == ((esc[3] as u32) as u8));
        }
        assert(d[2] == ((esc[4] as u32) as u8)) by {
            assert(b[i + 4] == ((esc[4] as u32) as u8));
        }
        assert(d[3] == ((esc[5] as u32) as u8)) by {
            assert(b[i + 5] == ((esc[5] as u32) as u8));
        }
        assert(vi / 4096 == 0 && (vi / 256) % 16 == 0);
        assert(d.drop_last().drop_last().drop_last().drop_last() =~= Seq::<u8>::empty());
        assert(hex_digits_value(d) == Some(((vi / 16) % 16) * 16 + vi % 16)) by {
            reveal_with_fuel(hex_digits_value, 5);
            assert(d.drop_last().last() == d[2]);
            assert(d.drop_last().drop_last().last() == d[1]);
            assert(d.drop_last().drop_last().drop_last().last() == d[0]);
        }
        assert(((vi / 16) % 16) * 16 + vi % 16 == vi);
        assert(unicode_escape(d) == Some(c));
    } else {
        assert(esc =~= seq![c]);
    }
}

/// A value written with `json_escape_spec` and a closing quote reads back as itself,
/// when its characters lie below U+00A0.
proof fn lemma_escaped_reads_back(pre: Seq<u8>, v: Seq<char>, post: Seq<u8>, acc: Seq<char>)
    requires
        forall|k: int| 0 <= k < v.len() ==> (v[k] as u32) <= 0x9f,
    ensures
        ({
            let e = encode_utf8(json_escape_spec(v));
            json_string_from(pre + e + seq![0x22u8] + post, pre.len() as int, acc) == Some(
                (acc + v, (pre.len() + e.len() + 1) as int),
            )
        }),
    decreases v.len(),
{
    let e = encode_utf8(json_escape_spec(v));
    let b = pre + e + seq![0x22u8] + post;
    if v.len() == 0 {
        assert(e =~= Seq::<u8>::empty());
        assert(b[pre.len() as int] == 0x22);
        assert(acc + v =~= acc);
    } else {
        let c = v[0];
        let rest = v.drop_first();
        assert(v =~= seq![c] + rest);
        lemma_escape_concat(seq![c], rest);
        assert(seq![c].drop_last() =~= Seq::<char>::empty());
        assert(seq![c].last() == c);
        assert(json_escape_spec(Seq::<char>::empty()) =~= Seq::<char>::empty());
        assert(json_escape_spec(seq![c]) =~= escape_char(c));
        lemma_encode_utf8_concat(escape_char(c), json_escape_spec(rest));
        let ec = encode_utf8(escape_char(c));
        let er = encode_utf8(json_escape_spec(rest));
        assert(e =~= ec + er);
        lemma_escape_char_reads_back(pre, c, er + seq![0x22u8] + post, acc);
        assert(b =~= pre + ec + (er + seq![0x22u8] + post));
        lemma_escaped_reads_back(pre + ec, rest, post, acc.push(c));
        assert(b =~= (pre + ec) + er + seq![0x22u8] + post);
        assert(acc.push(c) + rest =~= acc + v);
    }
}

/// The escape of one character holds no control character, and is ASCII for a character
/// below U+00A0.
proof fn lemma_escape_char_plain(c: char)
    ensures
        forall|k: int| 0 <= k < escape_char(c).len() ==> !is_control_char(#[trigger] escape_char(c)[k]),
        (c as u32) <= 0x9f ==> forall|k: int| 0 <= k < escape_char(c).len() ==> (#[trigger] escape_char(c)[k]
            as u32) < 0x80,
{
    let esc = escape_char(c);
    let v = c as u32;
    vstd::utf8::char_u32_cast(c, v);
    if is_control_char(c) && !(c == '"' || c == '\\' || c == '\n' || c == '\r' || c == '\t' || c == '\u{8}'
        || c == '\u{c}') {
        let vi = v as int;
        assert(vi <= 0x9f);
        assert(vi / 4096 == 0 && (vi / 256) % 16 == 0);
        lemma_lower_hex_digit(vi / 4096);
        lemma_lower_hex_digit((vi / 256) % 16);
        lemma_lower_hex_digit((vi / 16) % 16);
        lemma_lower_hex_digit(vi % 16);
        assert forall|k: int| 0 <= k < esc.len() implies !is_control_char(#[trigger] esc[k]) && (esc[k] as u32)
            < 0x80 by {
            if k >= 2 {
                let d = esc[k];
                let x = if k == 2 { vi / 4096 } else if k == 3 { (vi / 256) % 16 } else if k == 4 { (vi / 16)
                    % 16 } else { vi % 16 };
                assert(d == lower_hex_digit(x));
                let w = d as u32;
                assert(w < 0x80);
                assert((w as u8) as int == w as int) by (bit_vector)
                    requires
                        w < 0x80,
                ;
            }
        }
    }
}

/// Every character `json_escape_spec` writes is not a control character, and is ASCII when
/// the text's characters lie below U+00A0.
proof fn lemma_escape_plain(v: Seq<char>)
    ensures
        forall|k: int| 0 <= k < json_escape_spec(v).len() ==> !is_control_char(#[trigger] json_escape_spec(v)[k]),
        (forall|k: int| 0 <= k < v.len() ==> (v[k] as u32) <= 0x9f) ==> forall|k: int| 0 <= k
            < json_escape_spec(v).len() ==> (#[trigger] json_escape_spec(v)[k] as u32) < 0x80,
    decreases v.len(),
{
    if v.len() > 0 {
        let a = json_escape_spec(v.drop_last());
        let e = escape_char(v.last());
        lemma_escape_plain(v.drop_last());
        lemma_escape_char_plain(v.last());
        assert(json_escape_spec(v) == a + e);
        assert forall|k: int| 0 <= k < (a + e).len() implies !is_control_char(#[trigger] (a + e)[k]) by {
            if k >= a.len() {
                assert((a + e)[k] == e[k - a.len()]);
            }
        }
        if forall|k: int| 0 <= k < v.len() ==> (v[k] as u32) <= 0x9f {
            assert forall|k: int| 0 <= k < v.drop_last().len() implies (v.drop_last()[k] as u32) <= 0x9f by {
                assert(v.drop_last()[k] == v[k]);
            }
            assert((v.last() as u32) <= 0x9f);
            assert forall|k: int| 0 <= k < (a + e).len() implies (#[trigger] (a + e)[k] as u32) < 0x80 by {
                if k >= a.len() {
                    assert((a + e)[k] == e[k - a.len()]);
                }
            }
        }
    }
}

/// `json_escape` writes no control character.
pub proof fn lemma_json_escape_no_control(value: Seq<char>)
    ensures
        forall|k: int| 0 <= k < json_escape_spec(value).len() ==> !is_control_char(
            #[trigger] json_escape_spec(value)[k],
        ),
{
    lemma_escape_plain(value);
}

/// A text escaped with `json_escape` and put in quotes reads back with
/// `parse_json_string_at` as the same text, ending just after the closing quote, when every
/// character lies below U+00A0. (A character from U+00A0 on is written as its UTF-8 bytes,
/// which the reader takes one character per byte.)
pub proof fn lemma_json_escape_reads_back(value: Seq<char>)
    requires
        forall|k: int| 0 <= k < value.len() ==> (value[k] as u32) <= 0x9f,
    ensures
        json_string_at_spec(encode_utf8(seq!['"'] + json_escape_spec(value) + seq!['"']), 0) == Some(
            (value, json_escape_spec(value).len() + 2int),
        ),
{
    let e = json_escape_spec(value);
    let q = seq!['"'];
    lemma_escape_plain(value);
    lemma_encode_ascii(e);
    lemma_encode_ascii(q);
    assert(encode_utf8(q) =~= seq![0x22u8]);
    lemma_encode_utf8_concat(q + e, q);
    lemma_encode_utf8_concat(q, e);
    let b = encode_utf8(q + e + q);
    assert(b =~= seq![0x22u8] + encode_utf8(e) + seq![0x22u8] + Seq::<u8>::empty());
    lemma_escaped_reads_back(seq![0x22u8], value, Seq::<u8>::empty(), Seq::empty());
    assert(Seq::<char>::empty() + value =~= value);
    assert(b[0] == 0x22);
}

/// Writing a member's string value and reading the member again gives the value written,
/// when every character of the value lies below U+00A0. (A character from U+00A0 on is
/// written as its UTF-8 bytes, which the reader takes one character per byte.)
pub proof fn lemma_replaced_field_reads_back(source: Seq<char>, key: Seq<char>, value: Seq<char>)
    requires
        replace_json_string_field_spec(encode_utf8(source), key, value) is Some,
        forall|k: int| 0 <= k < value.len() ==> (value[k] as u32) <= 0x9f,
    ensures
        json_string_field_spec(
            encode_utf8(replace_json_string_field_spec(encode_utf8(source), key, value)->0),
            key,
        ) == Some(value),
{
    let b = encode_utf8(source);
    vstd::utf8::encode_utf8_valid_utf8(source);
    let st = value_start_from(b, key, 0)->0;
    lemma_value_start_after(b, key, 0);
    lemma_skip_ws(b, st);
    let s = skip_ws_spec(b, st);
    let (_, end) = json_string_at_spec(b, s)->0;
    lemma_json_string_bounds(b, s + 1, Seq::empty());
    lemma_ascii_boundary(b, s);
    lemma_ascii_boundary(b, end - 1);
    let tail = b.subrange(end - 1, b.len() as int);
    lemma_decode_ascii_head(tail);
    let left = b.subrange(0, s);
    let right = b.subrange(end, b.len() as int);
    assert(tail.drop_first() =~= right);
    vstd::utf8::decode_utf8_encode_utf8(left);
    vstd::utf8::decode_utf8_encode_utf8(right);
    let dl = vstd::utf8::decode_utf8(left);
    let dr = vstd::utf8::decode_utf8(right);
    let q = seq!['"'];
    let ev = json_escape_spec(value);
    let r = dl + q + ev + q + dr;
    assert(replace_json_string_field_spec(b, key, value) == Some(r));
    lemma_encode_ascii(q);
    assert(encode_utf8(q) =~= seq![0x22u8]);
    lemma_encode_utf8_concat(dl + q + ev + q, dr);
    lemma_encode_utf8_concat(dl + q + ev, q);
    lemma_encode_utf8_concat(dl + q, ev);
    lemma_encode_utf8_concat(dl, q);
    let e = encode_utf8(ev);
    let c = encode_utf8(r);
    assert(c =~= (left + seq![0x22u8]) + e + seq![0x22u8] + right);
    assert forall|u: int| 0 <= u <= st implies c[u] == b[u] by {
        if u < s {
            assert(c[u] == left[u]);
        }
    }
    lemma_value_start_agree(b, c, key, 0);
    assert forall|u: int| st <= u <= s implies c[u] == b[u] by {
        if u < s {
            assert(c[u] == left[u]);
        }
    }
    lemma_skip_ws_agree(b, c, st);
    lemma_escaped_reads_back(left + seq![0x22u8], value, right, Seq::empty());
    assert(Seq::<char>::empty() + value =~= value);
}

/// Whether the value of the member `key` reads as set: after white space, `true` or
/// `"v1Compatible"`.
pub open spec fn json_truthy_field_spec(b: Seq<u8>, key: Seq<char>) -> bool {
    match value_start_from(b, key, 0) {
        Some(st) => {
            let rest = trim_start_spec(vstd::utf8::decode_utf8(b.subrange(st, b.len() as int)));
            seq_starts_with(rest, "true"@) || seq_starts_with(rest, "\"v1Compatible\""@)
        },
        None => false,
    }
}

/// Whether the member `key` is set (`json_truthy_field`).
pub fn json_truthy_field(source: &str, key: &str) -> (r: bool)
    ensures
        r == json_truthy_field_spec(encode_utf8(source@), key@),
{
    let start = match json_value_start(source, key) {
        Some(i) => i,
        None => {
            return false;
        },
    };
    proof {
        lemma_value_start_after_ascii(encode_utf8(source@), key@, 0);
    }
    let rest = chars_after_ascii(source, start);
    let (i, _) = trim_bounds(&rest);
    let trimmed = sub_chars(&rest, i, rest.len());
    starts_with(&trimmed, &chars_of("true")) || starts_with(&trimmed, &chars_of("\"v1Compatible\""))
}

/// What the packaging tool reads from `tauri.conf.json`.
#[derive(Clone, Debug)]
pub struct AppConfig {
    pub create_updater_artifacts: bool,
    pub endpoint: Option<String>,
    pub product_name: String,
    pub pubkey: String,
    pub version: String,
}

impl AppConfig {
    /// Reads the configuration: the version is required; the product name defaults to
    /// `Gallery`, the public key to empty; the endpoint is the first of `endpoints`.
    pub fn from_json(source: &str) -> (r: Result<AppConfig, String>)
        ensures
            ({
                let b = encode_utf8(source@);
                match r {
                    Ok(c) => json_string_field_spec(b, "version"@) == Some(c.version@)
                        && c.product_name@ == (match json_string_field_spec(b, "productName"@) {
                            Some(n) => n,
                            None => "Gallery"@,
                        })
                        && c.pubkey@ == (match json_string_field_spec(b, "pubkey"@) {
                            Some(k) => k,
                            None => Seq::empty(),
                        })
                        && opt_text(c.endpoint) == json_first_array_string_spec(b, "endpoints"@)
                        && c.create_updater_artifacts == json_truthy_field_spec(b, "createUpdaterArtifacts"@),
                    Err(e) => json_string_field_spec(b, "version"@) is None
                        && e@ == "src-tauri/tauri.conf.json 缺少 version。"@,
                }
            }),
    {
        let version = match json_string_field(source, "version") {
            Some(v) => v,
            None => {
                return Err("src-tauri/tauri.conf.json 缺少 version。".to_owned());
            },
        };
        let product_name = match json_string_field(source, "productName") {
            Some(n) => n,
            None => "Gallery".to_owned(),
        };
        let pubkey = match json_string_field(source, "pubkey") {
            Some(k) => k,
            None => String::new(),
        };
        let endpoint = json_first_array_string(source, "endpoints");
        let create_updater_artifacts = json_truthy_field(source, "createUpdaterArtifacts");
        Ok(AppConfig { create_updater_artifacts, endpoint, product_name, pubkey, version })
    }

    /// The release URL the updater endpoint implies: the endpoint without `/latest.json`,
    /// unless it holds a `{{` placeholder.
    pub fn release_base_url(&self) -> (r: Option<String>)
        ensures
            opt_text(r) == match self.endpoint {
                Some(e) => if seq_contains(e@, "{{"@) {
                    None
                } else if seq_ends_with(e@, "/latest.json"@) {
                    Some(e@.subrange(0, e@.len() - 12))
                } else {
                    None
                },
                None => None,
            },
    {
        let endpoint = match &self.endpoint {
            Some(e) => e,
            None => {
                return None;
            },
        };
        let v = chars_of(endpoint.as_str());
        if contains(&v, &chars_of("{{")) {
            return None;
        }
        proof {
            reveal_strlit("/latest.json");
        }
        if ends_with(&v, &chars_of("/latest.json")) {
            Some(string_from_chars(&sub_chars(&v, 0, v.len() - 12)))
        } else {
            None
        }
    }
}

pub open spec fn missing_release_url_message() -> Seq<char> {
    "请通过 --base-url、.env 的 GALLERY_RELEASES_ROOT_URL，或 updater endpoint 配置产物 URL 前缀。"@
}

/// The URL the release's files are published under: the one given on the command line,
/// else `{root}/{version}` with the root from the environment or the updater endpoint.
pub fn release_url(
    base_url: Option<String>,
    env_root: Option<String>,
    config: &AppConfig,
) -> (r: Result<String, String>)
    ensures
        base_url is Some ==> (r matches Ok(u) && u@ == base_url->0@),
        base_url is None ==> match (if env_root is Some { opt_text(env_root) } else {
            match config.endpoint {
                Some(e) => if seq_contains(e@, "{{"@) {
                    None
                } else if seq_ends_with(e@, "/latest.json"@) {
                    Some(e@.subrange(0, e@.len() - 12))
                } else {
                    None
                },
                None => None,
            }
        }) {
            Some(root) => r matches Ok(u) && u@ == trim_trailing_slashes_spec(root) + "/"@ + config.version@,
            None => r matches Err(e) && e@ == missing_release_url_message(),
        },
{
    if let Some(u) = base_url {
        return Ok(u);
    }
    let root = match env_root {
        Some(root) => root,
        None => match config.release_base_url() {
            Some(root) => root,
            None => {
                return Err("请通过 --base-url、.env 的 GALLERY_RELEASES_ROOT_URL，或 updater endpoint 配置产物 URL 前缀。".to_owned());
            },
        },
    };
    let mut out: Vec<char> = Vec::new();
    extend_str(&mut out, trim_trailing_slashes(root.as_str()).as_str());
    extend_str(&mut out, "/");
    extend_str(&mut out, config.version.as_str());
    Ok(string_from_chars(&out))
}

/// The signature to publish: the file's text trimmed, unless that is empty.
pub fn release_signature(raw: &str) -> (r: Option<String>)
    ensures
        opt_text(r) == (if trim_spec(raw@).len() > 0 { Some(trim_spec(raw@)) } else { None }),
{
    let t = crate::text::trim_str(raw);
    if t.len() > 0 {
        Some(string_from_chars(&t))
    } else {
        None
    }
}

/// The updater manifest (`latest.json`) for one platform.
pub open spec fn latest_json_spec(
    version: Seq<char>,
    product_name: Seq<char>,
    platform_key: Seq<char>,
    signature: Seq<char>,
    url: Seq<char>,
) -> Seq<char> {
    "{\n  \"version\": \""@ + json_escape_spec(version) + "\",\n  \"notes\": \""@ + json_escape_spec(product_name)
        + " "@ + json_escape_spec(version) + "\",\n  \"platforms\": {\n    \""@ + json_escape_spec(platform_key)
        + "\": {\n      \"signature\": \""@ + json_escape_spec(signature) + "\",\n      \"url\": \""@
        + json_escape_spec(url) + "\"\n    }\n  }\n}\n"@
}

/// Writes the updater manifest (`latest.json`) for one platform.
pub fn latest_json(config: &AppConfig, platform_key: &str, signature: &str, url: &str) -> (r: String)
    ensures
        r@ == latest_json_spec(config.version@, config.product_name@, platform_key@, signature@, url@),
{
    let mut out: Vec<char> = Vec::new();
    extend_str(&mut out, "{\n  \"version\": \"");
    extend_str(&mut out, json_escape(config.version.as_str()).as_str());
    extend_str(&mut out, "\",\n  \"notes\": \"");
    extend_str(&mut out, json_escape(config.product_name.as_str()).as_str());
    extend_str(&mut out, " ");
    extend_str(&mut out, json_escape(config.version.as_str()).as_str());
    extend_str(&mut out, "\",\n  \"platforms\": {\n    \"");
    extend_str(&mut out, json_escape(platform_key).as_str());
    extend_str(&mut out, "\": {\n      \"signature\": \"");
    extend_str(&mut out, json_escape(signature).as_str());
    extend_str(&mut out, "\",\n      \"url\": \"");
    extend_str(&mut out, json_escape(url).as_str());
    extend_str(&mut out, "\"\n    }\n  }\n}\n");
    string_from_chars(&out)
}

// ---------------------------------------------------------------------------
// Signing settings for macOS
// ---------------------------------------------------------------------------

/// A required setting: its value, or an error naming it.
pub fn required_env(config: &EnvConfig, key: &str) -> (r: Result<String, String>)
    requires
        config.well_formed(),
    ensures
        match r {
            Ok(v) => Some(v@) == (if nonblank_lookup(config.process@, key@) is Some {
                nonblank_lookup(config.process@, key@)
            } else {
                nonblank_lookup(config.values@, key@)
            }),
            Err(e) => nonblank_lookup(config.process@, key@) is None && nonblank_lookup(config.values@, key@) is None
                && e@ == "缺少 "@ + key@ + "。请在 .env 或环境变量中设置。"@,
        },
{
    match config.get(key) {
        Some(v) => Ok(v),
        None => {
            let mut out: Vec<char> = Vec::new();
            extend_str(&mut out, "缺少 ");
            extend_str(&mut out, key);
            extend_str(&mut out, "。请在 .env 或环境变量中设置。");
            Err(string_from_chars(&out))
        },
    }
}

/// The macOS signing identity: required, and not the ad-hoc identity `-`.
pub fn macos_signing_identity(config: &EnvConfig) -> (r: Result<String, String>)
    requires
        config.well_formed(),
    ensures
        match setting(*config, "APPLE_SIGNING_IDENTITY"@) {
            Some(v) => if trim_spec(v) == "-"@ {
                r matches Err(e) && e@ == "macOS 发布包不能使用 ad-hoc 签名 identity '-'。请使用 Developer ID Application 证书。"@
            } else {
                r matches Ok(x) && x@ == v
            },
            None => r matches Err(e) && e@ == "缺少 APPLE_SIGNING_IDENTITY。请在 .env 或环境变量中设置。"@,
        },
{
    let identity = match required_env(config, "APPLE_SIGNING_IDENTITY") {
        Ok(v) => v,
        Err(e) => {
            proof {
                reveal_strlit("缺少 ");
            }
            assert(e@ =~= "缺少 APPLE_SIGNING_IDENTITY。请在 .env 或环境变量中设置。"@) by {
                reveal_strlit("缺少 APPLE_SIGNING_IDENTITY。请在 .env 或环境变量中设置。");
                reveal_strlit("APPLE_SIGNING_IDENTITY");
                reveal_strlit("。请在 .env 或环境变量中设置。");
            }
            return Err(e);
        },
    };
    if chars_eq(&crate::text::trim_str(identity.as_str()), &chars_of("-")) {
        return Err("macOS 发布包不能使用 ad-hoc 签名 identity '-'。请使用 Developer ID Application 证书。".to_owned());
    }
    Ok(identity)
}

/// The signing identity must be among those the keychain lists.
pub fn signing_identity_listed(listing: &str, identity: &str) -> (r: Result<(), String>)
    ensures
        r is Ok <==> seq_contains(listing@, identity@),
        r matches Err(e) ==> e@ == "本机 codesigning identity 中未找到 "@ + identity@
            + "。请执行 security find-identity -v -p codesigning 确认 APPLE_SIGNING_IDENTITY。"@,
{
    if crate::text::str_contains(listing, identity) {
        Ok(())
    } else {
        let mut out: Vec<char> = Vec::new();
        extend_str(&mut out, "本机 codesigning identity 中未找到 ");
        extend_str(&mut out, identity);
        extend_str(&mut out, "。请执行 security find-identity -v -p codesigning 确认 APPLE_SIGNING_IDENTITY。");
        Err(string_from_chars(&out))
    }
}

pub open spec fn missing_notarization_message() -> Seq<char> {
    "缺少 macOS notarization 配置。请在 .env 或环境变量中配置 App Store Connect API: APPLE_API_ISSUER, APPLE_API_KEY, APPLE_API_KEY_PATH，或 Apple ID: APPLE_ID, APPLE_PASSWORD, APPLE_TEAM_ID。"@
}

/// A setting's value as [`EnvConfig::get`] finds it.
pub open spec fn setting(config: EnvConfig, key: Seq<char>) -> Option<Seq<char>> {
    if nonblank_lookup(config.process@, key) is Some {
        nonblank_lookup(config.process@, key)
    } else {
        nonblank_lookup(config.values@, key)
    }
}

pub open spec fn pair_texts(pairs: Seq<(String, String)>) -> Seq<(Seq<char>, Seq<char>)> {
    pairs.map_values(|p: (String, String)| (p.0@, p.1@))
}

/// The notarization settings added: the App Store Connect API ones when the issuer, the
/// key and the key path are all set, else the Apple ID ones when all three are set.
pub open spec fn notarization_settings(config: EnvConfig, key_path: Option<Seq<char>>) -> Option<
    Seq<(Seq<char>, Seq<char>)>,
> {
    match (setting(config, "APPLE_API_ISSUER"@), setting(config, "APPLE_API_KEY"@), key_path) {
        (Some(i), Some(k), Some(p)) => Some(seq![("APPLE_API_ISSUER"@, i), ("APPLE_API_KEY"@, k), ("APPLE_API_KEY_PATH"@, p)]),
        _ => match (setting(config, "APPLE_ID"@), setting(config, "APPLE_PASSWORD"@), setting(config, "APPLE_TEAM_ID"@)) {
            (Some(a), Some(p), Some(t)) => Some(seq![("APPLE_ID"@, a), ("APPLE_PASSWORD"@, p), ("APPLE_TEAM_ID"@, t)]),
            _ => None,
        },
    }
}

/// Adds the notarization settings (see [`notarization_settings`]); `api_key_path` is the
/// key file's path setting, already checked to be absolute, or why it was refused.
pub fn append_notarization_env(
    config: &EnvConfig,
    api_key_path: Result<Option<String>, String>,
    values: &mut Vec<(String, String)>,
) -> (r: Result<(), String>)
    requires
        config.well_formed(),
    ensures
        match api_key_path {
            Err(e) => r matches Err(m) && m@ == e@ && final(values)@ == old(values)@,
            Ok(p) => match notarization_settings(*config, opt_text(p)) {
                Some(added) => r is Ok && pair_texts(final(values)@) == pair_texts(old(values)@) + added,
                None => r matches Err(m) && m@ == missing_notarization_message() && final(values)@ == old(values)@,
            },
        },
{
    let key_path = match api_key_path {
        Ok(p) => p,
        Err(e) => {
            return Err(e);
        },
    };
    let issuer = config.get("APPLE_API_ISSUER");
    let key = config.get("APPLE_API_KEY");
    if let (Some(issuer), Some(key), Some(key_path)) = (issuer, key, key_path) {
        let ghost before = values@;
        values.push(("APPLE_API_ISSUER".to_owned(), issuer));
        values.push(("APPLE_API_KEY".to_owned(), key));
        values.push(("APPLE_API_KEY_PATH".to_owned(), key_path));
        assert(pair_texts(values@) =~= pair_texts(before) + seq![("APPLE_API_ISSUER"@, issuer@), ("APPLE_API_KEY"@, key@), ("APPLE_API_KEY_PATH"@, key_path@)]);
        return Ok(());
    }
    let apple_id = config.get("APPLE_ID");
    let password = config.get("APPLE_PASSWORD");
    let team_id = config.get("APPLE_TEAM_ID");
    if let (Some(apple_id), Some(password), Some(team_id)) = (apple_id, password, team_id) {
        let ghost before = values@;
        values.push(("APPLE_ID".to_owned(), apple_id));
        values.push(("APPLE_PASSWORD".to_owned(), password));
        values.push(("APPLE_TEAM_ID".to_owned(), team_id));
        assert(pair_texts(values@) =~= pair_texts(before) + seq![("APPLE_ID"@, apple_id@), ("APPLE_PASSWORD"@, password@), ("APPLE_TEAM_ID"@, team_id@)]);
        return Ok(());
    }
    Err("缺少 macOS notarization 配置。请在 .env 或环境变量中配置 App Store Connect API: APPLE_API_ISSUER, APPLE_API_KEY, APPLE_API_KEY_PATH，或 Apple ID: APPLE_ID, APPLE_PASSWORD, APPLE_TEAM_ID。".to_owned())
}

/// The build settings for Windows: none.
pub fn load_windows_build_env(config: &EnvConfig) -> (r: Vec<(String, String)>)
    ensures
        r@.len() == 0,
{
    Vec::new()
}

} // verus!
