//! Base64 (standard alphabet, padded) and lowercase hexadecimal text for byte strings.

use vstd::prelude::*;

verus! {

/// The base64 digit of a 6-bit value: `A`-`Z`, `a`-`z`, `0`-`9`, `+`, `/`.
pub open spec fn b64_digit(v: int) -> char {
    if v < 26 {
        ((v + 65) as u32) as char
    } else if v < 52 {
        ((v - 26 + 97) as u32) as char
    } else if v < 62 {
        ((v - 52 + 48) as u32) as char
    } else if v == 62 {
        '+'
    } else {
        '/'
    }
}

/// The 6-bit value of a base64 digit.
pub open spec fn b64_value(c: char) -> Option<int> {
    if 'A' <= c && c <= 'Z' {
        Some(c as int - 65)
    } else if 'a' <= c && c <= 'z' {
        Some(c as int - 97 + 26)
    } else if '0' <= c && c <= '9' {
        Some(c as int - 48 + 52)
    } else if c == '+' {
        Some(62)
    } else if c == '/' {
        Some(63)
    } else {
        None
    }
}

/// The four characters that encode one to three bytes, padded with `=`.
#[verifier::opaque]
pub open spec fn b64_group(chunk: Seq<u8>) -> Seq<char> {
    let b0 = chunk[0] as int;
    if chunk.len() == 1 {
        seq![b64_digit(b0 / 4), b64_digit((b0 % 4) * 16), '=', '=']
    } else {
        let b1 = chunk[1] as int;
        if chunk.len() == 2 {
            seq![b64_digit(b0 / 4), b64_digit((b0 % 4) * 16 + b1 / 16), b64_digit((b1 % 16) * 4), '=']
        } else {
            let b2 = chunk[2] as int;
            seq![
                b64_digit(b0 / 4),
                b64_digit((b0 % 4) * 16 + b1 / 16),
                b64_digit((b1 % 16) * 4 + b2 / 64),
                b64_digit(b2 % 64),
            ]
        }
    }
}

/// Base64 text of `b` (RFC 4648, standard alphabet, with padding).
pub open spec fn base64_spec(b: Seq<u8>) -> Seq<char>
    decreases b.len(),
{
    if b.len() == 0 {
        Seq::empty()
    } else if b.len() <= 3 {
        b64_group(b)
    } else {
        b64_group(b.take(3)) + base64_spec(b.skip(3))
    }
}

/// The bytes that four base64 characters stand for; padding is only read in the last group.
#[verifier::opaque]
pub open spec fn b64_ungroup(q: Seq<char>, last: bool) -> Option<Seq<u8>> {
    match (b64_value(q[0]), b64_value(q[1]), b64_value(q[2]), b64_value(q[3])) {
        (Some(v0), Some(v1), Some(v2), Some(v3)) => Some(
            seq![
                (v0 * 4 + v1 / 16) as u8,
                ((v1 % 16) * 16 + v2 / 4) as u8,
                ((v2 % 4) * 64 + v3) as u8,
            ],
        ),
        (Some(v0), Some(v1), Some(v2), None) => if last && q[3] == '=' {
            Some(seq![(v0 * 4 + v1 / 16) as u8, ((v1 % 16) * 16 + v2 / 4) as u8])
        } else {
            None
        },
        (Some(v0), Some(v1), None, None) => if last && q[2] == '=' && q[3] == '=' {
            Some(seq![(v0 * 4 + v1 / 16) as u8])
        } else {
            None
        },
        _ => None,
    }
}

/// Reads base64 text group by group, without asking that the text be canonical.
pub open spec fn b64_read(s: Seq<char>) -> Option<Seq<u8>>
    decreases s.len(),
{
    if s.len() == 0 {
        Some(Seq::empty())
    } else if s.len() < 4 {
        None
    } else {
        match b64_ungroup(s.take(4), s.len() == 4) {
            Some(g) => match b64_read(s.skip(4)) {
                Some(r) => Some(g + r),
                None => None,
            },
            None => None,
        }
    }
}

proof fn lemma_b64_digit_value(v: int)
    requires
        0 <= v < 64,
    ensures
        b64_value(b64_digit(v)) == Some(v),
{
}

proof fn lemma_b64_group_read(chunk: Seq<u8>, last: bool)
    requires
        1 <= chunk.len() <= 3,
        chunk.len() < 3 ==> last,
    ensures
        b64_ungroup(b64_group(chunk), last) == Some(chunk),
        b64_group(chunk).len() == 4,
{
    reveal(b64_group);
    reveal(b64_ungroup);
    let b0 = chunk[0] as int;
    lemma_b64_digit_value(b0 / 4);
    if chunk.len() == 1 {
        lemma_b64_digit_value((b0 % 4) * 16);
        assert(b64_ungroup(b64_group(chunk), last) =~= Some(chunk));
    } else {
        let b1 = chunk[1] as int;
        lemma_b64_digit_value((b0 % 4) * 16 + b1 / 16);
        if chunk.len() == 2 {
            lemma_b64_digit_value((b1 % 16) * 4);
            let g = b64_group(chunk);
            assert(b64_value(g[3]) is None);
            assert(b64_ungroup(g, last) == Some(seq![chunk[0], chunk[1]]));
            assert(seq![chunk[0], chunk[1]] =~= chunk);
        } else {
            let b2 = chunk[2] as int;
            lemma_b64_digit_value((b1 % 16) * 4 + b2 / 64);
            lemma_b64_digit_value(b2 % 64);
            assert(seq![chunk[0], chunk[1], chunk[2]] =~= chunk);
        }
    }
}

/// Reading the base64 text of `b` gives back `b`.
pub proof fn lemma_base64_read_back(b: Seq<u8>)
    ensures
        b64_read(base64_spec(b)) == Some(b),
    decreases b.len(),
{
    if b.len() == 0 {
    } else if b.len() <= 3 {
        lemma_b64_group_read(b, true);
        let s = base64_spec(b);
        assert(s == b64_group(b));
        assert(s.len() == 4);
        assert(s.take(4) =~= s);
        assert(s.skip(4) =~= Seq::<char>::empty());
        assert(b64_read(s.skip(4)) == Some(Seq::<u8>::empty()));
        assert(b64_ungroup(s.take(4), s.len() == 4) == Some(b));
        assert(b + Seq::<u8>::empty() =~= b);
    } else {
        let head = b.take(3);
        let tail = b.skip(3);
        lemma_base64_read_back(tail);
        lemma_b64_group_read(head, false);
        lemma_base64_nonempty(tail);
        let s = base64_spec(b);
        assert(s == b64_group(head) + base64_spec(tail));
        assert(s.take(4) =~= b64_group(head));
        assert(s.skip(4) =~= base64_spec(tail));
        assert(s.len() != 4);
        assert(b64_ungroup(s.take(4), s.len() == 4) == Some(head));
        assert(head + tail =~= b);
    }
}

proof fn lemma_base64_nonempty(b: Seq<u8>)
    ensures
        b.len() > 0 ==> base64_spec(b).len() >= 4,
        base64_spec(b).len() % 4 == 0,
    decreases b.len(),
{
    if b.len() > 3 {
        lemma_base64_nonempty(b.skip(3));
        lemma_b64_group_len(b.take(3));
    } else if b.len() > 0 {
        lemma_b64_group_len(b);
    }
}

proof fn lemma_b64_group_len(chunk: Seq<u8>)
    requires
        1 <= chunk.len() <= 3,
    ensures
        b64_group(chunk).len() == 4,
{
    reveal(b64_group);
}

/// Different byte strings have different base64 texts.
pub proof fn lemma_base64_injective(a: Seq<u8>, b: Seq<u8>)
    requires
        base64_spec(a) == base64_spec(b),
    ensures
        a == b,
{
    lemma_base64_read_back(a);
    lemma_base64_read_back(b);
}

fn digit_of(v: u8) -> (c: char)
    requires
        v < 64,
    ensures
        c == b64_digit(v as int),
{
    if v < 26 {
        (v + 65) as char
    } else if v < 52 {
        (v - 26 + 97) as char
    } else if v < 62 {
        (v - 52 + 48) as char
    } else if v == 62 {
        '+'
    } else {
        '/'
    }
}

/// Base64 text (standard alphabet, padded) of `bytes`.
pub fn base64_encode(bytes: &[u8]) -> (r: String)
    ensures
        r@ == base64_spec(bytes@),
{
    let mut out: Vec<char> = Vec::new();
    let mut i: usize = 0;
    let n = bytes.len();
    assert(bytes@.skip(0) =~= bytes@);
    while i < n
        invariant
            i <= n == bytes@.len(),
            base64_spec(bytes@) == out@ + base64_spec(bytes@.skip(i as int)),
        decreases n - i,
    {
        let ghost rest = bytes@.skip(i as int);
        proof {
            reveal(b64_group);
        }
        let b0 = bytes[i];
        if n - i == 1 {
            out.push(digit_of(b0 / 4));
            out.push(digit_of((b0 % 4) * 16));
            out.push('=');
            out.push('=');
            assert(b64_group(rest) =~= seq![b64_digit(b0 as int / 4), b64_digit((b0 as int % 4) * 16), '=', '=']);
            i = n;
            assert(bytes@.skip(i as int) =~= Seq::<u8>::empty());
        } else if n - i == 2 {
            let b1 = bytes[i + 1];
            out.push(digit_of(b0 / 4));
            out.push(digit_of((b0 % 4) * 16 + b1 / 16));
            out.push(digit_of((b1 % 16) * 4));
            out.push('=');
            assert(rest[1] == b1);
            i = n;
            assert(bytes@.skip(i as int) =~= Seq::<u8>::empty());
        } else {
            let b1 = bytes[i + 1];
            let b2 = bytes[i + 2];
            out.push(digit_of(b0 / 4));
            out.push(digit_of((b0 % 4) * 16 + b1 / 16));
            out.push(digit_of((b1 % 16) * 4 + b2 / 64));
            out.push(digit_of(b2 % 64));
            assert(rest[1] == b1 && rest[2] == b2);
            if n - i > 3 {
                assert(rest.take(3) =~= seq![b0, b1, b2]);
                assert(rest.skip(3) =~= bytes@.skip(i as int + 3));
            } else {
                assert(bytes@.skip(i as int + 3) =~= Seq::<u8>::empty());
            }
            i = i + 3;
        }
    }
    assert(bytes@.skip(n as int) =~= Seq::<u8>::empty());
    crate::text::string_from_chars(&out)
}

fn value_of(c: char) -> (r: Option<u8>)
    ensures
        match r {
            Some(v) => b64_value(c) == Some(v as int),
            None => b64_value(c) is None,
        },
{
    if 'A' <= c && c <= 'Z' {
        Some(((c as u32) - 65) as u8)
    } else if 'a' <= c && c <= 'z' {
        Some(((c as u32) - 97 + 26) as u8)
    } else if '0' <= c && c <= '9' {
        Some(((c as u32) - 48 + 52) as u8)
    } else if c == '+' {
        Some(62)
    } else if c == '/' {
        Some(63)
    } else {
        None
    }
}

pub open spec fn invalid_base64_message() -> Seq<char> {
    "Invalid base64 data"@
}

/// The bytes whose base64 text (standard alphabet, padded) is `text`.
pub fn base64_decode(text: &str) -> (r: Result<Vec<u8>, String>)
    ensures
        match r {
            Ok(b) => base64_spec(b@) == text@,
            Err(e) => (forall|b: Seq<u8>| base64_spec(b) != text@) && e@ == invalid_base64_message(),
        },
{
    let s = crate::text::chars_of(text);
    let n = s.len();
    let mut out: Vec<u8> = Vec::new();
    let mut p: usize = 0;
    assert(s@.skip(0) =~= s@);
    while p < n
        invariant
            p <= n == s@.len(),
            s@ == text@,
            b64_read(s@) == match b64_read(s@.skip(p as int)) {
                Some(r) => Some(out@ + r),
                None => None::<Seq<u8>>,
            },
        decreases n - p,
    {
        let ghost rest = s@.skip(p as int);
        proof {
            reveal(b64_ungroup);
        }
        if n - p < 4 {
            return Err(base64_failure(text, &s));
        }
        let last = n - p == 4;
        let q0 = value_of(s[p]);
        let q1 = value_of(s[p + 1]);
        let q2 = value_of(s[p + 2]);
        let q3 = value_of(s[p + 3]);
        let ghost q = rest.take(4);
        assert(q[0] == s@[p as int] && q[1] == s@[p + 1] && q[2] == s@[p + 2] && q[3] == s@[p + 3]);
        let ghost before = out@;
        match (q0, q1, q2, q3) {
            (Some(v0), Some(v1), Some(v2), Some(v3)) => {
                out.push((v0 * 4 + v1 / 16) as u8);
                out.push(((v1 % 16) * 16 + v2 / 4) as u8);
                out.push(((v2 % 4) * 64 + v3) as u8);
            },
            (Some(v0), Some(v1), Some(v2), None) => {
                if !(last && s[p + 3] == '=') {
                    return Err(base64_failure(text, &s));
                }
                out.push((v0 * 4 + v1 / 16) as u8);
                out.push(((v1 % 16) * 16 + v2 / 4) as u8);
            },
            (Some(v0), Some(v1), None, None) => {
                if !(last && s[p + 2] == '=' && s[p + 3] == '=') {
                    return Err(base64_failure(text, &s));
                }
                out.push((v0 * 4 + v1 / 16) as u8);
            },
            _ => {
                return Err(base64_failure(text, &s));
            },
        }
        let ghost g = out@.skip(before.len() as int);
        assert(b64_ungroup(q, last) == Some(g)) by {
            assert(g =~= out@.subrange(before.len() as int, out@.len() as int));
        }
        assert(rest.skip(4) =~= s@.skip(p as int + 4));
        assert(out@ =~= before + g);
        assert forall|r: Seq<u8>| #![auto] before + (g + r) == out@ + r by {
            assert(before + (g + r) =~= out@ + r);
        }
        p = p + 4;
    }
    assert(s@.skip(n as int) =~= Seq::<char>::empty());
    assert(out@ + Seq::<u8>::empty() =~= out@);
    let again = base64_encode(out.as_slice());
    if crate::text::str_eq(again.as_str(), text) {
        Ok(out)
    } else {
        proof {
            assert forall|b: Seq<u8>| base64_spec(b) != text@ by {
                if base64_spec(b) == text@ {
                    lemma_base64_read_back(b);
                }
            }
        }
        Err("Invalid base64 data".to_owned())
    }
}

/// The error for text that no byte string encodes to (the early exits of `base64_decode`).
fn base64_failure(text: &str, s: &Vec<char>) -> (e: String)
    requires
        s@ == text@,
        b64_read(s@) is None,
    ensures
        e@ == invalid_base64_message(),
        forall|b: Seq<u8>| base64_spec(b) != text@,
{
    proof {
        assert forall|b: Seq<u8>| base64_spec(b) != text@ by {
            if base64_spec(b) == text@ {
                lemma_base64_read_back(b);
            }
        }
    }
    "Invalid base64 data".to_owned()
}

// ---------------------------------------------------------------------------
// Hexadecimal
// ---------------------------------------------------------------------------

pub open spec fn hex_digit(v: int) -> char {
    if v < 10 {
        ((v + 48) as u32) as char
    } else {
        ((v - 10 + 97) as u32) as char
    }
}

/// Lowercase hexadecimal text of `b`, two digits per byte.
pub open spec fn hex_spec(b: Seq<u8>) -> Seq<char>
    decreases b.len(),
{
    if b.len() == 0 {
        Seq::empty()
    } else {
        seq![hex_digit(b[0] as int / 16), hex_digit(b[0] as int % 16)] + hex_spec(b.skip(1))
    }
}

/// Hex text has two digits per byte.
pub proof fn lemma_hex_len(b: Seq<u8>)
    ensures
        hex_spec(b).len() == 2 * b.len(),
    decreases b.len(),
{
    if b.len() > 0 {
        lemma_hex_len(b.skip(1));
    }
}

fn hex_char(v: u8) -> (c: char)
    requires
        v < 16,
    ensures
        c == hex_digit(v as int),
{
    if v < 10 {
        (v + 48) as char
    } else {
        (v - 10 + 97) as char
    }
}

/// Lowercase hexadecimal text of `bytes`.
pub fn hex_encode(bytes: &[u8]) -> (r: String)
    ensures
        r@ == hex_spec(bytes@),
{
    let mut out: Vec<char> = Vec::new();
    let mut i: usize = 0;
    assert(bytes@.skip(0) =~= bytes@);
    while i < bytes.len()
        invariant
            i <= bytes@.len(),
            hex_spec(bytes@) == out@ + hex_spec(bytes@.skip(i as int)),
        decreases bytes.len() - i,
    {
        let b = bytes[i];
        let ghost rest = bytes@.skip(i as int);
        out.push(hex_char(b / 16));
        out.push(hex_char(b % 16));
        assert(rest.skip(1) =~= bytes@.skip(i as int + 1));
        assert(rest[0] == b);
        i += 1;
    }
    assert(bytes@.skip(bytes@.len() as int) =~= Seq::<u8>::empty());
    crate::text::string_from_chars(&out)
}

} // verus!
