use vstd::prelude::*;
use vstd::utf8::{decode_utf8, valid_utf8};

verus! {

/// ASCII control characters: 0 to 31 and 127.
pub open spec fn is_ascii_control(c: char) -> bool {
    (c as u32) <= 31 || (c as u32) == 127
}

pub open spec fn is_digit(c: char) -> bool {
    48 <= (c as u32) && (c as u32) <= 57
}

/// Characters that end an RTF control word.
pub open spec fn is_word_delim(c: char) -> bool {
    c == ' ' || c == '{' || c == '}' || c == '\\' || c == '\n' || c == '\r'
}

/// Number of ASCII digits at the start of `s`.
pub open spec fn digit_run(s: Seq<char>) -> nat
    decreases s.len(),
{
    if s.len() > 0 && is_digit(s[0]) {
        1 + digit_run(s.skip(1))
    } else {
        0
    }
}

/// Number of characters at the start of `s` before a control-word delimiter.
pub open spec fn word_run(s: Seq<char>) -> nat
    decreases s.len(),
{
    if s.len() > 0 && !is_word_delim(s[0]) {
        1 + word_run(s.skip(1))
    } else {
        0
    }
}

/// Decimal value of a run of digits.
pub open spec fn digits_value(d: Seq<char>) -> nat
    decreases d.len(),
{
    if d.len() == 0 {
        0
    } else {
        digits_value(d.drop_last()) * 10 + ((d.last() as u32) - 48) as nat
    }
}

/// `\u` with a sign is negative in the document's signed 16-bit convention.
pub open spec fn u_sign_len(r: Seq<char>) -> nat {
    if r.len() > 0 && r[0] == '-' {
        1
    } else {
        0
    }
}

/// The largest magnitude that a signed 32-bit decimal of this sign can hold.
pub open spec fn u_limit(neg: bool) -> nat {
    if neg {
        2147483648
    } else {
        2147483647
    }
}

/// The code point of `\u` with magnitude `v`: a negative number has 65536 added,
/// taken modulo 2^32.
pub open spec fn u_escape_value(neg: bool, v: nat) -> u32 {
    if neg && v > 0 {
        if v <= 65536 {
            (65536 - v) as u32
        } else {
            (4294967296 + 65536 - v) as u32
        }
    } else {
        v as u32
    }
}

/// Length of what follows `\u`: sign, digits and one optional `?`.
pub open spec fn u_escape_len(r: Seq<char>) -> nat {
    let ds = r.skip(u_sign_len(r) as int);
    let m = digit_run(ds);
    let q: nat = if m < ds.len() && ds[m as int] == '?' {
        1
    } else {
        0
    };
    u_sign_len(r) + m + q
}

/// Code point given by what follows `\u`; none when the number does not parse.
pub open spec fn u_escape_out(r: Seq<char>) -> Option<u32> {
    let neg = u_sign_len(r) == 1;
    let ds = r.skip(u_sign_len(r) as int);
    let m = digit_run(ds);
    let v = digits_value(ds.take(m as int));
    if m == 0 || v > u_limit(neg) {
        None
    } else {
        Some(u_escape_value(neg, v))
    }
}

/// Length of what follows a `\` that starts a control word.
pub open spec fn word_len(w: Seq<char>) -> nat {
    let m = word_run(w);
    if m < w.len() && w[m as int] == ' ' {
        m + 1
    } else {
        m
    }
}

/// Number of characters that the token at the start of `s` takes.
pub open spec fn token_len(s: Seq<char>) -> nat {
    if s.len() == 0 {
        0
    } else if s[0] != '\\' || s.len() == 1 {
        1
    } else if s[1] == 'u' {
        2 + u_escape_len(s.skip(2))
    } else if s[1] == '\\' || s[1] == '{' || s[1] == '}' || s[1] == '\n' || s[1] == '\r' {
        2
    } else {
        1 + word_len(s.skip(1))
    }
}

/// Code point that the token at the start of `s` gives, if any.
pub open spec fn token_out(s: Seq<char>) -> Option<u32> {
    if s.len() == 0 {
        None
    } else if s[0] != '\\' {
        if s[0] == '{' || s[0] == '}' || is_ascii_control(s[0]) {
            None
        } else {
            Some(s[0] as u32)
        }
    } else if s.len() == 1 {
        None
    } else if s[1] == 'u' {
        u_escape_out(s.skip(2))
    } else if s[1] == '\\' || s[1] == '{' || s[1] == '}' {
        Some(s[1] as u32)
    } else if s[1] == '\n' || s[1] == '\r' {
        Some(10)
    } else {
        None
    }
}

pub open spec fn opt_seq(o: Option<u32>) -> Seq<u32> {
    match o {
        Some(c) => seq![c],
        None => seq![],
    }
}

/// The code points of an RTF text: one token after another, each giving at
/// most one code point.
pub open spec fn extract(t: Seq<char>) -> Seq<u32>
    decreases t.len(),
    via lemma_extract_decreases
{
    if t.len() == 0 {
        seq![]
    } else {
        opt_seq(token_out(t)) + extract(t.skip(token_len(t) as int))
    }
}

#[via_fn]
proof fn lemma_extract_decreases(t: Seq<char>) {
    if t.len() > 0 {
        lemma_token_len_bounds(t);
    }
}

proof fn lemma_digit_run_bound(s: Seq<char>)
    ensures
        digit_run(s) <= s.len(),
    decreases s.len(),
{
    if s.len() > 0 && is_digit(s[0]) {
        lemma_digit_run_bound(s.skip(1));
    }
}

proof fn lemma_word_run_bound(s: Seq<char>)
    ensures
        word_run(s) <= s.len(),
    decreases s.len(),
{
    if s.len() > 0 && !is_word_delim(s[0]) {
        lemma_word_run_bound(s.skip(1));
    }
}

pub proof fn lemma_token_len_bounds(s: Seq<char>)
    requires
        s.len() > 0,
    ensures
        1 <= token_len(s) <= s.len(),
{
    if s[0] == '\\' && s.len() > 1 {
        let r = s.skip(2);
        lemma_digit_run_bound(r.skip(u_sign_len(r) as int));
        lemma_word_run_bound(s.skip(1));
    }
}

/// A run of `m` digits ended by a non-digit or by the end has length `m`.
pub proof fn lemma_digit_run_is(s: Seq<char>, m: int)
    requires
        0 <= m <= s.len(),
        forall|k: int| 0 <= k < m ==> is_digit(#[trigger] s[k]),
        m == s.len() || !is_digit(s[m]),
    ensures
        digit_run(s) == m,
    decreases m,
{
    if m > 0 {
        lemma_digit_run_is(s.skip(1), m - 1);
    }
}

pub proof fn lemma_word_run_is(s: Seq<char>, m: int)
    requires
        0 <= m <= s.len(),
        forall|k: int| 0 <= k < m ==> !is_word_delim(#[trigger] s[k]),
        m == s.len() || is_word_delim(s[m]),
    ensures
        word_run(s) == m,
    decreases m,
{
    if m > 0 {
        lemma_word_run_is(s.skip(1), m - 1);
    }
}

proof fn lemma_digits_value_grows(d: Seq<char>)
    requires
        d.len() > 0,
        is_digit(d.last()),
    ensures
        digits_value(d) >= digits_value(d.drop_last()),
{
}

/// What `String::from_utf8_lossy` makes of a byte sequence.
pub uninterp spec fn lossy_utf8(b: Seq<u8>) -> Seq<char>;

/// Relies on `String::from_utf8_lossy`: the characters depend on the bytes
/// alone, and valid UTF-8 is decoded as it stands.
#[verifier::external_body]
fn decode_lossy(bytes: &[u8]) -> (r: Vec<char>)
    ensures
        r@ == lossy_utf8(bytes@),
        valid_utf8(bytes@) ==> r@ == decode_utf8(bytes@),
{
    String::from_utf8_lossy(bytes).chars().collect()
}

fn digit_at(t: &[char], j: usize) -> (b: bool)
    ensures
        b == (j < t@.len() && is_digit(t@[j as int])),
{
    j < t.len() && (t[j] as u32) >= 48 && (t[j] as u32) <= 57
}

fn word_char_at(t: &[char], j: usize) -> (b: bool)
    ensures
        b == (j < t@.len() && !is_word_delim(t@[j as int])),
{
    if j >= t.len() {
        return false;
    }
    let c = t[j];
    !(c == ' ' || c == '{' || c == '}' || c == '\\' || c == '\n' || c == '\r')
}

/// Reads the token that starts at `t[i]`: how many characters it takes, and
/// the code point it gives, if any.
pub fn next_token(t: &[char], i: usize) -> (r: (usize, Option<u32>))
    requires
        i < t@.len(),
    ensures
        r.0 == token_len(t@.skip(i as int)),
        r.1 == token_out(t@.skip(i as int)),
{
    let n = t.len();
    let ghost s = t@.skip(i as int);
    let c = t[i];
    if c != '\\' {
        let cv = c as u32;
        if c == '{' || c == '}' || cv <= 31 || cv == 127 {
            return (1, None);
        }
        return (1, Some(cv));
    }
    if i + 1 == n {
        return (1, None);
    }
    let d = t[i + 1];
    if d == 'u' {
        let ghost r = t@.skip(i + 2);
        proof {
            assert(s.skip(2) =~= r);
        }
        let mut j: usize = i + 2;
        let neg = j < n && t[j] == '-';
        if neg {
            j += 1;
        }
        let d0 = j;
        proof {
            assert(r.skip(u_sign_len(r) as int) =~= t@.skip(d0 as int));
            assert(t@.subrange(d0 as int, d0 as int) =~= Seq::<char>::empty());
        }
        let mut v: u64 = 0;
        let mut big = false;
        while digit_at(t, j)
            invariant
                d0 <= j <= n,
                n == t@.len(),
                forall|k: int| d0 <= k < j ==> is_digit(#[trigger] t@[k]),
                big == (digits_value(t@.subrange(d0 as int, j as int)) > 2147483648),
                !big ==> v == digits_value(t@.subrange(d0 as int, j as int)),
            decreases n - j,
        {
            let dv = (t[j] as u32 - 48) as u64;
            proof {
                let nd = t@.subrange(d0 as int, j + 1);
                assert(nd.drop_last() =~= t@.subrange(d0 as int, j as int));
                assert(nd.last() == t@[j as int]);
                lemma_digits_value_grows(nd);
            }
            if !big {
                v = v * 10 + dv;
                if v > 2147483648 {
                    big = true;
                }
            }
            j += 1;
        }
        let m = j - d0;
        proof {
            let ds = t@.skip(d0 as int);
            assert forall|k: int| 0 <= k < m implies is_digit(#[trigger] ds[k]) by {
                assert(ds[k] == t@[d0 + k]);
            }
            lemma_digit_run_is(ds, m as int);
            assert(ds.take(m as int) =~= t@.subrange(d0 as int, j as int));
        }
        let limit: u64 = if neg { 2147483648 } else { 2147483647 };
        let out: Option<u32> = if m == 0 || big || v > limit {
            None
        } else if neg && v > 0 {
            if v <= 65536 {
                Some((65536 - v) as u32)
            } else {
                Some((4294967296 + 65536 - v) as u32)
            }
        } else {
            Some(v as u32)
        };
        if j < n && t[j] == '?' {
            j += 1;
        }
        return (j - i, out);
    }
    if d == '\\' || d == '{' || d == '}' {
        return (2, Some(d as u32));
    }
    if d == '\n' || d == '\r' {
        return (2, Some(10));
    }
    let mut j: usize = i + 1;
    while word_char_at(t, j)
        invariant
            i + 1 <= j <= n,
            n == t@.len(),
            forall|k: int| i + 1 <= k < j ==> !is_word_delim(#[trigger] t@[k]),
        decreases n - j,
    {
        j += 1;
    }
    proof {
        let w = t@.skip(i + 1);
        assert(s.skip(1) =~= w);
        assert forall|k: int| 0 <= k < j - (i + 1) implies !is_word_delim(#[trigger] w[k]) by {
            assert(w[k] == t@[i + 1 + k]);
        }
        lemma_word_run_is(w, j - (i + 1));
    }
    if j < n && t[j] == ' ' {
        j += 1;
    }
    (j - i, None)
}

/// The code points of an RTF text, with its markup taken out.
pub fn extract_text(text: &[char]) -> (r: Vec<u32>)
    ensures
        r@ == extract(text@),
{
    let mut out: Vec<u32> = Vec::new();
    let mut i: usize = 0;
    proof {
        assert(text@.skip(0) =~= text@);
        assert(out@ + extract(text@) =~= extract(text@));
    }
    while i < text.len()
        invariant
            i <= text@.len(),
            out@ + extract(text@.skip(i as int)) == extract(text@),
        decreases text@.len() - i,
    {
        let (len, o) = next_token(text, i);
        let ghost before = out@;
        proof {
            let s = text@.skip(i as int);
            lemma_token_len_bounds(s);
            assert(s.skip(len as int) =~= text@.skip(i + len));
            assert(extract(s) == opt_seq(o) + extract(text@.skip(i + len)));
        }
        if let Some(c) = o {
            out.push(c);
        }
        proof {
            assert(out@ =~= before + opt_seq(o));
            assert(before + (opt_seq(o) + extract(text@.skip(i + len))) =~= out@ + extract(
                text@.skip(i + len),
            ));
        }
        i += len;
    }
    proof {
        assert(extract(text@.skip(i as int)) =~= Seq::<u32>::empty());
        assert(out@ + Seq::<u32>::empty() =~= out@);
    }
    out
}

/// The code points of an RTF document given as bytes; invalid UTF-8 is
/// replaced as `String::from_utf8_lossy` replaces it.
pub fn extract_codepoints(rtf_bytes: &[u8]) -> (r: Vec<u32>)
    ensures
        r@ == extract(lossy_utf8(rtf_bytes@)),
        valid_utf8(rtf_bytes@) ==> r@ == extract(decode_utf8(rtf_bytes@)),
{
    let text = decode_lossy(rtf_bytes);
    extract_text(text.as_slice())
}

} // verus!
