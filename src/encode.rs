use vstd::prelude::*;
use vstd::string::StringSliceAdditionalSpecFns;
use crate::extract::{
    digits_value, extract, is_ascii_control, is_digit, is_word_delim, lemma_digit_run_is,
    lemma_word_run_is, opt_seq, token_len, token_out, u_escape_len, u_escape_out, u_escape_value,
    u_sign_len,
};
use vstd::utf8::{decode_utf8, encode_utf8, valid_utf8};

verus! {

/// Font table, character set and default formatting run that start the
/// document. The font name is written in `\'hh` hex escapes, so the header
/// holds no plain text and reads back as nothing.
pub const RTF_HEADER: &'static str = "{\\rtf1\\ansi\\ansicpg65001\\deff0\n{\\fonttbl{\\f0\\fswiss\\fcharset204 \\'41\\'72\\'69\\'61\\'6c\\'3b}}\n\\f0\\fs24\\lang1074 ";

/// Decimal digits of `v`, most significant first, as ASCII.
pub open spec fn dec_digits(v: nat) -> Seq<u8>
    decreases v,
{
    if v < 10 {
        seq![(48 + v) as u8]
    } else {
        dec_digits(v / 10).push((48 + v % 10) as u8)
    }
}

/// `n` in decimal with a leading `-` when it is negative.
pub open spec fn signed_dec(n: int) -> Seq<u8> {
    if n < 0 {
        seq![45u8] + dec_digits((-n) as nat)
    } else {
        dec_digits(n as nat)
    }
}

/// The number that stands for `c` in a `\u` escape: above 32767 it is taken
/// as a signed 16-bit value.
pub open spec fn signed16(c: u32) -> int {
    if c > 32767 {
        c - 65536
    } else {
        c as int
    }
}

/// RTF for one code point.
pub open spec fn encode_one(c: u32) -> Seq<u8> {
    if c == 10 {
        seq![92u8, 10]
    } else if c == 13 {
        seq![]
    } else if c == 92 || c == 123 || c == 125 {
        seq![92u8, c as u8]
    } else if c <= 127 {
        seq![c as u8]
    } else {
        seq![92u8, 117] + signed_dec(signed16(c)) + seq![63u8]
    }
}

/// RTF for a sequence of code points, one after another.
pub open spec fn encode_body(s: Seq<u32>) -> Seq<u8>
    decreases s.len(),
{
    if s.len() == 0 {
        seq![]
    } else {
        encode_one(s[0]) + encode_body(s.skip(1))
    }
}

/// A whole document: the fixed header, the body, and the closing brace.
pub open spec fn rtf_document(s: Seq<u32>) -> Seq<u8> {
    RTF_HEADER.spec_bytes() + encode_body(s) + seq![125u8]
}

proof fn lemma_encode_body_push(s: Seq<u32>, c: u32)
    ensures
        encode_body(s.push(c)) == encode_body(s) + encode_one(c),
    decreases s.len(),
{
    if s.len() == 0 {
        let one = seq![c];
        assert(one.skip(1) =~= Seq::<u32>::empty());
        assert(encode_body(one.skip(1)) == Seq::<u8>::empty());
        assert(encode_body(one) == encode_one(one[0]) + encode_body(one.skip(1)));
        assert(encode_body(one) =~= encode_one(c));
        assert(s.push(c) =~= seq![c]);
    } else {
        lemma_encode_body_push(s.skip(1), c);
        assert(s.push(c).skip(1) =~= s.skip(1).push(c));
        assert(s.push(c)[0] == s[0]);
        assert(encode_body(s.push(c)) =~= encode_body(s) + encode_one(c));
    }
}

fn push_decimal(out: &mut Vec<u8>, v: u64)
    ensures
        final(out)@ == old(out)@ + dec_digits(v as nat),
    decreases v,
{
    if v >= 10 {
        push_decimal(out, v / 10);
    }
    out.push((48 + v % 10) as u8);
    assert(out@ =~= old(out)@ + dec_digits(v as nat));
}

fn push_bytes(out: &mut Vec<u8>, bytes: &[u8])
    ensures
        final(out)@ == old(out)@ + bytes@,
{
    let mut i: usize = 0;
    while i < bytes.len()
        invariant
            i <= bytes@.len(),
            out@ == old(out)@ + bytes@.take(i as int),
        decreases bytes@.len() - i,
    {
        out.push(bytes[i]);
        assert(bytes@.take(i + 1) =~= bytes@.take(i as int).push(bytes@[i as int]));
        assert(out@ =~= old(out)@ + bytes@.take(i + 1));
        i += 1;
    }
    assert(bytes@.take(i as int) =~= bytes@);
}

/// Appends the RTF for one code point.
fn push_encoded(out: &mut Vec<u8>, c: u32)
    ensures
        final(out)@ == old(out)@ + encode_one(c),
{
    let ghost start = out@;
    if c == 10 {
        out.push(92);
        out.push(10);
    } else if c == 13 {
    } else if c == 92 || c == 123 || c == 125 {
        out.push(92);
        out.push(c as u8);
    } else if c <= 127 {
        out.push(c as u8);
    } else {
        out.push(92);
        out.push(117);
        let n: i64 = if c > 32767 {
            c as i64 - 65536
        } else {
            c as i64
        };
        let ghost mid = out@;
        if n < 0 {
            out.push(45);
            push_decimal(out, (-n) as u64);
            assert(out@ =~= mid + signed_dec(signed16(c)));
        } else {
            push_decimal(out, n as u64);
        }
        out.push(63);
    }
    assert(out@ =~= start + encode_one(c));
}

/// Writes code points as an RTF document: line breaks as `\` and a newline,
/// carriage returns dropped, `\`, `{` and `}` escaped, other ASCII as itself, and the
/// rest as `\uN?` with N a signed 16-bit number.
pub fn encode_rtf(cps: &[u32]) -> (r: Vec<u8>)
    ensures
        r@ == rtf_document(cps@),
{
    let mut out: Vec<u8> = Vec::new();
    push_bytes(&mut out, RTF_HEADER.as_bytes());
    let ghost head = out@;
    let mut i: usize = 0;
    proof {
        assert(encode_body(cps@.take(0)) =~= Seq::<u8>::empty());
        assert(out@ =~= head + encode_body(cps@.take(0)));
    }
    while i < cps.len()
        invariant
            i <= cps@.len(),
            head == RTF_HEADER.spec_bytes(),
            out@ == head + encode_body(cps@.take(i as int)),
        decreases cps@.len() - i,
    {
        push_encoded(&mut out, cps[i]);
        proof {
            lemma_encode_body_push(cps@.take(i as int), cps@[i as int]);
            assert(cps@.take(i + 1) =~= cps@.take(i as int).push(cps@[i as int]));
            assert(out@ =~= head + encode_body(cps@.take(i + 1)));
        }
        i += 1;
    }
    out.push(125);
    assert(cps@.take(i as int) =~= cps@);
    out
}

/// Bytes read as characters one for one, as ASCII text is.
pub open spec fn ascii_text(b: Seq<u8>) -> Seq<char> {
    b.map_values(|x: u8| x as char)
}

/// Code points that come back unchanged from writing and reading again: line
/// feed, the printable ASCII characters and the 16-bit ones from 128 on; and
/// carriage return, which is dropped both ways.
pub open spec fn survives_round_trip(c: u32) -> bool {
    c == 10 || c == 13 || (32 <= c && c <= 126) || (128 <= c && c <= 65535)
}

/// `s` without its carriage returns.
pub open spec fn drop_cr(s: Seq<u32>) -> Seq<u32>
    decreases s.len(),
{
    if s.len() == 0 {
        s
    } else if s[0] == 13 {
        drop_cr(s.skip(1))
    } else {
        seq![s[0]] + drop_cr(s.skip(1))
    }
}

proof fn lemma_ascii_text_concat(a: Seq<u8>, b: Seq<u8>)
    ensures
        ascii_text(a + b) == ascii_text(a) + ascii_text(b),
{
    assert(ascii_text(a + b) =~= ascii_text(a) + ascii_text(b));
}

proof fn lemma_dec_digits(v: nat)
    ensures
        dec_digits(v).len() >= 1,
        forall|i: int| 0 <= i < dec_digits(v).len() ==> is_digit(#[trigger] ascii_text(dec_digits(v))[i]),
        digits_value(ascii_text(dec_digits(v))) == v,
    decreases v,
{
    let d = ascii_text(dec_digits(v));
    if v < 10 {
        assert(d.drop_last() =~= Seq::<char>::empty());
        assert(((48 + v) as u8) as char as u32 == 48 + v);
        assert(d.last() == ((48 + v) as u8) as char);
        assert(digits_value(d) == digits_value(d.drop_last()) * 10 + ((d.last() as u32) - 48) as nat);
    } else {
        lemma_dec_digits(v / 10);
        let p = ascii_text(dec_digits(v / 10));
        assert(d.drop_last() =~= p);
        assert(((48 + v % 10) as u8) as char as u32 == 48 + v % 10);
        assert(d.last() == ((48 + v % 10) as u8) as char);
        assert(digits_value(d) == digits_value(p) * 10 + ((d.last() as u32) - 48) as nat);
        assert(v == (v / 10) * 10 + v % 10);
        assert forall|i: int| 0 <= i < d.len() implies is_digit(#[trigger] d[i]) by {
            if i < d.len() - 1 {
                assert(d[i] == p[i]);
            }
        }
    }
}

/// The digits of `v` followed by `?` and anything read as the tail of a `\u`
/// escape give `v`, with the `?` taken.
proof fn lemma_digits_then_mark(v: nat, neg: bool, rest: Seq<char>)
    requires
        v <= 65536,
    ensures
        ({
            let r = (if neg {
                seq!['-']
            } else {
                Seq::<char>::empty()
            }) + ascii_text(dec_digits(v)) + seq!['?'] + rest;
            &&& u_escape_len(r) == (if neg {
                1int
            } else {
                0int
            }) + dec_digits(v).len() + 1
            &&& u_escape_out(r) == Some(u_escape_value(neg, v))
        }),
{
    let sign = if neg {
        seq!['-']
    } else {
        Seq::<char>::empty()
    };
    let d = ascii_text(dec_digits(v));
    let r = sign + d + seq!['?'] + rest;
    lemma_dec_digits(v);
    let m = d.len();
    assert(u_sign_len(r) == sign.len()) by {
        if !neg {
            assert(r[0] == d[0]);
            assert(is_digit(d[0]));
        }
    }
    let ds = r.skip(sign.len() as int);
    assert(ds =~= d + seq!['?'] + rest);
    assert forall|k: int| 0 <= k < m implies is_digit(#[trigger] ds[k]) by {
        assert(ds[k] == d[k]);
    }
    assert(ds[m as int] == '?');
    lemma_digit_run_is(ds, m as int);
    assert(ds.take(m as int) =~= d);
}

/// One code point written and read again: it comes back (a carriage return
/// gives nothing), and reading goes on where its escape ends.
proof fn lemma_encode_one_round_trip(c: u32, rest: Seq<u8>)
    requires
        survives_round_trip(c),
    ensures
        extract(ascii_text(encode_one(c) + rest)) == (if c == 13 {
            Seq::<u32>::empty()
        } else {
            seq![c]
        }) + extract(ascii_text(rest)),
{
    let e = encode_one(c);
    let tr = ascii_text(rest);
    let t = ascii_text(e + rest);
    lemma_ascii_text_concat(e, rest);
    if c == 13 {
        assert(e + rest =~= rest);
    } else if c == 10 {
        assert(t[0] == '\\' && t[1] == '\n');
        assert(token_len(t) == 2);
        assert(t.skip(2) =~= tr);
        assert(opt_seq(token_out(t)) =~= seq![c]);
    } else if c <= 127 && c != 92 && c != 123 && c != 125 {
        assert((c as u8) as char as u32 == c);
        assert(t[0] == (c as u8) as char);
        assert(t.skip(1) =~= tr);
        assert(opt_seq(token_out(t)) =~= seq![c]);
    } else if c <= 127 {
        assert((c as u8) as char as u32 == c);
        assert(t[0] == '\\');
        assert(t[1] == (c as u8) as char);
        assert(token_len(t) == 2);
        assert(t.skip(2) =~= tr);
        assert(opt_seq(token_out(t)) =~= seq![c]);
    } else {
        let neg = c > 32767;
        let v: nat = if neg {
            (65536 - c) as nat
        } else {
            c as nat
        };
        let sign = if neg {
            seq!['-']
        } else {
            Seq::<char>::empty()
        };
        let d = ascii_text(dec_digits(v));
        let r = sign + d + seq!['?'] + tr;
        lemma_digits_then_mark(v, neg, tr);
        assert(ascii_text(seq![45u8]) =~= seq!['-']);
        assert(ascii_text(seq![63u8]) =~= seq!['?']);
        assert(ascii_text(seq![92u8, 117]) =~= seq!['\\', 'u']);
        assert(signed_dec(signed16(c)) == (if neg {
            seq![45u8]
        } else {
            Seq::<u8>::empty()
        }) + dec_digits(v));
        assert(t =~= seq!['\\', 'u'] + r) by {
            lemma_ascii_text_concat(seq![92u8, 117] + signed_dec(signed16(c)), seq![63u8]);
            lemma_ascii_text_concat(seq![92u8, 117], signed_dec(signed16(c)));
            if neg {
                lemma_ascii_text_concat(seq![45u8], dec_digits(v));
            } else {
                assert(signed_dec(signed16(c)) =~= dec_digits(v));
            }
        }
        assert(t.skip(2) =~= r);
        let len = token_len(t);
        assert(len == 2 + sign.len() + d.len() + 1);
        assert(t.skip(len as int) =~= tr);
        assert(opt_seq(token_out(t)) =~= seq![c]);
    }
}

/// Writing code points and reading them back gives them again, carriage
/// returns left out, for the code points that `survives_round_trip` admits;
/// whatever follows is read as if it stood alone.
pub proof fn lemma_body_round_trip(s: Seq<u32>, rest: Seq<u8>)
    requires
        forall|i: int| 0 <= i < s.len() ==> survives_round_trip(#[trigger] s[i]),
    ensures
        extract(ascii_text(encode_body(s) + rest)) == drop_cr(s) + extract(ascii_text(rest)),
    decreases s.len(),
{
    if s.len() == 0 {
        assert(encode_body(s) + rest =~= rest);
        assert(drop_cr(s) + extract(ascii_text(rest)) =~= extract(ascii_text(rest)));
    } else {
        let tail = s.skip(1);
        assert forall|i: int| 0 <= i < tail.len() implies survives_round_trip(#[trigger] tail[i]) by {
            assert(tail[i] == s[i + 1]);
        }
        lemma_body_round_trip(tail, rest);
        assert(encode_body(s) + rest =~= encode_one(s[0]) + (encode_body(tail) + rest));
        lemma_encode_one_round_trip(s[0], encode_body(tail) + rest);
        if s[0] == 13 {
            assert(Seq::<u32>::empty() + extract(ascii_text(encode_body(tail) + rest)) =~= extract(
                ascii_text(encode_body(tail) + rest),
            ));
        } else {
            assert(seq![s[0]] + (drop_cr(tail) + extract(ascii_text(rest))) =~= drop_cr(s)
                + extract(ascii_text(rest)));
        }
    }
}


/// The characters of the fixed header.
pub open spec fn header_chars() -> Seq<char> {
    seq!['{', '\\', 'r', 't', 'f', '1', '\\', 'a', 'n', 's', 'i', '\\', 'a', 'n', 's', 'i', 'c', 'p', 'g', '6', '5', '0', '0', '1', '\\', 'd', 'e', 'f', 'f', '0', '\n', '{', '\\', 'f', 'o', 'n', 't', 't', 'b', 'l', '{', '\\', 'f', '0', '\\', 'f', 's', 'w', 'i', 's', 's', '\\', 'f', 'c', 'h', 'a', 'r', 's', 'e', 't', '2', '0', '4', ' ', '\\', '\'', '4', '1', '\\', '\'', '7', '2', '\\', '\'', '6', '9', '\\', '\'', '6', '1', '\\', '\'', '6', 'c', '\\', '\'', '3', 'b', '}', '}', '\n', '\\', 'f', '0', '\\', 'f', 's', '2', '4', '\\', 'l', 'a', 'n', 'g', '1', '0', '7', '4', ' ']
}

/// Reading a character other than `\` takes that character alone.
proof fn lemma_plain_char_read(c: char, rest: Seq<char>)
    requires
        c != '\\',
    ensures
        extract(seq![c] + rest) == (if c == '{' || c == '}' || is_ascii_control(c) {
            Seq::<u32>::empty()
        } else {
            seq![c as u32]
        }) + extract(rest),
{
    let t = seq![c] + rest;
    assert(t.skip(1) =~= rest);
    assert(opt_seq(token_out(t)) =~= (if c == '{' || c == '}' || is_ascii_control(c) {
        Seq::<u32>::empty()
    } else {
        seq![c as u32]
    }));
}

/// Reading a control word gives nothing and takes the word, and the space
/// that ends it if one does.
proof fn lemma_control_word_read(w: Seq<char>, rest: Seq<char>)
    requires
        w.len() >= 1,
        w[0] != 'u',
        forall|i: int| 0 <= i < w.len() ==> !is_word_delim(#[trigger] w[i]),
        rest.len() > 0,
        is_word_delim(rest[0]),
    ensures
        extract(seq!['\\'] + w + rest) == extract(
            if rest[0] == ' ' {
                rest.skip(1)
            } else {
                rest
            },
        ),
{
    let t = seq!['\\'] + w + rest;
    let ws = t.skip(1);
    assert(ws =~= w + rest);
    assert(t[1] == w[0]);
    assert forall|k: int| 0 <= k < w.len() implies !is_word_delim(#[trigger] ws[k]) by {
        assert(ws[k] == w[k]);
    }
    assert(ws[w.len() as int] == rest[0]);
    lemma_word_run_is(ws, w.len() as int);
    if rest[0] == ' ' {
        assert(t.skip(token_len(t) as int) =~= rest.skip(1));
    } else {
        assert(t.skip(token_len(t) as int) =~= rest);
    }
    assert(opt_seq(token_out(t)) =~= Seq::<u32>::empty());
}

proof fn lemma_header_preamble(x: Seq<char>)
    ensures
        extract(seq!['{', '\\', 'r', 't', 'f', '1', '\\', 'a', 'n', 's', 'i', '\\', 'a', 'n', 's', 'i', 'c', 'p', 'g', '6', '5', '0', '0', '1', '\\', 'd', 'e', 'f', 'f', '0', '\n'] + x) == extract(x),
{
    let s6 = x;
    let s5 = seq!['\n'] + s6;
    lemma_plain_char_read('\n', s6);
    let s4 = seq!['\\'] + seq!['d', 'e', 'f', 'f', '0'] + s5;
    lemma_control_word_read(seq!['d', 'e', 'f', 'f', '0'], s5);
    let s3 = seq!['\\'] + seq!['a', 'n', 's', 'i', 'c', 'p', 'g', '6', '5', '0', '0', '1'] + s4;
    lemma_control_word_read(seq!['a', 'n', 's', 'i', 'c', 'p', 'g', '6', '5', '0', '0', '1'], s4);
    let s2 = seq!['\\'] + seq!['a', 'n', 's', 'i'] + s3;
    lemma_control_word_read(seq!['a', 'n', 's', 'i'], s3);
    let s1 = seq!['\\'] + seq!['r', 't', 'f', '1'] + s2;
    lemma_control_word_read(seq!['r', 't', 'f', '1'], s2);
    let s0 = seq!['{'] + s1;
    lemma_plain_char_read('{', s1);
    assert(seq!['{', '\\', 'r', 't', 'f', '1', '\\', 'a', 'n', 's', 'i', '\\', 'a', 'n', 's', 'i', 'c', 'p', 'g', '6', '5', '0', '0', '1', '\\', 'd', 'e', 'f', 'f', '0', '\n'] + x =~= s0);
}

proof fn lemma_header_font_table_open(x: Seq<char>)
    ensures
        extract(seq!['{', '\\', 'f', 'o', 'n', 't', 't', 'b', 'l', '{'] + x) == extract(x),
{
    let s9 = x;
    let s8 = seq!['{'] + s9;
    lemma_plain_char_read('{', s9);
    let s7 = seq!['\\'] + seq!['f', 'o', 'n', 't', 't', 'b', 'l'] + s8;
    lemma_control_word_read(seq!['f', 'o', 'n', 't', 't', 'b', 'l'], s8);
    let s6 = seq!['{'] + s7;
    lemma_plain_char_read('{', s7);
    assert(seq!['{', '\\', 'f', 'o', 'n', 't', 't', 'b', 'l', '{'] + x =~= s6);
}

proof fn lemma_header_font_entry(x: Seq<char>)
    ensures
        extract(seq!['\\', 'f', '0', '\\', 'f', 's', 'w', 'i', 's', 's', '\\', 'f', 'c', 'h', 'a', 'r', 's', 'e', 't', '2', '0', '4', ' '] + x) == extract(x),
{
    let s12 = x;
    let s11 = seq!['\\'] + seq!['f', 'c', 'h', 'a', 'r', 's', 'e', 't', '2', '0', '4'] + (seq![' '] + s12);
    lemma_control_word_read(seq!['f', 'c', 'h', 'a', 'r', 's', 'e', 't', '2', '0', '4'], seq![' '] + s12);
    assert((seq![' '] + s12).skip(1) =~= s12);
    let s10 = seq!['\\'] + seq!['f', 's', 'w', 'i', 's', 's'] + s11;
    lemma_control_word_read(seq!['f', 's', 'w', 'i', 's', 's'], s11);
    let s9 = seq!['\\'] + seq!['f', '0'] + s10;
    lemma_control_word_read(seq!['f', '0'], s10);
    assert(seq!['\\', 'f', '0', '\\', 'f', 's', 'w', 'i', 's', 's', '\\', 'f', 'c', 'h', 'a', 'r', 's', 'e', 't', '2', '0', '4', ' '] + x =~= s9);
}

#[verifier::rlimit(60)]
proof fn lemma_header_font_name(x: Seq<char>)
    ensures
        extract(seq!['\\', '\'', '4', '1', '\\', '\'', '7', '2', '\\', '\'', '6', '9', '\\', '\'', '6', '1', '\\', '\'', '6', 'c', '\\', '\'', '3', 'b', '}', '}', '\n'] + x) == extract(x),
{
    let s21 = x;
    let s20 = seq!['\n'] + s21;
    lemma_plain_char_read('\n', s21);
    let s19 = seq!['}'] + s20;
    lemma_plain_char_read('}', s20);
    let s18 = seq!['}'] + s19;
    lemma_plain_char_read('}', s19);
    let s17 = seq!['\\'] + seq!['\'', '3', 'b'] + s18;
    lemma_control_word_read(seq!['\'', '3', 'b'], s18);
    let s16 = seq!['\\'] + seq!['\'', '6', 'c'] + s17;
    lemma_control_word_read(seq!['\'', '6', 'c'], s17);
    let s15 = seq!['\\'] + seq!['\'', '6', '1'] + s16;
    lemma_control_word_read(seq!['\'', '6', '1'], s16);
    let s14 = seq!['\\'] + seq!['\'', '6', '9'] + s15;
    lemma_control_word_read(seq!['\'', '6', '9'], s15);
    let s13 = seq!['\\'] + seq!['\'', '7', '2'] + s14;
    lemma_control_word_read(seq!['\'', '7', '2'], s14);
    let s12 = seq!['\\'] + seq!['\'', '4', '1'] + s13;
    lemma_control_word_read(seq!['\'', '4', '1'], s13);
    assert(seq!['\\', '\'', '4', '1', '\\', '\'', '7', '2', '\\', '\'', '6', '9', '\\', '\'', '6', '1', '\\', '\'', '6', 'c', '\\', '\'', '3', 'b', '}', '}', '\n'] + x =~= s12);
}

proof fn lemma_header_formatting(x: Seq<char>)
    ensures
        extract(seq!['\\', 'f', '0', '\\', 'f', 's', '2', '4', '\\', 'l', 'a', 'n', 'g', '1', '0', '7', '4', ' '] + x) == extract(x),
{
    let s24 = x;
    let s23 = seq!['\\'] + seq!['l', 'a', 'n', 'g', '1', '0', '7', '4'] + (seq![' '] + s24);
    lemma_control_word_read(seq!['l', 'a', 'n', 'g', '1', '0', '7', '4'], seq![' '] + s24);
    assert((seq![' '] + s24).skip(1) =~= s24);
    let s22 = seq!['\\'] + seq!['f', 's', '2', '4'] + s23;
    lemma_control_word_read(seq!['f', 's', '2', '4'], s23);
    let s21 = seq!['\\'] + seq!['f', '0'] + s22;
    lemma_control_word_read(seq!['f', '0'], s22);
    assert(seq!['\\', 'f', '0', '\\', 'f', 's', '2', '4', '\\', 'l', 'a', 'n', 'g', '1', '0', '7', '4', ' '] + x =~= s21);
}

/// The fixed header is all markup: reading it gives nothing.
proof fn lemma_header_reads_as_nothing(x: Seq<char>)
    ensures
        extract(header_chars() + x) == extract(x),
{
    let r5 = x;
    let r4 = seq!['\\', 'f', '0', '\\', 'f', 's', '2', '4', '\\', 'l', 'a', 'n', 'g', '1', '0', '7', '4', ' '] + r5;
    lemma_header_formatting(r5);
    let r3 = seq!['\\', '\'', '4', '1', '\\', '\'', '7', '2', '\\', '\'', '6', '9', '\\', '\'', '6', '1', '\\', '\'', '6', 'c', '\\', '\'', '3', 'b', '}', '}', '\n'] + r4;
    lemma_header_font_name(r4);
    let r2 = seq!['\\', 'f', '0', '\\', 'f', 's', 'w', 'i', 's', 's', '\\', 'f', 'c', 'h', 'a', 'r', 's', 'e', 't', '2', '0', '4', ' '] + r3;
    lemma_header_font_entry(r3);
    let r1 = seq!['{', '\\', 'f', 'o', 'n', 't', 't', 'b', 'l', '{'] + r2;
    lemma_header_font_table_open(r2);
    let r0 = seq!['{', '\\', 'r', 't', 'f', '1', '\\', 'a', 'n', 's', 'i', '\\', 'a', 'n', 's', 'i', 'c', 'p', 'g', '6', '5', '0', '0', '1', '\\', 'd', 'e', 'f', 'f', '0', '\n'] + r1;
    lemma_header_preamble(r1);
    let parts = seq!['{', '\\', 'r', 't', 'f', '1', '\\', 'a', 'n', 's', 'i', '\\', 'a', 'n', 's', 'i', 'c', 'p', 'g', '6', '5', '0', '0', '1', '\\', 'd', 'e', 'f', 'f', '0', '\n'] + seq!['{', '\\', 'f', 'o', 'n', 't', 't', 'b', 'l', '{'] + seq!['\\', 'f', '0', '\\', 'f', 's', 'w', 'i', 's', 's', '\\', 'f', 'c', 'h', 'a', 'r', 's', 'e', 't', '2', '0', '4', ' '] + seq!['\\', '\'', '4', '1', '\\', '\'', '7', '2', '\\', '\'', '6', '9', '\\', '\'', '6', '1', '\\', '\'', '6', 'c', '\\', '\'', '3', 'b', '}', '}', '\n'] + seq!['\\', 'f', '0', '\\', 'f', 's', '2', '4', '\\', 'l', 'a', 'n', 'g', '1', '0', '7', '4', ' '];
    assert(header_chars() =~= parts);
    assert(header_chars() + x =~= r0);
}

proof fn lemma_encode_body_ascii(s: Seq<u32>)
    ensures
        forall|i: int| 0 <= i < encode_body(s).len() ==> #[trigger] encode_body(s)[i] < 128,
    decreases s.len(),
{
    if s.len() > 0 {
        lemma_encode_body_ascii(s.skip(1));
        let c = s[0];
        let e = encode_one(c);
        if c >= 128 {
            let n = signed16(c);
            let v: nat = if n < 0 {
                (-n) as nat
            } else {
                n as nat
            };
            lemma_dec_digits(v);
            assert forall|i: int| 0 <= i < dec_digits(v).len() implies #[trigger] dec_digits(v)[i]
                < 128 by {
                assert(is_digit(ascii_text(dec_digits(v))[i]));
            }
        }
        let b = encode_body(s);
        assert forall|i: int| 0 <= i < b.len() implies #[trigger] b[i] < 128 by {
            if i >= e.len() {
                assert(b[i] == encode_body(s.skip(1))[i - e.len()]);
            }
        }
    }
}

/// Writing code points as a document and reading it back gives the code
/// points again, carriage returns left out, for the code points that
/// `survives_round_trip` admits. The document is
/// valid UTF-8, so that reading its bytes decodes them as they stand.
pub proof fn lemma_document_round_trip(s: Seq<u32>)
    requires
        forall|i: int| 0 <= i < s.len() ==> survives_round_trip(#[trigger] s[i]),
    ensures
        valid_utf8(rtf_document(s)),
        extract(decode_utf8(rtf_document(s))) == drop_cr(s),
{
    reveal_strlit("{\\rtf1\\ansi\\ansicpg65001\\deff0\n{\\fonttbl{\\f0\\fswiss\\fcharset204 \\'41\\'72\\'69\\'61\\'6c\\'3b}}\n\\f0\\fs24\\lang1074 ");
    assert(RTF_HEADER@ =~= header_chars());
    let h = header_chars();
    let tail = encode_body(s) + seq![125u8];
    lemma_encode_body_ascii(s);
    let t = ascii_text(tail);
    let c = h + t;
    assert(vstd::utf8::is_ascii_chars(h));
    assert(vstd::utf8::is_ascii_chars(c)) by {
        assert forall|i: int| 0 <= i < c.len() implies '\0' <= #[trigger] c[i] <= '\u{7f}' by {
            if i >= h.len() {
                assert(c[i] == t[i - h.len()]);
                assert(tail[i - h.len()] < 128);
            }
        }
    }
    vstd::utf8::is_ascii_chars_encode_utf8(h);
    vstd::utf8::is_ascii_chars_encode_utf8(c);
    assert(encode_utf8(c) =~= rtf_document(s)) by {
        assert forall|i: int| 0 <= i < c.len() implies encode_utf8(c)[i] == #[trigger] rtf_document(
            s,
        )[i] by {
            if i >= h.len() {
                assert(c[i] == t[i - h.len()]);
                assert(rtf_document(s)[i] == tail[i - h.len()]);
            } else {
                assert(c[i] == h[i]);
                assert(rtf_document(s)[i] == encode_utf8(h)[i]);
            }
        }
    }
    vstd::utf8::encode_utf8_valid_utf8(c);
    vstd::utf8::encode_utf8_decode_utf8(c);
    lemma_header_reads_as_nothing(t);
    lemma_body_round_trip(s, seq![125u8]);
    assert(ascii_text(seq![125u8]) =~= seq!['}'] + Seq::<char>::empty());
    lemma_plain_char_read('}', Seq::<char>::empty());
    assert(extract(Seq::<char>::empty()) =~= Seq::<u32>::empty());
    assert(drop_cr(s) + Seq::<u32>::empty() =~= drop_cr(s));
}

/// A backslash is written as a doubled backslash and read back as itself.
pub proof fn lemma_backslash_round_trip()
    ensures
        encode_one(92) == seq![92u8, 92u8],
        extract(ascii_text(encode_one(92))) == seq![92u32],
{
    lemma_encode_one_round_trip(92, Seq::<u8>::empty());
    assert(encode_one(92) + Seq::<u8>::empty() =~= encode_one(92));
    assert(ascii_text(Seq::<u8>::empty()) =~= Seq::<char>::empty());
    assert(seq![92u32] + Seq::<u32>::empty() =~= seq![92u32]);
}

} // verus!
