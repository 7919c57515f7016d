use vstd::prelude::*;

verus! {

/// A plausibility score held exactly as the fraction `num / den`.
#[derive(Clone, Copy, Debug, PartialEq, Eq, Structural)]
pub struct Score {
    pub num: i128,
    pub den: usize,
}

/// Shortest sequence that gets a score other than zero.
pub const MIN_SCORED_LEN: usize = 100;

pub open spec fn is_space(c: u32) -> bool {
    c == 32
}

pub open spec fn is_ascii_letter(c: u32) -> bool {
    (65 <= c && c <= 90) || (97 <= c && c <= 122)
}

/// The Turkmen letters beyond ASCII: Ä Ç Ň Ö Ş Ü Ý Ž, both cases.
pub open spec fn is_turkmen_special(c: u32) -> bool {
    c == 0xC4 || c == 0xE4 || c == 0xC7 || c == 0xE7 || c == 0x147 || c == 0x148 || c == 0xD6
        || c == 0xF6 || c == 0x15E || c == 0x15F || c == 0xDC || c == 0xFC || c == 0xDD || c
        == 0xFD || c == 0x17D || c == 0x17E
}

pub open spec fn is_printable(c: u32) -> bool {
    32 <= c && c < 0x10000
}

pub open spec fn is_high(c: u32) -> bool {
    c > 0x5000
}

/// Control characters other than tab, newline and carriage return.
pub open spec fn is_stray_control(c: u32) -> bool {
    c < 32 && c != 9 && c != 10 && c != 13
}

/// Letters that are frequent in Turkmen text.
pub open spec fn is_frequent(c: u32) -> bool {
    c == 97 || c == 101 || c == 105 || c == 110 || c == 114 || c == 108 || c == 121 || c == 100
        || c == 109 || c == 107 || c == 0xFD || c == 0xDD || c == 0xE4 || c == 0xC4 || c == 0x148
        || c == 0x147
}

/// How many code points of `s` the predicate holds of.
pub open spec fn count_where(s: Seq<u32>, p: spec_fn(u32) -> bool) -> nat
    decreases s.len(),
{
    if s.len() == 0 {
        0
    } else {
        count_where(s.drop_last(), p) + if p(s.last()) {
            1nat
        } else {
            0nat
        }
    }
}

pub open spec fn spaces(s: Seq<u32>) -> nat {
    count_where(s, |c: u32| is_space(c))
}

pub open spec fn ascii_letters(s: Seq<u32>) -> nat {
    count_where(s, |c: u32| is_ascii_letter(c))
}

pub open spec fn specials(s: Seq<u32>) -> nat {
    count_where(s, |c: u32| is_turkmen_special(c))
}

pub open spec fn printables(s: Seq<u32>) -> nat {
    count_where(s, |c: u32| is_printable(c))
}

pub open spec fn highs(s: Seq<u32>) -> nat {
    count_where(s, |c: u32| is_high(c))
}

pub open spec fn stray_controls(s: Seq<u32>) -> nat {
    count_where(s, |c: u32| is_stray_control(c))
}

pub open spec fn frequents(s: Seq<u32>) -> nat {
    count_where(s, |c: u32| is_frequent(c))
}

/// `lo/1000 < c/n < hi/1000`.
pub open spec fn within(c: nat, n: nat, lo: nat, hi: nat) -> bool {
    lo * n < 1000 * c && 1000 * c < hi * n
}

/// `c/n > lo/1000`.
pub open spec fn above(c: nat, n: nat, lo: nat) -> bool {
    lo * n < 1000 * c
}

pub open spec fn space_points(c: nat, n: nat) -> int {
    if within(c, n, 100, 200) {
        40
    } else if within(c, n, 70, 250) {
        20
    } else if within(c, n, 40, 300) {
        5
    } else {
        -20
    }
}

pub open spec fn letter_points(c: nat, n: nat) -> int {
    if within(c, n, 550, 800) {
        40
    } else if within(c, n, 450, 850) {
        20
    } else if above(c, n, 350) {
        5
    } else {
        -10
    }
}

pub open spec fn special_points(c: nat, n: nat) -> int {
    if within(c, n, 10, 120) {
        50
    } else if within(c, n, 5, 180) {
        25
    } else if c > 0 {
        5
    } else {
        0
    }
}

pub open spec fn printable_points(c: nat, n: nat) -> int {
    if above(c, n, 970) {
        15
    } else if 1000 * c < 850 * n {
        -30
    } else {
        0
    }
}

pub open spec fn frequent_points(c: nat, n: nat) -> int {
    if above(c, n, 200) {
        20
    } else {
        0
    }
}

/// Sum of the banded signals of `s`.
pub open spec fn band_total(s: Seq<u32>) -> int {
    let n = s.len();
    space_points(spaces(s), n) + letter_points(ascii_letters(s), n) + special_points(
        specials(s),
        n,
    ) + printable_points(printables(s), n) + frequent_points(frequents(s), n)
}

/// The score of `s` times its length: banded signals less the linear
/// penalties for very high code points (100 each) and stray controls (80 each).
pub open spec fn score_num(s: Seq<u32>) -> int {
    if s.len() < 100 {
        0
    } else {
        band_total(s) * s.len() - 100 * highs(s) - 80 * stray_controls(s)
    }
}

/// The denominator of the score of `s`: its length, or 1 when it is too short
/// to be scored.
pub open spec fn score_den(s: Seq<u32>) -> nat {
    if s.len() < 100 {
        1
    } else {
        s.len()
    }
}

fn count_step(cnt: usize, hit: bool) -> (r: usize)
    requires
        cnt < usize::MAX,
    ensures
        r == cnt + if hit {
            1nat
        } else {
            0nat
        },
{
    if hit {
        cnt + 1
    } else {
        cnt
    }
}

proof fn lemma_scaled_fits(k: nat, n: nat)
    requires
        k <= 1000,
        n <= usize::MAX,
    ensures
        k * n <= 1000 * 0xffff_ffff_ffff_ffff,
{
    assert(k * n <= 1000 * 0xffff_ffff_ffff_ffff) by (nonlinear_arith)
        requires
            k <= 1000,
            n <= 0xffff_ffff_ffff_ffff,
    ;
}

fn within_exec(c: usize, n: usize, lo: u128, hi: u128) -> (b: bool)
    requires
        lo <= 1000,
        hi <= 1000,
    ensures
        b == within(c as nat, n as nat, lo as nat, hi as nat),
{
    proof {
        lemma_scaled_fits(lo as nat, n as nat);
        lemma_scaled_fits(hi as nat, n as nat);
    }
    let c = c as u128;
    let n = n as u128;
    lo * n < 1000 * c && 1000 * c < hi * n
}

fn above_exec(c: usize, n: usize, lo: u128) -> (b: bool)
    requires
        lo <= 1000,
    ensures
        b == above(c as nat, n as nat, lo as nat),
{
    proof {
        lemma_scaled_fits(lo as nat, n as nat);
    }
    let c = c as u128;
    let n = n as u128;
    lo * n < 1000 * c
}

fn band_points(sp: usize, al: usize, tk: usize, pr: usize, fq: usize, n: usize) -> (r: i128)
    ensures
        r == space_points(sp as nat, n as nat) + letter_points(al as nat, n as nat)
            + special_points(tk as nat, n as nat) + printable_points(pr as nat, n as nat)
            + frequent_points(fq as nat, n as nat),
        -60 <= r <= 165,
{
    let a: i128 = if within_exec(sp, n, 100, 200) {
        40
    } else if within_exec(sp, n, 70, 250) {
        20
    } else if within_exec(sp, n, 40, 300) {
        5
    } else {
        -20
    };
    let b: i128 = if within_exec(al, n, 550, 800) {
        40
    } else if within_exec(al, n, 450, 850) {
        20
    } else if above_exec(al, n, 350) {
        5
    } else {
        -10
    };
    let c: i128 = if within_exec(tk, n, 10, 120) {
        50
    } else if within_exec(tk, n, 5, 180) {
        25
    } else if tk > 0 {
        5
    } else {
        0
    };
    proof {
        lemma_scaled_fits(850, n as nat);
    }
    let d: i128 = if above_exec(pr, n, 970) {
        15
    } else if 1000 * (pr as u128) < 850 * (n as u128) {
        -30
    } else {
        0
    };
    let e: i128 = if above_exec(fq, n, 200) {
        20
    } else {
        0
    };
    a + b + c + d + e
}

/// How plausible `cps` is as Turkmen text: zero below 100 code points, else
/// the weighted signals, as an exact fraction over the length.
pub fn score(cps: &[u32]) -> (r: Score)
    ensures
        r.num == score_num(cps@),
        r.den == score_den(cps@),
        cps@.len() < 100 ==> r.num == 0 && r.den == 1,
{
    let n = cps.len();
    if n < MIN_SCORED_LEN {
        return Score { num: 0, den: 1 };
    }
    let mut sp: usize = 0;
    let mut al: usize = 0;
    let mut tk: usize = 0;
    let mut pr: usize = 0;
    let mut hi: usize = 0;
    let mut ct: usize = 0;
    let mut fq: usize = 0;
    let mut i: usize = 0;
    while i < n
        invariant
            i <= n,
            n == cps@.len(),
            sp == spaces(cps@.take(i as int)),
            al == ascii_letters(cps@.take(i as int)),
            tk == specials(cps@.take(i as int)),
            pr == printables(cps@.take(i as int)),
            hi == highs(cps@.take(i as int)),
            ct == stray_controls(cps@.take(i as int)),
            fq == frequents(cps@.take(i as int)),
            sp <= i,
            al <= i,
            tk <= i,
            pr <= i,
            hi <= i,
            ct <= i,
            fq <= i,
        decreases n - i,
    {
        let c = cps[i];
        proof {
            assert(cps@.take(i + 1).drop_last() =~= cps@.take(i as int));
            assert(cps@.take(i + 1).last() == c);
        }
        sp = count_step(sp, c == 32);
        al = count_step(al, (65 <= c && c <= 90) || (97 <= c && c <= 122));
        tk = count_step(
            tk,
            c == 0xC4 || c == 0xE4 || c == 0xC7 || c == 0xE7 || c == 0x147 || c == 0x148 || c
                == 0xD6 || c == 0xF6 || c == 0x15E || c == 0x15F || c == 0xDC || c == 0xFC || c
                == 0xDD || c == 0xFD || c == 0x17D || c == 0x17E,
        );
        pr = count_step(pr, 32 <= c && c < 0x10000);
        hi = count_step(hi, c > 0x5000);
        ct = count_step(ct, c < 32 && c != 9 && c != 10 && c != 13);
        fq = count_step(
            fq,
            c == 97 || c == 101 || c == 105 || c == 110 || c == 114 || c == 108 || c == 121 || c
                == 100 || c == 109 || c == 107 || c == 0xFD || c == 0xDD || c == 0xE4 || c == 0xC4
                || c == 0x148 || c == 0x147,
        );
        i += 1;
    }
    proof {
        assert(cps@.take(n as int) =~= cps@);
    }
    let bands = band_points(sp, al, tk, pr, fq, n);
    assert(bands == band_total(cps@));
    let nn = n as i128;
    proof {
        assert(nn <= 0xffff_ffff_ffff_ffff);
        assert(-60 * nn <= bands * nn <= 165 * nn) by (nonlinear_arith)
            requires
                -60 <= bands <= 165,
                nn >= 0,
        ;
    }
    let prod = bands * nn;
    let num = prod - 100 * (hi as i128) - 80 * (ct as i128);
    Score { num, den: n }
}

/// The score depends on the code points alone: equal inputs score equally.
pub proof fn lemma_score_reproducible(a: Seq<u32>, b: Seq<u32>)
    requires
        a == b,
    ensures
        score_num(a) == score_num(b),
        score_den(a) == score_den(b),
{
}

/// Fewer than 100 code points score exactly zero, whatever they are.
pub proof fn lemma_short_scores_zero(s: Seq<u32>)
    requires
        s.len() < 100,
    ensures
        score_num(s) == 0,
{
}

} // verus!
