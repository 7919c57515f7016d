use vstd::prelude::*;

verus! {

/// One code point moved down by `k`, left as it is when it is below `k`.
pub open spec fn shift_down(c: u32, k: u32) -> u32 {
    if c >= k {
        (c - k) as u32
    } else {
        c
    }
}

/// Every code point of `s` moved down by `k` (with the clamp of `shift_down`).
pub open spec fn shifted(s: Seq<u32>, k: u32) -> Seq<u32> {
    s.map_values(|c: u32| shift_down(c, k))
}

/// Undoes a shift by `k`: code points at or above `k` lose `k`, smaller ones
/// pass through unchanged.
pub fn decrypt(codepoints: &[u32], k: u32) -> (r: Vec<u32>)
    ensures
        r@ == shifted(codepoints@, k),
{
    let mut out: Vec<u32> = Vec::with_capacity(codepoints.len());
    let mut i: usize = 0;
    while i < codepoints.len()
        invariant
            i <= codepoints@.len(),
            out@ == shifted(codepoints@.subrange(0, i as int), k),
        decreases codepoints@.len() - i,
    {
        let cp = codepoints[i];
        let v: u32 = if cp >= k { cp - k } else { cp };
        out.push(v);
        proof {
            assert(codepoints@.subrange(0, i + 1) =~= codepoints@.subrange(0, i as int).push(cp));
            assert(out@ =~= shifted(codepoints@.subrange(0, i + 1), k));
        }
        i += 1;
    }
    proof {
        assert(codepoints@.subrange(0, i as int) =~= codepoints@);
    }
    out
}

/// Two different keys give two different results on any sequence that holds a
/// code point at or above both keys.
pub proof fn lemma_distinct_keys_differ(s: Seq<u32>, k1: u32, k2: u32)
    requires
        k1 != k2,
        exists|i: int| 0 <= i < s.len() && #[trigger] s[i] >= k1 && s[i] >= k2,
    ensures
        shifted(s, k1) != shifted(s, k2),
{
    let i = choose|i: int| 0 <= i < s.len() && #[trigger] s[i] >= k1 && s[i] >= k2;
    assert(shifted(s, k1)[i] != shifted(s, k2)[i]);
}

/// A code point below the key is passed through as it is: never wrapped,
/// never made negative.
pub proof fn lemma_clamped_unchanged(s: Seq<u32>, k: u32, i: int)
    requires
        0 <= i < s.len(),
        s[i] < k,
    ensures
        shifted(s, k)[i] == s[i],
{
}

} // verus!
