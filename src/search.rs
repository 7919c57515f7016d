use vstd::prelude::*;
use crate::score::{score, score_den, score_num, Score};
use crate::shift::{decrypt, shifted};

verus! {

/// Longest prefix of the document that the search scores.
pub const SAMPLE_LEN: usize = 3000;

/// Keys tried: 1 up to and including this one.
pub const LAST_KEY: u32 = 19999;

/// How many of the best candidates are kept.
pub const TOP_LEN: usize = 10;

/// A key with the score that its decryption of the sample got.
#[derive(Clone, Copy, Debug, PartialEq, Eq, Structural)]
pub struct Candidate {
    pub score: Score,
    pub key: u32,
}

/// What the key search found: the best key with its score, and the best
/// candidates, best first.
#[derive(Debug)]
pub struct SearchOutcome {
    pub best_key: u32,
    pub best_score: Score,
    pub top: Vec<Candidate>,
}

/// The prefix of the document that the search scores.
pub open spec fn sample_of(s: Seq<u32>) -> Seq<u32> {
    if s.len() <= 3000 {
        s
    } else {
        s.take(3000)
    }
}

/// The score of key `k` on `sample`, times the sample's length. Every key
/// shares the denominator `score_den(sample)`, so these compare as the scores do.
pub open spec fn key_score(sample: Seq<u32>, k: u32) -> int {
    score_num(shifted(sample, k))
}

/// Key `a` ranks before key `b`: a higher score, or an equal score and a
/// lower key.
pub open spec fn ranks_before(sample: Seq<u32>, a: u32, b: u32) -> bool {
    key_score(sample, a) > key_score(sample, b) || (key_score(sample, a) == key_score(sample, b)
        && a < b)
}

/// `1 <= k < hi`.
pub open spec fn key_below(k: u32, hi: int) -> bool {
    1 <= k && k < hi
}

/// `c` holds the score of its key on `sample`.
pub open spec fn scored(sample: Seq<u32>, c: Candidate) -> bool {
    c.score.num == key_score(sample, c.key) && c.score.den == score_den(sample)
}

/// `b` ranks before every other key below `hi`.
pub open spec fn is_best_below(sample: Seq<u32>, b: u32, hi: int) -> bool {
    &&& key_below(b, hi)
    &&& forall|k: u32| key_below(k, hi) && k != b ==> ranks_before(sample, b, k)
}

/// `top` lists the keys below `hi` that rank first, at most ten, in rank order.
pub open spec fn is_top_below(sample: Seq<u32>, top: Seq<Candidate>, hi: int) -> bool {
    &&& top.len() == if hi - 1 < 10 {
        hi - 1
    } else {
        10
    }
    &&& forall|i: int| 0 <= i < top.len() ==> key_below(#[trigger] top[i].key, hi) && scored(sample, top[i])
    &&& forall|i: int, j: int|
        0 <= i < j < top.len() ==> ranks_before(sample, #[trigger] top[i].key, #[trigger] top[j].key)
    &&& forall|k: u32|
        key_below(k, hi) && missing(top, k) ==> top.len() == 10 && ranks_before(
            sample,
            top[9].key,
            k,
        )
}

/// No entry of `top` is for key `k`.
pub open spec fn missing(top: Seq<Candidate>, k: u32) -> bool {
    forall|i: int| 0 <= i < top.len() ==> #[trigger] top[i].key != k
}

/// Puts `cand` into `top` after every entry whose score is at least its own.
fn insert_ranked(top: &mut Vec<Candidate>, cand: Candidate) -> (p: usize)
    requires
        old(top)@.len() < usize::MAX,
        forall|i: int, j: int|
            0 <= i < j < old(top)@.len() ==> #[trigger] old(top)@[i].score.num >= #[trigger] old(
                top,
            )@[j].score.num,
    ensures
        p <= old(top)@.len(),
        final(top)@ == old(top)@.insert(p as int, cand),
        forall|i: int| 0 <= i < p ==> #[trigger] old(top)@[i].score.num >= cand.score.num,
        forall|i: int| p <= i < old(top)@.len() ==> #[trigger] old(top)@[i].score.num < cand.score.num,
{
    let mut p: usize = 0;
    while p < top.len() && top[p].score.num >= cand.score.num
        invariant
            p <= top@.len(),
            top@ == old(top)@,
            forall|i: int| 0 <= i < p ==> #[trigger] top@[i].score.num >= cand.score.num,
        decreases top@.len() - p,
    {
        p += 1;
    }
    proof {
        assert forall|i: int| p <= i < top@.len() implies #[trigger] top@[i].score.num
            < cand.score.num by {
            if i > p {
                assert(top@[p as int].score.num >= top@[i].score.num);
            }
        }
    }
    top.insert(p, cand);
    p
}

/// A key search part way through: the keys below `next_key` have been tried
/// on the sample, and the best key and the top list so far are kept.
pub struct SearchState {
    sample: Vec<u32>,
    next_key: u32,
    best_key: u32,
    best_score: Score,
    top: Vec<Candidate>,
}

impl SearchState {
    /// The code points that the search scores.
    pub closed spec fn sample_seq(&self) -> Seq<u32> {
        self.sample@
    }

    /// The next key to try.
    pub closed spec fn next(&self) -> u32 {
        self.next_key
    }

    /// The best key and the top list hold for the keys tried so far.
    pub closed spec fn wf(&self) -> bool {
        &&& 1 <= self.next_key <= LAST_KEY + 1
        &&& self.next_key > 1 ==> is_best_below(self.sample@, self.best_key, self.next_key as int)
        &&& self.next_key > 1 ==> scored(
            self.sample@,
            Candidate { score: self.best_score, key: self.best_key },
        )
        &&& is_top_below(self.sample@, self.top@, self.next_key as int)
    }

    /// A search of `cps` with no key tried yet.
    pub fn start(cps: &[u32]) -> (r: SearchState)
        ensures
            r.wf(),
            r.sample_seq() == sample_of(cps@),
            r.next() == 1,
    {
        let m: usize = if cps.len() < SAMPLE_LEN {
            cps.len()
        } else {
            SAMPLE_LEN
        };
        let sample = vstd::slice::slice_to_vec(&cps[0..m]);
        let r = SearchState {
            sample,
            next_key: 1,
            best_key: 1,
            best_score: Score { num: 0, den: 1 },
            top: Vec::new(),
        };
        assert(r.sample@ =~= sample_of(cps@));
        r
    }

    pub fn next_key(&self) -> (r: u32)
        ensures
            r == self.next(),
    {
        self.next_key
    }

    /// The best key so far, with its score.
    pub fn best_so_far(&self) -> (r: (u32, Score))
        requires
            self.wf(),
            self.next() > 1,
        ensures
            is_best_below(self.sample_seq(), r.0, self.next() as int),
            scored(self.sample_seq(), Candidate { score: r.1, key: r.0 }),
    {
        (self.best_key, self.best_score)
    }

    /// Tries the keys from the next one up to, but not including, `upto`
    /// (and no key above 19999).
    pub fn advance(&mut self, upto: u32)
        requires
            old(self).wf(),
        ensures
            final(self).wf(),
            final(self).sample_seq() == old(self).sample_seq(),
            final(self).next() as int == if upto <= old(self).next() {
                old(self).next() as int
            } else if upto > LAST_KEY + 1 {
                LAST_KEY + 1
            } else {
                upto as int
            },
    {
        let ghost smp = self.sample@;
        while self.next_key < upto && self.next_key <= LAST_KEY
            invariant
                self.wf(),
                self.sample@ == smp,
                old(self).next_key <= self.next_key,
                self.next_key <= old(self).next_key || self.next_key <= upto,
            decreases LAST_KEY + 1 - self.next_key,
        {
            let k = self.next_key;
            let dec = decrypt(self.sample.as_slice(), k);
            let sc = score(dec.as_slice());
            assert(sc.num == key_score(smp, k));
            assert(dec@.len() == smp.len());
            let cand = Candidate { score: sc, key: k };
            let ghost prev = self.best_key;
            if k == 1 || sc.num > self.best_score.num {
                self.best_key = k;
                self.best_score = sc;
            }
            proof {
                assert forall|q: u32| key_below(q, k + 1) && q != self.best_key implies ranks_before(
                    smp,
                    self.best_key,
                    q,
                ) by {
                    if q != k {
                        assert(key_below(q, k as int));
                        if q != prev {
                            assert(ranks_before(smp, prev, q));
                        }
                    }
                }
            }
            let ghost t = self.top@;
            if self.top.len() < TOP_LEN || sc.num > self.top[self.top.len() - 1].score.num {
                proof {
                    assert forall|i: int, j: int| 0 <= i < j < t.len() implies #[trigger] t[i].score.num
                        >= #[trigger] t[j].score.num by {
                        assert(ranks_before(smp, t[i].key, t[j].key));
                    }
                }
                let p = insert_ranked(&mut self.top, cand);
                if self.top.len() > TOP_LEN {
                    self.top.pop();
                }
                proof {
                    lemma_insert_keeps_top(smp, t, cand, p as int, k as int, self.top@);
                }
            } else {
                proof {
                    assert forall|q: u32| key_below(q, k + 1) && missing(t, q) implies t.len() == 10
                        && ranks_before(smp, t[9].key, q) by {
                        if q != k {
                            assert(key_below(q, k as int));
                        }
                    }
                }
            }
            self.next_key = k + 1;
        }
    }

    /// What a search that has tried every key found.
    pub fn finish(self) -> (r: SearchOutcome)
        requires
            self.wf(),
            self.next() == LAST_KEY + 1,
        ensures
            is_best_below(self.sample_seq(), r.best_key, LAST_KEY + 1),
            scored(self.sample_seq(), Candidate { score: r.best_score, key: r.best_key }),
            is_top_below(self.sample_seq(), r.top@, LAST_KEY + 1),
    {
        SearchOutcome { best_key: self.best_key, best_score: self.best_score, top: self.top }
    }
}

/// Tries every key from 1 to 19999 on the first 3000 code points and keeps the
/// best key (the lowest among equal best scores) and the ten best candidates.
pub fn search_key(cps: &[u32]) -> (r: SearchOutcome)
    ensures
        is_best_below(sample_of(cps@), r.best_key, LAST_KEY + 1),
        scored(sample_of(cps@), Candidate { score: r.best_score, key: r.best_key }),
        is_top_below(sample_of(cps@), r.top@, LAST_KEY + 1),
{
    let mut state = SearchState::start(cps);
    state.advance(LAST_KEY + 1);
    state.finish()
}

proof fn lemma_insert_keeps_top(
    smp: Seq<u32>,
    t: Seq<Candidate>,
    cand: Candidate,
    p: int,
    k: int,
    after: Seq<Candidate>,
)
    requires
        1 <= k,
        is_top_below(smp, t, k),
        cand.key == k,
        scored(smp, cand),
        t.len() < 10 || cand.score.num > t[t.len() - 1].score.num,
        0 <= p <= t.len(),
        forall|i: int| 0 <= i < p ==> #[trigger] t[i].score.num >= cand.score.num,
        forall|i: int| p <= i < t.len() ==> #[trigger] t[i].score.num < cand.score.num,
        after == if t.len() < 10 {
            t.insert(p, cand)
        } else {
            t.insert(p, cand).drop_last()
        },
    ensures
        is_top_below(smp, after, k + 1),
{
    let ins = t.insert(p, cand);
    assert forall|i: int| 0 <= i < ins.len() implies key_below(#[trigger] ins[i].key, k + 1)
        && scored(smp, ins[i]) by {
        if i < p {
            assert(ins[i] == t[i]);
        } else if i > p {
            assert(ins[i] == t[i - 1]);
        }
    }
    assert forall|i: int, j: int| 0 <= i < j < ins.len() implies ranks_before(
        smp,
        #[trigger] ins[i].key,
        #[trigger] ins[j].key,
    ) by {
        if j < p {
            assert(ins[i] == t[i] && ins[j] == t[j]);
        } else if j == p {
            assert(ins[i] == t[i]);
            assert(key_below(t[i].key, k));
        } else if i < p {
            assert(ins[i] == t[i] && ins[j] == t[j - 1]);
        } else if i == p {
            assert(ins[j] == t[j - 1]);
        } else {
            assert(ins[i] == t[i - 1] && ins[j] == t[j - 1]);
        }
    }
    assert forall|i: int| 0 <= i < after.len() implies #[trigger] after[i] == ins[i] by {}
    assert forall|i: int| 0 <= i < after.len() implies key_below(#[trigger] after[i].key, k + 1)
        && scored(smp, after[i]) by {
        assert(after[i] == ins[i]);
    }
    assert forall|i: int, j: int| 0 <= i < j < after.len() implies ranks_before(
        smp,
        #[trigger] after[i].key,
        #[trigger] after[j].key,
    ) by {
        assert(after[i] == ins[i] && after[j] == ins[j]);
    }
    assert forall|q: u32| key_below(q, k + 1) && missing(after, q) implies after.len() == 10 && ranks_before(smp, after[9].key, q) by {
        assert(q != k) by {
            if q == k {
                assert(after[p].key == q);
            }
        }
        assert(key_below(q, k));
        if t.len() < 10 {
            assert forall|i: int| 0 <= i < t.len() implies #[trigger] t[i].key != q by {
                if i < p {
                    assert(after[i] == t[i]);
                } else {
                    assert(after[i + 1] == t[i]);
                }
            }
            assert(t.len() == 10);
        } else {
            assert(after[9] == ins[9]);
            assert(ranks_before(smp, ins[9].key, ins[10].key));
            assert(ins[10] == t[9]);
            if exists|i: int| 0 <= i < t.len() && #[trigger] t[i].key == q {
                let i = choose|i: int| 0 <= i < t.len() && #[trigger] t[i].key == q;
                if i < p {
                    assert(after[i] == t[i]);
                } else if i < 9 {
                    assert(after[i + 1] == t[i]);
                }
                assert(i == 9);
            } else {
                assert(ranks_before(smp, t[9].key, q));
            }
        }
    }
    assert(after.len() == if k < 10 {
        k
    } else {
        10
    });
}

/// A key whose decryption of the sample scores strictly above every other
/// key's is the best key found, and the first of the top list.
pub proof fn lemma_strict_winner_recovered(
    cps: Seq<u32>,
    key: u32,
    best: u32,
    top: Seq<Candidate>,
)
    requires
        key_below(key, LAST_KEY + 1),
        forall|k: u32|
            key_below(k, LAST_KEY + 1) && k != key ==> key_score(sample_of(cps), k) < key_score(
                sample_of(cps),
                key,
            ),
        is_best_below(sample_of(cps), best, LAST_KEY + 1),
        is_top_below(sample_of(cps), top, LAST_KEY + 1),
    ensures
        best == key,
        top[0].key == key,
{
    let smp = sample_of(cps);
    if best != key {
        assert(ranks_before(smp, best, key));
    }
    if top[0].key != key {
        if missing(top, key) {
            assert(ranks_before(smp, top[9].key, key));
        } else {
            let j = choose|j: int| 0 <= j < top.len() && #[trigger] top[j].key == key;
            assert(ranks_before(smp, top[0].key, top[j].key));
        }
    }
}

/// A document of fewer than 100 code points scores zero under every key, so
/// the best key is 1 and the top list holds keys 1 to 10 in order.
pub proof fn lemma_short_document_lowest_keys(
    cps: Seq<u32>,
    best: u32,
    best_score: Score,
    top: Seq<Candidate>,
)
    requires
        cps.len() < 100,
        is_best_below(sample_of(cps), best, LAST_KEY + 1),
        scored(sample_of(cps), Candidate { score: best_score, key: best }),
        is_top_below(sample_of(cps), top, LAST_KEY + 1),
    ensures
        best == 1,
        best_score == (Score { num: 0, den: 1 }),
        forall|i: int| 0 <= i < 10 ==> #[trigger] top[i].key == i + 1,
        forall|i: int| 0 <= i < 10 ==> #[trigger] top[i].score == (Score { num: 0, den: 1 }),
{
    let smp = sample_of(cps);
    assert forall|k: u32| #[trigger] key_score(smp, k) == 0 by {
        assert(shifted(smp, k).len() == smp.len());
    }
    if best != 1 {
        assert(key_below(1, LAST_KEY + 1));
        assert(ranks_before(smp, best, 1));
    }
    lemma_short_top_keys(smp, top, 10);
    assert forall|i: int| 0 <= i < 10 implies #[trigger] top[i].score == (Score { num: 0, den: 1 }) by {
        assert(scored(smp, top[i]));
    }
}

proof fn lemma_short_top_keys(smp: Seq<u32>, top: Seq<Candidate>, n: int)
    requires
        smp.len() < 100,
        forall|k: u32| #[trigger] key_score(smp, k) == 0,
        is_top_below(smp, top, LAST_KEY + 1),
        0 <= n <= 10,
    ensures
        forall|i: int| 0 <= i < n ==> #[trigger] top[i].key == i + 1,
    decreases n,
{
    if n > 0 {
        let i = n - 1;
        lemma_short_top_keys(smp, top, i);
        let k = (i + 1) as u32;
        assert(key_below(k, LAST_KEY + 1));
        if i > 0 {
            assert(ranks_before(smp, top[i - 1].key, top[i].key));
        }
        assert(top[i].key >= k);
        if i < 9 {
            assert(ranks_before(smp, top[i].key, top[9].key));
        }
        if missing(top, k) {
            assert(ranks_before(smp, top[9].key, k));
        }
        let j = choose|j: int| 0 <= j < top.len() && #[trigger] top[j].key == k;
        if j < i {
            assert(top[j].key == j + 1);
        } else if j > i {
            assert(ranks_before(smp, top[i].key, top[j].key));
        }
    }
}

proof fn lemma_rank_order(sample: Seq<u32>, a: u32, b: u32, c: u32)
    ensures
        !ranks_before(sample, a, a),
        a != b ==> ranks_before(sample, a, b) || ranks_before(sample, b, a),
        ranks_before(sample, a, b) ==> !ranks_before(sample, b, a),
        ranks_before(sample, a, b) && ranks_before(sample, b, c) ==> ranks_before(sample, a, c),
{
}

/// Of two full top lists that agree before position `i`, the first does not
/// rank strictly before the second at `i`.
proof fn lemma_top_not_ahead(sample: Seq<u32>, a: Seq<Candidate>, b: Seq<Candidate>, i: int)
    requires
        is_top_below(sample, a, LAST_KEY + 1),
        is_top_below(sample, b, LAST_KEY + 1),
        0 <= i < 10,
        forall|j: int| 0 <= j < i ==> #[trigger] a[j].key == b[j].key,
    ensures
        !ranks_before(sample, a[i].key, b[i].key),
{
    if ranks_before(sample, a[i].key, b[i].key) {
        let x = a[i].key;
        lemma_rank_order(sample, x, b[i].key, b[9].key);
        if exists|j: int| 0 <= j < b.len() && #[trigger] b[j].key == x {
            let j = choose|j: int| 0 <= j < b.len() && #[trigger] b[j].key == x;
            if j < i {
                assert(a[j].key == x);
                assert(ranks_before(sample, a[j].key, a[i].key));
                lemma_rank_order(sample, x, x, x);
            } else if j > i {
                assert(ranks_before(sample, b[i].key, b[j].key));
            }
        } else {
            assert(missing(b, x));
            assert(key_below(x, LAST_KEY + 1));
            assert(ranks_before(sample, b[9].key, x));
            if i < 9 {
                assert(ranks_before(sample, b[i].key, b[9].key));
                lemma_rank_order(sample, b[i].key, b[9].key, x);
            }
        }
    }
}

proof fn lemma_top_prefix(sample: Seq<u32>, a: Seq<Candidate>, b: Seq<Candidate>, i: int)
    requires
        is_top_below(sample, a, LAST_KEY + 1),
        is_top_below(sample, b, LAST_KEY + 1),
        0 <= i <= 10,
    ensures
        forall|j: int| 0 <= j < i ==> #[trigger] a[j].key == b[j].key,
    decreases i,
{
    if i > 0 {
        lemma_top_prefix(sample, a, b, i - 1);
        lemma_rank_order(sample, a[i - 1].key, b[i - 1].key, a[i - 1].key);
        lemma_top_not_ahead(sample, a, b, i - 1);
        lemma_top_not_ahead(sample, b, a, i - 1);
    }
}

/// The top list is fixed by the document: two lists that both meet the
/// search's contract for one sample are equal.
pub proof fn lemma_top_unique(sample: Seq<u32>, a: Seq<Candidate>, b: Seq<Candidate>)
    requires
        is_top_below(sample, a, LAST_KEY + 1),
        is_top_below(sample, b, LAST_KEY + 1),
    ensures
        a == b,
{
    lemma_top_prefix(sample, a, b, 10);
    assert forall|j: int| 0 <= j < 10 implies a[j] == b[j] by {
        assert(a[j].key == b[j].key);
        assert(scored(sample, a[j]) && scored(sample, b[j]));
    }
    assert(a =~= b);
}

/// Searching one document twice gives the same best key, best score and top
/// list: the search's contract admits a single outcome.
pub proof fn lemma_search_deterministic(
    cps: Seq<u32>,
    key1: u32,
    score1: Score,
    top1: Seq<Candidate>,
    key2: u32,
    score2: Score,
    top2: Seq<Candidate>,
)
    requires
        is_best_below(sample_of(cps), key1, LAST_KEY + 1),
        scored(sample_of(cps), Candidate { score: score1, key: key1 }),
        is_top_below(sample_of(cps), top1, LAST_KEY + 1),
        is_best_below(sample_of(cps), key2, LAST_KEY + 1),
        scored(sample_of(cps), Candidate { score: score2, key: key2 }),
        is_top_below(sample_of(cps), top2, LAST_KEY + 1),
    ensures
        key1 == key2,
        score1 == score2,
        top1 == top2,
{
    if key1 != key2 {
        assert(ranks_before(sample_of(cps), key1, key2));
        assert(ranks_before(sample_of(cps), key2, key1));
    }
    lemma_top_unique(sample_of(cps), top1, top2);
}

} // verus!
