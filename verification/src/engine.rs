use vstd::prelude::*;

verus! {

/// Number of nearest neighbours that vote on a transaction.
pub const K: usize = 5;

/// A transaction is approved when the share of fraudulent neighbours is
/// below 6/10, i.e. when `fraud_count / K < 0.6`.
pub open spec fn spec_is_approved(fraud_count: int) -> bool {
    10 * fraud_count < 6 * (K as int)
}

/// Whether a transaction with `fraud_count` fraudulent neighbours among the
/// `K` nearest is approved.
pub fn is_approved(fraud_count: usize) -> (r: bool)
    ensures
        r == spec_is_approved(fraud_count as int),
        r <==> fraud_count < 3,
{
    fraud_count < 3
}


/// Clusters probed by the first, fast pass of a search.
pub const FAST_NPROBE: usize = 8;

/// Clusters probed when the fast pass is inconclusive.
pub const FULL_NPROBE: usize = 24;

/// Code of `+∞` among the order codes of distances: a distance whose code is
/// not below it never enters a top-N selection.
pub const INFINITY_KEY: u32 = 0xff80_0000;

/// The code of an `f32` bit pattern in the total order of `f32::total_cmp`:
/// negative values (sign bit set) have all bits flipped, the others only the
/// sign bit, so that codes compare as unsigned integers in that order.
pub open spec fn spec_total_order_key(bits: u32) -> u32 {
    if bits & 0x8000_0000 != 0 {
        !bits
    } else {
        bits | 0x8000_0000
    }
}

/// The bit pattern is a NaN.
pub open spec fn is_nan_bits(bits: u32) -> bool {
    bits & 0x7fff_ffff > 0x7f80_0000
}

/// The code of an `f32` bit pattern for comparisons by `<`: as in the total
/// order, except that `-0.0` shares the code of `+0.0` and every NaN takes
/// `u32::MAX`, above `INFINITY_KEY`, so that no selection bounded by it
/// takes a NaN.
pub open spec fn spec_order_key(bits: u32) -> u32 {
    if is_nan_bits(bits) {
        u32::MAX
    } else if bits == 0x8000_0000 {
        0x8000_0000
    } else {
        spec_total_order_key(bits)
    }
}

/// The code of the `f32` whose bit pattern is `bits` in the order of
/// `f32::total_cmp` (see `spec_total_order_key`).
pub fn total_order_key(bits: u32) -> (r: u32)
    ensures
        r == spec_total_order_key(bits),
{
    if bits & 0x8000_0000 != 0 {
        !bits
    } else {
        bits | 0x8000_0000
    }
}

/// The code of the `f32` whose bit pattern is `bits` for comparisons by `<`
/// (see `spec_order_key`).
pub fn order_key(bits: u32) -> (r: u32)
    ensures
        r == spec_order_key(bits),
{
    if bits & 0x7fff_ffff > 0x7f80_0000 {
        u32::MAX
    } else if bits == 0x8000_0000 {
        0x8000_0000
    } else {
        total_order_key(bits)
    }
}

/// The bit pattern whose code in the total order is `key`: the inverse of
/// `spec_total_order_key`.
pub open spec fn spec_key_bits(key: u32) -> u32 {
    if key & 0x8000_0000 != 0 {
        key & 0x7fff_ffff
    } else {
        !key
    }
}

/// The `f32` bit pattern of an order code (see `spec_key_bits`); for codes
/// that `order_key` gives to numbers it returns the number itself, with
/// `-0.0` read back as `+0.0`.
pub fn key_bits(key: u32) -> (r: u32)
    ensures
        r == spec_key_bits(key),
        spec_total_order_key(r) == key,
{
    assert(key & 0x8000_0000 != 0 ==> (key & 0x7fff_ffff) & 0x8000_0000 == 0 && (key
        & 0x7fff_ffff) | 0x8000_0000 == key) by (bit_vector);
    assert(key & 0x8000_0000 == 0 ==> (!key) & 0x8000_0000 != 0 && !(!key) == key) by (bit_vector);
    if key & 0x8000_0000 != 0 {
        key & 0x7fff_ffff
    } else {
        !key
    }
}

/// Order codes keep the order of non-negative values: for bit patterns of
/// numbers with the sign bit clear, the codes compare as the patterns do;
/// `+∞` (`0x7f80_0000`) has the code `INFINITY_KEY`; `-0.0` and `+0.0` share
/// a code; a NaN's code is above `INFINITY_KEY`.
pub proof fn lemma_order_key_monotone(a: u32, b: u32, n: u32)
    requires
        a <= 0x7f80_0000,
        b <= 0x7f80_0000,
        is_nan_bits(n),
    ensures
        a < b <==> spec_order_key(a) < spec_order_key(b),
        spec_order_key(0x7f80_0000) == INFINITY_KEY,
        spec_order_key(0x8000_0000) == spec_order_key(0),
        spec_order_key(n) > INFINITY_KEY,
{
    assert(a & 0x7fff_ffff == a && a & 0x8000_0000 == 0 && a | 0x8000_0000 == a + 0x8000_0000)
        by (bit_vector)
        requires
            a <= 0x7f80_0000u32,
    ;
    assert(b & 0x7fff_ffff == b && b & 0x8000_0000 == 0 && b | 0x8000_0000 == b + 0x8000_0000)
        by (bit_vector)
        requires
            b <= 0x7f80_0000u32,
    ;
    assert(0x7f80_0000u32 & 0x7fff_ffff == 0x7f80_0000u32 && 0x7f80_0000u32 & 0x8000_0000 == 0
        && 0x7f80_0000u32 | 0x8000_0000 == 0xff80_0000u32) by (bit_vector);
    assert(0u32 & 0x7fff_ffff == 0 && 0u32 & 0x8000_0000 == 0 && 0u32 | 0x8000_0000 == 0x8000_0000u32
        && 0x8000_0000u32 & 0x7fff_ffff == 0) by (bit_vector);
}

/// Number of entries of `keys` below `bound`.
pub open spec fn count_below(keys: Seq<u32>, bound: int) -> nat
    decreases keys.len(),
{
    if keys.len() == 0 {
        0
    } else {
        count_below(keys.drop_last(), bound) + if keys.last() < bound {
            1nat
        } else {
            0nat
        }
    }
}

/// How many slots of an `n`-way selection over `keys` are filled.
pub open spec fn filled(keys: Seq<u32>, n: int, bound: int) -> int {
    if count_below(keys, bound) < n {
        count_below(keys, bound) as int
    } else {
        n
    }
}

/// `r` selects the smallest entries of `keys` below `bound`: its first
/// `filled` slots hold distinct indices of such entries, the other slots hold
/// 0, and no entry below `bound` that is left out is smaller than one taken.
pub open spec fn selects_smallest(keys: Seq<u32>, n: int, bound: int, r: Seq<usize>) -> bool {
    let f = filled(keys, n, bound);
    &&& r.len() == n
    &&& forall|s: int| 0 <= s < f ==> (#[trigger] r[s]) < keys.len() && keys[r[s] as int] < bound
    &&& forall|s: int, t: int| 0 <= s < t < f ==> r[s] != r[t]
    &&& forall|s: int| f <= s < n ==> #[trigger] r[s] == 0
    &&& forall|j: int, s: int|
        #![trigger keys[j], r[s]]
        0 <= j < keys.len() && keys[j] < bound && !r.subrange(0, f).contains(j as usize) && 0
            <= s < f ==> keys[r[s] as int] <= keys[j]
}

proof fn lemma_count_below_step(keys: Seq<u32>, c: int, bound: int)
    requires
        0 <= c < keys.len(),
    ensures
        count_below(keys.take(c + 1), bound) == count_below(keys.take(c), bound) + if keys[c]
            < bound {
            1nat
        } else {
            0nat
        },
{
    assert(keys.take(c + 1).drop_last() =~= keys.take(c));
}

/// First slot of the largest entry among slots `0..k` of `top`.
pub open spec fn first_max(top: Seq<u64>, k: int) -> int
    decreases k,
{
    if k <= 1 {
        0
    } else {
        let w = first_max(top, k - 1);
        if top[k - 1] > top[w] {
            k - 1
        } else {
            w
        }
    }
}

/// The `n` slots (codes kept, indices kept) after one pass over `keys[..c]`:
/// the slots start at `bound` and index 0; each entry whose code is below the
/// code of the worst slot (the first slot of the largest code) takes that
/// slot. An entry equal to the worst kept code does not, so among equal codes
/// the earlier index stays.
pub open spec fn one_pass(keys: Seq<u32>, n: int, bound: u64, c: int) -> (Seq<u64>, Seq<usize>)
    decreases c,
{
    if c <= 0 {
        (Seq::new(n as nat, |s: int| bound), Seq::new(n as nat, |s: int| 0usize))
    } else {
        let (top, res) = one_pass(keys, n, bound, c - 1);
        let w = first_max(top, n);
        if (keys[c - 1] as u64) < top[w] {
            (top.update(w, keys[c - 1] as u64), res.update(w, (c - 1) as usize))
        } else {
            (top, res)
        }
    }
}

proof fn lemma_first_max_const(top: Seq<u64>, k: int, v: u64)
    requires
        forall|i: int| 0 <= i < k ==> top[i] == v,
    ensures
        first_max(top, k) == 0,
    decreases k,
{
    if k > 1 {
        lemma_first_max_const(top, k - 1, v);
    }
}

/// Keeps the `n` smallest entries of `keys` below `bound` in one pass: each
/// entry replaces the current worst kept one when it is smaller.
fn select_smallest(keys: &[u32], n: usize, bound: u64) -> (r: Vec<usize>)
    requires
        n >= 1,
        bound <= 0x1_0000_0000,
    ensures
        selects_smallest(keys@, n as int, bound as int, r@),
        r@ == one_pass(keys@, n as int, bound, keys@.len() as int).1,
{
    let mut result: Vec<usize> = Vec::new();
    let mut top: Vec<u64> = Vec::new();
    let mut i: usize = 0;
    while i < n
        invariant
            i <= n,
            result@.len() == i,
            top@.len() == i,
            forall|s: int| 0 <= s < i ==> result@[s] == 0 && top@[s] == bound,
        decreases n - i,
    {
        result.push(0);
        top.push(bound);
        i += 1;
    }
    let mut worst: usize = 0;
    let mut c: usize = 0;
    let ghost b = bound as int;
    assert(keys@.take(0) =~= Seq::<u32>::empty());
    assert(top@ =~= one_pass(keys@, n as int, bound, 0).0);
    assert(result@ =~= one_pass(keys@, n as int, bound, 0).1);
    proof {
        lemma_first_max_const(top@, n as int, bound);
    }
    while c < keys.len()
        invariant
            n >= 1,
            c <= keys@.len(),
            result@.len() == n,
            top@.len() == n,
            worst < n,
            top@ == one_pass(keys@, n as int, bound, c as int).0,
            result@ == one_pass(keys@, n as int, bound, c as int).1,
            worst == first_max(top@, n as int),
            ({
                let f = filled(keys@.take(c as int), n as int, b);
                &&& forall|s: int| 0 <= s < f ==> (#[trigger] result@[s]) < c
                &&& forall|s: int| 0 <= s < f ==> #[trigger] top@[s] < b
                &&& forall|s: int| 0 <= s < f ==> #[trigger] top@[s] == keys@[result@[s] as int]
                &&& forall|s: int, t: int| 0 <= s < t < f ==> result@[s] != result@[t]
                &&& forall|s: int| f <= s < n ==> #[trigger] result@[s] == 0
                &&& forall|s: int| f <= s < n ==> #[trigger] top@[s] == b
                &&& forall|s: int| 0 <= s < n ==> #[trigger] top@[s] <= top@[worst as int]
                &&& forall|s: int| 0 <= s < worst ==> #[trigger] top@[s] < top@[worst as int]
                &&& forall|j: int, s: int|
        #![trigger keys@[j], top@[s]]
                    0 <= j < c && keys@[j] < b && !result@.subrange(0, f).contains(j as usize)
                        && 0 <= s < f ==> top@[s] <= keys@[j]
                &&& f < n ==> forall|j: int|
                    0 <= j < c && #[trigger] keys@[j] < b ==> result@.subrange(0, f).contains(
                        j as usize,
                    )
            }),
        decreases keys@.len() - c,
    {
        let ghost f0 = filled(keys@.take(c as int), n as int, b);
        let ghost old_result = result@;
        let ghost old_top = top@;
        proof {
            lemma_count_below_step(keys@, c as int, b);
        }
        let d = keys[c] as u64;
        let ghost worst_before = worst;
        if d < top[worst] {
            top.set(worst, d);
            result.set(worst, c);
            // find the first slot holding the largest value
            let mut w: usize = 0;
            let mut k: usize = 1;
            while k < n
                invariant
                    1 <= k <= n,
                    top@.len() == n,
                    w < k,
                    w == first_max(top@, k as int),
                    forall|s: int| 0 <= s < k ==> #[trigger] top@[s] <= top@[w as int],
                    forall|s: int| 0 <= s < w ==> #[trigger] top@[s] < top@[w as int],
                decreases n - k,
            {
                if top[k] > top[w] {
                    w = k;
                }
                k += 1;
            }
            worst = w;
            proof {
                let f1 = filled(keys@.take(c + 1), n as int, b);
                let ow = old_top.len();
                if f0 < n {
                    // not full: the worst slot was the first empty one
                    if (worst_before as int) < f0 {
                        assert(old_top[worst_before as int] < b);
                        assert(old_top[f0] <= old_top[worst_before as int]);
                    }
                    if (worst_before as int) > f0 {
                        assert(old_top[f0] < old_top[worst_before as int]);
                    }
                    assert(worst_before as int == f0);
                    assert(f1 == f0 + 1);
                    assert(result@.subrange(0, f1) =~= old_result.subrange(0, f0).push(c));
                    if f1 < n {
                        assert forall|j: int|
                            0 <= j < c + 1 && #[trigger] keys@[j] < b implies result@.subrange(
                                0,
                                f1,
                            ).contains(j as usize) by {
                            if j < c {
                                assert(old_result.subrange(0, f0).contains(j as usize));
                                let t = choose|t: int|
                                    0 <= t < f0 && old_result.subrange(0, f0)[t] == j as usize;
                                assert(result@.subrange(0, f1)[t] == j as usize);
                            } else {
                                assert(result@.subrange(0, f1)[f0] == j as usize);
                            }
                        }
                    }
                    assert forall|j: int, s: int|
        #![trigger keys@[j], top@[s]]
                        0 <= j < c + 1 && keys@[j] < b && !result@.subrange(0, f1).contains(
                            j as usize,
                        ) && 0 <= s < f1 implies top@[s] <= keys@[j] by {
                        if j < c {
                            assert(!old_result.subrange(0, f0).contains(j as usize)) by {
                                if old_result.subrange(0, f0).contains(j as usize) {
                                    let t = choose|t: int|
                                        0 <= t < f0 && old_result.subrange(0, f0)[t] == j as usize;
                                    assert(result@.subrange(0, f1)[t] == j as usize);
                                }
                            }
                            // while not full, every entry below the bound was kept
                            assert(keys@[j] < b);
                            assert(false);
                        } else {
                            assert(result@.subrange(0, f1)[f0] == j as usize);
                        }
                    }
                } else {
                    assert(f1 == n);
                    let o = old_result[worst_before as int];
                    assert forall|j: int, s: int|
        #![trigger keys@[j], top@[s]]
                        0 <= j < c + 1 && keys@[j] < b && !result@.subrange(0, f1).contains(
                            j as usize,
                        ) && 0 <= s < f1 implies top@[s] <= keys@[j] by {
                        assert(j != c) by {
                            if j == c {
                                assert(result@.subrange(0, f1)[worst_before as int] == j as usize);
                            }
                        }
                        if j as usize != o {
                            assert(!old_result.subrange(0, f0).contains(j as usize)) by {
                                if old_result.subrange(0, f0).contains(j as usize) {
                                    let t = choose|t: int|
                                        0 <= t < f0 && old_result.subrange(0, f0)[t] == j as usize;
                                    assert(t != worst_before as int);
                                    assert(result@.subrange(0, f1)[t] == j as usize);
                                }
                            }
                            assert(old_top[s] <= keys@[j]);
                            assert(old_top[worst_before as int] <= keys@[j]);
                        } else {
                            assert(keys@[j] == old_top[worst_before as int]);
                            assert(old_top[s] <= old_top[worst_before as int]);
                        }
                    }
                }
                assert forall|s: int, t: int| 0 <= s < t < f1 implies result@[s] != result@[t] by {
                    if s != worst_before as int && t != worst_before as int {
                        assert(old_result[s] != old_result[t]);
                    }
                }
            }
        } else {
            proof {
                let f1 = filled(keys@.take(c + 1), n as int, b);
                if d < b {
                    if f0 < n {
                        assert(old_top[f0] <= old_top[worst_before as int]);
                        assert(old_top[f0] == b);
                        assert(false);
                    }
                    assert(f1 == n);
                    assert forall|j: int, s: int|
        #![trigger keys@[j], top@[s]]
                        0 <= j < c + 1 && keys@[j] < b && !result@.subrange(0, f1).contains(
                            j as usize,
                        ) && 0 <= s < f1 implies top@[s] <= keys@[j] by {
                        if j == c {
                            assert(top@[s] <= top@[worst as int]);
                        }
                    }
                } else {
                    assert(f1 == f0);
                    assert(f1 < n ==> forall|j: int|
                        0 <= j < c + 1 && #[trigger] keys@[j] < b ==> result@.subrange(
                            0,
                            f1,
                        ).contains(j as usize));
                }
            }
        }
        c += 1;
    }
    assert(keys@.take(c as int) =~= keys@);
    proof {
        let f = filled(keys@, n as int, bound as int);
        assert forall|j: int, s: int|
            #![trigger keys@[j], result@[s]]
            0 <= j < keys@.len() && keys@[j] < bound && !result@.subrange(0, f).contains(
                j as usize,
            ) && 0 <= s < f implies keys@[result@[s] as int] <= keys@[j] by {
            assert(top@[s] <= keys@[j]);
        }
        assert forall|s: int| 0 <= s < f implies keys@[(#[trigger] result@[s]) as int] < bound by {
            assert(top@[s] < b);
        }
    }
    result
}

proof fn lemma_count_below_all(keys: Seq<u32>)
    ensures
        count_below(keys, 0x1_0000_0000) == keys.len(),
    decreases keys.len(),
{
    if keys.len() > 0 {
        lemma_count_below_all(keys.drop_last());
    }
}

/// Indices of the `n` smallest distances below `+∞` (given as order codes,
/// see `INFINITY_KEY`), by one pass that replaces the current worst. Where
/// fewer entries are finite, the remaining slots hold 0. Which slot each
/// index lands in, and which of equal distances stays, is that of the pass
/// (`one_pass`). A selection of no slots is only asked of no distances.
pub fn top_n(dists: &[u32], n: usize) -> (r: Vec<usize>)
    requires
        n >= 1 || dists@.len() == 0,
    ensures
        selects_smallest(dists@, n as int, INFINITY_KEY as int, r@),
        n >= 1 ==> r@ == one_pass(dists@, n as int, INFINITY_KEY as u64, dists@.len() as int).1,
{
    if n == 0 {
        return Vec::new();
    }
    select_smallest(dists, n, INFINITY_KEY as u64)
}

/// Indices of the `min(n, dists.len())` smallest distances (given as order
/// codes of a total order); all indices in increasing order when `n` is at
/// least the number of distances.
pub fn top_n_dynamic(dists: &[u32], n: usize) -> (r: Vec<usize>)
    requires
        n >= 1 || dists@.len() == 0,
    ensures
        selects_smallest(
            dists@,
            if n < dists@.len() { n as int } else { dists@.len() as int },
            0x1_0000_0000,
            r@,
        ),
        n >= dists@.len() ==> r@ == Seq::new(dists@.len() as nat, |i: int| i as usize),
{
    let m = if n < dists.len() {
        n
    } else {
        dists.len()
    };
    proof {
        lemma_count_below_all(dists@);
    }
    if m == dists.len() {
        let mut ids: Vec<usize> = Vec::new();
        let mut i: usize = 0;
        while i < dists.len()
            invariant
                i <= dists@.len(),
                ids@.len() == i,
                forall|s: int| 0 <= s < i ==> #[trigger] ids@[s] == s,
            decreases dists@.len() - i,
        {
            ids.push(i);
            i += 1;
        }
        assert forall|j: int, s: int|
            #![trigger dists@[j], ids@[s]]
            0 <= j < dists@.len() && dists@[j] < 0x1_0000_0000 && !ids@.subrange(
                0,
                m as int,
            ).contains(j as usize) && 0 <= s < m implies dists@[ids@[s] as int] <= dists@[j] by {
            assert(ids@.subrange(0, m as int)[j] == j as usize);
        }
        assert(ids@ =~= Seq::new(dists@.len() as nat, |i: int| i as usize));
        return ids;
    }
    select_smallest(dists, m, 0x1_0000_0000)
}

/// Number of fraudulent labels (`1`) among the nearest neighbours found.
pub open spec fn spec_fraud_count(labels: Seq<u8>) -> nat
    decreases labels.len(),
{
    if labels.len() == 0 {
        0
    } else {
        spec_fraud_count(labels.drop_last()) + if labels.last() == 1 {
            1nat
        } else {
            0nat
        }
    }
}

/// The fraud count is the number of labels equal to 1, every position
/// counted: it is the length of the labels kept by the filter `== 1`, it is
/// 0 for no labels, and appending a label adds one exactly when that label is
/// 1.
pub proof fn lemma_fraud_count_counts(labels: Seq<u8>, x: u8)
    ensures
        spec_fraud_count(labels) == labels.filter(|l: u8| l == 1).len(),
        spec_fraud_count(Seq::<u8>::empty()) == 0,
        spec_fraud_count(labels.push(x)) == spec_fraud_count(labels) + if x == 1 {
            1int
        } else {
            0int
        },
    decreases labels.len(),
{
    assert(labels.push(x).drop_last() =~= labels);
    if labels.len() > 0 {
        lemma_fraud_count_counts(labels.drop_last(), labels.last());
    }
    assert(spec_fraud_count(labels) == labels.filter(|l: u8| l == 1).len()) by {
        reveal_with_fuel(Seq::filter, 1);
        if labels.len() > 0 {
            lemma_fraud_count_counts(labels.drop_last(), x);
        }
    }
}

/// Number of fraudulent labels (`1`) among the nearest neighbours found.
pub fn fraud_count(labels: &[u8]) -> (r: usize)
    ensures
        r == spec_fraud_count(labels@),
        r == labels@.filter(|l: u8| l == 1).len(),
        r <= labels@.len(),
{
    proof {
        lemma_fraud_count_counts(labels@, 0);
    }
    let mut count: usize = 0;
    let mut i: usize = 0;
    while i < labels.len()
        invariant
            i <= labels@.len(),
            count == spec_fraud_count(labels@.take(i as int)),
            count <= i,
        decreases labels@.len() - i,
    {
        assert(labels@.take(i + 1).drop_last() =~= labels@.take(i as int));
        if labels[i] == 1 {
            count += 1;
        }
        i += 1;
    }
    assert(labels@.take(i as int) =~= labels@);
    count
}

/// After the fast pass, a search probes `FULL_NPROBE` clusters when the vote
/// is close to the threshold: 2 or 3 fraudulent neighbours of 5.
pub fn needs_full_probe(fast_count: usize) -> (r: bool)
    ensures
        r <==> (fast_count == 2 || fast_count == 3),
{
    fast_count == 2 || fast_count == 3
}

/// The `K` nearest candidates offered so far, by order code of their
/// distance, with their labels; `worst` is the first slot of the largest
/// code, the one a nearer candidate replaces.
pub struct Nearest {
    pub keys: Vec<u32>,
    pub labels: Vec<u8>,
    pub worst: usize,
}

impl Nearest {
    /// `K` slots, and `worst` is the first slot holding the largest code.
    pub open spec fn wf(&self) -> bool {
        &&& self.keys@.len() == K
        &&& self.labels@.len() == K
        &&& self.worst < K
        &&& forall|i: int| 0 <= i < K ==> #[trigger] self.keys@[i] <= self.keys@[self.worst as int]
        &&& forall|i: int| 0 <= i < self.worst ==> #[trigger] self.keys@[i] < self.keys@[self.worst as int]
    }

    /// `K` empty slots: code `INFINITY_KEY`, label 0.
    pub fn new() -> (r: Nearest)
        ensures
            r.wf(),
            r.worst == 0,
            forall|i: int| 0 <= i < K ==> r.keys@[i] == INFINITY_KEY && r.labels@[i] == 0,
    {
        let mut keys: Vec<u32> = Vec::new();
        let mut labels: Vec<u8> = Vec::new();
        let mut i: usize = 0;
        while i < K
            invariant
                i <= K,
                keys@.len() == i,
                labels@.len() == i,
                forall|j: int| 0 <= j < i ==> keys@[j] == INFINITY_KEY && labels@[j] == 0,
            decreases K - i,
        {
            keys.push(INFINITY_KEY);
            labels.push(0);
            i += 1;
        }
        Nearest { keys, labels, worst: 0 }
    }

    /// The code of the farthest kept candidate.
    pub fn worst_key(&self) -> (r: u32)
        requires
            self.wf(),
        ensures
            r == self.keys@[self.worst as int],
    {
        self.keys[self.worst]
    }

    /// Offers a candidate: when its code is below the worst kept one it takes
    /// that slot, and `worst` moves to the first slot of the largest code;
    /// otherwise nothing changes.
    pub fn offer(&mut self, key: u32, label: u8)
        requires
            old(self).wf(),
        ensures
            final(self).wf(),
            key < old(self).keys@[old(self).worst as int] ==> {
                &&& final(self).keys@ == old(self).keys@.update(old(self).worst as int, key)
                &&& final(self).labels@ == old(self).labels@.update(old(self).worst as int, label)
            },
            key >= old(self).keys@[old(self).worst as int] ==> *final(self) == *old(self),
    {
        if key < self.keys[self.worst] {
            let w = self.worst;
            self.keys.set(w, key);
            self.labels.set(w, label);
            let mut worst: usize = 0;
            let mut j: usize = 1;
            while j < K
                invariant
                    1 <= j <= K,
                    worst < j,
                    self.keys@.len() == K,
                    forall|i: int| 0 <= i < j ==> #[trigger] self.keys@[i] <= self.keys@[worst as int],
                    forall|i: int| 0 <= i < worst ==> #[trigger] self.keys@[i] < self.keys@[worst as int],
                decreases K - j,
            {
                if self.keys[j] > self.keys[worst] {
                    worst = j;
                }
                j += 1;
            }
            self.worst = worst;
        }
    }
}

} // verus!
