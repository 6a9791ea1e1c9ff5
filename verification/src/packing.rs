//! Building the sections of an index from clustered, quantized vectors: block
//! offsets per cluster, the block-strided vector layout with its labels, and
//! the dimension-major centroid table.
use crate::format::{BLOCK_ELEMS, BLOCK_SIZE, N_DIMS};
use vstd::prelude::*;

verus! {

/// Number of entries of `s` equal to `c`.
pub open spec fn count_in(s: Seq<usize>, c: int) -> nat
    decreases s.len(),
{
    if s.len() == 0 {
        0
    } else {
        count_in(s.drop_last(), c) + if s.last() == c {
            1nat
        } else {
            0nat
        }
    }
}

/// Blocks needed for `n` vectors: `n / 8` rounded up.
pub open spec fn blocks_for(n: nat) -> nat {
    ((n + 7) / 8) as nat
}

/// First block of cluster `c`: the blocks of clusters `0..c` come before it.
pub open spec fn cluster_offset(assign: Seq<usize>, c: int) -> nat
    decreases c,
{
    if c <= 0 {
        0
    } else {
        cluster_offset(assign, c - 1) + blocks_for(count_in(assign, c - 1))
    }
}

/// Position of vector `i` within its cluster: how many earlier vectors were
/// assigned to the same cluster.
pub open spec fn rank(assign: Seq<usize>, i: int) -> nat {
    count_in(assign.take(i), assign[i] as int)
}

/// Label slot of the `j`-th vector of cluster `c`.
pub open spec fn label_pos(assign: Seq<usize>, c: int, j: int) -> int {
    8 * cluster_offset(assign, c) + j
}

/// Value slot of dimension `d` of the `j`-th vector of cluster `c`: block
/// `cluster_offset + j / 8`, row `d`, column `j % 8`.
pub open spec fn block_pos(assign: Seq<usize>, c: int, j: int, d: int) -> int {
    (cluster_offset(assign, c) + j / 8) * 112 + d * 8 + j % 8
}

/// The slots of cluster `c` run up to `8 * blocks_for(count)`; those past the
/// count are padding.
pub open spec fn slot_in_cluster(assign: Seq<usize>, c: int, j: int) -> bool {
    0 <= j < 8 * blocks_for(count_in(assign, c))
}

/// The sections of an index built from clustered vectors.
pub struct PackedClusters {
    /// `n_clusters + 1` block offsets.
    pub offsets: Vec<u32>,
    /// One label per slot; padding slots hold 0.
    pub labels: Vec<u8>,
    /// `BLOCK_ELEMS` quantized values per block; padding slots hold `i16::MAX`.
    pub blocks: Vec<i16>,
}

proof fn lemma_count_take_step(s: Seq<usize>, i: int, c: int)
    requires
        0 <= i < s.len(),
    ensures
        count_in(s.take(i + 1), c) == count_in(s.take(i), c) + if s[i] == c {
            1nat
        } else {
            0nat
        },
{
    assert(s.take(i + 1).drop_last() =~= s.take(i));
}

proof fn lemma_count_take_le(s: Seq<usize>, i: int, c: int)
    requires
        0 <= i <= s.len(),
    ensures
        count_in(s.take(i), c) <= count_in(s, c),
        count_in(s.take(i), c) <= i,
    decreases s.len() - i,
{
    lemma_count_le_len(s.take(i), c);
    if i == s.len() {
        assert(s.take(i) =~= s);
        lemma_count_le_len(s, c);
    } else {
        lemma_count_take_step(s, i, c);
        lemma_count_take_le(s, i + 1, c);
    }
}

proof fn lemma_count_le_len(s: Seq<usize>, c: int)
    ensures
        count_in(s, c) <= s.len(),
    decreases s.len(),
{
    if s.len() > 0 {
        lemma_count_le_len(s.drop_last(), c);
    }
}

/// The vector `i` sits below the count of its cluster.
proof fn lemma_rank_below_count(s: Seq<usize>, i: int)
    requires
        0 <= i < s.len(),
    ensures
        rank(s, i) < count_in(s, s[i] as int),
{
    lemma_count_take_step(s, i, s[i] as int);
    lemma_count_take_le(s, i + 1, s[i] as int);
}

proof fn lemma_offsets_monotone(s: Seq<usize>, a: int, b: int)
    requires
        0 <= a <= b,
    ensures
        cluster_offset(s, a) <= cluster_offset(s, b),
    decreases b - a,
{
    if a < b {
        lemma_offsets_monotone(s, a, b - 1);
    }
}

/// Value and label slots of distinct (cluster, slot, dimension) triples differ,
/// and every slot lies within the blocks of its cluster.
proof fn lemma_pos_in_cluster(s: Seq<usize>, c: int, j: int, d: int)
    requires
        0 <= c,
        slot_in_cluster(s, c, j),
        0 <= d < 14,
    ensures
        112 * cluster_offset(s, c) <= block_pos(s, c, j, d) < 112 * cluster_offset(s, c + 1),
        8 * cluster_offset(s, c) <= label_pos(s, c, j) < 8 * cluster_offset(s, c + 1),
{
    let o = cluster_offset(s, c) as int;
    let nb = blocks_for(count_in(s, c)) as int;
    assert(cluster_offset(s, c + 1) == o + nb);
    assert(j / 8 < nb) by (nonlinear_arith)
        requires
            0 <= j < 8 * nb,
    ;
    assert((o + j / 8) * 112 + d * 8 + j % 8 < 112 * (o + nb)) by (nonlinear_arith)
        requires
            0 <= j,
            j / 8 < nb,
            0 <= d < 14,
            0 <= j % 8 < 8,
    ;
    assert((o + j / 8) * 112 + d * 8 + j % 8 >= 112 * o) by (nonlinear_arith)
        requires
            0 <= j,
            0 <= d,
            0 <= j % 8,
    ;
}

proof fn lemma_block_pos_injective(
    s: Seq<usize>,
    c1: int,
    j1: int,
    d1: int,
    c2: int,
    j2: int,
    d2: int,
)
    requires
        0 <= c1,
        0 <= c2,
        slot_in_cluster(s, c1, j1),
        slot_in_cluster(s, c2, j2),
        0 <= d1 < 14,
        0 <= d2 < 14,
        block_pos(s, c1, j1, d1) == block_pos(s, c2, j2, d2),
    ensures
        c1 == c2 && j1 == j2 && d1 == d2,
{
    lemma_pos_in_cluster(s, c1, j1, d1);
    lemma_pos_in_cluster(s, c2, j2, d2);
    if c1 < c2 {
        lemma_offsets_monotone(s, c1 + 1, c2);
    } else if c2 < c1 {
        lemma_offsets_monotone(s, c2 + 1, c1);
    }
    let o = cluster_offset(s, c1) as int;
    assert(j1 / 8 * 112 + d1 * 8 + j1 % 8 == j2 / 8 * 112 + d2 * 8 + j2 % 8);
    assert(j1 / 8 == j2 / 8 && d1 * 8 + j1 % 8 == d2 * 8 + j2 % 8) by (nonlinear_arith)
        requires
            j1 / 8 * 112 + d1 * 8 + j1 % 8 == j2 / 8 * 112 + d2 * 8 + j2 % 8,
            0 <= d1 < 14,
            0 <= d2 < 14,
            0 <= j1 % 8 < 8,
            0 <= j2 % 8 < 8,
    ;
    assert(d1 == d2 && j1 % 8 == j2 % 8) by (nonlinear_arith)
        requires
            d1 * 8 + j1 % 8 == d2 * 8 + j2 % 8,
            0 <= j1 % 8 < 8,
            0 <= j2 % 8 < 8,
    ;
    assert(j1 == j2) by (nonlinear_arith)
        requires
            j1 / 8 == j2 / 8,
            j1 % 8 == j2 % 8,
            0 <= j1,
            0 <= j2,
    ;
}

proof fn lemma_label_pos_injective(s: Seq<usize>, c1: int, j1: int, c2: int, j2: int)
    requires
        0 <= c1,
        0 <= c2,
        slot_in_cluster(s, c1, j1),
        slot_in_cluster(s, c2, j2),
        label_pos(s, c1, j1) == label_pos(s, c2, j2),
    ensures
        c1 == c2 && j1 == j2,
{
    lemma_pos_in_cluster(s, c1, j1, 0);
    lemma_pos_in_cluster(s, c2, j2, 0);
    if c1 < c2 {
        lemma_offsets_monotone(s, c1 + 1, c2);
    } else if c2 < c1 {
        lemma_offsets_monotone(s, c2 + 1, c1);
    }
}

/// `(n + 7) / 8` without overflow.
fn blocks_for_exec(n: usize) -> (r: usize)
    ensures
        r == blocks_for(n as nat),
{
    n / 8 + if n % 8 != 0 {
        1
    } else {
        0
    }
}

/// Number of vectors per cluster.
fn cluster_counts(k: usize, assign: &[usize]) -> (r: Vec<usize>)
    requires
        forall|i: int| 0 <= i < assign@.len() ==> #[trigger] assign@[i] < k,
    ensures
        r@.len() == k,
        forall|c: int| 0 <= c < k ==> #[trigger] r@[c] == count_in(assign@, c),
{
    let mut counts: Vec<usize> = Vec::new();
    let mut c: usize = 0;
    while c < k
        invariant
            c <= k,
            counts@.len() == c,
            forall|x: int| 0 <= x < c ==> #[trigger] counts@[x] == 0,
        decreases k - c,
    {
        counts.push(0);
        c += 1;
    }
    let mut i: usize = 0;
    assert(assign@.take(0) =~= Seq::<usize>::empty());
    while i < assign.len()
        invariant
            i <= assign@.len(),
            counts@.len() == k,
            forall|x: int| 0 <= x < assign@.len() ==> #[trigger] assign@[x] < k,
            forall|x: int| 0 <= x < k ==> #[trigger] counts@[x] == count_in(assign@.take(i as int), x),
        decreases assign@.len() - i,
    {
        let a = assign[i];
        proof {
            assert forall|x: int| 0 <= x < k implies count_in(assign@.take(i + 1), x) == count_in(
                assign@.take(i as int),
                x,
            ) + if assign@[i as int] == x {
                1nat
            } else {
                0nat
            } by {
                lemma_count_take_step(assign@, i as int, x);
            }
            lemma_count_take_le(assign@, i + 1, a as int);
        }
        counts.set(a, counts[a] + 1);
        i += 1;
    }
    assert(assign@.take(i as int) =~= assign@);
    counts
}

/// Block offsets of the clusters, `k + 1` of them.
fn cluster_offsets(k: usize, assign: &[usize], counts: &[usize]) -> (r: Vec<u32>)
    requires
        k < usize::MAX,
        counts@.len() == k,
        forall|c: int| 0 <= c < k ==> #[trigger] counts@[c] == count_in(assign@, c),
        cluster_offset(assign@, k as int) <= u32::MAX,
    ensures
        r@.len() == k + 1,
        forall|c: int| 0 <= c <= k ==> #[trigger] r@[c] == cluster_offset(assign@, c),
{
    let mut offsets: Vec<u32> = Vec::new();
    offsets.push(0);
    let mut c: usize = 0;
    while c < k
        invariant
            c <= k < usize::MAX,
            counts@.len() == k,
            forall|x: int| 0 <= x < k ==> #[trigger] counts@[x] == count_in(assign@, x),
            cluster_offset(assign@, k as int) <= u32::MAX,
            offsets@.len() == c + 1,
            forall|x: int| 0 <= x <= c ==> #[trigger] offsets@[x] == cluster_offset(assign@, x),
        decreases k - c,
    {
        let nb = blocks_for_exec(counts[c]);
        proof {
            lemma_offsets_monotone(assign@, c + 1, k as int);
        }
        let next = offsets[c] + nb as u32;
        offsets.push(next);
        c += 1;
    }
    offsets
}

/// Vectors `0..i` sit in their value slots.
pub open spec fn placed_blocks(
    assign: Seq<usize>,
    vectors: Seq<[i16; 14]>,
    i: int,
    b: Seq<i16>,
) -> bool {
    forall|i2: int, d: int|
        #![trigger b[block_pos(assign, assign[i2] as int, rank(assign, i2) as int, d)], vectors[i2]@[d]]
        0 <= i2 < i && 0 <= d < 14 ==> b[block_pos(assign, assign[i2] as int, rank(assign, i2) as int, d)]
            == vectors[i2]@[d]
}

/// Labels of vectors `0..i` sit in their label slots.
pub open spec fn placed_labels(assign: Seq<usize>, labels: Seq<u8>, i: int, l: Seq<u8>) -> bool {
    forall|i2: int|
        #![trigger l[label_pos(assign, assign[i2] as int, rank(assign, i2) as int)]]
        0 <= i2 < i ==> l[label_pos(assign, assign[i2] as int, rank(assign, i2) as int)] == labels[i2]
}

/// Slots of cluster `c` from `count_in(assign.take(i), c)` on hold padding.
pub open spec fn padded(assign: Seq<usize>, k: int, i: int, l: Seq<u8>, b: Seq<i16>) -> bool {
    forall|c: int, j: int|
        #![trigger l[label_pos(assign, c, j)]]
        0 <= c < k && count_in(assign.take(i), c) <= j && slot_in_cluster(assign, c, j) ==> {
            &&& l[label_pos(assign, c, j)] == 0
            &&& forall|d: int|
                0 <= d < 14 ==> #[trigger] b[block_pos(assign, c, j, d)] == i16::MAX
        }
}

/// The slots of each cluster past its last vector hold padding: label 0 and
/// `i16::MAX` in every dimension.
pub open spec fn padding_in_place(assign: Seq<usize>, k: int, l: Seq<u8>, b: Seq<i16>) -> bool {
    forall|c: int, j: int|
        #![trigger l[label_pos(assign, c, j)]]
        0 <= c < k && count_in(assign, c) <= j && slot_in_cluster(assign, c, j) ==> {
            &&& l[label_pos(assign, c, j)] == 0
            &&& forall|d: int|
                0 <= d < 14 ==> #[trigger] b[block_pos(assign, c, j, d)] == i16::MAX
        }
}

proof fn lemma_rank_before(s: Seq<usize>, i2: int, i: int)
    requires
        0 <= i2 < i <= s.len(),
    ensures
        rank(s, i2) < count_in(s.take(i), s[i2] as int),
{
    let c = s[i2] as int;
    lemma_count_take_step(s, i2, c);
    assert(s.take(i).take(i2 + 1) =~= s.take(i2 + 1));
    lemma_count_take_le(s.take(i), i2 + 1, c);
}

/// A slot of the row written for one vector is `start + 8 d` for a dimension `d`.
proof fn lemma_row_slot(start: int, p: int)
    requires
        start <= p < start + 112,
        (p - start) % 8 == 0,
    ensures
        p == start + 8 * ((p - start) / 8),
        0 <= (p - start) / 8 < 14,
{
    assert(p == start + 8 * ((p - start) / 8) && 0 <= (p - start) / 8 < 14) by (nonlinear_arith)
        requires
            start <= p < start + 112,
            (p - start) % 8 == 0,
    ;
}

/// Placing vector `i` (its values at `start + 8 d` for `d < 14`, its label at
/// its label slot) keeps the earlier vectors in place and the remaining
/// padding intact.
#[verifier::spinoff_prover]
proof fn lemma_place_step(
    assign: Seq<usize>,
    labels: Seq<u8>,
    vectors: Seq<[i16; 14]>,
    k: int,
    i: int,
    l0: Seq<u8>,
    b0: Seq<i16>,
    l1: Seq<u8>,
    b1: Seq<i16>,
)
    requires
        0 <= i < assign.len(),
        labels.len() == assign.len(),
        vectors.len() == assign.len(),
        forall|x: int| 0 <= x < assign.len() ==> #[trigger] assign[x] < k,
        l0.len() == l1.len() == 8 * cluster_offset(assign, k),
        b0.len() == b1.len() == 112 * cluster_offset(assign, k),
        placed_blocks(assign, vectors, i, b0),
        placed_labels(assign, labels, i, l0),
        padded(assign, k, i, l0, b0),
        ({
            let c = assign[i] as int;
            let j = rank(assign, i) as int;
            let start = block_pos(assign, c, j, 0);
            &&& l1 == l0.update(label_pos(assign, c, j), labels[i])
            &&& forall|p: int|
                0 <= p < b1.len() ==> #[trigger] b1[p] == if start <= p < start + 112 && (p - start)
                    % 8 == 0 {
                    vectors[i]@[(p - start) / 8]
                } else {
                    b0[p]
                }
        }),
    ensures
        placed_blocks(assign, vectors, i + 1, b1),
        placed_labels(assign, labels, i + 1, l1),
        padded(assign, k, i + 1, l1, b1),
{
    let c = assign[i] as int;
    let j = rank(assign, i) as int;
    let start = block_pos(assign, c, j, 0);
    lemma_rank_below_count(assign, i);
    assert(slot_in_cluster(assign, c, j));
    lemma_offsets_monotone(assign, c + 1, k);
    lemma_pos_in_cluster(assign, c, j, 13);
    lemma_pos_in_cluster(assign, c, j, 0);
    assert forall|d: int| 0 <= d < 14 implies #[trigger] block_pos(assign, c, j, d) == start + 8 * d
        by {}
    assert forall|i2: int, d: int|
        0 <= i2 < i + 1 && 0 <= d < 14 implies #[trigger] b1[block_pos(
        assign,
        assign[i2] as int,
        rank(assign, i2) as int,
        d,
    )] == #[trigger] vectors[i2]@[d] by {
        let c2 = assign[i2] as int;
        let j2 = rank(assign, i2) as int;
        let q = block_pos(assign, c2, j2, d);
        lemma_rank_below_count(assign, i2);
        lemma_offsets_monotone(assign, c2 + 1, k);
        lemma_pos_in_cluster(assign, c2, j2, d);
        if i2 == i {
            assert(q == start + 8 * d);
            assert((q - start) / 8 == d) by (nonlinear_arith)
                requires
                    q == start + 8 * d,
            ;
            assert((q - start) % 8 == 0) by (nonlinear_arith)
                requires
                    q == start + 8 * d,
            ;
        } else {
            if start <= q < start + 112 && (q - start) % 8 == 0 {
                let d1 = (q - start) / 8;
                lemma_row_slot(start, q);
                lemma_block_pos_injective(assign, c2, j2, d, c, j, d1);
                lemma_rank_before(assign, i2, i);
                assert(false);
            }
        }
    }
    assert forall|i2: int|
        0 <= i2 < i + 1 implies #[trigger] l1[label_pos(
        assign,
        assign[i2] as int,
        rank(assign, i2) as int,
    )] == labels[i2] by {
        let c2 = assign[i2] as int;
        let j2 = rank(assign, i2) as int;
        lemma_rank_below_count(assign, i2);
        lemma_offsets_monotone(assign, c2 + 1, k);
        lemma_pos_in_cluster(assign, c2, j2, 0);
        if i2 != i && label_pos(assign, c2, j2) == label_pos(assign, c, j) {
            lemma_label_pos_injective(assign, c2, j2, c, j);
            lemma_rank_before(assign, i2, i);
        }
    }
    assert forall|c3: int, j3: int|
        0 <= c3 < k && count_in(assign.take(i + 1), c3) <= j3 && slot_in_cluster(
            assign,
            c3,
            j3,
        ) implies {
        &&& #[trigger] l1[label_pos(assign, c3, j3)] == 0
        &&& forall|d: int| 0 <= d < 14 ==> #[trigger] b1[block_pos(assign, c3, j3, d)] == i16::MAX
    } by {
        lemma_count_take_step(assign, i, c3);
        lemma_offsets_monotone(assign, c3 + 1, k);
        lemma_pos_in_cluster(assign, c3, j3, 0);
        assert(count_in(assign.take(i), c3) <= j3);
        assert(l0[label_pos(assign, c3, j3)] == 0);
        if label_pos(assign, c3, j3) == label_pos(assign, c, j) {
            lemma_label_pos_injective(assign, c3, j3, c, j);
        }
        assert forall|d: int| 0 <= d < 14 implies #[trigger] b1[block_pos(assign, c3, j3, d)]
            == i16::MAX by {
            let q = block_pos(assign, c3, j3, d);
            lemma_pos_in_cluster(assign, c3, j3, d);
            assert(b0[q] == i16::MAX);
            if start <= q < start + 112 && (q - start) % 8 == 0 {
                let d1 = (q - start) / 8;
                lemma_row_slot(start, q);
                lemma_block_pos_injective(assign, c3, j3, d, c, j, d1);
            }
        }
    }
    assert(padded(assign, k, i + 1, l1, b1));
}

/// The cluster whose blocks contain block `b`.
proof fn lemma_block_owner(assign: Seq<usize>, k: int, b: int) -> (c: int)
    requires
        0 <= k,
        0 <= b < cluster_offset(assign, k),
    ensures
        0 <= c < k,
        cluster_offset(assign, c) <= b < cluster_offset(assign, c + 1),
    decreases k,
{
    if b >= cluster_offset(assign, k - 1) {
        k - 1
    } else {
        lemma_block_owner(assign, k - 1, b)
    }
}

/// Every stored value belongs to a slot: each position below
/// `112 * offsets[k]` is the value slot of some cluster, slot and dimension,
/// and each label position the label slot of some cluster and slot. With
/// the two placement clauses and the padding clause of `pack_clusters`, this
/// fixes every value and label it returns.
pub proof fn lemma_slots_cover(assign: Seq<usize>, k: int, p: int)
    requires
        0 <= k,
        0 <= p < 112 * cluster_offset(assign, k),
    ensures
        exists|c: int, j: int, d: int|
            0 <= c < k && slot_in_cluster(assign, c, j) && 0 <= d < 14 && #[trigger] block_pos(
                assign,
                c,
                j,
                d,
            ) == p,
        p < 8 * cluster_offset(assign, k) ==> exists|c: int, j: int|
            0 <= c < k && slot_in_cluster(assign, c, j) && #[trigger] label_pos(assign, c, j) == p,
{
    let b = p / 112;
    let rem = p % 112;
    let d = rem / 8;
    let s = rem % 8;
    assert(p == b * 112 + d * 8 + s && 0 <= b < cluster_offset(assign, k) && 0 <= d < 14 && 0
        <= s < 8) by (nonlinear_arith)
        requires
            0 <= p < 112 * cluster_offset(assign, k),
            b == p / 112,
            rem == p % 112,
            d == rem / 8,
            s == rem % 8,
    ;
    let c = lemma_block_owner(assign, k, b);
    let o = cluster_offset(assign, c) as int;
    let j = (b - o) * 8 + s;
    assert(j / 8 == b - o && j % 8 == s) by (nonlinear_arith)
        requires
            j == (b - o) * 8 + s,
            0 <= s < 8,
            0 <= b - o,
    ;
    assert(cluster_offset(assign, c + 1) == o + blocks_for(count_in(assign, c)));
    assert(block_pos(assign, c, j, d) == p);
    if p < 8 * cluster_offset(assign, k) {
        let lb = p / 8;
        let ls = p % 8;
        assert(p == lb * 8 + ls && 0 <= lb < cluster_offset(assign, k) && 0 <= ls < 8)
            by (nonlinear_arith)
            requires
                0 <= p < 8 * cluster_offset(assign, k),
                lb == p / 8,
                ls == p % 8,
        ;
        let c2 = lemma_block_owner(assign, k, lb);
        let o2 = cluster_offset(assign, c2) as int;
        let j2 = p - 8 * o2;
        assert(cluster_offset(assign, c2 + 1) == o2 + blocks_for(count_in(assign, c2)));
        assert(label_pos(assign, c2, j2) == p);
        assert(slot_in_cluster(assign, c2, j2));
    }
}

/// Lays out clustered, quantized vectors as an index stores them: cluster `c`
/// owns blocks `offsets[c]..offsets[c + 1]`, enough for its vectors eight to
/// a block; its `j`-th vector (in input order) takes column `j % 8` of block
/// `offsets[c] + j / 8`, its label the slot `8 * offsets[c] + j`. The slots
/// past the last vector of a cluster hold `i16::MAX` and the label 0.
pub fn pack_clusters(
    k: usize,
    assign: &[usize],
    labels: &[u8],
    vectors: &[[i16; 14]],
) -> (r: PackedClusters)
    requires
        k < usize::MAX,
        labels@.len() == assign@.len(),
        vectors@.len() == assign@.len(),
        forall|i: int| 0 <= i < assign@.len() ==> #[trigger] assign@[i] < k,
        cluster_offset(assign@, k as int) <= u32::MAX,
        112 * cluster_offset(assign@, k as int) <= usize::MAX,
    ensures
        r.offsets@.len() == k + 1,
        forall|c: int| 0 <= c <= k ==> #[trigger] r.offsets@[c] == cluster_offset(assign@, c),
        r.labels@.len() == 8 * cluster_offset(assign@, k as int),
        r.blocks@.len() == 112 * cluster_offset(assign@, k as int),
        placed_blocks(assign@, vectors@, assign@.len() as int, r.blocks@),
        placed_labels(assign@, labels@, assign@.len() as int, r.labels@),
        padding_in_place(assign@, k as int, r.labels@, r.blocks@),
{
    let counts = cluster_counts(k, assign);
    let offsets = cluster_offsets(k, assign, &counts);
    let total = offsets[k] as usize;
    let n_labels = 8 * total;
    let n_values = 112 * total;
    let mut out_labels: Vec<u8> = Vec::new();
    let mut x: usize = 0;
    while x < n_labels
        invariant
            x <= n_labels,
            out_labels@.len() == x,
            forall|y: int| 0 <= y < x ==> #[trigger] out_labels@[y] == 0,
        decreases n_labels - x,
    {
        out_labels.push(0);
        x += 1;
    }
    let mut out_blocks: Vec<i16> = Vec::new();
    x = 0;
    while x < n_values
        invariant
            x <= n_values,
            out_blocks@.len() == x,
            forall|y: int| 0 <= y < x ==> #[trigger] out_blocks@[y] == i16::MAX,
        decreases n_values - x,
    {
        out_blocks.push(i16::MAX);
        x += 1;
    }
    let mut next: Vec<usize> = Vec::new();
    x = 0;
    while x < k
        invariant
            x <= k,
            next@.len() == x,
            forall|y: int| 0 <= y < x ==> #[trigger] next@[y] == 0,
        decreases k - x,
    {
        next.push(0);
        x += 1;
    }
    proof {
        assert(assign@.take(0) =~= Seq::<usize>::empty());
        assert forall|c: int, j: int|
            0 <= c < k && count_in(assign@.take(0), c) <= j && slot_in_cluster(
                assign@,
                c,
                j,
            ) implies {
            &&& #[trigger] out_labels@[label_pos(assign@, c, j)] == 0
            &&& forall|d: int|
                0 <= d < 14 ==> #[trigger] out_blocks@[block_pos(assign@, c, j, d)] == i16::MAX
        } by {
            lemma_offsets_monotone(assign@, c + 1, k as int);
            lemma_pos_in_cluster(assign@, c, j, 0);
            assert forall|d: int| 0 <= d < 14 implies #[trigger] out_blocks@[block_pos(
                assign@,
                c,
                j,
                d,
            )] == i16::MAX by {
                lemma_pos_in_cluster(assign@, c, j, d);
            }
        }
    }
    let mut i: usize = 0;
    while i < assign.len()
        invariant
            i <= assign@.len(),
            labels@.len() == assign@.len(),
            vectors@.len() == assign@.len(),
            forall|y: int| 0 <= y < assign@.len() ==> #[trigger] assign@[y] < k,
            offsets@.len() == k + 1,
            forall|c: int| 0 <= c <= k ==> #[trigger] offsets@[c] == cluster_offset(assign@, c),
            total == cluster_offset(assign@, k as int),
            112 * total <= usize::MAX,
            out_labels@.len() == 8 * total,
            out_blocks@.len() == 112 * total,
            next@.len() == k,
            forall|c: int| 0 <= c < k ==> #[trigger] next@[c] == count_in(assign@.take(i as int), c),
            placed_blocks(assign@, vectors@, i as int, out_blocks@),
            placed_labels(assign@, labels@, i as int, out_labels@),
            padded(assign@, k as int, i as int, out_labels@, out_blocks@),
        decreases assign@.len() - i,
    {
        let c = assign[i];
        let j = next[c];
        let ghost l0 = out_labels@;
        let ghost b0 = out_blocks@;
        proof {
            lemma_rank_below_count(assign@, i as int);
            lemma_offsets_monotone(assign@, c + 1, k as int);
            lemma_pos_in_cluster(assign@, c as int, j as int, 0);
            lemma_pos_in_cluster(assign@, c as int, j as int, 13);
            lemma_count_take_le(assign@, i as int, c as int);
        }
        let base = offsets[c] as usize;
        out_labels.set(8 * base + j, labels[i]);
        let start = (base + j / 8) * 112 + j % 8;
        let v = vectors[i];
        let mut d: usize = 0;
        while d < 14
            invariant
                d <= 14,
                out_blocks@.len() == b0.len(),
                b0.len() <= usize::MAX,
                start + 104 < b0.len(),
                forall|p: int|
                    0 <= p < b0.len() ==> #[trigger] out_blocks@[p] == if start <= p < start + 8
                        * d && (p - start) % 8 == 0 {
                        v@[(p - start) / 8]
                    } else {
                        b0[p]
                    },
            decreases 14 - d,
        {
            let ghost before = out_blocks@;
            out_blocks.set(start + 8 * d, v[d]);
            proof {
                assert forall|p: int| 0 <= p < b0.len() implies #[trigger] out_blocks@[p] == if start
                    <= p < start + 8 * (d + 1) && (p - start) % 8 == 0 {
                    v@[(p - start) / 8]
                } else {
                    b0[p]
                } by {
                    if p == start + 8 * d {
                        assert((p - start) % 8 == 0 && (p - start) / 8 == d) by (nonlinear_arith)
                            requires
                                p == start + 8 * d,
                        ;
                    } else {
                        assert(out_blocks@[p] == before[p]);
                        if start <= p < start + 8 * (d + 1) && (p - start) % 8 == 0 {
                            assert(p < start + 8 * d) by (nonlinear_arith)
                                requires
                                    start <= p < start + 8 * (d + 1),
                                    (p - start) % 8 == 0,
                                    p != start + 8 * d,
                            ;
                        }
                    }
                }
            }
            d += 1;
        }
        proof {
            lemma_place_step(
                assign@,
                labels@,
                vectors@,
                k as int,
                i as int,
                l0,
                b0,
                out_labels@,
                out_blocks@,
            );
            assert forall|x2: int| 0 <= x2 < k implies #[trigger] next@.update(
                c as int,
                (j + 1) as usize,
            )[x2] == count_in(assign@.take(i + 1), x2) by {
                lemma_count_take_step(assign@, i as int, x2);
            }
        }
        next.set(c, j + 1);
        i += 1;
    }
    let packed = PackedClusters { offsets, labels: out_labels, blocks: out_blocks };
    proof {
        assert(assign@.take(assign@.len() as int) =~= assign@);
        assert forall|c: int, j: int|
            0 <= c < k && count_in(assign@, c) <= j && slot_in_cluster(assign@, c, j) implies {
            &&& #[trigger] packed.labels@[label_pos(assign@, c, j)] == 0
            &&& forall|d: int|
                0 <= d < 14 ==> #[trigger] packed.blocks@[block_pos(assign@, c, j, d)] == i16::MAX
        } by {
            assert(count_in(assign@.take(assign@.len() as int), c) <= j);
            assert(packed.labels@[label_pos(assign@, c, j)] == 0);
        }
        assert(padding_in_place(assign@, k as int, packed.labels@, packed.blocks@));
    }
    packed
}

/// The centroids of `k` clusters, stored centroid after centroid with a
/// stride of 16, rearranged dimension after dimension: entry `d * k + c` is
/// dimension `d` of centroid `c` (values are `f32` bit patterns).
pub fn transpose_centroids(flat: &[u32], k: usize) -> (r: Vec<u32>)
    requires
        k == 0 || flat@.len() + 2 >= 16 * k,
        14 * k <= usize::MAX,
    ensures
        r@.len() == 14 * k,
        forall|d: int, c: int|
            #![trigger r@[d * k + c]]
            0 <= d < 14 && 0 <= c < k ==> r@[d * k + c] == flat@[c * 16 + d],
{
    let mut out: Vec<u32> = Vec::new();
    let mut d: usize = 0;
    while d < N_DIMS
        invariant
            d <= 14,
            k == 0 || flat@.len() + 2 >= 16 * k,
            14 * k <= usize::MAX,
            out@.len() == d * k,
            forall|d2: int, c2: int|
                #![trigger out@[d2 * k + c2]]
                0 <= d2 < d && 0 <= c2 < k ==> out@[d2 * k + c2] == flat@[c2 * 16 + d2],
        decreases 14 - d,
    {
        let mut c: usize = 0;
        proof {
            assert(d * k + k <= 14 * k) by (nonlinear_arith)
                requires
                    d < 14,
            ;
        }
        while c < k
            invariant
                d < 14,
                c <= k,
                k == 0 || flat@.len() + 2 >= 16 * k,
                d * k + k <= 14 * k <= usize::MAX,
                out@.len() == d * k + c,
                forall|d2: int, c2: int|
                    #![trigger out@[d2 * k + c2]]
                    (0 <= d2 < d && 0 <= c2 < k) || (d2 == d && 0 <= c2 < c) ==> out@[d2 * k + c2]
                        == flat@[c2 * 16 + d2],
            decreases k - c,
        {
            proof {
                assert(flat@.len() == flat.len());
                assert(c * 16 + d < flat@.len()) by (nonlinear_arith)
                    requires
                        c < k,
                        d < 14,
                        flat@.len() + 2 >= 16 * k,
                ;
            }
            let ghost before = out@;
            out.push(flat[c * 16 + d]);
            proof {
                assert forall|d2: int, c2: int|
                    (0 <= d2 < d && 0 <= c2 < k) || (d2 == d && 0 <= c2 < c + 1) implies #[trigger] out@[d2
                    * k + c2] == flat@[c2 * 16 + d2] by {
                    if d2 == d && c2 == c {
                    } else {
                        assert(d2 * k + c2 < d * k + c) by (nonlinear_arith)
                            requires
                                (0 <= d2 < d && 0 <= c2 < k) || (d2 == d && 0 <= c2 < c),
                        ;
                        assert(out@[d2 * k + c2] == before[d2 * k + c2]);
                    }
                }
            }
            c += 1;
        }
        proof {
            assert(d * k + k == (d + 1) * k) by (nonlinear_arith);
        }
        d += 1;
    }
    out
}

/// Bytes of the label `"fraud"`.
pub open spec fn fraud_text() -> Seq<u8> {
    seq![102u8, 114u8, 97u8, 117u8, 100u8]
}

/// Class code of a reference label: 1 for `"fraud"`, 0 for any other text.
pub fn label_code(label: &[u8]) -> (r: u8)
    ensures
        r == if label@ == fraud_text() {
            1u8
        } else {
            0u8
        },
{
    let fraud: [u8; 5] = [102, 114, 97, 117, 100];
    if label.len() != 5 {
        return 0;
    }
    let mut i: usize = 0;
    while i < 5
        invariant
            i <= 5,
            label@.len() == 5,
            fraud@ == fraud_text(),
            forall|x: int| 0 <= x < i ==> label@[x] == fraud_text()[x],
        decreases 5 - i,
    {
        if label[i] != fraud[i] {
            assert(label@[i as int] != fraud_text()[i as int]);
            return 0;
        }
        i += 1;
    }
    assert(label@ =~= fraud_text());
    1
}

} // verus!
