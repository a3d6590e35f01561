use vstd::prelude::*;
use crate::gene::{Gene, sorted_by_hm, has_hm, lemma_sorted_len_bound};

verus! {

/// `g` has no counterpart in `other`, and its marking lies below the largest
/// marking of `other`.
pub open spec fn is_disjoint_in(g: Gene, other: Seq<Gene>) -> bool {
    other.len() > 0 && !has_hm(other, g.hm) && g.hm < other.last().hm
}

/// `g`'s marking lies beyond every marking of `other`.
pub open spec fn is_excess_in(g: Gene, other: Seq<Gene>) -> bool {
    other.len() == 0 || g.hm > other.last().hm
}

/// Number of genes of `s` that are disjoint with respect to `other`.
pub open spec fn count_disjoint(s: Seq<Gene>, other: Seq<Gene>) -> nat
    decreases s.len(),
{
    if s.len() == 0 {
        0
    } else {
        count_disjoint(s.drop_last(), other) + if is_disjoint_in(s.last(), other) {
            1nat
        } else {
            0nat
        }
    }
}

/// Number of genes of `s` that are excess with respect to `other`.
pub open spec fn count_excess(s: Seq<Gene>, other: Seq<Gene>) -> nat
    decreases s.len(),
{
    if s.len() == 0 {
        0
    } else {
        count_excess(s.drop_last(), other) + if is_excess_in(s.last(), other) {
            1nat
        } else {
            0nat
        }
    }
}

/// Weight of a gene of `other` with marking `h` (the only one, in a sorted
/// sequence that has one).
pub open spec fn weight_of(other: Seq<Gene>, h: u32) -> int {
    other[choose|k: int| 0 <= k < other.len() && other[k].hm == h].weight as int
}

pub open spec fn abs_diff(x: int, y: int) -> nat {
    if x >= y {
        (x - y) as nat
    } else {
        (y - x) as nat
    }
}

/// Sum, over the genes of `s` that have a counterpart in `other`, of the
/// absolute difference of the two weights.
pub open spec fn matched_weight_diff(s: Seq<Gene>, other: Seq<Gene>) -> nat
    decreases s.len(),
{
    if s.len() == 0 {
        0
    } else {
        let g = s.last();
        matched_weight_diff(s.drop_last(), other) + if has_hm(other, g.hm) {
            abs_diff(g.weight as int, weight_of(other, g.hm))
        } else {
            0nat
        }
    }
}

/// Disjoint genes of the two sequences together.
pub open spec fn disjoint_count(a: Seq<Gene>, b: Seq<Gene>) -> nat {
    count_disjoint(a, b) + count_disjoint(b, a)
}

/// Excess genes of the two sequences together.
pub open spec fn excess_count(a: Seq<Gene>, b: Seq<Gene>) -> nat {
    count_excess(a, b) + count_excess(b, a)
}

/// Summed weight difference of the genes that both sequences hold.
pub open spec fn weight_diff(a: Seq<Gene>, b: Seq<Gene>) -> nat {
    matched_weight_diff(a, b)
}

proof fn lemma_weight_of_at(s: Seq<Gene>, k: int)
    requires
        sorted_by_hm(s),
        0 <= k < s.len(),
    ensures
        has_hm(s, s[k].hm),
        weight_of(s, s[k].hm) == s[k].weight as int,
{
    let h = s[k].hm;
    assert(0 <= k < s.len() && s[k].hm == h);
    let c = choose|c: int| 0 <= c < s.len() && s[c].hm == h;
    assert(c == k) by {
        if c < k {
            assert(s[c].hm < s[k].hm);
        } else if c > k {
            assert(s[k].hm < s[c].hm);
        }
    }
}

/// Walks both gene lists with two cursors, as a merge, and returns the summed
/// weight difference of matching genes (in millionths), the number of
/// disjoint genes and the number of excess genes.
pub fn get_difference_values(a: &Vec<Gene>, b: &Vec<Gene>) -> (r: (u64, u64, u64))
    requires
        sorted_by_hm(a@),
        sorted_by_hm(b@),
    ensures
        r.0 == weight_diff(a@, b@),
        r.1 == disjoint_count(a@, b@),
        r.2 == excess_count(a@, b@),
{
    proof {
        lemma_sorted_len_bound(a@);
        lemma_sorted_len_bound(b@);
    }
    let mut i: usize = 0;
    let mut j: usize = 0;
    let mut w_diff: u64 = 0;
    let mut disjoint: u64 = 0;
    let mut excess: u64 = 0;
    while i < a.len() && j < b.len()
        invariant
            sorted_by_hm(a@),
            sorted_by_hm(b@),
            a.len() <= 0x1_0000_0000,
            b.len() <= 0x1_0000_0000,
            0 <= i <= a.len(),
            0 <= j <= b.len(),
            forall|k: int| 0 <= k < i && j < b.len() ==> a@[k].hm < b@[j as int].hm,
            forall|k: int| 0 <= k < j && i < a.len() ==> b@[k].hm < a@[i as int].hm,
            w_diff == matched_weight_diff(a@.take(i as int), b@),
            disjoint == count_disjoint(a@.take(i as int), b@) + count_disjoint(
                b@.take(j as int),
                a@,
            ),
            excess == count_excess(a@.take(i as int), b@) + count_excess(b@.take(j as int), a@),
            w_diff <= i * 0xFFFF_FFFF,
            disjoint + excess <= i + j,
        decreases a.len() - i + b.len() - j,
    {
        let ga = a[i];
        let gb = b[j];
        assert(a@.take(i + 1).drop_last() =~= a@.take(i as int));
        assert(b@.take(j + 1).drop_last() =~= b@.take(j as int));
        if ga.hm == gb.hm {
            proof {
                lemma_weight_of_at(b@, j as int);
                lemma_weight_of_at(a@, i as int);
                assert(b@[j as int].hm <= b@.last().hm);
                assert(a@[i as int].hm <= a@.last().hm);
            }
            let wa = ga.weight as i64;
            let wb = gb.weight as i64;
            let d: u64 = if wa >= wb {
                (wa - wb) as u64
            } else {
                (wb - wa) as u64
            };
            w_diff = w_diff + d;
            i = i + 1;
            j = j + 1;
        } else if ga.hm < gb.hm {
            proof {
                assert forall|k: int| 0 <= k < b.len() implies b@[k].hm != ga.hm by {
                    if k > j {
                        assert(b@[j as int].hm < b@[k].hm);
                    }
                }
                assert(b@[j as int].hm <= b@.last().hm);
            }
            disjoint = disjoint + 1;
            i = i + 1;
        } else {
            proof {
                assert forall|k: int| 0 <= k < a.len() implies a@[k].hm != gb.hm by {
                    if k > i {
                        assert(a@[i as int].hm < a@[k].hm);
                    }
                }
                assert(a@[i as int].hm <= a@.last().hm);
            }
            disjoint = disjoint + 1;
            j = j + 1;
        }
    }
    // Whatever is left on either side lies beyond the other side's range.
    while i < a.len()
        invariant
            sorted_by_hm(a@),
            sorted_by_hm(b@),
            a.len() <= 0x1_0000_0000,
            b.len() <= 0x1_0000_0000,
            0 <= i <= a.len(),
            0 <= j <= b.len(),
            i < a.len() ==> j == b.len(),
            forall|k: int| 0 <= k < j && i < a.len() ==> b@[k].hm < a@[i as int].hm,
            w_diff == matched_weight_diff(a@.take(i as int), b@),
            disjoint == count_disjoint(a@.take(i as int), b@) + count_disjoint(
                b@.take(j as int),
                a@,
            ),
            excess == count_excess(a@.take(i as int), b@) + count_excess(b@.take(j as int), a@),
            disjoint + excess <= i + j,
        decreases a.len() - i,
    {
        assert(a@.take(i + 1).drop_last() =~= a@.take(i as int));
        proof {
            assert forall|k: int| 0 <= k < b.len() implies b@[k].hm != a@[i as int].hm by {}
        }
        excess = excess + 1;
        i = i + 1;
    }
    while j < b.len()
        invariant
            sorted_by_hm(a@),
            sorted_by_hm(b@),
            a.len() <= 0x1_0000_0000,
            b.len() <= 0x1_0000_0000,
            i == a.len(),
            0 <= j <= b.len(),
            forall|k: int| 0 <= k < i && j < b.len() ==> a@[k].hm < b@[j as int].hm,
            w_diff == matched_weight_diff(a@.take(i as int), b@),
            disjoint == count_disjoint(a@.take(i as int), b@) + count_disjoint(
                b@.take(j as int),
                a@,
            ),
            excess == count_excess(a@.take(i as int), b@) + count_excess(b@.take(j as int), a@),
            disjoint + excess <= i + j,
        decreases b.len() - j,
    {
        assert(b@.take(j + 1).drop_last() =~= b@.take(j as int));
        excess = excess + 1;
        j = j + 1;
    }
    assert(a@.take(a.len() as int) =~= a@);
    assert(b@.take(b.len() as int) =~= b@);
    (w_diff, disjoint, excess)
}

} // verus!

verus! {

proof fn lemma_count_disjoint_concat(s1: Seq<Gene>, s2: Seq<Gene>, o: Seq<Gene>)
    ensures
        count_disjoint(s1 + s2, o) == count_disjoint(s1, o) + count_disjoint(s2, o),
    decreases s2.len(),
{
    if s2.len() == 0 {
        assert(s1 + s2 =~= s1);
    } else {
        assert((s1 + s2).drop_last() =~= s1 + s2.drop_last());
        lemma_count_disjoint_concat(s1, s2.drop_last(), o);
    }
}

proof fn lemma_count_excess_concat(s1: Seq<Gene>, s2: Seq<Gene>, o: Seq<Gene>)
    ensures
        count_excess(s1 + s2, o) == count_excess(s1, o) + count_excess(s2, o),
    decreases s2.len(),
{
    if s2.len() == 0 {
        assert(s1 + s2 =~= s1);
    } else {
        assert((s1 + s2).drop_last() =~= s1 + s2.drop_last());
        lemma_count_excess_concat(s1, s2.drop_last(), o);
    }
}

proof fn lemma_count_disjoint_congruent(s: Seq<Gene>, o1: Seq<Gene>, o2: Seq<Gene>)
    requires
        forall|k: int| 0 <= k < s.len() ==> is_disjoint_in(s[k], o1) == is_disjoint_in(s[k], o2),
    ensures
        count_disjoint(s, o1) == count_disjoint(s, o2),
    decreases s.len(),
{
    if s.len() > 0 {
        lemma_count_disjoint_congruent(s.drop_last(), o1, o2);
    }
}

proof fn lemma_count_excess_congruent(s: Seq<Gene>, o1: Seq<Gene>, o2: Seq<Gene>)
    requires
        forall|k: int| 0 <= k < s.len() ==> is_excess_in(s[k], o1) == is_excess_in(s[k], o2),
    ensures
        count_excess(s, o1) == count_excess(s, o2),
    decreases s.len(),
{
    if s.len() > 0 {
        lemma_count_excess_congruent(s.drop_last(), o1, o2);
    }
}

/// Two sorted lists with the same markings, position by position, have no
/// disjoint or excess genes, and their weight difference is the sum of the
/// differences position by position.
proof fn lemma_same_markings(a: Seq<Gene>, b: Seq<Gene>, i: int)
    requires
        sorted_by_hm(a),
        sorted_by_hm(b),
        a.len() == b.len(),
        forall|k: int| 0 <= k < a.len() ==> a[k].hm == b[k].hm,
        0 <= i <= a.len(),
    ensures
        count_disjoint(a.take(i), b) == 0,
        count_excess(a.take(i), b) == 0,
        matched_weight_diff(a.take(i), b) == pointwise_weight_diff(a.take(i), b),
    decreases i,
{
    if i > 0 {
        lemma_same_markings(a, b, i - 1);
        assert(a.take(i).drop_last() =~= a.take(i - 1));
        lemma_weight_of_at(b, i - 1);
        assert(b[i - 1].hm <= b.last().hm);
    }
}

/// Sum of the weight differences of the genes at equal positions.
pub open spec fn pointwise_weight_diff(s: Seq<Gene>, other: Seq<Gene>) -> nat
    decreases s.len(),
{
    if s.len() == 0 {
        0
    } else {
        pointwise_weight_diff(s.drop_last(), other) + abs_diff(
            s.last().weight as int,
            other[s.len() - 1].weight as int,
        )
    }
}

/// A sorted gene list has no disjoint or excess genes against itself and no
/// weight difference.
pub proof fn lemma_align_self(a: Seq<Gene>)
    requires
        sorted_by_hm(a),
    ensures
        disjoint_count(a, a) == 0,
        excess_count(a, a) == 0,
        weight_diff(a, a) == 0,
{
    lemma_same_markings(a, a, a.len() as int);
    assert(a.take(a.len() as int) =~= a);
    lemma_pointwise_self(a, a.len() as int);
}

proof fn lemma_pointwise_self(a: Seq<Gene>, i: int)
    requires
        0 <= i <= a.len(),
    ensures
        pointwise_weight_diff(a.take(i), a) == 0,
    decreases i,
{
    if i > 0 {
        assert(a.take(i).drop_last() =~= a.take(i - 1));
        lemma_pointwise_self(a, i - 1);
    }
}

proof fn lemma_pointwise_one_change(a: Seq<Gene>, b: Seq<Gene>, k: int, i: int)
    requires
        a.len() == b.len(),
        0 <= k < a.len(),
        forall|x: int| 0 <= x < a.len() && x != k ==> a[x].weight == b[x].weight,
        0 <= i <= a.len(),
    ensures
        pointwise_weight_diff(a.take(i), b) == if i > k {
            abs_diff(a[k].weight as int, b[k].weight as int)
        } else {
            0
        },
    decreases i,
{
    if i > 0 {
        assert(a.take(i).drop_last() =~= a.take(i - 1));
        lemma_pointwise_one_change(a, b, k, i - 1);
    }
}

/// Changing the weight of one gene leaves no disjoint or excess genes and a
/// weight difference of exactly the change.
pub proof fn lemma_align_one_weight(a: Seq<Gene>, k: int, w: i32)
    requires
        sorted_by_hm(a),
        0 <= k < a.len(),
    ensures
        disjoint_count(a, a.update(k, Gene { weight: w, ..a[k] })) == 0,
        excess_count(a, a.update(k, Gene { weight: w, ..a[k] })) == 0,
        weight_diff(a, a.update(k, Gene { weight: w, ..a[k] })) == abs_diff(a[k].weight as int, w as int),
{
    let b = a.update(k, Gene { weight: w, ..a[k] });
    assert(sorted_by_hm(b));
    lemma_same_markings(a, b, a.len() as int);
    lemma_same_markings(b, a, b.len() as int);
    assert(a.take(a.len() as int) =~= a);
    assert(b.take(b.len() as int) =~= b);
    lemma_pointwise_one_change(a, b, k, a.len() as int);
}

/// Two lists with the same markings, position by position, whose weights
/// differ at index `k` only: no disjoint or excess genes, and a weight
/// difference of exactly the difference at `k`.
pub proof fn lemma_align_weights_differ_at(a: Seq<Gene>, b: Seq<Gene>, k: int)
    requires
        sorted_by_hm(a),
        sorted_by_hm(b),
        a.len() == b.len(),
        forall|x: int| 0 <= x < a.len() ==> a[x].hm == b[x].hm,
        0 <= k < a.len(),
        forall|x: int| 0 <= x < a.len() && x != k ==> a[x].weight == b[x].weight,
    ensures
        disjoint_count(a, b) == 0,
        excess_count(a, b) == 0,
        weight_diff(a, b) == abs_diff(a[k].weight as int, b[k].weight as int),
{
    lemma_same_markings(a, b, a.len() as int);
    lemma_same_markings(b, a, b.len() as int);
    assert(a.take(a.len() as int) =~= a);
    assert(b.take(b.len() as int) =~= b);
    lemma_pointwise_one_change(a, b, k, a.len() as int);
}

/// The merge invariant, carried from cursor positions `(i, j)` to the end:
/// the weight difference counted from either side is the same.
proof fn lemma_merge_weight_symmetric(a: Seq<Gene>, b: Seq<Gene>, i: int, j: int)
    requires
        sorted_by_hm(a),
        sorted_by_hm(b),
        0 <= i <= a.len(),
        0 <= j <= b.len(),
        forall|k: int| 0 <= k < i && j < b.len() ==> a[k].hm < b[j].hm,
        forall|k: int| 0 <= k < j && i < a.len() ==> b[k].hm < a[i].hm,
        matched_weight_diff(a.take(i), b) == matched_weight_diff(b.take(j), a),
    ensures
        matched_weight_diff(a, b) == matched_weight_diff(b, a),
    decreases a.len() - i + b.len() - j,
{
    if i == a.len() && j == b.len() {
        assert(a.take(i) =~= a);
        assert(b.take(j) =~= b);
    } else if i < a.len() && (j == b.len() || a[i].hm < b[j].hm) {
        assert(a.take(i + 1).drop_last() =~= a.take(i));
        assert forall|k: int| 0 <= k < b.len() implies b[k].hm != a[i].hm by {
            if k > j && j < b.len() {
                assert(b[j].hm < b[k].hm);
            }
        }
        lemma_merge_weight_symmetric(a, b, i + 1, j);
    } else if j < b.len() && (i == a.len() || b[j].hm < a[i].hm) {
        assert(b.take(j + 1).drop_last() =~= b.take(j));
        assert forall|k: int| 0 <= k < a.len() implies a[k].hm != b[j].hm by {
            if k > i && i < a.len() {
                assert(a[i].hm < a[k].hm);
            }
        }
        lemma_merge_weight_symmetric(a, b, i, j + 1);
    } else {
        assert(a.take(i + 1).drop_last() =~= a.take(i));
        assert(b.take(j + 1).drop_last() =~= b.take(j));
        lemma_weight_of_at(b, j);
        lemma_weight_of_at(a, i);
        lemma_merge_weight_symmetric(a, b, i + 1, j + 1);
    }
}

/// Alignment does not depend on which list comes first.
pub proof fn lemma_align_symmetric(a: Seq<Gene>, b: Seq<Gene>)
    requires
        sorted_by_hm(a),
        sorted_by_hm(b),
    ensures
        disjoint_count(a, b) == disjoint_count(b, a),
        excess_count(a, b) == excess_count(b, a),
        weight_diff(a, b) == weight_diff(b, a),
{
    assert(a.take(0) =~= Seq::<Gene>::empty());
    assert(b.take(0) =~= Seq::<Gene>::empty());
    lemma_merge_weight_symmetric(a, b, 0, 0);
}

/// Appending to `a` a gene beyond every marking of both lists adds one excess
/// gene and no disjoint one, provided `b` has no gene beyond `a`'s range.
pub proof fn lemma_trailing_gene(a: Seq<Gene>, b: Seq<Gene>, x: Gene)
    requires
        sorted_by_hm(a),
        sorted_by_hm(b),
        a.len() > 0 ==> x.hm > a.last().hm,
        b.len() > 0 ==> x.hm > b.last().hm,
        b.len() == 0 || (a.len() > 0 && b.last().hm <= a.last().hm),
    ensures
        excess_count(a.push(x), b) == excess_count(a, b) + 1,
        disjoint_count(a.push(x), b) == disjoint_count(a, b),
{
    let a2 = a.push(x);
    assert(a2.drop_last() =~= a);
    assert forall|k: int| 0 <= k < b.len() implies is_excess_in(b[k], a2) == is_excess_in(b[k], a) by {
        assert(b[k].hm <= b.last().hm);
    }
    assert forall|k: int| 0 <= k < b.len() implies is_disjoint_in(b[k], a2) == is_disjoint_in(b[k], a) by {
        assert(b[k].hm <= b.last().hm);
        if has_hm(a, b[k].hm) {
            let c = choose|c: int| 0 <= c < a.len() && a[c].hm == b[k].hm;
            assert(a2[c] == a[c]);
        }
        if has_hm(a2, b[k].hm) {
            let c = choose|c: int| 0 <= c < a2.len() && a2[c].hm == b[k].hm;
            assert(c < a.len());
            assert(a[c] == a2[c]);
        }
        if a.len() > 0 && b[k].hm == a.last().hm {
            assert(a[a.len() - 1].hm == b[k].hm);
        }
    }
    lemma_count_excess_congruent(b, a2, a);
    lemma_count_disjoint_congruent(b, a2, a);
}

/// Inserting into `a` a gene that `b` lacks, with a marking between two
/// markings that both lists hold, adds one disjoint gene and no excess one.
pub proof fn lemma_inner_gene(a: Seq<Gene>, b: Seq<Gene>, x: Gene, k: int, m1: u32, m2: u32)
    requires
        sorted_by_hm(a),
        sorted_by_hm(b),
        0 <= k <= a.len(),
        sorted_by_hm(a.insert(k, x)),
        !has_hm(b, x.hm),
        has_hm(a, m1) && has_hm(b, m1),
        has_hm(a, m2) && has_hm(b, m2),
        m1 < x.hm < m2,
    ensures
        disjoint_count(a.insert(k, x), b) == disjoint_count(a, b) + 1,
        excess_count(a.insert(k, x), b) == excess_count(a, b),
{
    let a2 = a.insert(k, x);
    assert(a2 =~= a.take(k) + seq![x] + a.skip(k));
    assert(a =~= a.take(k) + a.skip(k));
    lemma_count_disjoint_concat(a.take(k) + seq![x], a.skip(k), b);
    lemma_count_disjoint_concat(a.take(k), seq![x], b);
    lemma_count_disjoint_concat(a.take(k), a.skip(k), b);
    lemma_count_excess_concat(a.take(k) + seq![x], a.skip(k), b);
    lemma_count_excess_concat(a.take(k), seq![x], b);
    lemma_count_excess_concat(a.take(k), a.skip(k), b);
    assert(seq![x].drop_last() =~= Seq::<Gene>::empty());
    let cb = choose|c: int| 0 <= c < b.len() && b[c].hm == m2;
    assert(b[cb].hm <= b.last().hm);
    let ca = choose|c: int| 0 <= c < a.len() && a[c].hm == m2;
    assert(a.len() > 0);
    assert(a[ca].hm <= a.last().hm);
    // x is not last in a2: the gene with marking m2 lies beyond it.
    assert(a2.last() == a.last()) by {
        if k == a.len() {
            assert(a2[ca] == a[ca]);
            assert(a2[ca].hm > a2[k].hm);
        }
    }
    assert(is_disjoint_in(x, b));
    assert(!is_excess_in(x, b));
    assert(seq![x].last() == x);
    assert(count_disjoint(Seq::<Gene>::empty(), b) == 0);
    assert(count_excess(Seq::<Gene>::empty(), b) == 0);
    assert(count_disjoint(seq![x], b) == 1);
    assert(count_excess(seq![x], b) == 0);
    assert forall|c: int| 0 <= c < b.len() implies is_excess_in(b[c], a2) == is_excess_in(b[c], a) by {}
    assert forall|c: int| 0 <= c < b.len() implies is_disjoint_in(b[c], a2) == is_disjoint_in(b[c], a) by {
        if has_hm(a, b[c].hm) {
            let d = choose|d: int| 0 <= d < a.len() && a[d].hm == b[c].hm;
            if d < k {
                assert(a2[d] == a[d]);
            } else {
                assert(a2[d + 1] == a[d]);
            }
        }
        if has_hm(a2, b[c].hm) {
            let d = choose|d: int| 0 <= d < a2.len() && a2[d].hm == b[c].hm;
            assert(d != k);
            if d < k {
                assert(a[d] == a2[d]);
            } else {
                assert(a[d - 1] == a2[d]);
            }
        }
    }
    lemma_count_excess_congruent(b, a2, a);
    lemma_count_disjoint_congruent(b, a2, a);
    assert(count_disjoint(a2, b) == count_disjoint(a, b) + 1);
    assert(count_excess(a2, b) == count_excess(a, b));
}

} // verus!
