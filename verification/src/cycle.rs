//! The integer decisions of a room's tick cycle: which perceptions the
//! predictor averages, which embedding coordinate feeds each vibe dimension,
//! how surprises are ranked, what garbage collection keeps, and when the
//! conservation law holds.
use vstd::prelude::*;

verus! {

/// Number of vibe dimensions.
pub const VIBE_DIMS: usize = 16;

/// How many entries a room keeps before garbage collection prunes it.
pub const DEFAULT_GC_THRESHOLD: usize = 100;

/// How many of the latest perceptions the predictor averages.
pub const JEPA_WINDOW: usize = 5;

/// The largest difference between the numbers of perceptions and
/// predictions that the conservation law tolerates.
pub const CONSERVATION_TOLERANCE: usize = 1;

/// The perceptions the predictor averages, out of `len` recorded ones:
/// the last `min(len, JEPA_WINDOW)`, given as `(start, count)`.
/// A count of zero means the prediction is the zero embedding.
pub fn prediction_window(len: usize) -> (window: (usize, usize))
    ensures
        window.1 == if len < JEPA_WINDOW { len } else { JEPA_WINDOW },
        window.0 + window.1 == len,
{
    let count = if len < JEPA_WINDOW { len } else { JEPA_WINDOW };
    (len - count, count)
}

/// The embedding coordinate that vibe dimension `vi` samples in a
/// `dims`-dimensional embedding: the strided projection `vi * dims / 16`.
pub fn vibe_source_index(vi: usize, dims: usize) -> (idx: usize)
    requires
        vi < VIBE_DIMS,
        dims > 0,
        vi * dims <= usize::MAX,
    ensures
        idx == vi * dims / VIBE_DIMS as int,
        idx < dims,
{
    proof {
        assert(vi * dims < VIBE_DIMS * dims) by (nonlinear_arith)
            requires vi < VIBE_DIMS, dims > 0;
        assert(vi * dims / 16 < dims) by (nonlinear_arith)
            requires vi * dims < 16 * dims, dims > 0;
    }
    (vi * dims) / VIBE_DIMS
}

/// Whether the conservation law holds between `perceptions` and
/// `predictions` entries: their difference is at most the tolerance.
pub fn conservation_holds(perceptions: usize, predictions: usize) -> (ok: bool)
    ensures
        ok == (-(CONSERVATION_TOLERANCE as int) <= perceptions - predictions <= CONSERVATION_TOLERANCE as int),
{
    if perceptions >= predictions {
        perceptions - predictions <= CONSERVATION_TOLERANCE
    } else {
        predictions - perceptions <= CONSERVATION_TOLERANCE
    }
}

/// The signed magnitude encoded by the bits of an IEEE-754 double: the
/// magnitude bits, negated when the sign bit is set. Both zeros give 0.
/// For doubles that are not NaN, `x < y` exactly when
/// `signed_magnitude(x.to_bits()) < signed_magnitude(y.to_bits())`.
pub open spec fn signed_magnitude(bits: u64) -> int {
    if bits >= 0x8000_0000_0000_0000 {
        -(bits - 0x8000_0000_0000_0000)
    } else {
        bits as int
    }
}

/// The rank of a surprise value, given by the bits of its double: ranks
/// order surprises as the doubles compare, with `-0.0` and `0.0` equal.
/// (NaN bits rank beyond the infinities of their sign.)
pub fn surprise_rank(bits: u64) -> (rank: u64)
    ensures
        rank == signed_magnitude(bits) + 0x7FFF_FFFF_FFFF_FFFF,
        bits < 0x8000_0000_0000_0000 ==> rank == bits + 0x7FFF_FFFF_FFFF_FFFF,
        bits >= 0x8000_0000_0000_0000 ==> rank == 0xFFFF_FFFF_FFFF_FFFF - bits,
{
    if bits >= 0x8000_0000_0000_0000 {
        0x7FFF_FFFF_FFFF_FFFF - (bits - 0x8000_0000_0000_0000)
    } else {
        bits + 0x7FFF_FFFF_FFFF_FFFF
    }
}

/// Entry `a` outlives entry `b` in garbage collection: it has the higher
/// rank, or the same rank and an earlier position.
pub open spec fn outranks(ranks: Seq<u64>, a: int, b: int) -> bool {
    ranks[a] > ranks[b] || (ranks[a] == ranks[b] && a < b)
}

/// `order` lists every position of `ranks` once, from the entry that
/// outranks all others down: the stable sort by descending rank.
pub open spec fn is_survival_order(ranks: Seq<u64>, order: Seq<int>) -> bool {
    &&& order.len() == ranks.len()
    &&& forall|p: int| 0 <= p < order.len() ==> 0 <= #[trigger] order[p] < ranks.len()
    &&& forall|i: int| 0 <= i < ranks.len() ==> #[trigger] order.contains(i)
    &&& forall|p: int, q: int|
        0 <= p < q < order.len() ==> outranks(ranks, #[trigger] order[p], #[trigger] order[q])
}

/// The survival order of `ranks` (it exists and is unique: see
/// `lemma_survival_order_unique`).
pub open spec fn survival_order(ranks: Seq<u64>) -> Seq<int> {
    choose|order: Seq<int>| is_survival_order(ranks, order)
}

/// What garbage collection leaves of `items`, ranked by `ranks`: nothing
/// changes at or below `threshold` entries; above it, the `threshold`
/// highest-ranked entries remain, highest first, earlier first among equals.
pub open spec fn gc_result<T>(items: Seq<T>, ranks: Seq<u64>, threshold: nat) -> Seq<T> {
    if items.len() <= threshold {
        items
    } else {
        survival_order(ranks).take(threshold as int).map_values(|i: int| items[i])
    }
}

proof fn lemma_sorted_unique(ranks: Seq<u64>, s1: Seq<int>, s2: Seq<int>)
    requires
        forall|p: int, q: int| 0 <= p < q < s1.len() ==> outranks(ranks, #[trigger] s1[p], #[trigger] s1[q]),
        forall|p: int, q: int| 0 <= p < q < s2.len() ==> outranks(ranks, #[trigger] s2[p], #[trigger] s2[q]),
        forall|x: int| s1.contains(x) <==> s2.contains(x),
    ensures
        s1 == s2,
    decreases s1.len(),
{
    if s1.len() == 0 {
        if s2.len() > 0 {
            assert(s2.contains(s2[0]));
        }
        assert(s1 =~= s2);
    } else {
        assert(s1.contains(s1[0]));
        assert(s2.len() > 0);
        let a = s1[0];
        let b = s2[0];
        if a != b {
            assert(s2.contains(a));
            let q = choose|q: int| 0 <= q < s2.len() && s2[q] == a;
            assert(outranks(ranks, s2[0], s2[q]));
            assert(s2.contains(b));
            assert(s1.contains(b));
            let p = choose|p: int| 0 <= p < s1.len() && s1[p] == b;
            assert(outranks(ranks, s1[0], s1[p]));
            assert(false);
        }
        let t1 = s1.drop_first();
        let t2 = s2.drop_first();
        assert forall|p: int, q: int| 0 <= p < q < t1.len() implies outranks(ranks, #[trigger] t1[p], #[trigger] t1[q]) by {
            assert(t1[p] == s1[p + 1] && t1[q] == s1[q + 1]);
        }
        assert forall|p: int, q: int| 0 <= p < q < t2.len() implies outranks(ranks, #[trigger] t2[p], #[trigger] t2[q]) by {
            assert(t2[p] == s2[p + 1] && t2[q] == s2[q + 1]);
        }
        assert forall|x: int| t1.contains(x) <==> t2.contains(x) by {
            if t1.contains(x) {
                let p = choose|p: int| 0 <= p < t1.len() && t1[p] == x;
                assert(s1[p + 1] == x);
                assert(outranks(ranks, s1[0], s1[p + 1]));
                assert(s2.contains(x));
                let q = choose|q: int| 0 <= q < s2.len() && s2[q] == x;
                assert(q != 0);
                assert(t2[q - 1] == x);
            }
            if t2.contains(x) {
                let p = choose|p: int| 0 <= p < t2.len() && t2[p] == x;
                assert(s2[p + 1] == x);
                assert(outranks(ranks, s2[0], s2[p + 1]));
                assert(s1.contains(x));
                let q = choose|q: int| 0 <= q < s1.len() && s1[q] == x;
                assert(q != 0);
                assert(t1[q - 1] == x);
            }
        }
        lemma_sorted_unique(ranks, t1, t2);
        assert(s1 =~= seq![a] + t1);
        assert(s2 =~= seq![b] + t2);
    }
}

/// Any two survival orders of the same ranks are equal: the garbage
/// collection result is fully determined by the ranks.
pub proof fn lemma_survival_order_unique(ranks: Seq<u64>, o1: Seq<int>, o2: Seq<int>)
    requires
        is_survival_order(ranks, o1),
        is_survival_order(ranks, o2),
    ensures
        o1 == o2,
{
    assert forall|x: int| o1.contains(x) <==> o2.contains(x) by {
        if o1.contains(x) {
            let p = choose|p: int| 0 <= p < o1.len() && o1[p] == x;
            assert(0 <= o1[p] < ranks.len());
            assert(o2.contains(x));
        }
        if o2.contains(x) {
            let p = choose|p: int| 0 <= p < o2.len() && o2[p] == x;
            assert(0 <= o2[p] < ranks.len());
            assert(o1.contains(x));
        }
    }
    lemma_sorted_unique(ranks, o1, o2);
}

/// Garbage collection: when `items` holds more than `threshold` entries,
/// keeps only the `threshold` entries of highest rank (`ranks[i]` ranks
/// `items[i]`), highest first and, among equal ranks, in their former order;
/// at or below the threshold, leaves `items` as it is.
pub fn gc_retain<T>(items: &mut Vec<T>, ranks: &Vec<u64>, threshold: usize)
    requires
        old(items).len() == ranks.len(),
    ensures
        final(items)@ == gc_result(old(items)@, ranks@, threshold as nat),
{
    let n = items.len();
    if n <= threshold {
        return;
    }
    let ghost orig = items@;
    let mut kept: Vec<T> = Vec::new();
    let mut order: Vec<usize> = Vec::new();
    let mut m = n;
    while m > 0
        invariant
            m <= n,
            n == ranks.len(),
            orig.len() == n,
            items@ == orig.subrange(0, m as int),
            kept@.len() == order@.len(),
            order@.len() == n - m,
            forall|p: int| 0 <= p < order@.len() ==> m <= #[trigger] order@[p] < n,
            forall|i: int| m <= i < n ==> #[trigger] order@.contains(i as usize),
            forall|p: int, q: int|
                0 <= p < q < order@.len() ==> outranks(ranks@, #[trigger] order@[p] as int, #[trigger] order@[q] as int),
            forall|p: int| 0 <= p < kept@.len() ==> #[trigger] kept@[p] == orig[order@[p] as int],
        decreases m,
    {
        m = m - 1;
        let item = match items.pop() {
            Some(x) => x,
            None => {
                assert(false);
                return;
            },
        };
        let r = ranks[m];
        let mut pos: usize = 0;
        while pos < order.len() && ranks[order[pos]] > r
            invariant
                pos <= order@.len(),
                n == ranks.len(),
                forall|p: int| 0 <= p < order@.len() ==> m < #[trigger] order@[p] < n,
                forall|q: int| 0 <= q < pos ==> ranks@[#[trigger] order@[q] as int] > r,
            decreases order@.len() - pos,
        {
            pos = pos + 1;
        }
        let ghost old_order = order@;
        let ghost old_kept = kept@;
        order.insert(pos, m);
        kept.insert(pos, item);
        proof {
            old_order.insert_ensures(pos as int, m);
            old_kept.insert_ensures(pos as int, item);
            assert(item == orig[m as int]);
            let o = order@;
            assert forall|p: int| 0 <= p < o.len() implies m <= #[trigger] o[p] < n by {
                if p > pos {
                    assert(o[p] == old_order[p - 1]);
                }
            }
            assert forall|i: int| m <= i < n implies #[trigger] o.contains(i as usize) by {
                if i == m {
                    assert(o[pos as int] == m);
                } else {
                    assert(old_order.contains(i as usize));
                    let j = choose|j: int| 0 <= j < old_order.len() && old_order[j] == i as usize;
                    if j < pos {
                        assert(o[j] == i as usize);
                    } else {
                        assert(o[j + 1] == i as usize);
                    }
                }
            }
            assert forall|p: int, q: int| 0 <= p < q < o.len() implies outranks(
                ranks@,
                #[trigger] o[p] as int,
                #[trigger] o[q] as int,
            ) by {
                if q < pos {
                    assert(o[p] == old_order[p] && o[q] == old_order[q]);
                } else if q == pos {
                    assert(o[p] == old_order[p]);
                    assert(ranks@[old_order[p] as int] > r);
                } else if p == pos {
                    assert(o[q] == old_order[q - 1]);
                    assert(pos < old_order.len());
                    assert(ranks@[old_order[pos as int] as int] <= r);
                    if q - 1 > pos {
                        assert(outranks(ranks@, old_order[pos as int] as int, old_order[q - 1] as int));
                    }
                    assert(ranks@[old_order[q - 1] as int] <= r);
                    assert(old_order[q - 1] > m);
                } else if p < pos {
                    assert(o[p] == old_order[p] && o[q] == old_order[q - 1]);
                } else {
                    assert(o[p] == old_order[p - 1] && o[q] == old_order[q - 1]);
                }
            }
            assert forall|p: int| 0 <= p < kept@.len() implies #[trigger] kept@[p] == orig[order@[p] as int] by {
                if p < pos {
                    assert(kept@[p] == old_kept[p]);
                } else if p > pos {
                    assert(kept@[p] == old_kept[p - 1]);
                    assert(order@[p] == old_order[p - 1]);
                }
            }
        }
    }
    let ghost sel: Seq<int> = order@.map_values(|x: usize| x as int);
    proof {
        assert forall|i: int| 0 <= i < n implies #[trigger] sel.contains(i) by {
            assert(order@.contains(i as usize));
            let j = choose|j: int| 0 <= j < order@.len() && order@[j] == i as usize;
            assert(sel[j] == i);
        }
        assert forall|p: int, q: int| 0 <= p < q < sel.len() implies outranks(ranks@, #[trigger] sel[p], #[trigger] sel[q]) by {
            assert(outranks(ranks@, order@[p] as int, order@[q] as int));
        }
        assert(is_survival_order(ranks@, sel));
        lemma_survival_order_unique(ranks@, sel, survival_order(ranks@));
    }
    kept.truncate(threshold);
    *items = kept;
    proof {
        assert(items@ =~= survival_order(ranks@).take(threshold as int).map_values(|i: int| orig[i]));
    }
}

/// How many leading entries of `order` rank strictly above `r`.
spec fn leading_above(ranks: Seq<u64>, order: Seq<int>, r: u64) -> nat
    decreases order.len(),
{
    if order.len() == 0 {
        0
    } else if ranks[order[0]] > r {
        1 + leading_above(ranks, order.drop_first(), r)
    } else {
        0
    }
}

proof fn lemma_leading_above(ranks: Seq<u64>, order: Seq<int>, r: u64)
    ensures
        leading_above(ranks, order, r) <= order.len(),
        forall|q: int| 0 <= q < leading_above(ranks, order, r) ==> ranks[#[trigger] order[q]] > r,
        leading_above(ranks, order, r) < order.len() ==> ranks[order[leading_above(ranks, order, r) as int]] <= r,
    decreases order.len(),
{
    if order.len() > 0 && ranks[order[0]] > r {
        let t = order.drop_first();
        lemma_leading_above(ranks, t, r);
        assert forall|q: int| 0 <= q < leading_above(ranks, order, r) implies ranks[#[trigger] order[q]] > r by {
            if q > 0 {
                assert(order[q] == t[q - 1]);
            }
        }
    }
}

/// The positions `m..ranks.len()` can be listed in survival order.
proof fn lemma_survival_suffix_exists(ranks: Seq<u64>, m: int)
    requires
        0 <= m <= ranks.len(),
    ensures
        exists|o: Seq<int>|
            {
                &&& o.len() == ranks.len() - m
                &&& forall|p: int| 0 <= p < o.len() ==> m <= #[trigger] o[p] < ranks.len()
                &&& forall|i: int| m <= i < ranks.len() ==> #[trigger] o.contains(i)
                &&& forall|p: int, q: int|
                    0 <= p < q < o.len() ==> outranks(ranks, #[trigger] o[p], #[trigger] o[q])
            },
    decreases ranks.len() - m,
{
    let n = ranks.len() as int;
    if m == n {
        let o = Seq::<int>::empty();
        assert(o.len() == n - m);
    } else {
        lemma_survival_suffix_exists(ranks, m + 1);
        let old_order = choose|o: Seq<int>|
            {
                &&& o.len() == n - (m + 1)
                &&& forall|p: int| 0 <= p < o.len() ==> m + 1 <= #[trigger] o[p] < n
                &&& forall|i: int| m + 1 <= i < n ==> #[trigger] o.contains(i)
                &&& forall|p: int, q: int|
                    0 <= p < q < o.len() ==> outranks(ranks, #[trigger] o[p], #[trigger] o[q])
            };
        let r = ranks[m];
        lemma_leading_above(ranks, old_order, r);
        let pos = leading_above(ranks, old_order, r) as int;
        let o = old_order.insert(pos, m);
        old_order.insert_ensures(pos, m);
        assert forall|p: int| 0 <= p < o.len() implies m <= #[trigger] o[p] < n by {
            if p > pos {
                assert(o[p] == old_order[p - 1]);
            }
        }
        assert forall|i: int| m <= i < n implies #[trigger] o.contains(i) by {
            if i == m {
                assert(o[pos] == m);
            } else {
                assert(old_order.contains(i));
                let j = choose|j: int| 0 <= j < old_order.len() && old_order[j] == i;
                if j < pos {
                    assert(o[j] == i);
                } else {
                    assert(o[j + 1] == i);
                }
            }
        }
        assert forall|p: int, q: int| 0 <= p < q < o.len() implies outranks(
            ranks,
            #[trigger] o[p],
            #[trigger] o[q],
        ) by {
            if q < pos {
                assert(o[p] == old_order[p] && o[q] == old_order[q]);
            } else if q == pos {
                assert(o[p] == old_order[p]);
                assert(ranks[old_order[p]] > r);
            } else if p == pos {
                assert(o[q] == old_order[q - 1]);
                assert(ranks[old_order[pos]] <= r);
                if q - 1 > pos {
                    assert(outranks(ranks, old_order[pos], old_order[q - 1]));
                }
                assert(ranks[old_order[q - 1]] <= r);
                assert(old_order[q - 1] > m);
            } else if p < pos {
                assert(o[p] == old_order[p] && o[q] == old_order[q - 1]);
            } else {
                assert(o[p] == old_order[p - 1] && o[q] == old_order[q - 1]);
            }
        }
        assert(o.len() == n - m);
    }
}

/// Every sequence of ranks has a survival order, so `survival_order` is it.
pub proof fn lemma_survival_order_exists(ranks: Seq<u64>)
    ensures
        is_survival_order(ranks, survival_order(ranks)),
{
    lemma_survival_suffix_exists(ranks, 0);
    let o = choose|o: Seq<int>|
        {
            &&& o.len() == ranks.len() - 0
            &&& forall|p: int| 0 <= p < o.len() ==> 0 <= #[trigger] o[p] < ranks.len()
            &&& forall|i: int| 0 <= i < ranks.len() ==> #[trigger] o.contains(i)
            &&& forall|p: int, q: int|
                0 <= p < q < o.len() ==> outranks(ranks, #[trigger] o[p], #[trigger] o[q])
        };
    assert(is_survival_order(ranks, o));
}

/// Garbage collection keeps the most surprising entries: above the
/// threshold, each of the `threshold` entries that survive ranks at least as
/// high as each entry that is dropped, and the survivors come highest first.
pub proof fn lemma_gc_keeps_highest(ranks: Seq<u64>, threshold: nat)
    requires
        ranks.len() > threshold,
    ensures
        gc_result(ranks, ranks, threshold).len() == threshold,
        forall|p: int, q: int|
            0 <= p < q < threshold ==> #[trigger] gc_result(ranks, ranks, threshold)[p]
                >= #[trigger] gc_result(ranks, ranks, threshold)[q],
        forall|p: int, q: int|
            0 <= p < threshold <= q < ranks.len() ==> ranks[#[trigger] survival_order(ranks)[p]]
                >= ranks[#[trigger] survival_order(ranks)[q]],
{
    lemma_survival_order_exists(ranks);
    let o = survival_order(ranks);
    let kept = gc_result(ranks, ranks, threshold);
    assert forall|p: int, q: int| 0 <= p < q < threshold implies #[trigger] kept[p] >= #[trigger] kept[q] by {
        assert(outranks(ranks, o[p], o[q]));
    }
    assert forall|p: int, q: int| 0 <= p < threshold <= q < ranks.len() implies ranks[#[trigger] o[p]] >= ranks[#[trigger] o[q]] by {
        assert(outranks(ranks, o[p], o[q]));
    }
}

/// Garbage collection is idempotent: collecting what a collection kept
/// (with the ranks it kept) changes nothing.
pub proof fn lemma_gc_idempotent<T>(items: Seq<T>, ranks: Seq<u64>, threshold: nat)
    requires
        items.len() == ranks.len(),
    ensures
        gc_result(gc_result(items, ranks, threshold), gc_result(ranks, ranks, threshold), threshold)
            == gc_result(items, ranks, threshold),
        gc_result(items, ranks, threshold).len() == if items.len() <= threshold {
            items.len()
        } else {
            threshold
        },
{
    lemma_survival_order_exists(ranks);
}

/// Whether the bits of a double encode NaN: all exponent bits set and a
/// nonzero fraction.
pub open spec fn is_nan_bits(bits: u64) -> bool {
    bits % 0x8000_0000_0000_0000 > 0x7FF0_0000_0000_0000
}

/// IEEE-754 `x < y` for the doubles with bits `a` and `b`, read off their
/// fields: the two zeros are equal; a negative value is below a positive
/// one; two positive values compare by biased exponent, then by fraction;
/// two negative values the other way round.
pub open spec fn ieee_less(a: u64, b: u64) -> bool {
    let (na, nb) = (a >= 0x8000_0000_0000_0000, b >= 0x8000_0000_0000_0000);
    let (ma, mb) = (a % 0x8000_0000_0000_0000, b % 0x8000_0000_0000_0000);
    let (ea, eb) = (ma / 0x10_0000_0000_0000, mb / 0x10_0000_0000_0000);
    let (fa, fb) = (ma % 0x10_0000_0000_0000, mb % 0x10_0000_0000_0000);
    if ma == 0 && mb == 0 {
        false
    } else if !na && !nb {
        ea < eb || (ea == eb && fa < fb)
    } else if na && nb {
        eb < ea || (eb == ea && fb < fa)
    } else {
        na
    }
}

proof fn lemma_fields_order(x: int, y: int)
    requires
        0 <= x,
        0 <= y,
    ensures
        x < y <==> (x / 0x10_0000_0000_0000 < y / 0x10_0000_0000_0000 || (x / 0x10_0000_0000_0000
            == y / 0x10_0000_0000_0000 && x % 0x10_0000_0000_0000 < y % 0x10_0000_0000_0000)),
{
    let k: int = 0x10_0000_0000_0000;
    let (ex, fx, ey, fy) = (x / k, x % k, y / k, y % k);
    vstd::arithmetic::div_mod::lemma_fundamental_div_mod(x, k);
    vstd::arithmetic::div_mod::lemma_fundamental_div_mod(y, k);
    assert(x < y <==> (ex < ey || (ex == ey && fx < fy))) by (nonlinear_arith)
        requires
            x == k * ex + fx,
            y == k * ey + fy,
            0 <= fx < k,
            0 <= fy < k,
            k > 0,
    {
        if ex < ey {
            assert(k * ex + k <= k * ey);
        }
        if ey < ex {
            assert(k * ey + k <= k * ex);
        }
    }
}

/// Surprise ranks order doubles as IEEE-754 compares them: for bits `a`
/// and `b` that do not encode NaN, the rank of `a` is below that of `b`
/// exactly when the double `a` is below the double `b`, and the ranks are
/// equal exactly when the doubles are (the same bits, or both zeros).
pub proof fn lemma_rank_follows_float_order(a: u64, b: u64)
    requires
        !is_nan_bits(a),
        !is_nan_bits(b),
    ensures
        signed_magnitude(a) < signed_magnitude(b) <==> ieee_less(a, b),
        signed_magnitude(a) == signed_magnitude(b) <==> (a == b || (a % 0x8000_0000_0000_0000 == 0
            && b % 0x8000_0000_0000_0000 == 0)),
{
    let ma = a % 0x8000_0000_0000_0000;
    let mb = b % 0x8000_0000_0000_0000;
    lemma_fields_order(ma as int, mb as int);
    lemma_fields_order(mb as int, ma as int);
}

/// What garbage collection keeps, stated position by position. At or below
/// the threshold the entries are unchanged. Above it exactly `threshold`
/// entries remain; they are the input entries at distinct positions
/// `kept[0] .. kept[threshold - 1]` (what collecting the positions
/// themselves yields), listed by descending rank with earlier positions
/// first among equal ranks, and every position that is dropped ranks below
/// every kept one, or equal to it and later.
pub proof fn lemma_gc_result_selects<T>(items: Seq<T>, ranks: Seq<u64>, threshold: nat)
    requires
        items.len() == ranks.len(),
    ensures
        items.len() <= threshold ==> gc_result(items, ranks, threshold) == items,
        items.len() > threshold ==> {
            let n = items.len() as int;
            let kept = gc_result(Seq::new(items.len(), |i: int| i), ranks, threshold);
            let out = gc_result(items, ranks, threshold);
            &&& kept.len() == threshold
            &&& out.len() == threshold
            &&& forall|p: int| 0 <= p < threshold ==> 0 <= #[trigger] kept[p] < n && out[p] == items[kept[p]]
            &&& forall|p: int, q: int|
                0 <= p < q < threshold ==> #[trigger] kept[p] != #[trigger] kept[q] && (ranks[kept[p]]
                    > ranks[kept[q]] || (ranks[kept[p]] == ranks[kept[q]] && kept[p] < kept[q]))
            &&& forall|p: int, i: int|
                0 <= p < threshold && 0 <= i < n && !kept.contains(i) ==> ranks[#[trigger] kept[p]]
                    > ranks[i] || (ranks[kept[p]] == #[trigger] ranks[i] && kept[p] < i)
        },
{
    if items.len() > threshold {
        lemma_survival_order_exists(ranks);
        let n = items.len() as int;
        let o = survival_order(ranks);
        let ids = Seq::new(items.len(), |i: int| i);
        let kept = gc_result(ids, ranks, threshold);
        assert(kept =~= o.take(threshold as int));
        assert forall|p: int, q: int| 0 <= p < q < threshold implies #[trigger] kept[p] != #[trigger] kept[q] && (
        ranks[kept[p]] > ranks[kept[q]] || (ranks[kept[p]] == ranks[kept[q]] && kept[p] < kept[q])) by {
            assert(outranks(ranks, o[p], o[q]));
        }
        assert forall|p: int, i: int|
            0 <= p < threshold && 0 <= i < n && !kept.contains(i) implies ranks[#[trigger] kept[p]]
            > ranks[i] || (ranks[kept[p]] == #[trigger] ranks[i] && kept[p] < i) by {
            assert(o.contains(i));
            let q = choose|q: int| 0 <= q < o.len() && o[q] == i;
            if q < threshold {
                assert(kept[q] == i);
                assert(kept.contains(i));
            }
            assert(outranks(ranks, o[p], o[q]));
        }
    }
}

} // verus!
