//! Stable sorting of positions by a key.
use vstd::prelude::*;

verus! {

/// Two sequences of positions, each in order, merged into one: the position
/// with the smaller key comes first, and among equal keys the one from `a`.
pub open spec fn merged(keys: Seq<usize>, a: Seq<usize>, b: Seq<usize>) -> Seq<usize>
    decreases a.len() + b.len(),
{
    if a.len() == 0 {
        b
    } else if b.len() == 0 {
        a
    } else if keys[a[0] as int] <= keys[b[0] as int] {
        seq![a[0]] + merged(keys, a.drop_first(), b)
    } else {
        seq![b[0]] + merged(keys, a, b.drop_first())
    }
}

/// The positions `from` to `to - 1` in the order of their keys; positions with
/// equal keys stay in their order.
pub open spec fn sorted_positions(keys: Seq<usize>, from: int, to: int) -> Seq<usize>
    decreases to - from,
{
    if to - from <= 0 {
        Seq::empty()
    } else if to - from == 1 {
        seq![from as usize]
    } else {
        let mid = from + (to - from) / 2;
        merged(keys, sorted_positions(keys, from, mid), sorted_positions(keys, mid, to))
    }
}

/// Whether every position in `order` is below `bound`.
pub open spec fn positions_below(order: Seq<usize>, bound: int) -> bool {
    forall|k: int| 0 <= k < order.len() ==> (#[trigger] order[k]) < bound
}

/// Whether position `a` comes before position `b`: its key is smaller, or
/// the keys are equal and `a` is the earlier position.
pub open spec fn comes_before(keys: Seq<usize>, a: usize, b: usize) -> bool {
    keys[a as int] < keys[b as int] || (keys[a as int] == keys[b as int] && a < b)
}

/// Whether every position in `order` comes before all that follow it.
pub open spec fn stably_ordered(keys: Seq<usize>, order: Seq<usize>) -> bool {
    forall|i: int, j: int|
        0 <= i < j < order.len() ==> comes_before(keys, #[trigger] order[i], #[trigger] order[j])
}

/// Whether every position in `order` is at least `bound`.
pub open spec fn positions_from(order: Seq<usize>, bound: int) -> bool {
    forall|k: int| 0 <= k < order.len() ==> (#[trigger] order[k]) >= bound
}

/// Merging keeps the positions, and their number.
pub proof fn lemma_merged_shape(keys: Seq<usize>, a: Seq<usize>, b: Seq<usize>, bound: int)
    requires
        positions_below(a, bound),
        positions_below(b, bound),
    ensures
        merged(keys, a, b).len() == a.len() + b.len(),
        positions_below(merged(keys, a, b), bound),
    decreases a.len() + b.len(),
{
    if a.len() > 0 && b.len() > 0 {
        if keys[a[0] as int] <= keys[b[0] as int] {
            assert(positions_below(a.drop_first(), bound)) by {
                assert forall|k: int| 0 <= k < a.drop_first().len() implies (
                #[trigger] a.drop_first()[k]) < bound by {
                    assert(a.drop_first()[k] == a[k + 1]);
                }
            }
            lemma_merged_shape(keys, a.drop_first(), b, bound);
        } else {
            assert(positions_below(b.drop_first(), bound)) by {
                assert forall|k: int| 0 <= k < b.drop_first().len() implies (
                #[trigger] b.drop_first()[k]) < bound by {
                    assert(b.drop_first()[k] == b[k + 1]);
                }
            }
            lemma_merged_shape(keys, a, b.drop_first(), bound);
        }
    }
}

/// Sorting `to - from` positions yields as many, all of them below `to`.
pub proof fn lemma_sorted_positions_shape(keys: Seq<usize>, from: int, to: int)
    requires
        0 <= from <= to <= usize::MAX,
    ensures
        sorted_positions(keys, from, to).len() == to - from,
        positions_below(sorted_positions(keys, from, to), to),
    decreases to - from,
{
    if to - from > 1 {
        let mid = from + (to - from) / 2;
        lemma_sorted_positions_shape(keys, from, mid);
        lemma_sorted_positions_shape(keys, mid, to);
        assert(positions_below(sorted_positions(keys, from, mid), to));
        lemma_merged_shape(
            keys,
            sorted_positions(keys, from, mid),
            sorted_positions(keys, mid, to),
            to,
        );
    }
}

/// Merges two sequences of positions.
fn merge(keys: &Vec<usize>, a: &Vec<usize>, b: &Vec<usize>) -> (out: Vec<usize>)
    requires
        positions_below(a@, keys@.len() as int),
        positions_below(b@, keys@.len() as int),
    ensures
        out@ == merged(keys@, a@, b@),
{
    let mut out: Vec<usize> = Vec::new();
    let mut i: usize = 0;
    let mut j: usize = 0;
    proof {
        assert(a@.skip(0) =~= a@);
        assert(b@.skip(0) =~= b@);
        assert(out@ + merged(keys@, a@.skip(0), b@.skip(0)) =~= merged(keys@, a@, b@));
    }
    while i < a.len() || j < b.len()
        invariant
            i <= a.len(),
            j <= b.len(),
            positions_below(a@, keys@.len() as int),
            positions_below(b@, keys@.len() as int),
            out@ + merged(keys@, a@.skip(i as int), b@.skip(j as int)) == merged(keys@, a@, b@),
        decreases a.len() - i + b.len() - j,
    {
        let ghost ra = a@.skip(i as int);
        let ghost rb = b@.skip(j as int);
        let ghost before = out@;
        proof {
            if i < a.len() {
                assert(ra[0] == a@[i as int]);
                assert(ra.drop_first() =~= a@.skip(i + 1));
            }
            if j < b.len() {
                assert(rb[0] == b@[j as int]);
                assert(rb.drop_first() =~= b@.skip(j + 1));
            }
        }
        if i >= a.len() {
            out.push(b[j]);
            proof {
                assert(merged(keys@, ra, rb) == rb);
                assert(merged(keys@, ra, rb.drop_first()) == rb.drop_first());
                assert(rb =~= seq![rb[0]] + rb.drop_first());
                assert(out@ + merged(keys@, ra, rb.drop_first()) =~= before + merged(keys@, ra, rb));
            }
            j += 1;
        } else if j >= b.len() {
            out.push(a[i]);
            proof {
                assert(merged(keys@, ra, rb) == ra);
                assert(merged(keys@, ra.drop_first(), rb) == if ra.drop_first().len() == 0 {
                    rb
                } else {
                    ra.drop_first()
                });
                assert(ra =~= seq![ra[0]] + ra.drop_first());
                assert(out@ + merged(keys@, ra.drop_first(), rb) =~= before + merged(keys@, ra, rb));
            }
            i += 1;
        } else if keys[a[i]] <= keys[b[j]] {
            out.push(a[i]);
            proof {
                assert(out@ + merged(keys@, ra.drop_first(), rb) =~= before + merged(keys@, ra, rb));
            }
            i += 1;
        } else {
            out.push(b[j]);
            proof {
                assert(out@ + merged(keys@, ra, rb.drop_first()) =~= before + merged(keys@, ra, rb));
            }
            j += 1;
        }
    }
    proof {
        assert(merged(keys@, a@.skip(i as int), b@.skip(j as int)) =~= Seq::empty());
        assert(out@ =~= merged(keys@, a@, b@));
    }
    out
}

/// The positions `from` to `to - 1` of `keys`, sorted by key; positions with
/// equal keys stay in their order.
pub fn sort_positions(keys: &Vec<usize>, from: usize, to: usize) -> (order: Vec<usize>)
    requires
        from <= to <= keys@.len(),
    ensures
        order@ == sorted_positions(keys@, from as int, to as int),
        order@.len() == to - from,
        positions_from(order@, from as int),
        positions_below(order@, to as int),
        order@.no_duplicates(),
        stably_ordered(keys@, order@),
    decreases to - from,
{
    proof {
        lemma_sorted_positions_ordered(keys@, from as int, to as int);
    }
    if to - from == 0 {
        Vec::new()
    } else if to - from == 1 {
        let mut order: Vec<usize> = Vec::new();
        order.push(from);
        assert(order@ =~= seq![from]);
        order
    } else {
        let mid = from + (to - from) / 2;
        let left = sort_positions(keys, from, mid);
        let right = sort_positions(keys, mid, to);
        merge(keys, &left, &right)
    }
}

/// Every position of a merged sequence is a position of one of the two.
pub proof fn lemma_merged_members(keys: Seq<usize>, a: Seq<usize>, b: Seq<usize>, k: int)
    requires
        0 <= k < merged(keys, a, b).len(),
    ensures
        a.contains(merged(keys, a, b)[k]) || b.contains(merged(keys, a, b)[k]),
    decreases a.len() + b.len(),
{
    if a.len() == 0 {
        assert(b[k] == merged(keys, a, b)[k]);
    } else if b.len() == 0 {
        assert(a[k] == merged(keys, a, b)[k]);
    } else if keys[a[0] as int] <= keys[b[0] as int] {
        if k == 0 {
            assert(a[0] == merged(keys, a, b)[0]);
        } else {
            lemma_merged_members(keys, a.drop_first(), b, k - 1);
            let x = merged(keys, a.drop_first(), b)[k - 1];
            if a.drop_first().contains(x) {
                let i = choose|i: int| 0 <= i < a.drop_first().len() && a.drop_first()[i] == x;
                assert(a[i + 1] == x);
            }
        }
    } else {
        if k == 0 {
            assert(b[0] == merged(keys, a, b)[0]);
        } else {
            lemma_merged_members(keys, a, b.drop_first(), k - 1);
            let x = merged(keys, a, b.drop_first())[k - 1];
            if b.drop_first().contains(x) {
                let i = choose|i: int| 0 <= i < b.drop_first().len() && b.drop_first()[i] == x;
                assert(b[i + 1] == x);
            }
        }
    }
}

/// Merging two ordered sequences, of which the first holds the earlier
/// positions, gives an ordered sequence.
pub proof fn lemma_merged_ordered(keys: Seq<usize>, a: Seq<usize>, b: Seq<usize>, mid: int)
    requires
        stably_ordered(keys, a),
        stably_ordered(keys, b),
        positions_below(a, mid),
        positions_from(b, mid),
    ensures
        stably_ordered(keys, merged(keys, a, b)),
    decreases a.len() + b.len(),
{
    if a.len() > 0 && b.len() > 0 {
        let m = merged(keys, a, b);
        let first_a = keys[a[0] as int] <= keys[b[0] as int];
        let rest = if first_a {
            merged(keys, a.drop_first(), b)
        } else {
            merged(keys, a, b.drop_first())
        };
        let head = if first_a {
            a[0]
        } else {
            b[0]
        };
        assert(m =~= seq![head] + rest);
        assert(stably_ordered(keys, a.drop_first())) by {
            assert forall|i: int, j: int| 0 <= i < j < a.drop_first().len() implies comes_before(
                keys,
                #[trigger] a.drop_first()[i],
                #[trigger] a.drop_first()[j],
            ) by {
                assert(comes_before(keys, a[i + 1], a[j + 1]));
            }
        }
        assert(stably_ordered(keys, b.drop_first())) by {
            assert forall|i: int, j: int| 0 <= i < j < b.drop_first().len() implies comes_before(
                keys,
                #[trigger] b.drop_first()[i],
                #[trigger] b.drop_first()[j],
            ) by {
                assert(comes_before(keys, b[i + 1], b[j + 1]));
            }
        }
        assert(positions_below(a.drop_first(), mid)) by {
            assert forall|k: int| 0 <= k < a.drop_first().len() implies (#[trigger] a.drop_first()[k])
                < mid by {
                assert(a.drop_first()[k] == a[k + 1]);
            }
        }
        assert(positions_from(b.drop_first(), mid)) by {
            assert forall|k: int| 0 <= k < b.drop_first().len() implies (#[trigger] b.drop_first()[k])
                >= mid by {
                assert(b.drop_first()[k] == b[k + 1]);
            }
        }
        if first_a {
            lemma_merged_ordered(keys, a.drop_first(), b, mid);
        } else {
            lemma_merged_ordered(keys, a, b.drop_first(), mid);
        }
        assert forall|i: int, j: int| 0 <= i < j < m.len() implies comes_before(
            keys,
            #[trigger] m[i],
            #[trigger] m[j],
        ) by {
            if i > 0 {
                assert(m[i] == rest[i - 1]);
                assert(m[j] == rest[j - 1]);
            } else {
                let x = rest[j - 1];
                assert(m[j] == x);
                if first_a {
                    lemma_merged_members(keys, a.drop_first(), b, j - 1);
                    if a.drop_first().contains(x) {
                        let k = choose|k: int| 0 <= k < a.drop_first().len() && a.drop_first()[k] == x;
                        assert(comes_before(keys, a[0], a[k + 1]));
                    } else {
                        let k = choose|k: int| 0 <= k < b.len() && b[k] == x;
                        assert(a[0] < mid && b[0] >= mid);
                        if k > 0 {
                            assert(comes_before(keys, b[0], b[k]));
                        }
                    }
                } else {
                    lemma_merged_members(keys, a, b.drop_first(), j - 1);
                    if b.drop_first().contains(x) {
                        let k = choose|k: int| 0 <= k < b.drop_first().len() && b.drop_first()[k] == x;
                        assert(comes_before(keys, b[0], b[k + 1]));
                    } else {
                        let k = choose|k: int| 0 <= k < a.len() && a[k] == x;
                        if k > 0 {
                            assert(comes_before(keys, a[0], a[k]));
                        }
                    }
                }
            }
        }
    }
}

/// Sorting is stable sorting: the result holds each of the positions `from`
/// to `to - 1` once, every position before all positions with a larger key and
/// before the later positions with the same key.
pub proof fn lemma_sorted_positions_ordered(keys: Seq<usize>, from: int, to: int)
    requires
        0 <= from <= to <= usize::MAX,
    ensures
        sorted_positions(keys, from, to).len() == to - from,
        positions_from(sorted_positions(keys, from, to), from),
        positions_below(sorted_positions(keys, from, to), to),
        stably_ordered(keys, sorted_positions(keys, from, to)),
        sorted_positions(keys, from, to).no_duplicates(),
    decreases to - from,
{
    let sorted = sorted_positions(keys, from, to);
    lemma_sorted_positions_shape(keys, from, to);
    if to - from > 1 {
        let mid = from + (to - from) / 2;
        let left = sorted_positions(keys, from, mid);
        let right = sorted_positions(keys, mid, to);
        lemma_sorted_positions_ordered(keys, from, mid);
        lemma_sorted_positions_ordered(keys, mid, to);
        lemma_merged_ordered(keys, left, right, mid);
        assert forall|k: int| 0 <= k < sorted.len() implies (#[trigger] sorted[k]) >= from by {
            lemma_merged_members(keys, left, right, k);
            if left.contains(sorted[k]) {
                let i = choose|i: int| 0 <= i < left.len() && left[i] == sorted[k];
                assert(left[i] >= from);
            } else {
                let i = choose|i: int| 0 <= i < right.len() && right[i] == sorted[k];
                assert(right[i] >= mid);
            }
        }
    }
    assert forall|i: int, j: int| 0 <= i < sorted.len() && 0 <= j < sorted.len() && i != j implies sorted[i]
        != sorted[j] by {
        if i < j {
            assert(comes_before(keys, sorted[i], sorted[j]));
        } else {
            assert(comes_before(keys, sorted[j], sorted[i]));
        }
    }
}

} // verus!
