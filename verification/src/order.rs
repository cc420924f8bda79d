//! Stable sorting by a key made of a rank and a text: ranks compared first,
//! then texts character by character.

use vstd::prelude::*;

verus! {

/// Lexicographic comparison of two texts by character code: -1, 0 or 1.
pub open spec fn text_order(a: Seq<char>, b: Seq<char>) -> int
    decreases a.len(),
{
    if a.len() == 0 {
        if b.len() == 0 { 0 } else { -1 }
    } else if b.len() == 0 {
        1
    } else if (a[0] as int) < (b[0] as int) {
        -1
    } else if (a[0] as int) > (b[0] as int) {
        1
    } else {
        text_order(a.drop_first(), b.drop_first())
    }
}

/// A sort key: first the rank, then the text.
pub struct SortKey {
    pub rank: u64,
    pub text: Vec<char>,
}

impl View for SortKey {
    type V = (u64, Seq<char>);

    open spec fn view(&self) -> (u64, Seq<char>) {
        (self.rank, self.text@)
    }
}

/// `a` sorts strictly before `b`.
pub open spec fn key_lt(a: (u64, Seq<char>), b: (u64, Seq<char>)) -> bool {
    a.0 < b.0 || (a.0 == b.0 && text_order(a.1, b.1) < 0)
}

/// Item `i` comes before item `j` in a stable sort by `keys`: its key is smaller,
/// or the keys are equal and it came first.
pub open spec fn precedes(keys: Seq<(u64, Seq<char>)>, i: int, j: int) -> bool {
    key_lt(keys[i], keys[j]) || (keys[i] == keys[j] && i < j)
}

/// `order` lists exactly the indices of `picked`, each once, in the order of a
/// stable sort of their items by `keys`.
pub open spec fn is_stable_order(keys: Seq<(u64, Seq<char>)>, picked: Seq<usize>, order: Seq<usize>) -> bool {
    &&& forall|k: int| 0 <= k < order.len() ==> picked.contains(#[trigger] order[k])
    &&& forall|x: usize| picked.contains(x) ==> order.contains(x)
    &&& forall|p: int, q: int| 0 <= p < q < order.len() ==> precedes(keys, #[trigger] order[p] as int, #[trigger] order[q] as int)
}

/// `order` lists exactly the indices of `keys` that satisfy `selected`, each once, in
/// the order of a stable sort of their items by `keys`.
pub open spec fn is_stable_selection(
    keys: Seq<(u64, Seq<char>)>,
    selected: spec_fn(int) -> bool,
    order: Seq<usize>,
) -> bool {
    &&& forall|k: int| 0 <= k < order.len() ==> #[trigger] order[k] < keys.len() && selected(order[k] as int)
    &&& forall|i: int| 0 <= i < keys.len() && #[trigger] selected(i) ==> order.contains(i as usize)
    &&& forall|p: int, q: int| 0 <= p < q < order.len() ==> precedes(keys, #[trigger] order[p] as int, #[trigger] order[q] as int)
}

proof fn lemma_text_order_props(a: Seq<char>, b: Seq<char>)
    ensures
        -1 <= text_order(a, b) <= 1,
        text_order(a, b) == -text_order(b, a),
        text_order(a, b) == 0 <==> a == b,
    decreases a.len(),
{
    if a.len() > 0 && b.len() > 0 {
        lemma_text_order_props(a.drop_first(), b.drop_first());
        if a[0] == b[0] && a.drop_first() == b.drop_first() {
            assert(a =~= seq![a[0]] + a.drop_first());
            assert(b =~= seq![b[0]] + b.drop_first());
        }
        if a[0] != b[0] {
            assert((a[0] as int) != (b[0] as int));
        }
    } else if a.len() == 0 && b.len() == 0 {
        assert(a =~= b);
    }
}

proof fn lemma_text_order_trans(a: Seq<char>, b: Seq<char>, c: Seq<char>)
    requires
        text_order(a, b) < 0,
        text_order(b, c) < 0,
    ensures
        text_order(a, c) < 0,
    decreases a.len(),
{
    if a.len() > 0 && b.len() > 0 && c.len() > 0 {
        if a[0] == b[0] && b[0] == c[0] {
            lemma_text_order_trans(a.drop_first(), b.drop_first(), c.drop_first());
        }
    }
}

/// `precedes` is transitive.
pub proof fn lemma_precedes_trans(keys: Seq<(u64, Seq<char>)>, i: int, j: int, k: int)
    requires
        precedes(keys, i, j),
        precedes(keys, j, k),
    ensures
        precedes(keys, i, k),
{
    lemma_text_order_props(keys[i].1, keys[j].1);
    lemma_text_order_props(keys[j].1, keys[k].1);
    lemma_text_order_props(keys[i].1, keys[k].1);
    if text_order(keys[i].1, keys[j].1) < 0 && text_order(keys[j].1, keys[k].1) < 0 {
        lemma_text_order_trans(keys[i].1, keys[j].1, keys[k].1);
    }
}

/// Of two different indices, exactly one precedes the other.
pub proof fn lemma_precedes_total(keys: Seq<(u64, Seq<char>)>, i: int, j: int)
    requires
        i != j,
    ensures
        precedes(keys, i, j) != precedes(keys, j, i),
{
    lemma_text_order_props(keys[i].1, keys[j].1);
    if keys[i].0 == keys[j].0 && keys[i].1 == keys[j].1 {
        assert(keys[i] == keys[j]);
    }
}

proof fn lemma_precedes_irreflexive(keys: Seq<(u64, Seq<char>)>, i: int)
    ensures
        !precedes(keys, i, i),
{
    lemma_text_order_props(keys[i].1, keys[i].1);
}

/// The stable order is determined: two orders that both list exactly the selected
/// items, in the order of a stable sort by `keys`, are the same.
pub proof fn lemma_stable_selection_unique(
    keys: Seq<(u64, Seq<char>)>,
    selected: spec_fn(int) -> bool,
    a: Seq<usize>,
    b: Seq<usize>,
)
    requires
        keys.len() <= usize::MAX,
        is_stable_selection(keys, selected, a),
        is_stable_selection(keys, selected, b),
    ensures
        a == b,
    decreases a.len() + b.len(),
{
    if a.len() == 0 || b.len() == 0 {
        if a.len() > 0 {
            assert(selected(a[0] as int));
            assert(b.contains(a[0]));
        }
        if b.len() > 0 {
            assert(selected(b[0] as int));
            assert(a.contains(b[0]));
        }
        assert(a =~= b);
    } else {
        let x = a[0];
        let y = b[0];
        if x != y {
            assert(selected(y as int) && (y as int) < keys.len());
            assert(a.contains(y));
            let i = choose|i: int| 0 <= i < a.len() && a[i] == y;
            assert(i != 0);
            assert(precedes(keys, x as int, y as int));
            assert(selected(x as int) && (x as int) < keys.len());
            assert(b.contains(x));
            let j = choose|j: int| 0 <= j < b.len() && b[j] == x;
            assert(j != 0);
            assert(precedes(keys, y as int, x as int));
            lemma_precedes_total(keys, x as int, y as int);
        }
        let rest = |k: int| selected(k) && k != x as int;
        let a2 = a.drop_first();
        let b2 = b.drop_first();
        assert forall|k: int| 0 <= k < a2.len() implies #[trigger] a2[k] < keys.len() && rest(a2[k] as int) by {
            assert(a2[k] == a[k + 1]);
            assert(precedes(keys, a[0] as int, a[k + 1] as int));
            if a[k + 1] == x {
                lemma_precedes_irreflexive(keys, x as int);
            }
        }
        assert forall|k: int| 0 <= k < b2.len() implies #[trigger] b2[k] < keys.len() && rest(b2[k] as int) by {
            assert(b2[k] == b[k + 1]);
            assert(precedes(keys, b[0] as int, b[k + 1] as int));
            if b[k + 1] == x {
                lemma_precedes_irreflexive(keys, x as int);
            }
        }
        assert forall|i: int| 0 <= i < keys.len() && #[trigger] rest(i) implies a2.contains(i as usize) by {
            assert(a.contains(i as usize));
            let k = choose|k: int| 0 <= k < a.len() && a[k] == i as usize;
            assert(k != 0);
            assert(a2[k - 1] == i as usize);
        }
        assert forall|i: int| 0 <= i < keys.len() && #[trigger] rest(i) implies b2.contains(i as usize) by {
            assert(b.contains(i as usize));
            let k = choose|k: int| 0 <= k < b.len() && b[k] == i as usize;
            assert(k != 0);
            assert(b2[k - 1] == i as usize);
        }
        assert forall|p: int, q: int| 0 <= p < q < a2.len() implies precedes(keys, #[trigger] a2[p] as int, #[trigger] a2[q] as int) by {
            assert(a2[p] == a[p + 1] && a2[q] == a[q + 1]);
        }
        assert forall|p: int, q: int| 0 <= p < q < b2.len() implies precedes(keys, #[trigger] b2[p] as int, #[trigger] b2[q] as int) by {
            assert(b2[p] == b[p + 1] && b2[q] == b[q + 1]);
        }
        lemma_stable_selection_unique(keys, rest, a2, b2);
        assert(a =~= seq![x] + a2);
        assert(b =~= seq![y] + b2);
    }
}

/// Compares two texts lexicographically by character code.
pub fn compare_text(a: &Vec<char>, b: &Vec<char>) -> (res: i8)
    ensures
        res == text_order(a@, b@),
{
    let mut i: usize = 0;
    assert(a@.skip(0) =~= a@ && b@.skip(0) =~= b@);
    while i < a.len() && i < b.len()
        invariant
            i <= a@.len(),
            i <= b@.len(),
            text_order(a@, b@) == text_order(a@.skip(i as int), b@.skip(i as int)),
        decreases a@.len() - i,
    {
        let x = a[i];
        let y = b[i];
        assert(a@.skip(i as int)[0] == x && b@.skip(i as int)[0] == y);
        if x < y {
            return -1;
        }
        if x > y {
            return 1;
        }
        assert(a@.skip(i as int).drop_first() =~= a@.skip(i + 1));
        assert(b@.skip(i as int).drop_first() =~= b@.skip(i + 1));
        i = i + 1;
    }
    if i < b.len() {
        -1
    } else if i < a.len() {
        1
    } else {
        0
    }
}

/// Whether item `i` comes before item `j` (see `precedes`).
fn comes_before(keys: &Vec<SortKey>, i: usize, j: usize) -> (res: bool)
    requires
        i < keys@.len(),
        j < keys@.len(),
    ensures
        res == precedes(keys@.map_values(|k: SortKey| k@), i as int, j as int),
{
    let ghost views = keys@.map_values(|k: SortKey| k@);
    let ka = &keys[i];
    let kb = &keys[j];
    if ka.rank != kb.rank {
        return ka.rank < kb.rank;
    }
    let c = compare_text(&ka.text, &kb.text);
    proof {
        lemma_text_order_props(ka.text@, kb.text@);
    }
    if c < 0 {
        true
    } else if c > 0 {
        false
    } else {
        assert(views[i as int] == views[j as int]);
        i < j
    }
}

/// Arranges the increasing indices `picked` (each below `keys.len()`) in the order of a
/// stable sort of their items by `keys`: smaller keys first, equal keys in index order.
pub fn stable_order(keys: &Vec<SortKey>, picked: &Vec<usize>) -> (order: Vec<usize>)
    requires
        forall|k: int| 0 <= k < picked@.len() ==> #[trigger] picked@[k] < keys@.len(),
        forall|p: int, q: int| 0 <= p < q < picked@.len() ==> #[trigger] picked@[p] < #[trigger] picked@[q],
    ensures
        is_stable_order(keys@.map_values(|k: SortKey| k@), picked@, order@),
        order@.len() == picked@.len(),
{
    let ghost views = keys@.map_values(|k: SortKey| k@);
    let mut order: Vec<usize> = Vec::new();
    let mut n: usize = 0;
    while n < picked.len()
        invariant
            n <= picked@.len(),
            views == keys@.map_values(|k: SortKey| k@),
            forall|k: int| 0 <= k < picked@.len() ==> #[trigger] picked@[k] < keys@.len(),
            forall|p: int, q: int| 0 <= p < q < picked@.len() ==> #[trigger] picked@[p] < #[trigger] picked@[q],
            order@.len() == n,
            forall|k: int| 0 <= k < order@.len() ==> picked@.take(n as int).contains(#[trigger] order@[k]),
            forall|x: usize| picked@.take(n as int).contains(x) ==> order@.contains(x),
            forall|k: int| 0 <= k < order@.len() ==> #[trigger] order@[k] < keys@.len(),
            forall|p: int, q: int|
                0 <= p < q < order@.len() ==> precedes(views, #[trigger] order@[p] as int, #[trigger] order@[q] as int),
        decreases picked@.len() - n,
    {
        let x = picked[n];
        let ghost before = order@;
        assert(picked@.take(n + 1) =~= picked@.take(n as int).push(x));
        assert(!before.contains(x)) by {
            if before.contains(x) {
                let k = choose|k: int| 0 <= k < before.len() && before[k] == x;
                assert(picked@.take(n as int).contains(x));
                let j = choose|j: int| 0 <= j < n && picked@.take(n as int)[j] == x;
                assert(picked@[j] < picked@[n as int]);
            }
        }
        // Binary search for the first position whose index does not precede `x`.
        let mut lo: usize = 0;
        let mut hi: usize = order.len();
        while lo < hi
            invariant
                lo <= hi <= order@.len(),
                order@ == before,
                x < keys@.len(),
                !before.contains(x),
                views == keys@.map_values(|k: SortKey| k@),
                forall|k: int| 0 <= k < order@.len() ==> #[trigger] order@[k] < keys@.len(),
                forall|p: int, q: int|
                    0 <= p < q < order@.len() ==> precedes(views, #[trigger] order@[p] as int, #[trigger] order@[q] as int),
                forall|k: int| 0 <= k < lo ==> precedes(views, #[trigger] order@[k] as int, x as int),
                forall|k: int| hi <= k < order@.len() ==> precedes(views, x as int, #[trigger] order@[k] as int),
            decreases hi - lo,
        {
            let mid = lo + (hi - lo) / 2;
            let m = order[mid];
            if comes_before(keys, m, x) {
                assert forall|k: int| 0 <= k < mid + 1 implies precedes(views, #[trigger] order@[k] as int, x as int) by {
                    if k < mid {
                        lemma_precedes_trans(views, order@[k] as int, m as int, x as int);
                    }
                }
                lo = mid + 1;
            } else {
                assert(m != x);
                proof {
                    lemma_precedes_total(views, m as int, x as int);
                }
                assert forall|k: int| mid <= k < order@.len() implies precedes(views, x as int, #[trigger] order@[k] as int) by {
                    if k > mid {
                        lemma_precedes_trans(views, x as int, m as int, order@[k] as int);
                    }
                }
                hi = mid;
            }
        }
        order.insert(lo, x);
        let ghost after = order@;
        assert(after == before.insert(lo as int, x));
        assert forall|p: int, q: int| 0 <= p < q < order@.len() implies precedes(views, #[trigger] order@[p] as int, #[trigger] order@[q] as int) by {
            if q < lo {
                assert(order@[p] == before[p] && order@[q] == before[q]);
            } else if q == lo {
                assert(order@[p] == before[p]);
            } else if p < lo {
                assert(order@[p] == before[p] && order@[q] == before[q - 1]);
            } else if p == lo {
                assert(order@[q] == before[q - 1]);
            } else {
                assert(order@[p] == before[p - 1] && order@[q] == before[q - 1]);
            }
        }
        assert forall|k: int| 0 <= k < order@.len() implies picked@.take(n + 1).contains(#[trigger] order@[k]) by {
            if k < lo {
                assert(order@[k] == before[k]);
            } else if k == lo {
                assert(picked@.take(n + 1)[n as int] == x);
            } else {
                assert(order@[k] == before[k - 1]);
            }
        }
        assert forall|y: usize| picked@.take(n + 1).contains(y) implies order@.contains(y) by {
            if y == x {
                assert(order@[lo as int] == x);
            } else {
                assert(picked@.take(n as int).contains(y));
                assert(before.contains(y));
                let k = choose|k: int| 0 <= k < before.len() && before[k] == y;
                assert(0 <= k < before.len() && before[k] == y);
                if k < lo {
                    assert(order@[k] == y);
                } else {
                    assert(order@[k + 1] == y);
                }
            }
        }
        n = n + 1;
    }
    assert(picked@.take(n as int) =~= picked@);
    order
}

} // verus!
