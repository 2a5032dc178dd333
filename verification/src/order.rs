//! Putting a listing in order.

use vstd::prelude::*;

verus! {

/// Whether one text comes before another, character by character.
pub open spec fn text_before(a: Seq<char>, b: Seq<char>) -> bool
    decreases a.len(),
{
    if b.len() == 0 {
        false
    } else if a.len() == 0 {
        true
    } else if a[0] != b[0] {
        a[0] < b[0]
    } else {
        text_before(a.skip(1), b.skip(1))
    }
}

/// Whether one sort key comes before another: `false` first, then by text.
pub open spec fn key_before(a: (bool, Seq<char>), b: (bool, Seq<char>)) -> bool {
    if a.0 != b.0 {
        !a.0
    } else {
        text_before(a.1, b.1)
    }
}

/// Whether item `i` goes before item `j`: by key, and where the keys are equal
/// in the order they came in.
pub open spec fn item_before(keys: Seq<(bool, Seq<char>)>, i: int, j: int) -> bool {
    key_before(keys[i], keys[j]) || (keys[i] == keys[j] && i < j)
}

/// An order in which every item has one place, each before the next.
pub open spec fn is_order(keys: Seq<(bool, Seq<char>)>, order: Seq<usize>) -> bool {
    &&& order.len() == keys.len()
    &&& forall|x: usize| #![trigger order.contains(x)] order.contains(x) <==> x < keys.len()
    &&& forall|a: int, b: int|
        #![trigger order[a], order[b]]
        0 <= a < b < order.len() ==> item_before(keys, order[a] as int, order[b] as int)
}

/// `out` holds the items of `items`, each once, put in order by their keys;
/// items with equal keys stay in the order they came in.
pub open spec fn arranged<T>(keys: Seq<(bool, Seq<char>)>, items: Seq<T>, out: Seq<T>) -> bool {
    exists|order: Seq<usize>| #[trigger]
        is_order(keys, order) && out == order.map_values(|i: usize| items[i as int])
}

pub proof fn lemma_text_irreflexive(a: Seq<char>)
    ensures
        !text_before(a, a),
    decreases a.len(),
{
    if a.len() > 0 {
        lemma_text_irreflexive(a.skip(1));
    }
}

pub proof fn lemma_text_transitive(a: Seq<char>, b: Seq<char>, c: Seq<char>)
    requires
        text_before(a, b),
        text_before(b, c),
    ensures
        text_before(a, c),
    decreases a.len(),
{
    if a.len() > 0 && a[0] == b[0] && b[0] == c[0] {
        lemma_text_transitive(a.skip(1), b.skip(1), c.skip(1));
    }
}

pub proof fn lemma_text_total(a: Seq<char>, b: Seq<char>)
    ensures
        text_before(a, b) || text_before(b, a) || a == b,
    decreases a.len(),
{
    if a.len() == 0 || b.len() == 0 {
        if a.len() == b.len() {
            assert(a =~= b);
        }
    } else if a[0] == b[0] {
        lemma_text_total(a.skip(1), b.skip(1));
        if a.skip(1) == b.skip(1) {
            assert(a =~= seq![a[0]] + a.skip(1));
            assert(b =~= seq![b[0]] + b.skip(1));
        }
    }
}

proof fn lemma_item_transitive(keys: Seq<(bool, Seq<char>)>, i: int, j: int, k: int)
    requires
        item_before(keys, i, j),
        item_before(keys, j, k),
    ensures
        item_before(keys, i, k),
{
    if key_before(keys[i], keys[j]) && key_before(keys[j], keys[k]) && keys[i].0 == keys[j].0 && keys[j].0 == keys[k].0 {
        lemma_text_transitive(keys[i].1, keys[j].1, keys[k].1);
    }
}

proof fn lemma_item_total(keys: Seq<(bool, Seq<char>)>, i: int, j: int)
    requires
        i != j,
    ensures
        item_before(keys, i, j) || item_before(keys, j, i),
{
    lemma_text_total(keys[i].1, keys[j].1);
}

proof fn lemma_item_irreflexive(keys: Seq<(bool, Seq<char>)>, i: int)
    ensures
        !item_before(keys, i, i),
{
    lemma_text_irreflexive(keys[i].1);
}

/// The keys as plain values.
pub open spec fn key_views(keys: Seq<(bool, Vec<char>)>) -> Seq<(bool, Seq<char>)> {
    keys.map_values(|k: (bool, Vec<char>)| (k.0, k.1@))
}

/// Whether one text comes before another.
pub fn by_name(a: &Vec<char>, b: &Vec<char>) -> (r: bool)
    ensures
        r == text_before(a@, b@),
{
    let mut i: usize = 0;
    assert(a@.skip(0) =~= a@);
    assert(b@.skip(0) =~= b@);
    while i < a.len() && i < b.len()
        invariant
            i <= a@.len(),
            i <= b@.len(),
            text_before(a@, b@) == text_before(a@.skip(i as int), b@.skip(i as int)),
        decreases a.len() - i,
    {
        proof {
            assert(a@.skip(i as int).skip(1) =~= a@.skip(i + 1));
            assert(b@.skip(i as int).skip(1) =~= b@.skip(i + 1));
        }
        if a[i] != b[i] {
            return a[i] < b[i];
        }
        i += 1;
    }
    i < b.len()
}

/// Whether item `i` goes before item `j`.
fn goes_before(keys: &Vec<(bool, Vec<char>)>, i: usize, j: usize) -> (r: bool)
    requires
        i < keys@.len(),
        j < keys@.len(),
    ensures
        r == item_before(key_views(keys@), i as int, j as int),
{
    let ghost ks = key_views(keys@);
    if keys[i].0 != keys[j].0 {
        return !keys[i].0;
    }
    if by_name(&keys[i].1, &keys[j].1) {
        return true;
    }
    if by_name(&keys[j].1, &keys[i].1) {
        proof {
            if keys@[i as int].1@ == keys@[j as int].1@ {
                lemma_text_irreflexive(keys@[i as int].1@);
            }
        }
        return false;
    }
    proof {
        lemma_text_total(keys@[i as int].1@, keys@[j as int].1@);
        assert(ks[i as int] == ks[j as int]);
    }
    i < j
}

/// In order, and holding the same items.
spec fn sorted_from(keys: Seq<(bool, Seq<char>)>, items: Seq<usize>, out: Seq<usize>) -> bool {
    &&& out.len() == items.len()
    &&& forall|x: usize| #![trigger out.contains(x)] out.contains(x) <==> items.contains(x)
    &&& forall|a: int, b: int| #![trigger out[a], out[b]] 0 <= a < b < out.len() ==> item_before(keys, out[a] as int, out[b] as int)
}

/// Merges two ordered runs of different items into one.
fn merge(keys: &Vec<(bool, Vec<char>)>, left: &Vec<usize>, right: &Vec<usize>) -> (out: Vec<usize>)
    requires
        forall|k: int| #![trigger left@[k]] 0 <= k < left@.len() ==> left@[k] < keys@.len(),
        forall|k: int| #![trigger right@[k]] 0 <= k < right@.len() ==> right@[k] < keys@.len(),
        forall|a: int, b: int|
            #![trigger left@[a], left@[b]]
            0 <= a < b < left@.len() ==> item_before(key_views(keys@), left@[a] as int, left@[b] as int),
        forall|a: int, b: int|
            #![trigger right@[a], right@[b]]
            0 <= a < b < right@.len() ==> item_before(key_views(keys@), right@[a] as int, right@[b] as int),
        forall|a: int, b: int|
            #![trigger left@[a], right@[b]]
            0 <= a < left@.len() && 0 <= b < right@.len() ==> left@[a] != right@[b],
    ensures
        sorted_from(key_views(keys@), left@ + right@, out@),
{
    let ghost ks = key_views(keys@);
    let mut out: Vec<usize> = Vec::new();
    let mut i: usize = 0;
    let mut j: usize = 0;
    while i < left.len() || j < right.len()
        invariant
            i <= left@.len(),
            j <= right@.len(),
            ks == key_views(keys@),
            forall|k: int| #![trigger left@[k]] 0 <= k < left@.len() ==> left@[k] < keys@.len(),
            forall|k: int| #![trigger right@[k]] 0 <= k < right@.len() ==> right@[k] < keys@.len(),
            forall|a: int, b: int|
                #![trigger left@[a], left@[b]]
                0 <= a < b < left@.len() ==> item_before(ks, left@[a] as int, left@[b] as int),
            forall|a: int, b: int|
                #![trigger right@[a], right@[b]]
                0 <= a < b < right@.len() ==> item_before(ks, right@[a] as int, right@[b] as int),
            forall|a: int, b: int|
                #![trigger left@[a], right@[b]]
                0 <= a < left@.len() && 0 <= b < right@.len() ==> left@[a] != right@[b],
            out@.len() == i + j,
            forall|x: usize|
                #![trigger out@.contains(x)]
                out@.contains(x) <==> left@.take(i as int).contains(x) || right@.take(j as int).contains(x),
            forall|a: int, b: int| #![trigger out@[a], out@[b]] 0 <= a < b < out@.len() ==> item_before(ks, out@[a] as int, out@[b] as int),
            forall|a: int, b: int|
                #![trigger out@[a], left@[b]]
                0 <= a < out@.len() && i <= b < left@.len() ==> item_before(ks, out@[a] as int, left@[b] as int),
            forall|a: int, b: int|
                #![trigger out@[a], right@[b]]
                0 <= a < out@.len() && j <= b < right@.len() ==> item_before(ks, out@[a] as int, right@[b] as int),
        decreases left.len() - i + right.len() - j,
    {
        let ghost before = out@;
        let take_left: bool = if i >= left.len() {
            false
        } else if j >= right.len() {
            true
        } else {
            proof {
                lemma_item_total(ks, left@[i as int] as int, right@[j as int] as int);
            }
            goes_before(keys, left[i], right[j])
        };
        if take_left {
            let x: usize = left[i];
            out.push(x);
            proof {
                if j < right@.len() {
                    assert forall|b: int| #![trigger right@[b]] j <= b < right@.len() implies item_before(ks, x as int, right@[b] as int) by {
                        if b > j {
                            lemma_item_transitive(ks, x as int, right@[j as int] as int, right@[b] as int);
                        }
                    }
                }
                lemma_pushed(before, left@, i as int, x, out@);
                assert forall|y: usize| #![trigger out@.contains(y)] out@.contains(y) <==> left@.take(i + 1).contains(y) || right@.take(
                    j as int,
                ).contains(y) by {
                    assert(before.contains(y) <==> left@.take(i as int).contains(y) || right@.take(j as int).contains(y));
                }
            }
            i += 1;
        } else {
            let x: usize = right[j];
            out.push(x);
            proof {
                if i < left@.len() {
                    assert forall|b: int| #![trigger left@[b]] i <= b < left@.len() implies item_before(ks, x as int, left@[b] as int) by {
                        if b > i {
                            lemma_item_transitive(ks, x as int, left@[i as int] as int, left@[b] as int);
                        }
                    }
                }
                lemma_pushed(before, right@, j as int, x, out@);
                assert forall|y: usize| #![trigger out@.contains(y)] out@.contains(y) <==> left@.take(i as int).contains(y) || right@.take(
                    j + 1,
                ).contains(y) by {
                    assert(before.contains(y) <==> left@.take(i as int).contains(y) || right@.take(j as int).contains(y));
                }
            }
            j += 1;
        }
    }
    proof {
        assert(left@.take(left@.len() as int) =~= left@);
        assert(right@.take(right@.len() as int) =~= right@);
        assert forall|x: usize| #![trigger out@.contains(x)] out@.contains(x) <==> (left@ + right@).contains(x) by {
            lemma_concat_contains(left@, right@, x);
        }
    }
    out
}

/// Pushing the next item of a list onto another adds just that item.
proof fn lemma_pushed(before: Seq<usize>, from: Seq<usize>, i: int, x: usize, after: Seq<usize>)
    requires
        0 <= i < from.len(),
        from[i] == x,
        after == before.push(x),
    ensures
        forall|y: usize| #![trigger after.contains(y)] after.contains(y) <==> before.contains(y) || y == x,
        forall|y: usize| #![trigger from.take(i + 1).contains(y)] from.take(i + 1).contains(y) <==> from.take(i).contains(y) || y == x,
{
    assert forall|y: usize| #![trigger after.contains(y)] after.contains(y) <==> before.contains(y) || y == x by {
        lemma_push_contains(before, x, y);
    }
    assert(from.take(i + 1) =~= from.take(i).push(x));
    assert forall|y: usize| #![trigger from.take(i + 1).contains(y)] from.take(i + 1).contains(y) <==> from.take(i).contains(y) || y == x by {
        lemma_push_contains(from.take(i), x, y);
    }
}

proof fn lemma_push_contains(s: Seq<usize>, x: usize, y: usize)
    ensures
        s.push(x).contains(y) <==> s.contains(y) || y == x,
{
    if s.contains(y) {
        let k = choose|k: int| 0 <= k < s.len() && s[k] == y;
        assert(s.push(x)[k] == y);
    }
    assert(s.push(x)[s.len() as int] == x);
}

proof fn lemma_concat_contains(a: Seq<usize>, b: Seq<usize>, x: usize)
    ensures
        (a + b).contains(x) <==> a.contains(x) || b.contains(x),
{
    if a.contains(x) {
        let k = choose|k: int| 0 <= k < a.len() && a[k] == x;
        assert((a + b)[k] == x);
    }
    if b.contains(x) {
        let k = choose|k: int| 0 <= k < b.len() && b[k] == x;
        assert((a + b)[a.len() + k] == x);
    }
}

/// Orders the items from `lo` up to `hi`.
fn sort_range(keys: &Vec<(bool, Vec<char>)>, lo: usize, hi: usize) -> (out: Vec<usize>)
    requires
        lo <= hi <= keys@.len(),
    ensures
        out@.len() == hi - lo,
        forall|x: usize| #![trigger out@.contains(x)] out@.contains(x) <==> lo <= x < hi,
        forall|a: int, b: int|
            #![trigger out@[a], out@[b]]
            0 <= a < b < out@.len() ==> item_before(key_views(keys@), out@[a] as int, out@[b] as int),
    decreases hi - lo,
{
    let ghost ks = key_views(keys@);
    let mut out: Vec<usize> = Vec::new();
    if hi - lo == 0 {
        return out;
    }
    if hi - lo == 1 {
        out.push(lo);
        assert(out@[0] == lo);
        return out;
    }
    let mid: usize = lo + (hi - lo) / 2;
    let left: Vec<usize> = sort_range(keys, lo, mid);
    let right: Vec<usize> = sort_range(keys, mid, hi);
    proof {
        assert forall|k: int| #![trigger left@[k]] 0 <= k < left@.len() implies lo <= left@[k] < mid by {
            assert(left@.contains(left@[k]));
        }
        assert forall|k: int| #![trigger right@[k]] 0 <= k < right@.len() implies mid <= right@[k] < hi by {
            assert(right@.contains(right@[k]));
        }
    }
    let out: Vec<usize> = merge(keys, &left, &right);
    proof {
        assert forall|x: usize| #![trigger out@.contains(x)] out@.contains(x) <==> lo <= x < hi by {
            lemma_concat_contains(left@, right@, x);
            assert(left@.contains(x) <==> lo <= x < mid);
            assert(right@.contains(x) <==> mid <= x < hi);
        }
    }
    out
}

/// The order that keys put their items in.
pub fn sort_order(keys: &Vec<(bool, Vec<char>)>) -> (order: Vec<usize>)
    ensures
        is_order(key_views(keys@), order@),
{
    sort_range(keys, 0, keys.len())
}

/// No item has two places.
pub proof fn lemma_order_is_injective(keys: Seq<(bool, Seq<char>)>, order: Seq<usize>, a: int, b: int)
    requires
        is_order(keys, order),
        0 <= a < order.len(),
        0 <= b < order.len(),
        order[a] == order[b],
    ensures
        a == b,
{
    lemma_item_irreflexive(keys, order[a] as int);
    if a < b {
        assert(item_before(keys, order[a] as int, order[b] as int));
    } else if b < a {
        assert(item_before(keys, order[b] as int, order[a] as int));
    }
}

// -- laws -----------------------------------------------------------------

/// One text comes before another where it goes on in it, or has the smaller
/// character where the two first differ.
pub open spec fn reads_before(a: Seq<char>, b: Seq<char>) -> bool {
    ||| a.len() < b.len() && forall|k: int| #![trigger a[k]] 0 <= k < a.len() ==> a[k] == b[k]
    ||| exists|n: int|
        #![trigger a[n]]
        0 <= n < a.len() && n < b.len() && a[n] < b[n] && forall|k: int| #![trigger a[k]] 0 <= k < n ==> a[k] == b[k]
}

/// The order of texts is that of a dictionary, over the whole of them.
pub proof fn lemma_the_order_is_a_dictionary(a: Seq<char>, b: Seq<char>)
    ensures
        text_before(a, b) <==> reads_before(a, b),
    decreases a.len(),
{
    if b.len() == 0 {
    } else if a.len() == 0 {
    } else if a[0] != b[0] {
        if reads_before(a, b) {
            if exists|n: int|
                #![trigger a[n]]
                0 <= n < a.len() && n < b.len() && a[n] < b[n] && forall|k: int|
                    #![trigger a[k]]
                    0 <= k < n ==> a[k] == b[k] {
                let n = choose|n: int|
                    #![trigger a[n]]
                    0 <= n < a.len() && n < b.len() && a[n] < b[n] && forall|k: int|
                        #![trigger a[k]]
                        0 <= k < n ==> a[k] == b[k];
                assert(n > 0 ==> a[0] == b[0]);
            } else {
                assert(a[0] == b[0]);
            }
        }
    } else {
        let x = a.skip(1);
        let y = b.skip(1);
        lemma_the_order_is_a_dictionary(x, y);
        if reads_before(x, y) {
            if exists|n: int|
                #![trigger x[n]]
                0 <= n < x.len() && n < y.len() && x[n] < y[n] && forall|k: int|
                    #![trigger x[k]]
                    0 <= k < n ==> x[k] == y[k] {
                let n = choose|n: int|
                    #![trigger x[n]]
                    0 <= n < x.len() && n < y.len() && x[n] < y[n] && forall|k: int|
                        #![trigger x[k]]
                        0 <= k < n ==> x[k] == y[k];
                assert(a[n + 1] == x[n] && b[n + 1] == y[n]);
                assert forall|k: int| #![trigger a[k]] 0 <= k < n + 1 implies a[k] == b[k] by {
                    if k > 0 {
                        assert(x[k - 1] == y[k - 1]);
                    }
                }
            } else {
                assert forall|k: int| #![trigger a[k]] 0 <= k < a.len() implies a[k] == b[k] by {
                    if k > 0 {
                        assert(x[k - 1] == y[k - 1]);
                    }
                }
            }
        }
        if reads_before(a, b) {
            if exists|n: int|
                #![trigger a[n]]
                0 <= n < a.len() && n < b.len() && a[n] < b[n] && forall|k: int|
                    #![trigger a[k]]
                    0 <= k < n ==> a[k] == b[k] {
                let n = choose|n: int|
                    #![trigger a[n]]
                    0 <= n < a.len() && n < b.len() && a[n] < b[n] && forall|k: int|
                        #![trigger a[k]]
                        0 <= k < n ==> a[k] == b[k];
                assert(x[n - 1] == a[n] && y[n - 1] == b[n]);
                assert forall|k: int| #![trigger x[k]] 0 <= k < n - 1 implies x[k] == y[k] by {
                    assert(a[k + 1] == b[k + 1]);
                }
            } else {
                assert forall|k: int| #![trigger x[k]] 0 <= k < x.len() implies x[k] == y[k] by {
                    assert(a[k + 1] == b[k + 1]);
                }
            }
        }
    }
}

/// Of two orders that list the same things, each strictly before the next by the
/// same keys, one is the other.
pub proof fn lemma_one_listing<T>(a: Seq<T>, b: Seq<T>, key: spec_fn(T) -> (bool, Seq<char>), n: int)
    requires
        0 <= n <= a.len(),
        a.len() == b.len(),
        forall|i: int| #![trigger a[i]] 0 <= i < a.len() ==> b.contains(a[i]),
        forall|i: int| #![trigger b[i]] 0 <= i < b.len() ==> a.contains(b[i]),
        forall|i: int, j: int| #![trigger a[i], a[j]] 0 <= i < j < a.len() ==> key_before(key(a[i]), key(a[j])),
        forall|i: int, j: int| #![trigger b[i], b[j]] 0 <= i < j < b.len() ==> key_before(key(b[i]), key(b[j])),
    ensures
        forall|i: int| #![trigger a[i]] 0 <= i < n ==> a[i] == b[i],
    decreases n,
{
    if n > 0 {
        lemma_one_listing(a, b, key, n - 1);
        let k = n - 1;
        assert(b.contains(a[k]) && a.contains(b[k]));
        let m = choose|m: int| 0 <= m < b.len() && b[m] == a[k];
        let p = choose|p: int| 0 <= p < a.len() && a[p] == b[k];
        lemma_text_irreflexive(key(a[k]).1);
        lemma_text_irreflexive(key(b[k]).1);
        if m < k {
            assert(a[m] == b[m]);
            assert(key_before(key(a[m]), key(a[k])));
        } else if p < k {
            assert(a[p] == b[p]);
            assert(key_before(key(b[p]), key(b[k])));
        } else if m > k && p > k {
            assert(key_before(key(b[k]), key(b[m])));
            assert(key_before(key(a[k]), key(a[p])));
            if key(a[k]).0 == key(b[k]).0 {
                lemma_text_transitive(key(a[k]).1, key(b[k]).1, key(a[k]).1);
            }
        }
    }
}

} // verus!
