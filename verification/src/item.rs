//! Candidate items of one cache and the order in which the solver takes them.

use vstd::prelude::*;

verus! {

/// One request that a cache could serve, seen as a knapsack item.
#[derive(Clone, Copy, Debug, PartialEq, Eq, Structural)]
pub struct Item {
    /// Index of the request this item stands for.
    pub request_id: u32,
    /// Latency saved when the request is served from the cache.
    pub latency_gain: u16,
    /// Storage that the requested video takes.
    pub video_size: u16,
}

/// `a`'s gain per unit of size is at most `b`'s.
///
/// The ratios are compared exactly, by cross-multiplication. An item of size
/// zero costs nothing and ranks above every item that has a size.
pub open spec fn ratio_le(a: Item, b: Item) -> bool {
    if b.video_size == 0 {
        true
    } else if a.video_size == 0 {
        false
    } else {
        a.latency_gain * b.video_size <= b.latency_gain * a.video_size
    }
}

/// `s` is in ascending order of gain per size.
pub open spec fn ascending_by_ratio(s: Seq<Item>) -> bool {
    forall|i: int, j: int| 0 <= i < j < s.len() ==> ratio_le(#[trigger] s[i], #[trigger] s[j])
}

/// `x` placed into the ascending sequence `s`, behind every item that does
/// not rank above it.
pub open spec fn insert_by_ratio(s: Seq<Item>, x: Item) -> Seq<Item>
    decreases s.len(),
{
    if s.len() == 0 {
        seq![x]
    } else if ratio_le(s.last(), x) {
        s.push(x)
    } else {
        insert_by_ratio(s.drop_last(), x).push(s.last())
    }
}

/// Position `j` is where `x` belongs in `s`: every item from `j` on ranks
/// above `x`, and the item before `j` does not.
pub open spec fn insert_place(s: Seq<Item>, x: Item, j: int) -> bool {
    &&& forall|t: int| j <= t < s.len() ==> !ratio_le(#[trigger] s[t], x)
    &&& j > 0 ==> ratio_le(s[j - 1], x)
}

/// `s` in ascending order of gain per size; items of equal ratio keep the
/// order they had in `s`.
pub open spec fn sorted_by_ratio(s: Seq<Item>) -> Seq<Item>
    decreases s.len(),
{
    if s.len() == 0 {
        s
    } else {
        insert_by_ratio(sorted_by_ratio(s.drop_last()), s.last())
    }
}

/// Any two items compare one way or the other.
pub proof fn lemma_ratio_le_total(a: Item, b: Item)
    ensures
        ratio_le(a, b) || ratio_le(b, a),
{
}

/// The order is transitive.
pub proof fn lemma_ratio_le_transitive(a: Item, b: Item, c: Item)
    requires
        ratio_le(a, b),
        ratio_le(b, c),
    ensures
        ratio_le(a, c),
{
    if c.video_size != 0 && b.video_size != 0 && a.video_size != 0 {
        let (ag, az) = (a.latency_gain as int, a.video_size as int);
        let (bg, bz) = (b.latency_gain as int, b.video_size as int);
        let (cg, cz) = (c.latency_gain as int, c.video_size as int);
        assert(ag * cz <= cg * az) by (nonlinear_arith)
            requires
                ag * bz <= bg * az,
                bg * cz <= cg * bz,
                az > 0,
                bz > 0,
                cz > 0,
                ag >= 0,
                bg >= 0,
                cg >= 0,
        {
            assert((ag * bz) * cz <= (bg * az) * cz);
            assert((bg * cz) * az <= (cg * bz) * az);
            assert((ag * cz) * bz == (ag * bz) * cz);
            assert((bg * az) * cz == (bg * cz) * az);
            assert((cg * bz) * az == (cg * az) * bz);
            assert((ag * cz) * bz <= (cg * az) * bz);
        }
    }
}

/// Where `x` lands: behind the last item that does not rank above it.
proof fn lemma_insert_position(p: Seq<Item>, x: Item, j: int)
    requires
        0 <= j <= p.len(),
        insert_place(p, x, j),
    ensures
        insert_by_ratio(p, x) == p.take(j).push(x) + p.skip(j),
    decreases p.len(),
{
    if p.len() == 0 {
        assert(p.take(j).push(x) + p.skip(j) =~= seq![x]);
    } else if j == p.len() {
        assert(p.take(j).push(x) + p.skip(j) =~= p.push(x));
    } else {
        let q = p.drop_last();
        assert(!ratio_le(p[p.len() - 1], x));
        assert forall|t: int| j <= t < q.len() implies !ratio_le(#[trigger] q[t], x) by {
            assert(q[t] == p[t]);
        }
        lemma_insert_position(q, x, j);
        assert((q.take(j).push(x) + q.skip(j)).push(p.last()) =~= p.take(j).push(x) + p.skip(j));
    }
}

/// Inserting keeps the items of `s` in their order and puts `x` directly
/// behind the last item that does not rank above it, so behind its equals.
pub proof fn lemma_insert_is_stable(s: Seq<Item>, x: Item)
    ensures
        exists|j: int|
            {
                &&& 0 <= j <= s.len()
                &&& #[trigger] insert_place(s, x, j)
                &&& insert_by_ratio(s, x) == s.take(j).push(x) + s.skip(j)
            },
    decreases s.len(),
{
    if s.len() == 0 || ratio_le(s.last(), x) {
        let j = s.len() as int;
        assert(insert_place(s, x, j));
        lemma_insert_position(s, x, j);
    } else {
        let q = s.drop_last();
        lemma_insert_is_stable(q, x);
        let j = choose|j: int|
            {
                &&& 0 <= j <= q.len()
                &&& #[trigger] insert_place(q, x, j)
                &&& insert_by_ratio(q, x) == q.take(j).push(x) + q.skip(j)
            };
        assert(insert_place(s, x, j)) by {
            assert forall|t: int| j <= t < s.len() implies !ratio_le(#[trigger] s[t], x) by {
                if t < q.len() {
                    assert(q[t] == s[t]);
                }
            }
            if j > 0 {
                assert(q[j - 1] == s[j - 1]);
            }
        }
        lemma_insert_position(s, x, j);
    }
}

/// Inserting adds `x` and nothing else.
pub proof fn lemma_insert_is_permutation(s: Seq<Item>, x: Item)
    ensures
        insert_by_ratio(s, x).to_multiset() == s.to_multiset().insert(x),
        insert_by_ratio(s, x).len() == s.len() + 1,
    decreases s.len(),
{
    broadcast use vstd::seq_lib::group_to_multiset_ensures;

    if s.len() == 0 {
        assert(seq![x] =~= s.push(x));
    } else if ratio_le(s.last(), x) {
    } else {
        let q = s.drop_last();
        lemma_insert_is_permutation(q, x);
        assert(q.push(s.last()) =~= s);
        assert(insert_by_ratio(s, x).to_multiset() =~= s.to_multiset().insert(x));
    }
}

/// Sorting moves items and neither adds nor drops one.
pub proof fn lemma_sorted_is_permutation(s: Seq<Item>)
    ensures
        sorted_by_ratio(s).to_multiset() == s.to_multiset(),
        sorted_by_ratio(s).len() == s.len(),
    decreases s.len(),
{
    broadcast use vstd::seq_lib::group_to_multiset_ensures;

    if s.len() > 0 {
        lemma_sorted_is_permutation(s.drop_last());
        lemma_insert_is_permutation(sorted_by_ratio(s.drop_last()), s.last());
        assert(s.drop_last().push(s.last()) =~= s);
    }
}

/// Every item of the sorted sequence is an item of `s`.
pub proof fn lemma_sorted_items(s: Seq<Item>)
    ensures
        forall|i: int|
            0 <= i < sorted_by_ratio(s).len() ==> s.contains(#[trigger] sorted_by_ratio(s)[i]),
{
    let t = sorted_by_ratio(s);
    lemma_sorted_is_permutation(s);
    s.to_multiset_ensures();
    t.to_multiset_ensures();
    assert forall|i: int| 0 <= i < t.len() implies s.contains(#[trigger] t[i]) by {
        assert(t.contains(t[i]));
        assert(s.to_multiset().count(t[i]) > 0);
    }
}

/// Inserting into an ascending sequence leaves it ascending.
pub proof fn lemma_insert_keeps_order(s: Seq<Item>, x: Item)
    requires
        ascending_by_ratio(s),
    ensures
        ascending_by_ratio(insert_by_ratio(s, x)),
    decreases s.len(),
{
    let r = insert_by_ratio(s, x);
    if s.len() == 0 {
    } else if ratio_le(s.last(), x) {
        assert forall|i: int, j: int| 0 <= i < j < r.len() implies ratio_le(
            #[trigger] r[i],
            #[trigger] r[j],
        ) by {
            if j == s.len() {
                if i < s.len() - 1 {
                    assert(ratio_le(s[i], s[s.len() - 1]));
                    lemma_ratio_le_transitive(s[i], s.last(), x);
                }
            }
        }
    } else {
        let q = s.drop_last();
        let y = s.last();
        assert forall|i: int, j: int| 0 <= i < j < q.len() implies ratio_le(
            #[trigger] q[i],
            #[trigger] q[j],
        ) by {
            assert(q[i] == s[i] && q[j] == s[j]);
        }
        lemma_insert_keeps_order(q, x);
        lemma_insert_is_permutation(q, x);
        let t = insert_by_ratio(q, x);
        lemma_ratio_le_total(y, x);
        assert forall|i: int, j: int| 0 <= i < j < r.len() implies ratio_le(
            #[trigger] r[i],
            #[trigger] r[j],
        ) by {
            if j == t.len() {
                // r[i] is x or an item of q, and both rank at most y
                assert(t.to_multiset().count(t[i]) > 0) by {
                    t.to_multiset_ensures();
                    assert(t.contains(t[i]));
                }
                q.to_multiset_ensures();
                if t[i] != x {
                    assert(q.to_multiset().count(t[i]) > 0);
                    assert(q.contains(t[i]));
                    let k = choose|k: int| 0 <= k < q.len() && q[k] == t[i];
                    assert(ratio_le(s[k], s[s.len() - 1]));
                }
            } else {
                assert(ratio_le(t[i], t[j]));
            }
        }
    }
}

/// The sorted sequence is ascending.
pub proof fn lemma_sorted_is_ascending(s: Seq<Item>)
    ensures
        ascending_by_ratio(sorted_by_ratio(s)),
    decreases s.len(),
{
    if s.len() > 0 {
        lemma_sorted_is_ascending(s.drop_last());
        lemma_insert_keeps_order(sorted_by_ratio(s.drop_last()), s.last());
    }
}

/// The product of two 16-bit numbers fits 32 bits.
proof fn lemma_product_fits(a: u16, b: u16)
    ensures
        a * b <= u32::MAX,
{
    assert(a * b <= 0xffff * 0xffff) by (nonlinear_arith)
        requires
            0 <= a <= 0xffff,
            0 <= b <= 0xffff,
    ;
}

impl Item {
    /// Whether this item's gain per size is at most `other`'s.
    pub fn ratio_le(&self, other: &Item) -> (b: bool)
        ensures
            b == ratio_le(*self, *other),
    {
        if other.video_size == 0 {
            true
        } else if self.video_size == 0 {
            false
        } else {
            proof {
                lemma_product_fits(self.latency_gain, other.video_size);
                lemma_product_fits(other.latency_gain, self.video_size);
            }
            let left: u32 = self.latency_gain as u32 * other.video_size as u32;
            let right: u32 = other.latency_gain as u32 * self.video_size as u32;
            left <= right
        }
    }
}

/// Sorts `items` in ascending order of gain per size, keeping the order of
/// items whose ratios are equal.
pub fn sort_by_ratio(items: &mut Vec<Item>)
    ensures
        final(items)@ == sorted_by_ratio(old(items)@),
{
    let n = items.len();
    let mut i: usize = 0;
    assert(items@.take(0) =~= sorted_by_ratio(old(items)@.take(0)));
    while i < n
        invariant
            i <= n,
            items.len() == n,
            old(items).len() == n,
            items@.take(i as int) == sorted_by_ratio(old(items)@.take(i as int)),
            forall|t: int| i <= t < n ==> items[t] == old(items)[t],
        decreases n - i,
    {
        let x = items[i];
        let ghost p = items@.take(i as int);
        let mut j: usize = i;
        while j > 0 && !items[j - 1].ratio_le(&x)
            invariant
                j <= i < n,
                items.len() == n,
                p.len() == i,
                forall|t: int| 0 <= t < j ==> items[t] == p[t],
                forall|t: int| j < t <= i ==> items[t] == p[t - 1],
                forall|t: int| j <= t < i ==> !ratio_le(#[trigger] p[t], x),
                forall|t: int| i < t < n ==> items[t] == old(items)[t],
            decreases j,
        {
            let y = items[j - 1];
            items.set(j, y);
            j -= 1;
        }
        items.set(j, x);
        proof {
            lemma_insert_position(p, x, j as int);
            let whole = old(items)@.take(i + 1);
            assert(whole.drop_last() =~= old(items)@.take(i as int));
            assert(whole.last() == x);
            assert(items@.take(i + 1) =~= p.take(j as int).push(x) + p.skip(j as int));
        }
        i += 1;
    }
    assert(items@.take(n as int) =~= items@);
    assert(old(items)@.take(n as int) =~= old(items)@);
}

} // verus!
