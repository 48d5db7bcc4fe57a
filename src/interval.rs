//! Merging of half-open intervals `[lo, hi)` over any key type whose values
//! stand for integers.
//!
//! A list of intervals is *normalized* when every interval is non-empty and
//! each one ends strictly before the next one starts. Two normalized lists
//! that cover the same points are equal, so every correct merge of an input
//! yields the same list, [`merge_of`].

use itertools::Itertools;
use vstd::prelude::*;
use vstd::seq_lib::*;

verus! {

/// A copyable key that stands for an integer, with an executable comparison.
pub trait IntervalKey: Copy + Sized {
    /// The integer this key stands for.
    spec fn rank(self) -> int;

    /// Distinct keys stand for distinct integers.
    proof fn lemma_rank_injective(a: Self, b: Self)
        requires
            a.rank() == b.rank(),
        ensures
            a == b,
    ;

    fn le(&self, other: &Self) -> (r: bool)
        ensures
            r == (self.rank() <= other.rank()),
    ;
}

impl IntervalKey for u32 {
    open spec fn rank(self) -> int {
        self as int
    }

    proof fn lemma_rank_injective(a: Self, b: Self) {
    }

    fn le(&self, other: &Self) -> (r: bool) {
        *self <= *other
    }
}

impl IntervalKey for u64 {
    open spec fn rank(self) -> int {
        self as int
    }

    proof fn lemma_rank_injective(a: Self, b: Self) {
    }

    fn le(&self, other: &Self) -> (r: bool) {
        *self <= *other
    }
}

impl IntervalKey for u128 {
    open spec fn rank(self) -> int {
        self as int
    }

    proof fn lemma_rank_injective(a: Self, b: Self) {
    }

    fn le(&self, other: &Self) -> (r: bool) {
        *self <= *other
    }
}

/// The points of the interval `p`.
pub open spec fn in_interval<T: IntervalKey>(p: (T, T), x: int) -> bool {
    p.0.rank() <= x < p.1.rank()
}

/// Some interval of `s` holds the point `x`.
pub open spec fn covers<T: IntervalKey>(s: Seq<(T, T)>, x: int) -> bool {
    exists|i: int| 0 <= i < s.len() && #[trigger] in_interval(s[i], x)
}

/// The set of points that the intervals of `s` cover.
pub open spec fn cover_set<T: IntervalKey>(s: Seq<(T, T)>) -> Set<int> {
    Set::new(|x: int| covers(s, x))
}

/// Every interval of `s` is non-empty (`lo < hi`).
pub open spec fn well_formed<T: IntervalKey>(s: Seq<(T, T)>) -> bool {
    forall|i: int| 0 <= i < s.len() ==> (#[trigger] s[i]).0.rank() < s[i].1.rank()
}

/// `s` is well formed and each interval ends strictly before the next starts.
pub open spec fn normalized<T: IntervalKey>(s: Seq<(T, T)>) -> bool {
    &&& well_formed(s)
    &&& forall|i: int, j: int|
        0 <= i && j == i + 1 && j < s.len() ==> (#[trigger] s[i]).1.rank() < (#[trigger] s[j]).0.rank()
}

/// `out` is a normalized list that covers exactly the points of `input`.
pub open spec fn is_merge_of<T: IntervalKey>(input: Seq<(T, T)>, out: Seq<(T, T)>) -> bool {
    normalized(out) && cover_set(out) == cover_set(input)
}

/// The normalized list covering the points of `input`.
pub open spec fn merge_of<T: IntervalKey>(input: Seq<(T, T)>) -> Seq<(T, T)> {
    choose|out: Seq<(T, T)>| is_merge_of(input, out)
}

pub proof fn lemma_normalized_ordered<T: IntervalKey>(s: Seq<(T, T)>, i: int, j: int)
    requires
        normalized(s),
        0 <= i < j < s.len(),
    ensures
        s[i].1.rank() < s[j].0.rank(),
    decreases j - i,
{
    if j > i + 1 {
        lemma_normalized_ordered(s, i, j - 1);
        assert(s[j - 1].0.rank() < s[j - 1].1.rank());
        assert(s[j - 1].1.rank() < s[j].0.rank());
    }
}

proof fn lemma_first_below<T: IntervalKey>(s: Seq<(T, T)>)
    requires
        normalized(s),
        s.len() > 0,
    ensures
        forall|j: int| 0 < j < s.len() ==> s[0].1.rank() < #[trigger] s[j].0.rank(),
        forall|j: int| 0 <= j < s.len() ==> s[0].0.rank() <= #[trigger] s[j].0.rank(),
{
    assert forall|j: int| 0 < j < s.len() implies s[0].1.rank() < #[trigger] s[j].0.rank() by {
        lemma_normalized_ordered(s, 0, j);
    }
}

proof fn lemma_first_equal<T: IntervalKey>(a: Seq<(T, T)>, b: Seq<(T, T)>)
    requires
        normalized(a),
        normalized(b),
        a.len() > 0,
        b.len() > 0,
        cover_set(a) == cover_set(b),
    ensures
        a[0] == b[0],
{
    lemma_first_below(a);
    lemma_first_below(b);
    let (a0, b0) = (a[0], b[0]);
    if a0.0.rank() < b0.0.rank() {
        let x = a0.0.rank();
        assert(in_interval(a[0], x));
        assert(cover_set(a).contains(x));
        assert(cover_set(b).contains(x));
        let j = choose|j: int| 0 <= j < b.len() && #[trigger] in_interval(b[j], x);
        assert(false);
    }
    if b0.0.rank() < a0.0.rank() {
        let x = b0.0.rank();
        assert(in_interval(b[0], x));
        assert(cover_set(b).contains(x));
        assert(cover_set(a).contains(x));
        let j = choose|j: int| 0 <= j < a.len() && #[trigger] in_interval(a[j], x);
        assert(false);
    }
    if a0.1.rank() < b0.1.rank() {
        let x = a0.1.rank();
        assert(in_interval(b[0], x));
        assert(cover_set(b).contains(x));
        assert(cover_set(a).contains(x));
        let j = choose|j: int| 0 <= j < a.len() && #[trigger] in_interval(a[j], x);
        assert(false);
    }
    if b0.1.rank() < a0.1.rank() {
        let x = b0.1.rank();
        assert(in_interval(a[0], x));
        assert(cover_set(a).contains(x));
        assert(cover_set(b).contains(x));
        let j = choose|j: int| 0 <= j < b.len() && #[trigger] in_interval(b[j], x);
        assert(false);
    }
    T::lemma_rank_injective(a0.0, b0.0);
    T::lemma_rank_injective(a0.1, b0.1);
}

proof fn lemma_tail_in_first<T: IntervalKey>(a: Seq<(T, T)>, b: Seq<(T, T)>, x: int)
    requires
        normalized(a),
        normalized(b),
        a.len() > 0,
        b.len() > 0,
        a[0] == b[0],
        cover_set(a) == cover_set(b),
        covers(a.drop_first(), x),
    ensures
        covers(b.drop_first(), x),
{
    lemma_first_below(a);
    lemma_first_below(b);
    let (ta, tb) = (a.drop_first(), b.drop_first());
    let j = choose|j: int| 0 <= j < ta.len() && #[trigger] in_interval(ta[j], x);
    assert(in_interval(a[j + 1], x));
    assert(cover_set(a).contains(x));
    assert(cover_set(b).contains(x));
    let k = choose|k: int| 0 <= k < b.len() && #[trigger] in_interval(b[k], x);
    assert(k != 0);
    assert(in_interval(tb[k - 1], x));
}

proof fn lemma_normalized_drop_first<T: IntervalKey>(s: Seq<(T, T)>)
    requires
        normalized(s),
        s.len() > 0,
    ensures
        normalized(s.drop_first()),
{
    let t = s.drop_first();
    assert forall|i: int, j: int|
        0 <= i && j == i + 1 && j < t.len() implies (#[trigger] t[i]).1.rank() < (#[trigger] t[j]).0.rank() by {
        assert(t[i] == s[i + 1] && t[i + 1] == s[i + 2]);
    }
}

proof fn lemma_tail_same_cover<T: IntervalKey>(a: Seq<(T, T)>, b: Seq<(T, T)>)
    requires
        normalized(a),
        normalized(b),
        a.len() > 0,
        b.len() > 0,
        a[0] == b[0],
        cover_set(a) == cover_set(b),
    ensures
        cover_set(a.drop_first()) == cover_set(b.drop_first()),
{
    let (ta, tb) = (a.drop_first(), b.drop_first());
    assert forall|x: int| cover_set(ta).contains(x) == cover_set(tb).contains(x) by {
        if covers(ta, x) {
            lemma_tail_in_first(a, b, x);
        }
        if covers(tb, x) {
            lemma_tail_in_first(b, a, x);
        }
    }
    assert(cover_set(ta) =~= cover_set(tb));
}

/// Two normalized lists that cover the same points are the same list.
pub proof fn lemma_normalized_unique<T: IntervalKey>(a: Seq<(T, T)>, b: Seq<(T, T)>)
    requires
        normalized(a),
        normalized(b),
        cover_set(a) == cover_set(b),
    ensures
        a == b,
    decreases a.len() + b.len(),
{
    if a.len() == 0 && b.len() == 0 {
        assert(a =~= b);
    } else if a.len() == 0 {
        let x = b[0].0.rank();
        assert(in_interval(b[0], x));
        assert(cover_set(b).contains(x));
    } else if b.len() == 0 {
        let x = a[0].0.rank();
        assert(in_interval(a[0], x));
        assert(cover_set(a).contains(x));
    } else {
        lemma_first_equal(a, b);
        let (ta, tb) = (a.drop_first(), b.drop_first());
        lemma_tail_same_cover(a, b);
        lemma_normalized_drop_first(a);
        lemma_normalized_drop_first(b);
        lemma_normalized_unique(ta, tb);
        assert(a =~= b) by {
            assert forall|i: int| 0 <= i < a.len() implies a[i] == b[i] by {
                if i > 0 {
                    assert(a[i] == ta[i - 1]);
                    assert(b[i] == tb[i - 1]);
                }
            }
        }
    }
}

/// Any normalized list that covers the points of `input` is `merge_of(input)`:
/// every merge of this module returns that one list (or its reverse), so all
/// of them agree on every input.
pub proof fn lemma_merge_of_unique<T: IntervalKey>(input: Seq<(T, T)>, out: Seq<(T, T)>)
    requires
        is_merge_of(input, out),
    ensures
        merge_of(input) == out,
{
    let m = merge_of(input);
    assert(is_merge_of(input, m));
    lemma_normalized_unique(m, out);
}

pub proof fn lemma_covers_push<T: IntervalKey>(s: Seq<(T, T)>, p: (T, T), x: int)
    ensures
        covers(s.push(p), x) == (covers(s, x) || in_interval(p, x)),
{
    let t = s.push(p);
    if covers(s, x) {
        let i = choose|i: int| 0 <= i < s.len() && #[trigger] in_interval(s[i], x);
        assert(in_interval(t[i], x));
    }
    if in_interval(p, x) {
        assert(in_interval(t[s.len() as int], x));
    }
    if covers(t, x) {
        let i = choose|i: int| 0 <= i < t.len() && #[trigger] in_interval(t[i], x);
        if i < s.len() {
            assert(in_interval(s[i], x));
        }
    }
}

proof fn lemma_covers_concat<T: IntervalKey>(a: Seq<(T, T)>, b: Seq<(T, T)>, x: int)
    ensures
        covers(a + b, x) == (covers(a, x) || covers(b, x)),
{
    let t = a + b;
    if covers(a, x) {
        let i = choose|i: int| 0 <= i < a.len() && #[trigger] in_interval(a[i], x);
        assert(in_interval(t[i], x));
    }
    if covers(b, x) {
        let i = choose|i: int| 0 <= i < b.len() && #[trigger] in_interval(b[i], x);
        assert(in_interval(t[a.len() + i], x));
    }
    if covers(t, x) {
        let i = choose|i: int| 0 <= i < t.len() && #[trigger] in_interval(t[i], x);
        if i < a.len() {
            assert(in_interval(a[i], x));
        } else {
            assert(in_interval(b[i - a.len()], x));
        }
    }
}

proof fn lemma_covers_single<T: IntervalKey>(p: (T, T), x: int)
    ensures
        covers(seq![p], x) == in_interval(p, x),
{
    if in_interval(p, x) {
        assert(in_interval(seq![p][0], x));
    }
}

/// Lists with the same elements, counted with multiplicity, cover the same points.
proof fn lemma_same_multiset_same_cover<T: IntervalKey>(a: Seq<(T, T)>, b: Seq<(T, T)>)
    requires
        a.to_multiset() == b.to_multiset(),
    ensures
        cover_set(a) == cover_set(b),
{
    broadcast use group_to_multiset_ensures;

    assert forall|x: int| cover_set(a).contains(x) == cover_set(b).contains(x) by {
        if covers(a, x) {
            let i = choose|i: int| 0 <= i < a.len() && #[trigger] in_interval(a[i], x);
            assert(a.contains(a[i]));
            assert(b.to_multiset().count(a[i]) > 0);
            assert(b.contains(a[i]));
            let j = choose|j: int| 0 <= j < b.len() && b[j] == a[i];
            assert(in_interval(b[j], x));
        }
        if covers(b, x) {
            let i = choose|i: int| 0 <= i < b.len() && #[trigger] in_interval(b[i], x);
            assert(b.contains(b[i]));
            assert(a.to_multiset().count(b[i]) > 0);
            assert(a.contains(b[i]));
            let j = choose|j: int| 0 <= j < a.len() && a[j] == b[i];
            assert(in_interval(a[j], x));
        }
    }
    assert(cover_set(a) =~= cover_set(b));
}

/// The orders in which a merge may sort its input.
#[derive(Clone, Copy, PartialEq, Eq, Structural)]
pub enum SortOrder {
    /// By start, then by end.
    StartThenEnd,
    /// By start, and the longest interval first among equal starts.
    StartThenLongest,
    /// By end, then by start.
    EndThenStart,
}

/// The sort key of an interval under `order`, compared lexicographically.
pub open spec fn sort_key<T: IntervalKey>(p: (T, T), order: SortOrder) -> (int, int) {
    match order {
        SortOrder::StartThenEnd => (p.0.rank(), p.1.rank()),
        SortOrder::StartThenLongest => (p.0.rank(), -p.1.rank()),
        SortOrder::EndThenStart => (p.1.rank(), p.0.rank()),
    }
}

/// Lexicographic order on sort keys.
pub open spec fn key_le(a: (int, int), b: (int, int)) -> bool {
    a.0 < b.0 || (a.0 == b.0 && a.1 <= b.1)
}

/// `s` is in ascending order of `sort_key` under `order`.
pub open spec fn sorted_by<T: IntervalKey>(s: Seq<(T, T)>, order: SortOrder) -> bool {
    forall|i: int, j: int|
        0 <= i < j < s.len() ==> key_le(#[trigger] sort_key(s[i], order), #[trigger] sort_key(s[j], order))
}

/// Whether `a` sorts strictly before `b` under `order`.
fn sorts_before<T: IntervalKey>(a: &(T, T), b: &(T, T), order: &SortOrder) -> (r: bool)
    ensures
        r == !key_le(sort_key(*b, *order), sort_key(*a, *order)),
{
    match order {
        SortOrder::StartThenEnd => {
            if !b.0.le(&a.0) {
                true
            } else if !a.0.le(&b.0) {
                false
            } else {
                !b.1.le(&a.1)
            }
        },
        SortOrder::StartThenLongest => {
            if !b.0.le(&a.0) {
                true
            } else if !a.0.le(&b.0) {
                false
            } else {
                !a.1.le(&b.1)
            }
        },
        SortOrder::EndThenStart => {
            if !b.1.le(&a.1) {
                true
            } else if !a.1.le(&b.1) {
                false
            } else {
                !b.0.le(&a.0)
            }
        },
    }
}

/// Merges two lists sorted under `order` into one sorted list of the
/// elements of both.
fn merge_sorted<T: IntervalKey>(a: &Vec<(T, T)>, b: &Vec<(T, T)>, order: SortOrder) -> (r: Vec<(T, T)>)
    requires
        sorted_by(a@, order),
        sorted_by(b@, order),
    ensures
        r@.to_multiset() == a@.to_multiset().add(b@.to_multiset()),
        sorted_by(r@, order),
{
    broadcast use group_to_multiset_ensures, vstd::multiset::group_multiset_axioms;

    let mut r: Vec<(T, T)> = Vec::new();
    let mut i: usize = 0;
    let mut j: usize = 0;
    proof {
        assert(a@.take(0) =~= Seq::<(T, T)>::empty());
        assert(b@.take(0) =~= Seq::<(T, T)>::empty());
        assert(r@.to_multiset() =~= a@.take(0).to_multiset().add(b@.take(0).to_multiset()));
    }
    while i < a.len() || j < b.len()
        invariant
            i <= a.len(),
            j <= b.len(),
            sorted_by(a@, order),
            sorted_by(b@, order),
            sorted_by(r@, order),
            r@.to_multiset() == a@.take(i as int).to_multiset().add(b@.take(j as int).to_multiset()),
            r@.len() > 0 && i < a.len() ==> key_le(sort_key(r@.last(), order), sort_key(a@[i as int], order)),
            r@.len() > 0 && j < b.len() ==> key_le(sort_key(r@.last(), order), sort_key(b@[j as int], order)),
        decreases a.len() + b.len() - i - j,
    {
        let ghost old_r = r@;
        let take_a = j >= b.len() || (i < a.len() && !sorts_before(&b[j], &a[i], &order));
        let x = if take_a { a[i] } else { b[j] };
        r.push(x);
        proof {
            assert(r@ == old_r.push(x));
            assert forall|p: int, q: int| 0 <= p < q < r@.len() implies key_le(
                #[trigger] sort_key(r@[p], order),
                #[trigger] sort_key(r@[q], order),
            ) by {
                if q < old_r.len() {
                    assert(r@[p] == old_r[p] && r@[q] == old_r[q]);
                } else if p < old_r.len() - 1 {
                    assert(r@[p] == old_r[p]);
                    assert(key_le(sort_key(old_r[p], order), sort_key(old_r[old_r.len() - 1], order)));
                }
            }
            to_multiset_build(old_r, x);
            if take_a {
                assert(a@.take(i + 1) =~= a@.take(i as int).push(x));
                to_multiset_build(a@.take(i as int), x);
                assert(r@.to_multiset() =~= a@.take(i + 1).to_multiset().add(b@.take(j as int).to_multiset()));
                if i + 1 < a.len() {
                    assert(key_le(sort_key(a@[i as int], order), sort_key(a@[i + 1], order)));
                }
            } else {
                assert(b@.take(j + 1) =~= b@.take(j as int).push(x));
                to_multiset_build(b@.take(j as int), x);
                assert(r@.to_multiset() =~= a@.take(i as int).to_multiset().add(b@.take(j + 1).to_multiset()));
                if j + 1 < b.len() {
                    assert(key_le(sort_key(b@[j as int], order), sort_key(b@[j + 1], order)));
                }
            }
        }
        if take_a {
            i = i + 1;
        } else {
            j = j + 1;
        }
    }
    proof {
        assert(a@.take(a.len() as int) =~= a@);
        assert(b@.take(b.len() as int) =~= b@);
    }
    r
}

/// Sorts `v` under `order` by merge sort.
fn sort_intervals<T: IntervalKey>(v: Vec<(T, T)>, order: SortOrder) -> (r: Vec<(T, T)>)
    ensures
        r@.to_multiset() == v@.to_multiset(),
        sorted_by(r@, order),
    decreases v@.len(),
{
    if v.len() <= 1 {
        return v;
    }
    let ghost whole = v@;
    let mut left = v;
    let right = left.split_off(left.len() / 2);
    proof {
        assert(whole =~= left@ + right@);
        lemma_multiset_commutative(left@, right@);
    }
    let sorted_left = sort_intervals(left, order);
    let sorted_right = sort_intervals(right, order);
    merge_sorted(&sorted_left, &sorted_right, order)
}

proof fn lemma_normalized_push<T: IntervalKey>(s: Seq<(T, T)>, p: (T, T))
    requires
        normalized(s),
        p.0.rank() < p.1.rank(),
        s.len() > 0 ==> s.last().1.rank() < p.0.rank(),
    ensures
        normalized(s.push(p)),
{
    let t = s.push(p);
    assert forall|i: int, j: int|
        0 <= i && j == i + 1 && j < t.len() implies (#[trigger] t[i]).1.rank() < (#[trigger] t[j]).0.rank() by {
        if i < s.len() - 1 {
            assert(t[i] == s[i] && t[i + 1] == s[i + 1]);
        }
    }
}

pub proof fn lemma_normalized_drop_last<T: IntervalKey>(s: Seq<(T, T)>)
    requires
        normalized(s),
        s.len() > 0,
    ensures
        normalized(s.drop_last()),
{
    let t = s.drop_last();
    assert forall|i: int, j: int|
        0 <= i && j == i + 1 && j < t.len() implies (#[trigger] t[i]).1.rank() < (#[trigger] t[j]).0.rank() by {
        assert(t[i] == s[i] && t[i + 1] == s[i + 1]);
    }
}

/// The interval `next`, which starts inside or at the end of the last
/// interval `cur` of a normalized list, is absorbed into it.
proof fn lemma_absorb_last<T: IntervalKey>(
    res: Seq<(T, T)>,
    cur: (T, T),
    next: (T, T),
    merged: (T, T),
    prefix: Seq<(T, T)>,
)
    requires
        normalized(res.push(cur)),
        cur.0.rank() <= next.0.rank() <= cur.1.rank(),
        next.0.rank() < next.1.rank(),
        merged.0.rank() == cur.0.rank(),
        merged.1.rank() == if cur.1.rank() < next.1.rank() { next.1.rank() } else { cur.1.rank() },
        cover_set(res.push(cur)) == cover_set(prefix),
    ensures
        normalized(res.push(merged)),
        cover_set(res.push(merged)) == cover_set(prefix.push(next)),
{
    lemma_normalized_drop_last(res.push(cur));
    assert(res.push(cur).drop_last() =~= res);
    if res.len() > 0 {
        assert(res.push(cur)[res.len() - 1].1.rank() < res.push(cur)[res.len() as int].0.rank());
    }
    lemma_normalized_push(res, merged);
    assert forall|x: int| cover_set(res.push(merged)).contains(x) == cover_set(prefix.push(next)).contains(x) by {
        lemma_covers_push(res, merged, x);
        lemma_covers_push(res, cur, x);
        lemma_covers_push(prefix, next, x);
        assert(cover_set(res.push(cur)).contains(x) == cover_set(prefix).contains(x));
        assert(cover_set(res.push(cur)).contains(x) == covers(res.push(cur), x));
        assert(cover_set(prefix).contains(x) == covers(prefix, x));
        assert(cover_set(res.push(merged)).contains(x) == covers(res.push(merged), x));
        assert(cover_set(prefix.push(next)).contains(x) == covers(prefix.push(next), x));
        assert(in_interval(merged, x) == (in_interval(cur, x) || in_interval(next, x)));
    }
    assert(cover_set(res.push(merged)) =~= cover_set(prefix.push(next)));
}

/// The interval `next`, which starts after the end of the last interval of a
/// normalized list, is appended to it.
proof fn lemma_append_after<T: IntervalKey>(s: Seq<(T, T)>, next: (T, T), prefix: Seq<(T, T)>)
    requires
        normalized(s),
        s.len() > 0,
        s.last().1.rank() < next.0.rank(),
        next.0.rank() < next.1.rank(),
        cover_set(s) == cover_set(prefix),
    ensures
        normalized(s.push(next)),
        cover_set(s.push(next)) == cover_set(prefix.push(next)),
{
    lemma_normalized_push(s, next);
    assert forall|x: int| cover_set(s.push(next)).contains(x) == cover_set(prefix.push(next)).contains(x) by {
        lemma_covers_push(s, next, x);
        lemma_covers_push(prefix, next, x);
        assert(cover_set(s).contains(x) == cover_set(prefix).contains(x));
        assert(cover_set(s).contains(x) == covers(s, x));
        assert(cover_set(prefix).contains(x) == covers(prefix, x));
        assert(covers(s, x) == covers(prefix, x));
    }
    assert(cover_set(s.push(next)) =~= cover_set(prefix.push(next)));
}

/// Sorting keeps the elements, so it keeps well-formedness and the points covered.
proof fn lemma_sorted_copy<T: IntervalKey>(sorted: Seq<(T, T)>, input: Seq<(T, T)>)
    requires
        sorted.to_multiset() == input.to_multiset(),
        well_formed(input),
    ensures
        well_formed(sorted),
        cover_set(sorted) == cover_set(input),
        sorted.len() == input.len(),
{
    broadcast use group_to_multiset_ensures;

    assert forall|i: int| 0 <= i < sorted.len() implies (#[trigger] sorted[i]).0.rank() < sorted[i].1.rank() by {
        assert(sorted.contains(sorted[i]));
        assert(input.to_multiset().count(sorted[i]) > 0);
        assert(input.contains(sorted[i]));
    }
    lemma_same_multiset_same_cover(sorted, input);
    to_multiset_len(sorted);
    to_multiset_len(input);
}

proof fn lemma_empty_merge<T: IntervalKey>(input: Seq<(T, T)>)
    requires
        input.len() == 0,
    ensures
        merge_of(input) == Seq::<(T, T)>::empty(),
        is_merge_of(input, Seq::<(T, T)>::empty()),
{
    let e = Seq::<(T, T)>::empty();
    assert(input =~= e);
    lemma_merge_of_unique(input, e);
}

/// Merges intervals by sorting them by start and walking forwards, copying
/// each merged interval out.
pub fn merge_intervals_forwards_copy<T: IntervalKey>(intervals: Vec<(T, T)>) -> (r: Vec<(T, T)>)
    requires
        well_formed(intervals@),
    ensures
        r@ == merge_of(intervals@),
        is_merge_of(intervals@, r@),
{
    let mut res: Vec<(T, T)> = Vec::new();
    if intervals.len() == 0 {
        proof { lemma_empty_merge(intervals@); }
        return res;
    }
    let ghost input = intervals@;
    let s = sort_intervals(intervals, SortOrder::StartThenEnd);
    proof { lemma_sorted_copy(s@, input); }
    let (mut start, mut end) = s[0];
    proof {
        assert(s@.take(1) =~= seq![s@[0]]);
        assert(res@.push((start, end)) =~= seq![s@[0]]);
        lemma_normalized_push(res@, (start, end));
        assert forall|k: int| 1 <= k < s.len() implies start.rank() <= #[trigger] s@[k].0.rank() by {
            assert(key_le(sort_key(s@[0], SortOrder::StartThenEnd), sort_key(s@[k], SortOrder::StartThenEnd)));
        }
    }
    let mut i: usize = 1;
    let len = s.len();
    while i < len
        invariant
            1 <= i <= len,
            len == s.len(),
            well_formed(s@),
            sorted_by(s@, SortOrder::StartThenEnd),
            normalized(res@.push((start, end))),
            cover_set(res@.push((start, end))) == cover_set(s@.take(i as int)),
            forall|k: int| i <= k < len ==> start.rank() <= #[trigger] s@[k].0.rank(),
        decreases len - i,
    {
        let (next_start, next_end) = s[i];
        let ghost cur = (start, end);
        let ghost prev = res@;
        proof {
            assert(s@.take(i + 1) =~= s@.take(i as int).push(s@[i as int]));
            assert(s@[i as int].0.rank() < s@[i as int].1.rank());
        }
        if next_start.le(&end) {
            if !start.le(&next_start) {
                start = next_start;
            }
            if !next_end.le(&end) {
                end = next_end;
            }
            proof {
                lemma_absorb_last(prev, cur, s@[i as int], (start, end), s@.take(i as int));
            }
        } else {
            res.push((start, end));
            start = next_start;
            end = next_end;
            proof {
                lemma_append_after(prev.push(cur), s@[i as int], s@.take(i as int));
            }
        }
        proof {
            assert forall|k: int| i + 1 <= k < len implies start.rank() <= #[trigger] s@[k].0.rank() by {
                assert(key_le(sort_key(s@[i as int], SortOrder::StartThenEnd), sort_key(s@[k], SortOrder::StartThenEnd)));
            }
        }
        i = i + 1;
    }
    res.push((start, end));
    proof {
        assert(s@.take(len as int) =~= s@);
        lemma_merge_of_unique(input, res@);
    }
    res
}

/// Sorting by start, whatever breaks ties, orders the starts.
proof fn lemma_sorted_starts<T: IntervalKey>(s: Seq<(T, T)>, order: SortOrder)
    requires
        sorted_by(s, order),
        order != SortOrder::EndThenStart,
    ensures
        forall|a: int, b: int| 0 <= a < b < s.len() ==> (#[trigger] s[a]).0.rank() <= (#[trigger] s[b]).0.rank(),
{
    assert forall|a: int, b: int| 0 <= a < b < s.len() implies (#[trigger] s[a]).0.rank() <= (#[trigger] s[b]).0.rank() by {
        assert(key_le(sort_key(s[a], order), sort_key(s[b], order)));
    }
}

/// Sorting by end orders the ends.
proof fn lemma_sorted_ends<T: IntervalKey>(s: Seq<(T, T)>)
    requires
        sorted_by(s, SortOrder::EndThenStart),
    ensures
        forall|a: int, b: int| 0 <= a < b < s.len() ==> (#[trigger] s[a]).1.rank() <= (#[trigger] s[b]).1.rank(),
{
    assert forall|a: int, b: int| 0 <= a < b < s.len() implies (#[trigger] s[a]).1.rank() <= (#[trigger] s[b]).1.rank() by {
        assert(key_le(sort_key(s[a], SortOrder::EndThenStart), sort_key(s[b], SortOrder::EndThenStart)));
    }
}

/// Merges intervals with one forward pass over them sorted by start, folding
/// each into the interval being built.
pub fn coalesce_intervals<T: IntervalKey>(intervals: Vec<(T, T)>) -> (r: Vec<(T, T)>)
    requires
        well_formed(intervals@),
    ensures
        r@ == merge_of(intervals@),
        is_merge_of(intervals@, r@),
{
    let mut res: Vec<(T, T)> = Vec::new();
    if intervals.len() == 0 {
        proof { lemma_empty_merge(intervals@); }
        return res;
    }
    let ghost input = intervals@;
    let s = sort_intervals(intervals, SortOrder::StartThenEnd);
    proof {
        lemma_sorted_copy(s@, input);
        lemma_sorted_starts(s@, SortOrder::StartThenEnd);
    }
    let (mut start, mut end) = s[0];
    let mut i: usize = 0;
    let len = s.len();
    while i < len
        invariant
            i <= len,
            len == s.len(),
            len > 0,
            well_formed(s@),
            forall|a: int, b: int| 0 <= a < b < s.len() ==> (#[trigger] s@[a]).0.rank() <= (#[trigger] s@[b]).0.rank(),
            i == 0 ==> res@.len() == 0 && (start, end) == s@[0],
            normalized(res@.push((start, end))),
            i > 0 ==> cover_set(res@.push((start, end))) == cover_set(s@.take(i as int)),
            forall|k: int| i <= k < len ==> start.rank() <= #[trigger] s@[k].0.rank(),
        decreases len - i,
    {
        let (next_start, next_end) = s[i];
        let ghost cur = (start, end);
        let ghost prev = res@;
        proof {
            assert(s@.take(i + 1) =~= s@.take(i as int).push(s@[i as int]));
            assert(s@[i as int].0.rank() < s@[i as int].1.rank());
        }
        if next_start.le(&end) {
            if !start.le(&next_start) {
                start = next_start;
            }
            if !next_end.le(&end) {
                end = next_end;
            }
            proof {
                if i == 0 {
                    assert(s@.take(1) =~= seq![s@[0]]);
                    assert(res@.push((start, end)) =~= seq![s@[0]]);
                } else {
                    lemma_absorb_last(prev, cur, s@[i as int], (start, end), s@.take(i as int));
                }
            }
        } else {
            res.push((start, end));
            start = next_start;
            end = next_end;
            proof {
                lemma_append_after(prev.push(cur), s@[i as int], s@.take(i as int));
            }
        }
        i = i + 1;
    }
    res.push((start, end));
    proof {
        assert(s@.take(len as int) =~= s@);
        lemma_merge_of_unique(input, res@);
    }
    res
}

/// Merges intervals in place: sorted by start, each interval that touches
/// the next one is folded into it and removed.
pub fn merge_intervals_forwards_remove<T: IntervalKey>(intervals: Vec<(T, T)>) -> (r: Vec<(T, T)>)
    requires
        well_formed(intervals@),
    ensures
        r@ == merge_of(intervals@),
        is_merge_of(intervals@, r@),
{
    let ghost input = intervals@;
    let mut v = sort_intervals(intervals, SortOrder::StartThenEnd);
    proof {
        lemma_sorted_copy(v@, input);
        lemma_sorted_starts(v@, SortOrder::StartThenEnd);
        if v.len() > 0 {
            assert(v@.take(1) =~= seq![v@[0]]);
            lemma_normalized_push(Seq::<(T, T)>::empty(), v@[0]);
            assert(Seq::<(T, T)>::empty().push(v@[0]) =~= seq![v@[0]]);
        }
    }
    let mut i: usize = 0;
    while i + 1 < v.len()
        invariant
            well_formed(v@),
            cover_set(v@) == cover_set(input),
            i < v.len() || (i == 0 && v.len() == 0),
            v.len() > 0 ==> normalized(v@.take(i + 1)),
            forall|k: int| i < k < v.len() ==> v@[i as int].0.rank() <= #[trigger] v@[k].0.rank(),
            forall|a: int, b: int| i < a < b < v.len() ==> (#[trigger] v@[a]).0.rank() <= (#[trigger] v@[b]).0.rank(),
        decreases v.len() - i,
    {
        if v[i + 1].0.le(&v[i].1) {
            let (a, b) = (v[i], v[i + 1]);
            let lo = if b.0.le(&a.0) { b.0 } else { a.0 };
            let hi = if b.1.le(&a.1) { a.1 } else { b.1 };
            let ghost old_v = v@;
            let ghost p = old_v.take(i as int);
            let ghost rest = old_v.skip(i + 2);
            v.set(i + 1, (lo, hi));
            v.remove(i);
            proof {
                assert(old_v =~= p.push(a).push(b) + rest);
                assert(v@ =~= p.push((lo, hi)) + rest);
                assert(old_v.take(i + 1) =~= p.push(a));
                lemma_absorb_last(p, a, b, (lo, hi), p.push(a));
                assert forall|x: int| cover_set(v@).contains(x) == cover_set(old_v).contains(x) by {
                    lemma_covers_concat(p.push((lo, hi)), rest, x);
                    lemma_covers_concat(p.push(a).push(b), rest, x);
                    assert(cover_set(p.push((lo, hi))).contains(x) == cover_set(p.push(a).push(b)).contains(x));
                }
                assert(cover_set(v@) =~= cover_set(old_v));
                assert(v@.take(i + 1) =~= p.push((lo, hi)));
                assert forall|k: int| i < k < v.len() implies v@[i as int].0.rank() <= #[trigger] v@[k].0.rank() by {
                    assert(v@[k] == old_v[k + 1]);
                }
                assert forall|c: int, d: int| i < c < d < v.len() implies (#[trigger] v@[c]).0.rank() <= (#[trigger] v@[d]).0.rank() by {
                    assert(v@[c] == old_v[c + 1] && v@[d] == old_v[d + 1]);
                }
            }
        } else {
            proof {
                assert(v@.take(i + 2) =~= v@.take(i + 1).push(v@[i + 1]));
                assert(v@.take(i + 1).last() == v@[i as int]);
                lemma_normalized_push(v@.take(i + 1), v@[i + 1]);
            }
            i = i + 1;
        }
    }
    proof {
        if v.len() > 0 {
            assert(v@.take(i + 1) =~= v@);
        } else {
            assert(normalized(v@));
        }
        lemma_merge_of_unique(input, v@);
    }
    v
}

proof fn lemma_normalized_prepend<T: IntervalKey>(p: (T, T), t: Seq<(T, T)>)
    requires
        normalized(t),
        p.0.rank() < p.1.rank(),
        t.len() > 0 ==> p.1.rank() < t[0].0.rank(),
    ensures
        normalized(seq![p] + t),
{
    let s = seq![p] + t;
    assert forall|i: int, j: int|
        0 <= i && j == i + 1 && j < s.len() implies (#[trigger] s[i]).1.rank() < (#[trigger] s[j]).0.rank() by {
        if i > 0 {
            assert(s[i] == t[i - 1] && s[j] == t[j - 1]);
        }
    }
    assert forall|i: int| 0 <= i < s.len() implies (#[trigger] s[i]).0.rank() < s[i].1.rank() by {
        if i > 0 {
            assert(s[i] == t[i - 1]);
        }
    }
}

proof fn lemma_covers_prepend<T: IntervalKey>(p: (T, T), t: Seq<(T, T)>, x: int)
    ensures
        covers(seq![p] + t, x) == (in_interval(p, x) || covers(t, x)),
{
    lemma_covers_concat(seq![p], t, x);
    lemma_covers_single(p, x);
}

/// Merges intervals in place: sorted by end, walking backwards, each interval
/// that touches the previous one is folded into it and removed.
pub fn merge_intervals_backwards_remove<T: IntervalKey>(intervals: Vec<(T, T)>) -> (r: Vec<(T, T)>)
    requires
        well_formed(intervals@),
    ensures
        r@ == merge_of(intervals@),
        is_merge_of(intervals@, r@),
{
    let ghost input = intervals@;
    if intervals.len() == 0 {
        proof { lemma_empty_merge(intervals@); }
        return intervals;
    }
    let mut v = sort_intervals(intervals, SortOrder::EndThenStart);
    proof {
        lemma_sorted_copy(v@, input);
        lemma_sorted_ends(v@);
        assert(v@.skip(v.len() - 1) =~= seq![v@[v.len() - 1]]);
        lemma_normalized_prepend(v@[v.len() - 1], Seq::<(T, T)>::empty());
        assert(seq![v@[v.len() - 1]] + Seq::<(T, T)>::empty() =~= seq![v@[v.len() - 1]]);
    }
    let mut i: usize = v.len() - 1;
    while i >= 1
        invariant
            i < v.len(),
            well_formed(v@),
            cover_set(v@) == cover_set(input),
            normalized(v@.skip(i as int)),
            forall|a: int, b: int| 0 <= a < b <= i ==> (#[trigger] v@[a]).1.rank() <= (#[trigger] v@[b]).1.rank(),
        decreases i,
    {
        let ghost old_v = v@;
        proof {
            assert(old_v.skip(i - 1) =~= seq![old_v[i - 1]] + old_v.skip(i as int));
            assert(old_v.skip(i as int)[0] == old_v[i as int]);
        }
        if v[i].0.le(&v[i - 1].1) {
            let (a, b) = (v[i - 1], v[i]);
            let lo = if b.0.le(&a.0) { b.0 } else { a.0 };
            let hi = if b.1.le(&a.1) { a.1 } else { b.1 };
            let ghost p = old_v.take(i - 1);
            let ghost rest = old_v.skip(i + 1);
            v.set(i - 1, (lo, hi));
            v.remove(i);
            proof {
                assert(old_v[i - 1].1.rank() <= old_v[i as int].1.rank());
                assert(old_v =~= p + (seq![a, b] + rest));
                assert(v@ =~= p + (seq![(lo, hi)] + rest));
                assert(old_v.skip(i as int) =~= seq![b] + rest);
                assert(v@.skip(i - 1) =~= seq![(lo, hi)] + rest);
                lemma_normalized_drop_first(old_v.skip(i as int));
                assert((seq![b] + rest).drop_first() =~= rest);
                if rest.len() > 0 {
                    assert(old_v.skip(i as int)[0].1.rank() < old_v.skip(i as int)[1].0.rank());
                }
                lemma_normalized_prepend((lo, hi), rest);
                assert(seq![a, b] =~= seq![a] + seq![b]);
                assert forall|x: int| cover_set(v@).contains(x) == cover_set(old_v).contains(x) by {
                    lemma_covers_concat(p, seq![(lo, hi)] + rest, x);
                    lemma_covers_concat(p, seq![a, b] + rest, x);
                    lemma_covers_prepend((lo, hi), rest, x);
                    lemma_covers_concat(seq![a, b], rest, x);
                    lemma_covers_prepend(a, seq![b], x);
                    lemma_covers_single(b, x);
                }
                assert(cover_set(v@) =~= cover_set(old_v));
                assert forall|c: int, d: int| 0 <= c < d <= i - 1 implies (#[trigger] v@[c]).1.rank() <= (#[trigger] v@[d]).1.rank() by {
                    assert(v@[c] == old_v[c]);
                    if d < i - 1 {
                        assert(v@[d] == old_v[d]);
                    } else {
                        assert(old_v[c].1.rank() <= old_v[i as int].1.rank());
                    }
                }
                assert forall|k: int| 0 <= k < v@.len() implies (#[trigger] v@[k]).0.rank() < v@[k].1.rank() by {
                    if k < i - 1 {
                        assert(v@[k] == old_v[k]);
                    } else if k > i - 1 {
                        assert(v@[k] == old_v[k + 1]);
                    }
                }
            }
        } else {
            proof {
                lemma_normalized_prepend(old_v[i - 1], old_v.skip(i as int));
            }
        }
        i = i - 1;
    }
    proof {
        assert(v@.skip(0) =~= v@);
        lemma_merge_of_unique(input, v@);
    }
    v
}

proof fn lemma_reverse_push<A>(s: Seq<A>, x: A)
    ensures
        s.push(x).reverse() == seq![x] + s.reverse(),
{
    assert(s.push(x).reverse() =~= seq![x] + s.reverse());
}

proof fn lemma_reverse_reverse<A>(s: Seq<A>)
    ensures
        s.reverse().reverse() == s,
{
    assert(s.reverse().reverse() =~= s);
}

/// Merges intervals by sorting them by end and walking backwards, copying
/// each merged interval out; the result comes out in descending order.
pub fn merge_intervals_backwards_copy<T: IntervalKey>(intervals: Vec<(T, T)>) -> (r: Vec<(T, T)>)
    requires
        well_formed(intervals@),
    ensures
        r@ == merge_of(intervals@).reverse(),
        is_merge_of(intervals@, r@.reverse()),
{
    let mut res: Vec<(T, T)> = Vec::new();
    if intervals.len() == 0 {
        proof {
            lemma_empty_merge(intervals@);
            assert(res@ =~= merge_of(intervals@).reverse());
        }
        return res;
    }
    let ghost input = intervals@;
    let s = sort_intervals(intervals, SortOrder::EndThenStart);
    proof {
        lemma_sorted_copy(s@, input);
        lemma_sorted_ends(s@);
    }
    let len = s.len();
    let (mut start, mut end) = s[len - 1];
    proof {
        assert(s@.skip(len - 1) =~= seq![s@[len - 1]]);
        assert(seq![(start, end)] + res@.reverse() =~= seq![s@[len - 1]]);
        lemma_normalized_prepend(s@[len - 1], Seq::<(T, T)>::empty());
        assert(seq![s@[len - 1]] + Seq::<(T, T)>::empty() =~= seq![s@[len - 1]]);
    }
    let mut i: usize = len - 1;
    while i >= 1
        invariant
            i < len,
            len == s.len(),
            well_formed(s@),
            forall|a: int, b: int| 0 <= a < b < s.len() ==> (#[trigger] s@[a]).1.rank() <= (#[trigger] s@[b]).1.rank(),
            normalized(seq![(start, end)] + res@.reverse()),
            cover_set(seq![(start, end)] + res@.reverse()) == cover_set(s@.skip(i as int)),
            forall|k: int| 0 <= k < i ==> (#[trigger] s@[k]).1.rank() <= end.rank(),
        decreases i,
    {
        let (next_start, next_end) = s[i - 1];
        let ghost cur = (start, end);
        let ghost tail = res@.reverse();
        let ghost next = s@[i - 1];
        let ghost prev = res@;
        proof {
            assert(s@.skip(i - 1) =~= seq![next] + s@.skip(i as int));
            assert(next.0.rank() < next.1.rank());
        }
        if start.le(&next_end) {
            if !start.le(&next_start) {
                start = next_start;
            }
            if !next_end.le(&end) {
                end = next_end;
            }
            proof {
                let asc = seq![cur] + tail;
                assert(asc[0] == cur);
                lemma_normalized_drop_first(asc);
                assert(asc.drop_first() =~= tail);
                if tail.len() > 0 {
                    assert(asc[1] == tail[0]);
                }
                lemma_normalized_prepend((start, end), tail);
                assert forall|x: int| cover_set(seq![(start, end)] + tail).contains(x) == cover_set(
                    s@.skip(i - 1),
                ).contains(x) by {
                    lemma_covers_prepend((start, end), tail, x);
                    lemma_covers_prepend(cur, tail, x);
                    lemma_covers_prepend(next, s@.skip(i as int), x);
                    assert(cover_set(asc).contains(x) == cover_set(s@.skip(i as int)).contains(x));
                }
                assert(cover_set(seq![(start, end)] + tail) =~= cover_set(s@.skip(i - 1)));
            }
        } else {
            res.push((start, end));
            start = next_start;
            end = next_end;
            proof {
                lemma_reverse_push(prev, cur);
                let asc = seq![cur] + tail;
                assert(res@.reverse() == asc);
                lemma_normalized_prepend(next, asc);
                assert forall|x: int| cover_set(seq![next] + asc).contains(x) == cover_set(
                    s@.skip(i - 1),
                ).contains(x) by {
                    lemma_covers_prepend(next, asc, x);
                    lemma_covers_prepend(next, s@.skip(i as int), x);
                    assert(cover_set(asc).contains(x) == cover_set(s@.skip(i as int)).contains(x));
                }
                assert(cover_set(seq![next] + asc) =~= cover_set(s@.skip(i - 1)));
            }
        }
        i = i - 1;
    }
    let ghost before = res@;
    res.push((start, end));
    proof {
        lemma_reverse_push(before, (start, end));
        assert(s@.skip(0) =~= s@);
        lemma_merge_of_unique(input, res@.reverse());
        lemma_reverse_reverse(res@);
    }
    res
}

/// What one step of coalescing does with the interval built so far and the
/// next one: fold the next one in when it starts no later than the end of
/// the first, else hand both back.
pub open spec fn coalesce_step<T: IntervalKey>(a: (T, T), b: (T, T)) -> Result<(T, T), ((T, T), (T, T))> {
    if b.0.rank() <= a.1.rank() {
        Ok((a.0, if a.1.rank() < b.1.rank() { b.1 } else { a.1 }))
    } else {
        Err((a, b))
    }
}

/// Coalescing `rest` onto the interval `prev` built so far, as
/// `Itertools::coalesce` does with the step [`coalesce_step`].
pub open spec fn coalesce_from<T: IntervalKey>(prev: (T, T), rest: Seq<(T, T)>) -> Seq<(T, T)>
    decreases rest.len(),
{
    if rest.len() == 0 {
        seq![prev]
    } else {
        match coalesce_step(prev, rest[0]) {
            Ok(joined) => coalesce_from(joined, rest.drop_first()),
            Err((done, next)) => seq![done] + coalesce_from(next, rest.drop_first()),
        }
    }
}

/// Coalescing the whole of `s`.
pub open spec fn coalesce_all<T: IntervalKey>(s: Seq<(T, T)>) -> Seq<(T, T)> {
    if s.len() == 0 {
        Seq::empty()
    } else {
        coalesce_from(s[0], s.drop_first())
    }
}

/// One step of coalescing; see [`coalesce_step`].
pub fn coalesce_pair<T: IntervalKey>(a: (T, T), b: (T, T)) -> (r: Result<(T, T), ((T, T), (T, T))>)
    ensures
        r == coalesce_step(a, b),
{
    if b.0.le(&a.1) {
        if a.1.le(&b.1) && !b.1.le(&a.1) {
            Ok((a.0, b.1))
        } else {
            Ok((a.0, a.1))
        }
    } else {
        Err((a, b))
    }
}

/// Relies on `Itertools::coalesce`: it hands the closure the value built so
/// far and the next item, keeps a joined value, emits the first of a pair
/// handed back and goes on from the second, and emits the last value at the end.
#[verifier::external_body]
fn coalesce_sorted<T: IntervalKey>(v: Vec<(T, T)>) -> (r: Vec<(T, T)>)
    ensures
        r@ == coalesce_all(v@),
{
    v.into_iter().coalesce(|a, b| coalesce_pair(a, b)).collect()
}

proof fn lemma_coalesce_from<T: IntervalKey>(
    res: Seq<(T, T)>,
    cur: (T, T),
    rest: Seq<(T, T)>,
    done: Seq<(T, T)>,
)
    requires
        normalized(res.push(cur)),
        cover_set(res.push(cur)) == cover_set(done),
        well_formed(rest),
        forall|k: int| 0 <= k < rest.len() ==> cur.0.rank() <= #[trigger] rest[k].0.rank(),
        forall|a: int, b: int| 0 <= a < b < rest.len() ==> (#[trigger] rest[a]).0.rank() <= (#[trigger] rest[b]).0.rank(),
    ensures
        is_merge_of(done + rest, res + coalesce_from(cur, rest)),
    decreases rest.len(),
{
    if rest.len() == 0 {
        assert(res + seq![cur] =~= res.push(cur));
        assert(done + rest =~= done);
    } else {
        let next = rest[0];
        let tail = rest.drop_first();
        assert(done.push(next) + tail =~= done + rest);
        assert(next.0.rank() < next.1.rank());
        assert forall|a: int, b: int| 0 <= a < b < tail.len() implies (#[trigger] tail[a]).0.rank() <= (#[trigger] tail[b]).0.rank() by {
            assert(tail[a] == rest[a + 1] && tail[b] == rest[b + 1]);
        }
        assert forall|k: int| 0 <= k < tail.len() implies (#[trigger] tail[k]).0.rank() < tail[k].1.rank() by {
            assert(tail[k] == rest[k + 1]);
        }
        match coalesce_step(cur, next) {
            Ok(joined) => {
                lemma_absorb_last(res, cur, next, joined, done);
                assert forall|k: int| 0 <= k < tail.len() implies joined.0.rank() <= #[trigger] tail[k].0.rank() by {
                    assert(tail[k] == rest[k + 1]);
                }
                lemma_coalesce_from(res, joined, tail, done.push(next));
            },
            Err((first, second)) => {
                assert(res.push(cur).last() == cur);
                lemma_append_after(res.push(cur), next, done);
                assert forall|k: int| 0 <= k < tail.len() implies next.0.rank() <= #[trigger] tail[k].0.rank() by {
                    assert(tail[k] == rest[k + 1]);
                }
                lemma_coalesce_from(res.push(cur), next, tail, done.push(next));
                assert(res.push(cur) + coalesce_from(next, tail) =~= res + (seq![cur] + coalesce_from(next, tail)));
            },
        }
    }
}

/// Merges intervals with `Itertools::coalesce` over them sorted by start,
/// the longest first among equal starts.
pub fn merge_intervals_itertools<T: IntervalKey>(intervals: Vec<(T, T)>) -> (r: Vec<(T, T)>)
    requires
        well_formed(intervals@),
    ensures
        r@ == merge_of(intervals@),
        is_merge_of(intervals@, r@),
{
    let ghost input = intervals@;
    let s = sort_intervals(intervals, SortOrder::StartThenLongest);
    proof {
        lemma_sorted_copy(s@, input);
        lemma_sorted_starts(s@, SortOrder::StartThenLongest);
    }
    let merged = coalesce_sorted(s);
    proof {
        if s@.len() == 0 {
            lemma_empty_merge(input);
        } else {
            let e = Seq::<(T, T)>::empty();
            let first = s@[0];
            let tail = s@.drop_first();
            assert(e.push(first) =~= seq![first]);
            assert(seq![first] =~= s@.take(1));
            lemma_normalized_push(e, first);
            assert forall|a: int, b: int| 0 <= a < b < tail.len() implies (#[trigger] tail[a]).0.rank() <= (#[trigger] tail[b]).0.rank() by {
                assert(tail[a] == s@[a + 1] && tail[b] == s@[b + 1]);
            }
            assert forall|k: int| 0 <= k < tail.len() implies (#[trigger] tail[k]).0.rank() < tail[k].1.rank() by {
                assert(tail[k] == s@[k + 1]);
            }
            assert forall|k: int| 0 <= k < tail.len() implies first.0.rank() <= #[trigger] tail[k].0.rank() by {
                assert(tail[k] == s@[k + 1]);
            }
            lemma_coalesce_from(e, first, tail, seq![first]);
            assert(seq![first] + tail =~= s@);
            assert(e + coalesce_from(first, tail) =~= coalesce_from(first, tail));
            lemma_merge_of_unique(input, merged@);
        }
        lemma_merge_of_exists(input);
    }
    merged
}

/// The interval spanning `a` and `b`, which touch or overlap.
pub open spec fn span<T: IntervalKey>(a: (T, T), b: (T, T)) -> (T, T) {
    (
        if a.0.rank() <= b.0.rank() { a.0 } else { b.0 },
        if a.1.rank() <= b.1.rank() { b.1 } else { a.1 },
    )
}

/// Adds the interval `a` to the normalized list `m`, keeping it normalized.
pub open spec fn insert_interval<T: IntervalKey>(m: Seq<(T, T)>, a: (T, T)) -> Seq<(T, T)>
    decreases m.len(),
{
    if m.len() == 0 {
        seq![a]
    } else if m[0].1.rank() < a.0.rank() {
        seq![m[0]] + insert_interval(m.drop_first(), a)
    } else if a.1.rank() < m[0].0.rank() {
        seq![a] + m
    } else {
        insert_interval(m.drop_first(), span(m[0], a))
    }
}

proof fn lemma_insert_interval<T: IntervalKey>(m: Seq<(T, T)>, a: (T, T))
    requires
        normalized(m),
        a.0.rank() < a.1.rank(),
    ensures
        normalized(insert_interval(m, a)),
        insert_interval(m, a).len() > 0,
        m.len() > 0 ==> insert_interval(m, a)[0].0.rank() >= if m[0].0.rank() <= a.0.rank() {
            m[0].0.rank()
        } else {
            a.0.rank()
        },
        m.len() == 0 ==> insert_interval(m, a)[0].0.rank() == a.0.rank(),
        forall|x: int| #[trigger] covers(insert_interval(m, a), x) == (covers(m, x) || in_interval(a, x)),
    decreases m.len(),
{
    let r = insert_interval(m, a);
    if m.len() == 0 {
        assert forall|x: int| #[trigger] covers(r, x) == (covers(m, x) || in_interval(a, x)) by {
            lemma_covers_single(a, x);
        }
    } else {
        let t = m.drop_first();
        lemma_normalized_drop_first(m);
        assert(m =~= seq![m[0]] + t);
        lemma_first_below(m);
        if m[0].1.rank() < a.0.rank() {
            lemma_insert_interval(t, a);
            let rt = insert_interval(t, a);
            if t.len() > 0 {
                assert(t[0] == m[1]);
            }
            lemma_normalized_prepend(m[0], rt);
            assert forall|x: int| #[trigger] covers(r, x) == (covers(m, x) || in_interval(a, x)) by {
                lemma_covers_prepend(m[0], rt, x);
                lemma_covers_prepend(m[0], t, x);
            }
        } else if a.1.rank() < m[0].0.rank() {
            lemma_normalized_prepend(a, m);
            assert forall|x: int| #[trigger] covers(r, x) == (covers(m, x) || in_interval(a, x)) by {
                lemma_covers_prepend(a, m, x);
            }
        } else {
            let sp = span(m[0], a);
            lemma_insert_interval(t, sp);
            if t.len() > 0 {
                assert(t[0] == m[1]);
            }
            assert forall|x: int| #[trigger] covers(r, x) == (covers(m, x) || in_interval(a, x)) by {
                lemma_covers_prepend(m[0], t, x);
            }
        }
    }
}

/// Adding the intervals of `s` one by one to an empty list.
pub open spec fn insert_all<T: IntervalKey>(s: Seq<(T, T)>) -> Seq<(T, T)>
    decreases s.len(),
{
    if s.len() == 0 {
        Seq::empty()
    } else {
        insert_interval(insert_all(s.drop_last()), s.last())
    }
}

proof fn lemma_insert_all<T: IntervalKey>(s: Seq<(T, T)>)
    requires
        well_formed(s),
    ensures
        is_merge_of(s, insert_all(s)),
    decreases s.len(),
{
    if s.len() > 0 {
        let d = s.drop_last();
        assert forall|i: int| 0 <= i < d.len() implies (#[trigger] d[i]).0.rank() < d[i].1.rank() by {
            assert(d[i] == s[i]);
        }
        lemma_insert_all(d);
        lemma_insert_interval(insert_all(d), s.last());
        assert(s =~= d.push(s.last()));
        assert forall|x: int| cover_set(insert_all(s)).contains(x) == cover_set(s).contains(x) by {
            lemma_covers_push(d, s.last(), x);
            assert(cover_set(insert_all(d)).contains(x) == cover_set(d).contains(x));
        }
        assert(cover_set(insert_all(s)) =~= cover_set(s));
    } else {
        assert(cover_set(insert_all(s)) =~= cover_set(s));
    }
}

/// Every list of non-empty intervals has a merge, so `merge_of` is one.
pub proof fn lemma_merge_of_exists<T: IntervalKey>(s: Seq<(T, T)>)
    requires
        well_formed(s),
    ensures
        is_merge_of(s, merge_of(s)),
{
    lemma_insert_all(s);
    lemma_merge_of_unique(s, insert_all(s));
}

/// Lists that cover the same points have the same merge.
pub proof fn lemma_merge_of_same_cover<T: IntervalKey>(a: Seq<(T, T)>, b: Seq<(T, T)>)
    requires
        well_formed(a),
        well_formed(b),
        cover_set(a) == cover_set(b),
    ensures
        merge_of(a) == merge_of(b),
{
    lemma_merge_of_exists(a);
    lemma_merge_of_exists(b);
    lemma_normalized_unique(merge_of(a), merge_of(b));
}

} // verus!
