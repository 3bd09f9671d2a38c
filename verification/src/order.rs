//! The order of paths, and a stable sort by path and position.

use vstd::prelude::*;
use vstd::utf8::{encode_utf8, encode_utf8_decode_utf8};

verus! {

/// Lexicographic order of byte strings.
pub open spec fn bytes_leq(a: Seq<u8>, b: Seq<u8>) -> bool
    decreases a.len(),
{
    if a.len() == 0 {
        true
    } else if b.len() == 0 {
        false
    } else if a[0] == b[0] {
        bytes_leq(a.drop_first(), b.drop_first())
    } else {
        a[0] < b[0]
    }
}

/// The order of paths: that of their UTF-8 bytes.
pub open spec fn path_leq(a: Seq<char>, b: Seq<char>) -> bool {
    bytes_leq(encode_utf8(a), encode_utf8(b))
}

/// The order by path, then by position.
pub open spec fn rank_leq(a: (Seq<char>, nat), b: (Seq<char>, nat)) -> bool {
    if a.0 == b.0 {
        a.1 <= b.1
    } else {
        path_leq(a.0, b.0)
    }
}

/// What is sorted by a path and a position.
pub trait Ranked: Sized {
    /// The path and the position.
    spec fn rank(&self) -> (Seq<char>, nat);

    /// Whether `self` may stand before `other`.
    fn leq(&self, other: &Self) -> (r: bool)
        ensures
            r == rank_leq(self.rank(), other.rank()),
    ;
}

impl Ranked for String {
    open spec fn rank(&self) -> (Seq<char>, nat) {
        (self@, 0)
    }

    fn leq(&self, other: &Self) -> (r: bool) {
        proof {
            lemma_bytes_order(encode_utf8(self@), encode_utf8(self@), encode_utf8(self@));
        }
        path_le(self.as_str(), other.as_str())
    }
}

/// Whether `s` is in order.
pub open spec fn in_order<T: Ranked>(s: Seq<T>) -> bool {
    forall|i: int, j: int|
        0 <= i <= j < s.len() ==> rank_leq((#[trigger] s[i]).rank(), (#[trigger] s[j]).rank())
}

/// The items of `s` of one rank, as they follow one another in `s`.
pub open spec fn of_rank<T: Ranked>(s: Seq<T>, rank: (Seq<char>, nat)) -> Seq<T> {
    s.filter(|x: T| x.rank() == rank)
}

/// `sorted` holds the items of `s` in order, and those of equal rank follow one
/// another as they do in `s`.
pub open spec fn stably_sorts<T: Ranked>(sorted: Seq<T>, s: Seq<T>) -> bool {
    &&& in_order(sorted)
    &&& sorted.to_multiset() == s.to_multiset()
    &&& forall|rank: (Seq<char>, nat)| #[trigger] of_rank(sorted, rank) == of_rank(s, rank)
}

/// `bytes_leq` is a total order.
pub proof fn lemma_bytes_order(a: Seq<u8>, b: Seq<u8>, c: Seq<u8>)
    ensures
        bytes_leq(a, a),
        bytes_leq(a, b) || bytes_leq(b, a),
        bytes_leq(a, b) && bytes_leq(b, a) ==> a == b,
        bytes_leq(a, b) && bytes_leq(b, c) ==> bytes_leq(a, c),
    decreases a.len(),
{
    if a.len() == 0 {
        assert(bytes_leq(b, a) ==> b.len() == 0);
        assert(b.len() == 0 ==> a =~= b);
    } else if b.len() > 0 && a[0] == b[0] {
        if c.len() > 0 {
            lemma_bytes_order(a.drop_first(), b.drop_first(), c.drop_first());
        } else {
            lemma_bytes_order(a.drop_first(), b.drop_first(), c);
        }
        assert(a.drop_first() == b.drop_first() ==> a =~= seq![a[0]] + a.drop_first());
        assert(a.drop_first() == b.drop_first() ==> b =~= seq![b[0]] + b.drop_first());
    } else {
        lemma_bytes_order(a.drop_first(), a.drop_first(), a.drop_first());
        if c.len() > 0 && b.len() > 0 && a[0] == c[0] {
            lemma_bytes_order(a.drop_first(), c.drop_first(), c.drop_first());
        }
    }
}

/// The order of paths is total.
pub proof fn lemma_path_order(a: Seq<char>, b: Seq<char>, c: Seq<char>)
    ensures
        path_leq(a, a),
        path_leq(a, b) || path_leq(b, a),
        path_leq(a, b) && path_leq(b, a) ==> a == b,
        path_leq(a, b) && path_leq(b, c) ==> path_leq(a, c),
{
    lemma_bytes_order(encode_utf8(a), encode_utf8(b), encode_utf8(c));
    encode_utf8_decode_utf8(a);
    encode_utf8_decode_utf8(b);
}

/// The order by path and position is total.
pub proof fn lemma_rank_order(a: (Seq<char>, nat), b: (Seq<char>, nat), c: (Seq<char>, nat))
    ensures
        rank_leq(a, a),
        rank_leq(a, b) || rank_leq(b, a),
        rank_leq(a, b) && rank_leq(b, a) ==> a == b,
        rank_leq(a, b) && rank_leq(b, c) ==> rank_leq(a, c),
{
    lemma_path_order(a.0, b.0, c.0);
    lemma_path_order(b.0, c.0, a.0);
    lemma_path_order(c.0, a.0, b.0);
}

/// Whether `a` stands before `b`, or is `b`, in lexicographic order.
pub fn bytes_le(a: &[u8], b: &[u8]) -> (r: bool)
    ensures
        r == bytes_leq(a@, b@),
{
    let mut i: usize = 0;
    proof {
        assert(a@.skip(0) == a@);
        assert(b@.skip(0) == b@);
    }
    while i < a.len() && i < b.len()
        invariant
            i <= a@.len(),
            i <= b@.len(),
            bytes_leq(a@, b@) == bytes_leq(a@.skip(i as int), b@.skip(i as int)),
        decreases a@.len() - i,
    {
        if a[i] != b[i] {
            return a[i] < b[i];
        }
        proof {
            assert(a@.skip(i as int).drop_first() == a@.skip(i + 1));
            assert(b@.skip(i as int).drop_first() == b@.skip(i + 1));
        }
        i += 1;
    }
    i == a.len()
}

/// Whether the path `a` stands before `b`, or is `b`.
pub fn path_le(a: &str, b: &str) -> (r: bool)
    ensures
        r == path_leq(a@, b@),
{
    bytes_le(a.as_bytes(), b.as_bytes())
}

proof fn lemma_of_rank_one<T: Ranked>(x: T, rank: (Seq<char>, nat))
    ensures
        of_rank(seq![x], rank) == (if x.rank() == rank {
            seq![x]
        } else {
            Seq::empty()
        }),
{
    reveal_with_fuel(Seq::filter, 2);
    assert(seq![x].drop_last() == Seq::<T>::empty());
}

proof fn lemma_of_rank_none<T: Ranked>(s: Seq<T>, rank: (Seq<char>, nat))
    requires
        forall|i: int| 0 <= i < s.len() ==> (#[trigger] s[i]).rank() != rank,
    ensures
        of_rank(s, rank) == Seq::<T>::empty(),
    decreases s.len(),
{
    reveal(Seq::filter);
    if s.len() > 0 {
        lemma_of_rank_none(s.drop_last(), rank);
    }
}

/// What holds while two runs are merged from their greatest items on: `left` and
/// `right` are what is left of the runs, `tail` holds the items taken so far, the
/// greatest first, and `all` is where they started.
spec fn merging<T: Ranked>(left: Seq<T>, right: Seq<T>, tail: Seq<T>, all: Seq<T>) -> bool {
    &&& in_order(left)
    &&& in_order(right)
    &&& in_order(tail.reverse())
    &&& forall|i: int, j: int|
        0 <= i < left.len() && 0 <= j < tail.len() ==> rank_leq(
            (#[trigger] left[i]).rank(),
            (#[trigger] tail[j]).rank(),
        )
    &&& forall|i: int, j: int|
        0 <= i < right.len() && 0 <= j < tail.len() ==> rank_leq(
            (#[trigger] right[i]).rank(),
            (#[trigger] tail[j]).rank(),
        )
    &&& (left + right + tail.reverse()).to_multiset() == all.to_multiset()
    &&& forall|rank: (Seq<char>, nat)| #[trigger]
        of_rank(left + right + tail.reverse(), rank) == of_rank(all, rank)
}

/// The items of a merge stay below the one that is taken.
proof fn lemma_taken_is_greatest<T: Ranked>(s: Seq<T>, x: T)
    requires
        in_order(s),
        s.len() > 0 ==> rank_leq(s.last().rank(), x.rank()),
    ensures
        forall|i: int| 0 <= i < s.len() ==> rank_leq((#[trigger] s[i]).rank(), x.rank()),
{
    assert forall|i: int| 0 <= i < s.len() implies rank_leq((#[trigger] s[i]).rank(), x.rank()) by {
        let last = s[s.len() - 1];
        assert(rank_leq(s[i].rank(), last.rank()));
        lemma_rank_order(s[i].rank(), last.rank(), x.rank());
    }
}

/// An item below all of the tail, put in front of it, leaves it in order.
proof fn lemma_tail_in_order<T: Ranked>(tail: Seq<T>, x: T)
    requires
        in_order(tail.reverse()),
        forall|j: int| 0 <= j < tail.len() ==> rank_leq(x.rank(), (#[trigger] tail[j]).rank()),
    ensures
        in_order(tail.push(x).reverse()),
        tail.push(x).reverse() == seq![x] + tail.reverse(),
{
    let top = tail.push(x).reverse();
    let rev = tail.reverse();
    assert(top == seq![x] + rev);
    lemma_rank_order(x.rank(), x.rank(), x.rank());
    assert forall|i: int, j: int| 0 <= i <= j < top.len() implies rank_leq(
        (#[trigger] top[i]).rank(),
        (#[trigger] top[j]).rank(),
    ) by {
        if i > 0 {
            assert(top[i] == rev[i - 1] && top[j] == rev[j - 1]);
        } else if j > 0 {
            assert(top[j] == tail[tail.len() - j]);
        }
    }
}

proof fn lemma_take_right<T: Ranked>(left: Seq<T>, right: Seq<T>, tail: Seq<T>, all: Seq<T>)
    requires
        merging(left, right, tail, all),
        right.len() > 0,
        left.len() > 0 ==> rank_leq(left.last().rank(), right.last().rank()),
    ensures
        merging(left, right.drop_last(), tail.push(right.last()), all),
{
    let x = right.last();
    lemma_rank_order(x.rank(), x.rank(), x.rank());
    lemma_taken_is_greatest(left, x);
    lemma_taken_is_greatest(right, x);
    assert(x == right[right.len() - 1]);
    lemma_tail_in_order(tail, x);
    assert(left + right.drop_last() + (seq![x] + tail.reverse()) == left + right + tail.reverse());
}

proof fn lemma_take_left<T: Ranked>(left: Seq<T>, right: Seq<T>, tail: Seq<T>, all: Seq<T>)
    requires
        merging(left, right, tail, all),
        left.len() > 0,
        right.len() > 0 ==> !rank_leq(left.last().rank(), right.last().rank()),
    ensures
        merging(left.drop_last(), right, tail.push(left.last()), all),
{
    let x = left.last();
    let front = left.drop_last();
    lemma_rank_order(x.rank(), x.rank(), x.rank());
    if right.len() > 0 {
        lemma_rank_order(x.rank(), right.last().rank(), x.rank());
    }
    lemma_taken_is_greatest(left, x);
    lemma_taken_is_greatest(right, x);
    assert(x == left[left.len() - 1]);
    lemma_tail_in_order(tail, x);
    let rev = tail.reverse();
    let before = left + right + rev;
    let after = front + right + (seq![x] + rev);
    assert(left == front + seq![x]);
    assert forall|rank: (Seq<char>, nat)| #[trigger] of_rank(after, rank) == of_rank(all, rank) by {
        let p = |y: T| y.rank() == rank;
        Seq::filter_distributes_over_add(front + right, seq![x] + rev, p);
        Seq::filter_distributes_over_add(front, right, p);
        Seq::filter_distributes_over_add(seq![x], rev, p);
        Seq::filter_distributes_over_add(left + right, rev, p);
        Seq::filter_distributes_over_add(left, right, p);
        Seq::filter_distributes_over_add(front, seq![x], p);
        lemma_of_rank_one(x, rank);
        if x.rank() == rank {
            assert forall|i: int| 0 <= i < right.len() implies (#[trigger] right[i]).rank()
                != rank by {
                let last = right[right.len() - 1];
                assert(rank_leq(right[i].rank(), last.rank()));
            }
            lemma_of_rank_none(right, rank);
        }
        let f = of_rank(front, rank);
        let r = of_rank(right, rank);
        let one = of_rank(seq![x], rank);
        let t = of_rank(rev, rank);
        assert((f + r) + (one + t) == ((f + one) + r) + t);
        assert(of_rank(after, rank) == of_rank(before, rank));
    }
    vstd::seq_lib::lemma_multiset_commutative(front + right, seq![x] + rev);
    vstd::seq_lib::lemma_multiset_commutative(front, right);
    vstd::seq_lib::lemma_multiset_commutative(seq![x], rev);
    vstd::seq_lib::lemma_multiset_commutative(left + right, rev);
    vstd::seq_lib::lemma_multiset_commutative(left, right);
    vstd::seq_lib::lemma_multiset_commutative(front, seq![x]);
    assert(after.to_multiset() =~= before.to_multiset());
}

/// Two runs in order become one. Of two items of equal rank the one from `left`
/// comes first.
fn merge<T: Ranked>(left: Vec<T>, right: Vec<T>) -> (r: Vec<T>)
    requires
        in_order(left@),
        in_order(right@),
    ensures
        stably_sorts(r@, left@ + right@),
{
    let mut left = left;
    let mut right = right;
    let ghost all = left@ + right@;
    let mut tail: Vec<T> = Vec::new();
    proof {
        assert(left@ + right@ + tail@.reverse() == all);
    }
    while left.len() > 0 || right.len() > 0
        invariant
            merging(left@, right@, tail@, all),
        decreases left@.len() + right@.len(),
    {
        if left.len() == 0 || (right.len() > 0 && left[left.len() - 1].leq(
            &right[right.len() - 1],
        )) {
            proof {
                lemma_take_right(left@, right@, tail@, all);
            }
            if let Some(x) = right.pop() {
                tail.push(x);
            }
        } else {
            proof {
                lemma_take_left(left@, right@, tail@, all);
            }
            if let Some(x) = left.pop() {
                tail.push(x);
            }
        }
    }
    let mut r: Vec<T> = Vec::new();
    let ghost whole = tail@.reverse();
    proof {
        assert(left@ + right@ + tail@.reverse() == whole);
        assert(r@ + tail@.reverse() == whole);
    }
    while tail.len() > 0
        invariant
            r@ + tail@.reverse() == whole,
        decreases tail@.len(),
    {
        let ghost t0 = tail@;
        if let Some(x) = tail.pop() {
            proof {
                assert(t0.reverse() == seq![x] + tail@.reverse());
                assert(r@ + (seq![x] + tail@.reverse()) == r@.push(x) + tail@.reverse());
            }
            r.push(x);
        }
    }
    assert(r@ == whole);
    r
}

/// The items of `v` by path, then by position; items that agree in both keep
/// the order they have in `v`.
pub fn stable_sort<T: Ranked>(v: Vec<T>) -> (r: Vec<T>)
    ensures
        stably_sorts(r@, v@),
    decreases v@.len(),
{
    if v.len() < 2 {
        proof {
            if v@.len() == 1 {
                lemma_rank_order(v@[0].rank(), v@[0].rank(), v@[0].rank());
            }
        }
        return v;
    }
    let mut left = v;
    let mid = left.len() / 2;
    let right = left.split_off(mid);
    let ghost l0 = left@;
    let ghost r0 = right@;
    let l = stable_sort(left);
    let rr = stable_sort(right);
    proof {
        assert(l0 + r0 == v@);
        vstd::seq_lib::lemma_multiset_commutative(l0, r0);
        vstd::seq_lib::lemma_multiset_commutative(l@, rr@);
        assert forall|rank: (Seq<char>, nat)| #[trigger]
            of_rank(l@ + rr@, rank) == of_rank(v@, rank) by {
            let p = |y: T| y.rank() == rank;
            Seq::filter_distributes_over_add(l@, rr@, p);
            Seq::filter_distributes_over_add(l0, r0, p);
            assert(of_rank(l@, rank) == of_rank(l0, rank));
            assert(of_rank(rr@, rank) == of_rank(r0, rank));
        }
    }
    merge(l, rr)
}

/// The last item is the last of its rank.
proof fn lemma_last_of_rank<T: Ranked>(s: Seq<T>, rank: (Seq<char>, nat))
    requires
        s.len() > 0,
    ensures
        of_rank(s, rank) == (if s.last().rank() == rank {
            of_rank(s.drop_last(), rank).push(s.last())
        } else {
            of_rank(s.drop_last(), rank)
        }),
{
    reveal(Seq::filter);
}

/// An item of a rank that occurs stands at or before the last.
proof fn lemma_rank_below_last<T: Ranked>(s: Seq<T>, rank: (Seq<char>, nat))
    requires
        in_order(s),
        of_rank(s, rank).len() > 0,
    ensures
        s.len() > 0,
        rank_leq(rank, s.last().rank()),
{
    let p = |x: T| x.rank() == rank;
    broadcast use vstd::seq_lib::group_filter_ensures;

    if forall|i: int| 0 <= i < s.len() ==> (#[trigger] s[i]).rank() != rank {
        lemma_of_rank_none(s, rank);
    } else {
        let i = choose|i: int| 0 <= i < s.len() && (#[trigger] s[i]).rank() == rank;
        assert(rank_leq(s[i].rank(), s[s.len() - 1].rank()));
    }
}

/// Items in order are determined by those of each rank.
pub proof fn lemma_same_ranks<T: Ranked>(a: Seq<T>, b: Seq<T>)
    requires
        in_order(a),
        in_order(b),
        forall|rank: (Seq<char>, nat)| #[trigger] of_rank(a, rank) == of_rank(b, rank),
    ensures
        a == b,
    decreases a.len(),
{
    if a.len() == 0 {
        if b.len() > 0 {
            let rank = b.last().rank();
            lemma_last_of_rank(b, rank);
            lemma_of_rank_none(a, rank);
            assert(of_rank(a, rank) == of_rank(b, rank));
        }
        assert(a == b);
    } else {
        let rank = a.last().rank();
        lemma_last_of_rank(a, rank);
        assert(of_rank(a, rank) == of_rank(b, rank));
        lemma_rank_below_last(b, rank);
        let other = b.last().rank();
        lemma_last_of_rank(b, other);
        assert(of_rank(a, other) == of_rank(b, other));
        lemma_rank_below_last(a, other);
        lemma_rank_order(rank, other, rank);
        lemma_last_of_rank(b, rank);
        assert(of_rank(a, rank).last() == of_rank(b, rank).last());
        assert(a.last() == b.last());
        let (x, y) = (a.drop_last(), b.drop_last());
        assert forall|r: (Seq<char>, nat)| #[trigger] of_rank(x, r) == of_rank(y, r) by {
            lemma_last_of_rank(a, r);
            lemma_last_of_rank(b, r);
            assert(of_rank(a, r) == of_rank(b, r));
            if r == rank {
                assert(of_rank(a, r).drop_last() == of_rank(x, r));
                assert(of_rank(b, r).drop_last() == of_rank(y, r));
            }
        }
        lemma_same_ranks(x, y);
        assert(a == x.push(a.last()));
        assert(b == y.push(b.last()));
    }
}

/// A stable sort has one result.
pub proof fn law_stable_sort_is_unique<T: Ranked>(a: Seq<T>, b: Seq<T>, s: Seq<T>)
    requires
        stably_sorts(a, s),
        stably_sorts(b, s),
    ensures
        a == b,
{
    assert forall|rank: (Seq<char>, nat)| #[trigger] of_rank(a, rank) == of_rank(b, rank) by {
        assert(of_rank(a, rank) == of_rank(s, rank));
        assert(of_rank(b, rank) == of_rank(s, rank));
    }
    lemma_same_ranks(a, b);
}

/// Sorting what is in order changes nothing.
pub proof fn law_sorting_keeps_order<T: Ranked>(sorted: Seq<T>, s: Seq<T>)
    requires
        in_order(s),
        stably_sorts(sorted, s),
    ensures
        sorted == s,
{
    lemma_same_ranks(sorted, s);
}

/// Byte strings are in lexicographic order: where they agree before a place and
/// differ in it, the lower byte comes first.
proof fn lemma_bytes_first_difference(a: Seq<u8>, b: Seq<u8>, k: int)
    requires
        0 <= k < a.len(),
        k < b.len(),
        forall|i: int| 0 <= i < k ==> #[trigger] a[i] == b[i],
        a[k] != b[k],
    ensures
        bytes_leq(a, b) <==> a[k] < b[k],
    decreases k,
{
    if k > 0 {
        let (x, y) = (a.drop_first(), b.drop_first());
        assert(a[0] == b[0]);
        assert forall|i: int| 0 <= i < k - 1 implies #[trigger] x[i] == y[i] by {
            assert(a[i + 1] == b[i + 1]);
        }
        lemma_bytes_first_difference(x, y, k - 1);
    }
}

proof fn lemma_bytes_prefix(a: Seq<u8>, b: Seq<u8>)
    requires
        a.len() <= b.len(),
        forall|i: int| 0 <= i < a.len() ==> #[trigger] a[i] == b[i],
    ensures
        bytes_leq(a, b),
        a.len() < b.len() ==> !bytes_leq(b, a),
    decreases a.len(),
{
    if a.len() > 0 {
        let (x, y) = (a.drop_first(), b.drop_first());
        assert(a[0] == b[0]);
        assert forall|i: int| 0 <= i < x.len() implies #[trigger] x[i] == y[i] by {
            assert(a[i + 1] == b[i + 1]);
        }
        lemma_bytes_prefix(x, y);
    }
}

/// Paths stand in the order of their UTF-8 bytes: where these agree before the
/// place `k` and differ in it, the path with the lower byte comes first.
pub proof fn law_paths_are_ordered_by_bytes(a: Seq<char>, b: Seq<char>, k: int)
    requires
        0 <= k < encode_utf8(a).len(),
        k < encode_utf8(b).len(),
        forall|i: int| 0 <= i < k ==> #[trigger] encode_utf8(a)[i] == encode_utf8(b)[i],
        encode_utf8(a)[k] != encode_utf8(b)[k],
    ensures
        path_leq(a, b) <==> encode_utf8(a)[k] < encode_utf8(b)[k],
        path_leq(b, a) <==> encode_utf8(b)[k] < encode_utf8(a)[k],
{
    let (x, y) = (encode_utf8(a), encode_utf8(b));
    lemma_bytes_first_difference(x, y, k);
    assert forall|i: int| 0 <= i < k implies #[trigger] y[i] == x[i] by {
        assert(x[i] == y[i]);
    }
    lemma_bytes_first_difference(y, x, k);
}

/// A path stands before those that go on behind it.
pub proof fn law_prefixes_stand_first(a: Seq<char>, b: Seq<char>)
    requires
        encode_utf8(a).len() <= encode_utf8(b).len(),
        forall|i: int|
            0 <= i < encode_utf8(a).len() ==> #[trigger] encode_utf8(a)[i] == encode_utf8(b)[i],
    ensures
        path_leq(a, b),
        encode_utf8(a).len() < encode_utf8(b).len() ==> !path_leq(b, a),
{
    lemma_bytes_prefix(encode_utf8(a), encode_utf8(b));
}

/// Items are ranked by path first, and by position where the paths agree.
pub proof fn law_ranks(a: (Seq<char>, nat), b: (Seq<char>, nat))
    ensures
        a.0 == b.0 ==> (rank_leq(a, b) <==> a.1 <= b.1),
        a.0 != b.0 ==> (rank_leq(a, b) <==> path_leq(a.0, b.0)),
{
}

/// The items of a rank are those that a test for it keeps.
pub proof fn lemma_of_rank_is_filter<T: Ranked>(
    s: Seq<T>,
    rank: (Seq<char>, nat),
    same: spec_fn(T) -> bool,
)
    requires
        forall|x: T| #[trigger] same(x) == (x.rank() == rank),
    ensures
        of_rank(s, rank) == s.filter(same),
    decreases s.len(),
{
    reveal(Seq::filter);
    if s.len() > 0 {
        lemma_of_rank_is_filter(s.drop_last(), rank, same);
    }
}

/// What a stable sort gives: the same items, each as often; no item before one of
/// lower rank; and items of one rank as they came.
pub proof fn law_stable_sort_sorts<T: Ranked>(
    sorted: Seq<T>,
    s: Seq<T>,
    i: int,
    j: int,
    rank: (Seq<char>, nat),
)
    requires
        stably_sorts(sorted, s),
        0 <= i < j < sorted.len(),
    ensures
        sorted.len() == s.len(),
        sorted.to_multiset() == s.to_multiset(),
        sorted[i].rank().0 == sorted[j].rank().0 ==> sorted[i].rank().1 <= sorted[j].rank().1,
        sorted[i].rank().0 != sorted[j].rank().0 ==> path_leq(
            sorted[i].rank().0,
            sorted[j].rank().0,
        ),
        ({
            let same = |x: T| x.rank() == rank;
            sorted.filter(same) == s.filter(same)
        }),
{
    broadcast use vstd::seq_lib::group_to_multiset_ensures;

    assert(sorted.len() == sorted.to_multiset().len() && s.len() == s.to_multiset().len());
    assert(rank_leq(sorted[i].rank(), sorted[j].rank()));
    let same = |x: T| x.rank() == rank;
    assert(of_rank(sorted, rank) == of_rank(s, rank));
    lemma_of_rank_is_filter(sorted, rank, same);
    lemma_of_rank_is_filter(s, rank, same);
}

} // verus!
