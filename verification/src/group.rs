//! Chunks grouped by the file they come from.

use crate::chunk::Chunk;
use crate::order::{in_order, law_paths_are_ordered_by_bytes, law_prefixes_stand_first};
use crate::order::{law_sorting_keeps_order, lemma_of_rank_is_filter, lemma_path_order};
use crate::order::{of_rank, path_leq, rank_leq, stable_sort, stably_sorts, Ranked};
use vstd::prelude::*;
use vstd::utf8::encode_utf8;

verus! {

/// The chunks of all the groups, in a row.
pub open spec fn flat(groups: Seq<(String, Vec<Chunk>)>) -> Seq<Chunk>
    decreases groups.len(),
{
    if groups.len() == 0 {
        seq![]
    } else {
        flat(groups.drop_last()) + groups.last().1@
    }
}

/// The path `a` stands before `b`, and is not `b`.
pub open spec fn path_lt(a: Seq<char>, b: Seq<char>) -> bool {
    path_leq(a, b) && a != b
}

/// Each group has chunks, all of them from the file that the group is named
/// after, and the groups stand in the order of their paths, each path once.
pub open spec fn well_grouped(groups: Seq<(String, Vec<Chunk>)>) -> bool {
    &&& forall|g: int| 0 <= g < groups.len() ==> (#[trigger] groups[g]).1@.len() > 0
    &&& forall|g: int, i: int|
        0 <= g < groups.len() && 0 <= i < groups[g].1@.len() ==> (
        #[trigger] groups[g].1@[i]).source_path@ == groups[g].0@
    &&& forall|g: int, h: int|
        0 <= g < h < groups.len() ==> path_lt(
            (#[trigger] groups[g]).0@,
            (#[trigger] groups[h]).0@,
        )
}

/// Group chunks by `source_path`, sorted by path then `chunk_index`; chunks that
/// agree in both stay in the order they come in.
pub fn group_chunks_by_path(chunks: Vec<Chunk>) -> (r: Vec<(String, Vec<Chunk>)>)
    ensures
        well_grouped(r@),
        stably_sorts(flat(r@), chunks@),
{
    let sorted = stable_sort(chunks);
    let ghost all = sorted@;
    let mut out: Vec<(String, Vec<Chunk>)> = Vec::new();
    let mut path = String::new();
    let mut group: Vec<Chunk> = Vec::new();
    proof {
        assert(flat(out@) + group@ == all.take(0));
    }
    for c in it: sorted
        invariant
            all == it.seq(),
            in_order(all),
            flat(out@) + group@ == all.take(it.index() as int),
            well_grouped(out@),
            group@.len() == 0 <==> it.index() == 0,
            group@.len() == 0 ==> out@.len() == 0,
            forall|i: int| 0 <= i < group@.len() ==> (#[trigger] group@[i]).source_path@ == path@,
            forall|g: int|
                0 <= g < out@.len() && group@.len() > 0 ==> path_lt(
                    (#[trigger] out@[g]).0@,
                    path@,
                ),
    {
        let ghost i = it.index() as int;
        let ghost before = out@;
        let ghost earlier = group@;
        proof {
            assert(all.take(i + 1) == all.take(i).push(c));
            if i > 0 {
                assert(all.take(i).last() == earlier.last());
                assert(all[i - 1].source_path@ == path@);
                assert(rank_leq(all[i - 1].rank(), all[i].rank()));
            }
        }
        if group.len() > 0 && path == c.source_path {
            group.push(c);
            proof {
                assert(flat(out@) + group@ == all.take(i + 1));
            }
        } else {
            let next = c.source_path.clone();
            let ghost last = path@;
            if group.len() > 0 {
                out.push((path, group));
                proof {
                    assert(out@.drop_last() == before);
                    assert(flat(out@) == flat(before) + earlier);
                    assert forall|g: int| 0 <= g < before.len() implies path_lt(
                        (#[trigger] out@[g]).0@,
                        next@,
                    ) by {
                        lemma_path_order(before[g].0@, last, next@);
                        lemma_path_order(last, before[g].0@, last);
                    }
                }
            }
            group = vec![c];
            path = next;
            proof {
                assert(group@ == seq![c]);
                assert(flat(out@) + group@ == all.take(i + 1));
            }
        }
    }
    assert(all.take(all.len() as int) == all);
    if group.len() > 0 {
        let ghost before = out@;
        out.push((path, group));
        assert(out@.drop_last() == before);
    } else {
        assert(flat(out@) + group@ == flat(out@));
    }
    out
}

/// Where the chunks of group `g` begin among those of all the groups.
spec fn group_start(groups: Seq<(String, Vec<Chunk>)>, g: int) -> int {
    flat(groups.take(g)).len() as int
}

proof fn lemma_flat(groups: Seq<(String, Vec<Chunk>)>, g: int)
    requires
        0 <= g < groups.len(),
    ensures
        0 <= group_start(groups, g),
        group_start(groups, g) + groups[g].1@.len() <= flat(groups).len(),
        forall|i: int|
            0 <= i < groups[g].1@.len() ==> #[trigger] groups[g].1@[i] == flat(groups)[group_start(
                groups,
                g,
            ) + i],
    decreases groups.len(),
{
    let init = groups.drop_last();
    if g < init.len() {
        lemma_flat(init, g);
        assert(init.take(g) == groups.take(g));
    } else {
        assert(groups.take(g) == init);
    }
}

proof fn lemma_flat_member(groups: Seq<(String, Vec<Chunk>)>, k: int) -> (r: (int, int))
    requires
        0 <= k < flat(groups).len(),
    ensures
        0 <= r.0 < groups.len(),
        0 <= r.1 < groups[r.0].1@.len(),
        groups[r.0].1@[r.1] == flat(groups)[k],
    decreases groups.len(),
{
    let init = groups.drop_last();
    if k < flat(init).len() {
        lemma_flat_member(init, k)
    } else {
        (groups.len() - 1, k - flat(init).len())
    }
}

/// Every chunk is in the group of its path.
pub proof fn law_every_chunk_is_in_its_group(
    groups: Seq<(String, Vec<Chunk>)>,
    chunks: Seq<Chunk>,
    c: Chunk,
)
    requires
        well_grouped(groups),
        stably_sorts(flat(groups), chunks),
        chunks.contains(c),
    ensures
        exists|g: int|
            0 <= g < groups.len() && groups[g].0@ == c.source_path@ && (
            #[trigger] groups[g]).1@.contains(c),
{
    broadcast use vstd::seq_lib::group_to_multiset_ensures;

    assert(chunks.to_multiset().count(c) > 0);
    assert(flat(groups).contains(c));
    let k = choose|k: int| 0 <= k < flat(groups).len() && flat(groups)[k] == c;
    let (g, i) = lemma_flat_member(groups, k);
    assert(groups[g].1@[i] == c);
}

/// The chunks of a group stand in the order of their positions.
pub proof fn law_groups_are_in_order(
    groups: Seq<(String, Vec<Chunk>)>,
    chunks: Seq<Chunk>,
    g: int,
    i: int,
    j: int,
)
    requires
        well_grouped(groups),
        stably_sorts(flat(groups), chunks),
        0 <= g < groups.len(),
        0 <= i <= j < groups[g].1@.len(),
    ensures
        groups[g].1@[i].chunk_index <= groups[g].1@[j].chunk_index,
{
    lemma_flat(groups, g);
    let start = group_start(groups, g);
    let all = flat(groups);
    assert(groups[g].1@[i] == all[start + i]);
    assert(groups[g].1@[j] == all[start + j]);
    assert(rank_leq(all[start + i].rank(), all[start + j].rank()));
}

/// The groups are determined by the order of the chunks: two groupings of the same
/// chunks agree in paths and members.
pub proof fn law_grouping_is_unique(
    a: Seq<(String, Vec<Chunk>)>,
    b: Seq<(String, Vec<Chunk>)>,
)
    requires
        well_grouped(a),
        well_grouped(b),
        flat(a) == flat(b),
    ensures
        a.len() == b.len(),
        forall|g: int|
            #![trigger a[g]]
            #![trigger b[g]]
            0 <= g < a.len() ==> a[g].0@ == b[g].0@ && a[g].1@ == b[g].1@,
    decreases a.len(),
{
    let all = flat(a);
    if a.len() == 0 || b.len() == 0 {
        if a.len() > 0 {
            assert(a.last() == a[a.len() - 1]);
        }
        if b.len() > 0 {
            assert(b.last() == b[b.len() - 1]);
        }
        assert(flat(Seq::<(String, Vec<Chunk>)>::empty()).len() == 0);
        assert(a.len() == 0 ==> a == Seq::<(String, Vec<Chunk>)>::empty());
        assert(b.len() == 0 ==> b == Seq::<(String, Vec<Chunk>)>::empty());
    } else {
        let (x, y) = (a.last(), b.last());
        assert(x == a[a.len() - 1] && y == b[b.len() - 1]);
        assert(x.1@[x.1@.len() - 1] == all.last());
        assert(y.1@[y.1@.len() - 1] == all.last());
        assert(x.0@ == all.last().source_path@);
        assert(y.0@ == all.last().source_path@);
        lemma_last_group(a, b);
        lemma_last_group(b, a);
        let (p, q) = (a.drop_last(), b.drop_last());
        assert(flat(p) == all.take(all.len() - x.1@.len()));
        assert(flat(q) == all.take(all.len() - y.1@.len()));
        assert(x.1@ == all.skip(all.len() - x.1@.len()));
        assert(y.1@ == all.skip(all.len() - y.1@.len()));
        lemma_well_grouped_drop_last(a);
        lemma_well_grouped_drop_last(b);
        law_grouping_is_unique(p, q);
        assert forall|g: int|
            #![trigger a[g]]
            #![trigger b[g]]
            0 <= g < a.len() implies a[g].0@ == b[g].0@ && a[g].1@ == b[g].1@ by {
            if g < p.len() {
                assert(p[g] == a[g] && q[g] == b[g]);
            }
        }
    }
}

proof fn lemma_well_grouped_drop_last(a: Seq<(String, Vec<Chunk>)>)
    requires
        well_grouped(a),
        a.len() > 0,
    ensures
        well_grouped(a.drop_last()),
{
    let p = a.drop_last();
    assert forall|g: int, i: int| 0 <= g < p.len() && 0 <= i < p[g].1@.len() implies (
    #[trigger] p[g].1@[i]).source_path@ == p[g].0@ by {
        assert(a[g].1@[i].source_path@ == a[g].0@);
    }
}

/// The last group of `a` is no longer than that of `b`.
proof fn lemma_last_group(a: Seq<(String, Vec<Chunk>)>, b: Seq<(String, Vec<Chunk>)>)
    requires
        well_grouped(a),
        well_grouped(b),
        flat(a) == flat(b),
        a.len() > 0,
        b.len() > 0,
        a.last().0@ == b.last().0@,
    ensures
        a.last().1@.len() <= b.last().1@.len(),
{
    let all = flat(b);
    let (m, n) = (a.last().1@.len(), b.last().1@.len());
    if m > n {
        let k = all.len() - n - 1;
        let last = a.len() - 1;
        assert(a[last] == a.last());
        assert(a[last].1@[m - n - 1] == all[k]);
        assert(all[k].source_path@ == a.last().0@);
        let init = b.drop_last();
        assert(flat(init)[k] == all[k]);
        let (g, i) = lemma_flat_member(init, k);
        assert(b[g].1@[i].source_path@ == b[g].0@);
        assert(path_lt(b[g].0@, b[b.len() - 1].0@));
    }
}

/// Chunks of one file that are numbered in a row form one group, as they are.
pub proof fn law_grouping_keeps_a_document(
    groups: Seq<(String, Vec<Chunk>)>,
    chunks: Seq<Chunk>,
    path: Seq<char>,
)
    requires
        well_grouped(groups),
        stably_sorts(flat(groups), chunks),
        chunks.len() > 0,
        forall|i: int|
            0 <= i < chunks.len() ==> (#[trigger] chunks[i]).source_path@ == path
                && chunks[i].chunk_index == i,
    ensures
        groups.len() == 1,
        groups[0].0@ == path,
        groups[0].1@ == chunks,
{
    law_sorting_keeps_order(flat(groups), chunks);
    let all = flat(groups);
    assert(groups.len() > 0);
    let last = groups.len() - 1;
    assert(groups.last() == groups[last]);
    assert forall|g: int| 0 <= g < groups.len() implies (#[trigger] groups[g]).0@ == path by {
        lemma_flat(groups, g);
        assert(groups[g].1@[0] == all[group_start(groups, g)]);
    }
    if groups.len() > 1 {
        assert(path_lt(groups[0].0@, groups[last].0@));
    }
    assert(flat(groups.drop_last()) == Seq::<Chunk>::empty());
    assert(all == groups[0].1@);
}

/// The chunks of the file `path`, as they follow one another in `chunks`.
pub open spec fn of_file(chunks: Seq<Chunk>, path: Seq<char>) -> Seq<Chunk> {
    chunks.filter(|c: Chunk| c.source_path@ == path)
}

proof fn lemma_of_file_all(chunks: Seq<Chunk>, path: Seq<char>)
    requires
        forall|i: int| 0 <= i < chunks.len() ==> (#[trigger] chunks[i]).source_path@ == path,
    ensures
        of_file(chunks, path) == chunks,
    decreases chunks.len(),
{
    reveal(Seq::filter);
    if chunks.len() > 0 {
        lemma_of_file_all(chunks.drop_last(), path);
        assert(chunks[chunks.len() - 1].source_path@ == path);
    }
    assert(of_file(chunks, path) == chunks);
}

proof fn lemma_of_file_none(chunks: Seq<Chunk>, path: Seq<char>)
    requires
        forall|i: int| 0 <= i < chunks.len() ==> (#[trigger] chunks[i]).source_path@ != path,
    ensures
        of_file(chunks, path) == Seq::<Chunk>::empty(),
    decreases chunks.len(),
{
    reveal(Seq::filter);
    if chunks.len() > 0 {
        lemma_of_file_none(chunks.drop_last(), path);
        assert(chunks[chunks.len() - 1].source_path@ != path);
    }
}

/// A group holds the chunks of its file.
proof fn lemma_group_is_file(groups: Seq<(String, Vec<Chunk>)>, g: int)
    requires
        well_grouped(groups),
        0 <= g < groups.len(),
    ensures
        of_file(flat(groups), groups[g].0@) == groups[g].1@,
    decreases groups.len(),
{
    let path = groups[g].0@;
    let init = groups.drop_last();
    let last = groups.len() - 1;
    let members = groups[last].1@;
    assert(groups.last() == groups[last]);
    lemma_of_file_add(flat(init), members, path);
    assert forall|i: int| 0 <= i < members.len() implies (#[trigger] members[i]).source_path@
        == groups[last].0@ by {
        assert(groups[last].1@[i].source_path@ == groups[last].0@);
    }
    if g == last {
        assert forall|k: int| 0 <= k < flat(init).len() implies (
        #[trigger] flat(init)[k]).source_path@ != path by {
            let (h, i) = lemma_flat_member(init, k);
            assert(groups[h].1@[i].source_path@ == groups[h].0@);
            assert(path_lt(groups[h].0@, groups[last].0@));
        }
        lemma_of_file_none(flat(init), path);
        lemma_of_file_all(members, path);
        assert(of_file(flat(groups), path) == members);
    } else {
        lemma_well_grouped_drop_last(groups);
        lemma_group_is_file(init, g);
        assert(init[g] == groups[g]);
        assert(path_lt(groups[g].0@, groups[last].0@));
        lemma_of_file_none(members, path);
        assert(of_file(flat(groups), path) == groups[g].1@);
    }
}

/// Of the chunks of a file, those of a rank are those of that rank.
proof fn lemma_of_file_of_rank(chunks: Seq<Chunk>, path: Seq<char>, rank: (Seq<char>, nat))
    ensures
        of_rank(of_file(chunks, path), rank) == (if rank.0 == path {
            of_rank(chunks, rank)
        } else {
            Seq::empty()
        }),
    decreases chunks.len(),
{
    reveal(Seq::filter);
    if chunks.len() > 0 {
        let init = chunks.drop_last();
        let c = chunks.last();
        lemma_of_file_of_rank(init, path, rank);
        if c.source_path@ == path {
            let kept = of_file(init, path);
            assert(of_file(chunks, path) == kept.push(c));
            assert(kept.push(c).drop_last() == kept);
        }
    }
}

proof fn lemma_of_file_add(a: Seq<Chunk>, b: Seq<Chunk>, path: Seq<char>)
    ensures
        of_file(a + b, path) == of_file(a, path) + of_file(b, path),
{
    Seq::filter_distributes_over_add(a, b, |c: Chunk| c.source_path@ == path);
}

/// What is only rearranged holds the same chunks of a file.
proof fn lemma_of_file_multiset(a: Seq<Chunk>, b: Seq<Chunk>, path: Seq<char>)
    requires
        a.to_multiset() == b.to_multiset(),
    ensures
        of_file(a, path).to_multiset() == of_file(b, path).to_multiset(),
    decreases a.len(),
{
    broadcast use vstd::seq_lib::group_to_multiset_ensures;

    assert(a.len() == a.to_multiset().len() && b.len() == b.to_multiset().len());
    if a.len() == 0 {
        assert(a == b);
    } else {
        let x = a.last();
        let init = a.drop_last();
        assert(a[a.len() - 1] == x);
        assert(b.contains(x)) by {
            assert(a.contains(x) && b.to_multiset().count(x) > 0);
        }
        let i = choose|i: int| 0 <= i < b.len() && b[i] == x;
        let (left, right) = (b.take(i), b.skip(i + 1));
        assert(a == init.push(x));
        assert(init.to_multiset() =~= a.to_multiset().remove(x));
        assert(b.remove(i).to_multiset() =~= b.to_multiset().remove(x));
        lemma_of_file_multiset(init, b.remove(i), path);
        assert(a == init + seq![x]);
        assert(b == left + seq![x] + right);
        assert(b.remove(i) == left + right);
        lemma_of_file_add(init, seq![x], path);
        lemma_of_file_add(left + seq![x], right, path);
        lemma_of_file_add(left, seq![x], path);
        lemma_of_file_add(left, right, path);
        let one = of_file(seq![x], path);
        let (l, r) = (of_file(left, path), of_file(right, path));
        vstd::seq_lib::lemma_multiset_commutative(of_file(init, path), one);
        vstd::seq_lib::lemma_multiset_commutative(l + one, r);
        vstd::seq_lib::lemma_multiset_commutative(l, one);
        vstd::seq_lib::lemma_multiset_commutative(l, r);
        assert(of_file(a, path).to_multiset() =~= of_file(b, path).to_multiset());
    }
}

/// A group holds the chunks of its file, all of them and no others, sorted by
/// position; where they come in the order of their positions, it holds them as
/// they come.
pub proof fn law_group_is_its_file(
    groups: Seq<(String, Vec<Chunk>)>,
    chunks: Seq<Chunk>,
    g: int,
)
    requires
        well_grouped(groups),
        stably_sorts(flat(groups), chunks),
        0 <= g < groups.len(),
    ensures
        stably_sorts(groups[g].1@, of_file(chunks, groups[g].0@)),
        in_order(of_file(chunks, groups[g].0@)) ==> groups[g].1@ == of_file(
            chunks,
            groups[g].0@,
        ),
{
    let path = groups[g].0@;
    let members = groups[g].1@;
    let own = of_file(chunks, path);
    let all = flat(groups);
    lemma_group_is_file(groups, g);
    lemma_of_file_multiset(all, chunks, path);
    lemma_flat(groups, g);
    let start = group_start(groups, g);
    assert forall|i: int, j: int| 0 <= i <= j < members.len() implies rank_leq(
        (#[trigger] members[i]).rank(),
        (#[trigger] members[j]).rank(),
    ) by {
        assert(groups[g].1@[i] == all[start + i]);
        assert(groups[g].1@[j] == all[start + j]);
        assert(rank_leq(all[start + i].rank(), all[start + j].rank()));
    }
    assert forall|rank: (Seq<char>, nat)| #[trigger]
        of_rank(members, rank) == of_rank(own, rank) by {
        lemma_of_file_of_rank(all, path, rank);
        lemma_of_file_of_rank(chunks, path, rank);
        assert(of_rank(all, rank) == of_rank(chunks, rank));
    }
    if in_order(own) {
        law_sorting_keeps_order(members, own);
    }
}

/// Tests that agree on all items of a sequence keep the same ones.
proof fn lemma_filter_agrees(s: Seq<Chunk>, p: spec_fn(Chunk) -> bool, q: spec_fn(Chunk) -> bool)
    requires
        forall|i: int| 0 <= i < s.len() ==> p(#[trigger] s[i]) == q(s[i]),
    ensures
        s.filter(p) == s.filter(q),
    decreases s.len(),
{
    reveal(Seq::filter);
    if s.len() > 0 {
        let init = s.drop_last();
        assert forall|i: int| 0 <= i < init.len() implies p(#[trigger] init[i]) == q(init[i]) by {
            assert(init[i] == s[i]);
        }
        lemma_filter_agrees(init, p, q);
        assert(p(s[s.len() - 1]) == q(s[s.len() - 1]));
    }
}

/// A group is named after the file that all its chunks come from, and it is not
/// empty. The chunks of the groups in a row are those of one after the other.
pub proof fn law_groups_are_named_and_filled(
    groups: Seq<(String, Vec<Chunk>)>,
    g: int,
    i: int,
    more: (String, Vec<Chunk>),
)
    requires
        well_grouped(groups),
        0 <= g < groups.len(),
        0 <= i < groups[g].1@.len(),
    ensures
        groups[g].1@.len() > 0,
        groups[g].1@[i].source_path@ == groups[g].0@,
        flat(Seq::<(String, Vec<Chunk>)>::empty()) == Seq::<Chunk>::empty(),
        flat(groups.push(more)) == flat(groups) + more.1@,
{
    assert(groups.push(more).drop_last() == groups);
    assert(groups[g].1@[i].source_path@ == groups[g].0@);
}

/// No group is empty, no two groups have the same path, and the groups stand in
/// the order of the bytes of their paths: where these agree before the place `k`,
/// the byte of the earlier group in it is not the greater.
pub proof fn law_groups_stand_in_byte_order(
    groups: Seq<(String, Vec<Chunk>)>,
    g: int,
    h: int,
    k: int,
)
    requires
        well_grouped(groups),
        0 <= g < h < groups.len(),
        0 <= k < encode_utf8(groups[g].0@).len(),
        forall|m: int|
            0 <= m < k && m < encode_utf8(groups[h].0@).len() ==> #[trigger] encode_utf8(
                groups[g].0@,
            )[m] == encode_utf8(groups[h].0@)[m],
    ensures
        groups[g].0@ != groups[h].0@,
        k < encode_utf8(groups[h].0@).len(),
        encode_utf8(groups[g].0@)[k] <= encode_utf8(groups[h].0@)[k],
        groups[g].1@.len() > 0,
        groups[h].1@.len() > 0,
{
    let (a, b) = (groups[g].0@, groups[h].0@);
    assert(path_lt(a, b));
    if k >= encode_utf8(b).len() {
        assert forall|m: int| 0 <= m < encode_utf8(b).len() implies #[trigger] encode_utf8(b)[m]
            == encode_utf8(a)[m] by {
            assert(encode_utf8(a)[m] == encode_utf8(b)[m]);
        }
        law_prefixes_stand_first(b, a);
        if encode_utf8(a).len() == encode_utf8(b).len() {
            assert(encode_utf8(a) == encode_utf8(b));
        }
    } else if encode_utf8(a)[k] != encode_utf8(b)[k] {
        law_paths_are_ordered_by_bytes(a, b, k);
    }
}

/// Of each position, a group has the chunks that come from its file with that
/// position, all of them, as they come.
pub proof fn law_groups_keep_every_chunk(
    groups: Seq<(String, Vec<Chunk>)>,
    chunks: Seq<Chunk>,
    g: int,
    index: usize,
)
    requires
        well_grouped(groups),
        stably_sorts(flat(groups), chunks),
        0 <= g < groups.len(),
    ensures
        groups[g].1@.filter(|c: Chunk| c.chunk_index == index) == chunks.filter(
            |c: Chunk| c.source_path@ == groups[g].0@ && c.chunk_index == index,
        ),
{
    let path = groups[g].0@;
    let members = groups[g].1@;
    let rank = (path, index as nat);
    let own = of_file(chunks, path);
    law_group_is_its_file(groups, chunks, g);
    assert(of_rank(members, rank) == of_rank(own, rank));
    lemma_of_file_of_rank(chunks, path, rank);
    let same = |c: Chunk| c.rank() == rank;
    let placed = |c: Chunk| c.chunk_index == index;
    let both = |c: Chunk| c.source_path@ == groups[g].0@ && c.chunk_index == index;
    lemma_of_rank_is_filter(members, rank, same);
    lemma_of_rank_is_filter(chunks, rank, same);
    assert forall|i: int| 0 <= i < members.len() implies same(#[trigger] members[i]) == placed(
        members[i],
    ) by {
        assert(groups[g].1@[i].source_path@ == path);
    }
    lemma_filter_agrees(members, same, placed);
    lemma_filter_agrees(chunks, same, both);
}

} // verus!
