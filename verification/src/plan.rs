//! Which files to embed, to skip and to delete when an index is brought up to
//! date.

use crate::order::{law_paths_are_ordered_by_bytes, law_prefixes_stand_first, lemma_path_order};
use crate::order::{path_leq, rank_leq, stable_sort, Ranked};
use crate::text::views;
use vstd::hash_map::StringHashMap;
use vstd::hash_set::StringHashSet;
use vstd::prelude::*;
use vstd::utf8::encode_utf8;

verus! {

/// The characters of each pair of strings.
pub open spec fn pair_views(pairs: Seq<(String, String)>) -> Seq<(Seq<char>, Seq<char>)> {
    pairs.map_values(|p: (String, String)| (p.0@, p.1@))
}

/// The first of each pair.
pub open spec fn firsts(pairs: Seq<(Seq<char>, Seq<char>)>) -> Seq<Seq<char>> {
    pairs.map_values(|p: (Seq<char>, Seq<char>)| p.0)
}

/// The pairs as a map; of two pairs with one first the later counts.
pub open spec fn as_map(pairs: Seq<(Seq<char>, Seq<char>)>) -> Map<Seq<char>, Seq<char>>
    decreases pairs.len(),
{
    if pairs.len() == 0 {
        Map::empty()
    } else {
        as_map(pairs.drop_last()).insert(pairs.last().0, pairs.last().1)
    }
}

/// The hashes that an index holds, by path.
pub struct StoredHashes {
    paths: Vec<String>,
    hashes: StringHashMap<String>,
}

impl View for StoredHashes {
    type V = Map<Seq<char>, Seq<char>>;

    closed spec fn view(&self) -> Map<Seq<char>, Seq<char>> {
        self.hashes@.map_values(|h: String| h@)
    }
}

impl StoredHashes {
    #[verifier::type_invariant]
    spec fn well_formed(self) -> bool {
        &&& views(self.paths@).no_duplicates()
        &&& views(self.paths@).to_set() == self.hashes@.dom()
    }

    /// The hashes in the given pairs of a path and a hash; of two pairs with one
    /// path the later counts.
    pub fn from_pairs(pairs: Vec<(String, String)>) -> (r: Self)
        ensures
            r@ == as_map(pair_views(pairs@)),
    {
        let ghost all = pair_views(pairs@);
        let mut paths: Vec<String> = Vec::new();
        let mut hashes: StringHashMap<String> = StringHashMap::new();
        proof {
            assert(all.take(0) == Seq::<(Seq<char>, Seq<char>)>::empty());
            assert(hashes@.map_values(|h: String| h@) == as_map(all.take(0)));
            assert(views(paths@).to_set() == hashes@.dom());
        }
        for pair in it: pairs
            invariant
                all == pair_views(it.seq()),
                views(paths@).no_duplicates(),
                views(paths@).to_set() == hashes@.dom(),
                hashes@.map_values(|h: String| h@) == as_map(all.take(it.index() as int)),
        {
            let ghost i = it.index() as int;
            let ghost before = views(paths@);
            let ghost old_hashes = hashes@;
            let (path, hash) = pair;
            proof {
                assert(all.take(i + 1).drop_last() == all.take(i));
                assert(all.take(i + 1).last() == (path@, hash@));
            }
            if !hashes.contains_key(path.as_str()) {
                let copy = path.clone();
                paths.push(copy);
                proof {
                    assert(!before.to_set().contains(path@));
                    assert(!before.contains(path@));
                    assert(views(paths@) == before.push(path@));
                    assert(before.push(path@).to_set() =~= before.to_set().insert(path@)) by {
                        before.lemma_push_to_set_commute(path@);
                    }
                }
            } else {
                proof {
                    assert(old_hashes.dom().insert(path@) =~= old_hashes.dom());
                }
            }
            hashes.insert(path, hash);
            proof {
                let f = |h: String| h@;
                assert(hashes@.map_values(f) =~= old_hashes.map_values(f).insert(path@, hash@));
            }
        }
        assert(all.take(all.len() as int) == all);
        StoredHashes { paths, hashes }
    }

    /// Whether `hash` is stored for `path`.
    pub fn holds(&self, path: &str, hash: &String) -> (r: bool)
        ensures
            r == (self@.contains_key(path@) && self@[path@] == hash@),
    {
        match self.hashes.get(path) {
            Some(stored) => *stored == *hash,
            None => false,
        }
    }

    /// The paths for which hashes are stored, each once.
    pub fn paths(&self) -> (r: &Vec<String>)
        ensures
            views(r@).no_duplicates(),
            views(r@).to_set() == self@.dom(),
    {
        proof {
            use_type_invariant(self);
            assert(self@.dom() =~= self.hashes@.dom());
        }
        &self.paths
    }
}

/// Paths that are only rearranged are the same set, and none is there twice if
/// none was.
proof fn lemma_same_paths(a: Seq<Seq<char>>, b: Seq<Seq<char>>)
    requires
        a.to_multiset() == b.to_multiset(),
        b.no_duplicates(),
    ensures
        a.to_set() == b.to_set(),
        a.no_duplicates(),
{
    broadcast use vstd::seq_lib::group_to_multiset_ensures;

    b.lemma_multiset_has_no_duplicates();
    a.lemma_multiset_has_no_duplicates_conv();
    assert forall|x: Seq<char>| a.to_set().contains(x) == b.to_set().contains(x) by {
        assert(a.contains(x) <==> a.to_multiset().count(x) > 0);
        assert(b.contains(x) <==> b.to_multiset().count(x) > 0);
    }
    assert(a.to_set() =~= b.to_set());
}

/// The stored paths that are not among `seen`.
fn missing(existing: &StoredHashes, seen: &StringHashSet) -> (r: Vec<String>)
    ensures
        views(r@).no_duplicates(),
        views(r@).to_set() == existing@.dom().difference(seen@),
{
    let paths = existing.paths();
    let mut r: Vec<String> = Vec::new();
    let mut i: usize = 0;
    while i < paths.len()
        invariant
            i <= paths@.len(),
            views(paths@).no_duplicates(),
            views(r@).no_duplicates(),
            forall|p: Seq<char>| #[trigger]
                views(r@).contains(p) <==> views(paths@).take(i as int).contains(p)
                    && !seen@.contains(p),
        decreases paths@.len() - i,
    {
        let ghost all = views(paths@);
        let ghost before = views(r@);
        let path = &paths[i];
        proof {
            assert(all.take(i + 1) == all.take(i as int).push(path@));
            assert forall|p: Seq<char>| #[trigger]
                all.take(i + 1).contains(p) <==> all.take(i as int).contains(p) || p == path@ by {
                all.take(i as int).lemma_push_to_set_commute(path@);
                assert(all.take(i + 1).to_set().contains(p) <==> all.take(i + 1).contains(p));
                assert(all.take(i as int).to_set().contains(p) <==> all.take(
                    i as int,
                ).contains(p));
            }
            assert(!all.take(i as int).contains(path@)) by {
                assert(all[i as int] == path@);
            }
        }
        if !seen.contains(path.as_str()) {
            let copy = path.clone();
            r.push(copy);
            proof {
                assert(views(r@) == before.push(path@));
                assert(!before.contains(path@));
                assert forall|p: Seq<char>| #[trigger]
                    views(r@).contains(p) <==> before.contains(p) || p == path@ by {
                    before.lemma_push_to_set_commute(path@);
                    assert(views(r@).to_set().contains(p) <==> views(r@).contains(p));
                    assert(before.to_set().contains(p) <==> before.contains(p));
                }
            }
        }
        i += 1;
    }
    proof {
        assert(views(paths@).take(i as int) == views(paths@));
        assert forall|p: Seq<char>|
            views(r@).to_set().contains(p) == existing@.dom().difference(seen@).contains(p) by {
            assert(views(r@).contains(p) <==> views(paths@).contains(p) && !seen@.contains(p));
            assert(views(paths@).to_set().contains(p) <==> views(paths@).contains(p));
        }
        assert(views(r@).to_set() =~= existing@.dom().difference(seen@));
    }
    r
}

/// What to do to bring an index up to date.
#[derive(Debug, Clone, Default, PartialEq, Eq)]
pub struct IndexPlan {
    /// Unchanged files; leave existing rows alone.
    pub skip: Vec<String>,
    /// New or changed files (or everything when `full`).
    pub embed: Vec<String>,
    /// Paths in the index that are no longer in the input (only when pruning).
    pub prune: Vec<String>,
}

/// The file is stored with the hash that it has now.
pub open spec fn unchanged(
    file: (Seq<char>, Seq<char>),
    existing: Map<Seq<char>, Seq<char>>,
) -> bool {
    existing.contains_key(file.0) && existing[file.0] == file.1
}

/// The paths of the incoming files that need not be embedded, as they come in.
pub open spec fn to_skip(
    incoming: Seq<(Seq<char>, Seq<char>)>,
    existing: Map<Seq<char>, Seq<char>>,
    full: bool,
) -> Seq<Seq<char>> {
    firsts(incoming.filter(|f: (Seq<char>, Seq<char>)| !full && unchanged(f, existing)))
}

/// The paths of the incoming files that are to be embedded, as they come in.
pub open spec fn to_embed(
    incoming: Seq<(Seq<char>, Seq<char>)>,
    existing: Map<Seq<char>, Seq<char>>,
    full: bool,
) -> Seq<Seq<char>> {
    firsts(incoming.filter(|f: (Seq<char>, Seq<char>)| full || !unchanged(f, existing)))
}

/// The stored paths that are to be deleted: those that do not come in, if the
/// index is pruned.
pub open spec fn to_prune(
    incoming: Seq<(Seq<char>, Seq<char>)>,
    existing: Map<Seq<char>, Seq<char>>,
    prune: bool,
) -> Set<Seq<char>> {
    if prune {
        existing.dom().difference(firsts(incoming).to_set())
    } else {
        Set::empty()
    }
}

/// The paths stand in their order.
pub open spec fn paths_in_order(paths: Seq<Seq<char>>) -> bool {
    forall|i: int, j: int|
        0 <= i <= j < paths.len() ==> path_leq(#[trigger] paths[i], #[trigger] paths[j])
}

/// The paths of `s`, each as often as in `s`, in their order.
pub open spec fn sorts_paths(sorted: Seq<Seq<char>>, s: Seq<Seq<char>>) -> bool {
    paths_in_order(sorted) && sorted.to_multiset() == s.to_multiset()
}

/// Equal items have equal views, however they are arranged.
proof fn lemma_views_multiset(a: Seq<String>, b: Seq<String>)
    requires
        a.to_multiset() == b.to_multiset(),
    ensures
        views(a).to_multiset() == views(b).to_multiset(),
    decreases a.len(),
{
    broadcast use vstd::seq_lib::group_to_multiset_ensures;

    assert(a.len() == a.to_multiset().len() && b.len() == b.to_multiset().len());
    if a.len() == 0 {
        assert(views(a) == views(b));
    } else {
        let x = a.last();
        assert(a.contains(x)) by {
            assert(a[a.len() - 1] == x);
        }
        assert(b.contains(x)) by {
            assert(b.to_multiset().count(x) > 0);
        }
        let i = choose|i: int| 0 <= i < b.len() && b[i] == x;
        assert(a == a.drop_last().push(x));
        assert(a.drop_last().to_multiset() =~= a.to_multiset().remove(x));
        assert(b.remove(i).to_multiset() =~= b.to_multiset().remove(x));
        lemma_views_multiset(a.drop_last(), b.remove(i));
        assert(views(a) == views(a.drop_last()).push(x@));
        assert(views(b.remove(i)) == views(b).remove(i));
        assert(views(b).remove(i).to_multiset() == views(b).to_multiset().remove(x@));
        assert(views(b).contains(x@)) by {
            assert(views(b)[i] == x@);
        }
        assert(views(b).to_multiset() =~= views(b).to_multiset().remove(x@).insert(x@));
    }
}

/// The paths in their order, each as often as it is there.
pub fn sort_paths(paths: Vec<String>) -> (r: Vec<String>)
    ensures
        sorts_paths(views(r@), views(paths@)),
{
    let r = stable_sort(paths);
    proof {
        lemma_views_multiset(r@, paths@);
        let v = views(r@);
        assert forall|i: int, j: int| 0 <= i <= j < v.len() implies path_leq(
            #[trigger] v[i],
            #[trigger] v[j],
        ) by {
            assert(rank_leq(r@[i].rank(), r@[j].rank()));
            lemma_path_order(v[i], v[i], v[i]);
        }
    }
    r
}

/// Decide which files to re-embed, skip, or delete.
///
/// `incoming` is `(source_path, content_hash)` for files in this index run.
/// `existing` is hashes currently stored (and any document paths with an empty
/// hash if the `files` table is missing a row).
///
/// When `prune` is true, paths in `existing` but not in `incoming` are removed.
/// When `full` is true, every incoming file is re-embedded even if the hash matches.
pub fn plan_index(
    incoming: &[(String, String)],
    existing: &StoredHashes,
    prune: bool,
    full: bool,
) -> (r: IndexPlan)
    ensures
        sorts_paths(views(r.skip@), to_skip(pair_views(incoming@), existing@, full)),
        sorts_paths(views(r.embed@), to_embed(pair_views(incoming@), existing@, full)),
        paths_in_order(views(r.prune@)),
        views(r.prune@).no_duplicates(),
        views(r.prune@).to_set() == to_prune(pair_views(incoming@), existing@, prune),
{
    let ghost files = pair_views(incoming@);
    let ghost skips = |f: (Seq<char>, Seq<char>)| !full && unchanged(f, existing@);
    let ghost embeds = |f: (Seq<char>, Seq<char>)| full || !unchanged(f, existing@);
    let mut skip: Vec<String> = Vec::new();
    let mut embed: Vec<String> = Vec::new();
    let mut seen = StringHashSet::new();
    let mut i: usize = 0;
    proof {
        reveal(Seq::filter);
        assert(files.take(0) == Seq::<(Seq<char>, Seq<char>)>::empty());
        assert(views(skip@) == firsts(files.take(0).filter(skips)));
        assert(views(embed@) == firsts(files.take(0).filter(embeds)));
        assert(seen@ == firsts(files.take(0)).to_set());
    }
    while i < incoming.len()
        invariant
            i <= incoming@.len(),
            files == pair_views(incoming@),
            skips == (|f: (Seq<char>, Seq<char>)| !full && unchanged(f, existing@)),
            embeds == (|f: (Seq<char>, Seq<char>)| full || !unchanged(f, existing@)),
            views(skip@) == firsts(files.take(i as int).filter(skips)),
            views(embed@) == firsts(files.take(i as int).filter(embeds)),
            seen@ == firsts(files.take(i as int)).to_set(),
        decreases incoming@.len() - i,
    {
        let path = &incoming[i].0;
        let hash = &incoming[i].1;
        let ghost (skip0, embed0) = (skip@, embed@);
        proof {
            let file = (path@, hash@);
            let next = files.take(i + 1);
            assert(next.drop_last() == files.take(i as int));
            assert(next.last() == file);
            reveal(Seq::filter);
            let s0 = files.take(i as int).filter(skips);
            let e0 = files.take(i as int).filter(embeds);
            assert(firsts(s0.push(file)) == firsts(s0).push(path@));
            assert(firsts(e0.push(file)) == firsts(e0).push(path@));
            let p0 = firsts(files.take(i as int));
            assert(firsts(next) == p0.push(path@));
            p0.lemma_push_to_set_commute(path@);
        }
        seen.insert(path.clone());
        if !full && existing.holds(path.as_str(), hash) {
            skip.push(path.clone());
            assert(views(skip@) == views(skip0).push(path@));
        } else {
            embed.push(path.clone());
            assert(views(embed@) == views(embed0).push(path@));
        }
        i += 1;
    }
    assert(files.take(i as int) == files);
    let stale = if prune {
        missing(existing, &seen)
    } else {
        Vec::new()
    };
    proof {
        assert(views(stale@).to_set() =~= to_prune(files, existing@, prune));
    }
    let ghost kept = views(stale@);
    let prune = sort_paths(stale);
    proof {
        lemma_same_paths(views(prune@), kept);
    }
    IndexPlan { skip: sort_paths(skip), embed: sort_paths(embed), prune }
}

/// Paths in order are determined by how often each is there: no two plans for the
/// same input differ.
pub proof fn law_sorted_paths_are_unique(a: Seq<Seq<char>>, b: Seq<Seq<char>>, s: Seq<Seq<char>>)
    requires
        sorts_paths(a, s),
        sorts_paths(b, s),
    ensures
        a == b,
    decreases a.len(),
{
    broadcast use vstd::seq_lib::group_to_multiset_ensures;

    assert(a.len() == a.to_multiset().len() && b.len() == b.to_multiset().len());
    if a.len() > 0 {
        let (x, y) = (a.last(), b.last());
        assert(a[a.len() - 1] == x && b[b.len() - 1] == y);
        assert(b.contains(x)) by {
            assert(a.contains(x) && a.to_multiset().count(x) > 0);
        }
        assert(a.contains(y)) by {
            assert(b.contains(y) && b.to_multiset().count(y) > 0);
        }
        let i = choose|i: int| 0 <= i < b.len() && b[i] == x;
        let j = choose|j: int| 0 <= j < a.len() && a[j] == y;
        assert(path_leq(b[i], b[b.len() - 1]));
        assert(path_leq(a[j], a[a.len() - 1]));
        lemma_path_order(x, y, x);
        assert(a == a.drop_last().push(x));
        assert(b == b.drop_last().push(y));
        assert(a.drop_last().to_multiset() =~= a.to_multiset().remove(x));
        assert(b.drop_last().to_multiset() =~= b.to_multiset().remove(y));
        law_sorted_paths_are_unique(a.drop_last(), b.drop_last(), a.drop_last());
    } else {
        assert(a == b);
    }
}

/// Every incoming file is either skipped or embedded, never both and never
/// neither, as often as it comes in.
pub proof fn law_every_file_is_skipped_or_embedded(
    incoming: Seq<(Seq<char>, Seq<char>)>,
    existing: Map<Seq<char>, Seq<char>>,
    full: bool,
)
    ensures
        to_skip(incoming, existing, full).to_multiset().add(
            to_embed(incoming, existing, full).to_multiset(),
        ) == firsts(incoming).to_multiset(),
    decreases incoming.len(),
{
    broadcast use vstd::seq_lib::group_to_multiset_ensures;

    reveal(Seq::filter);
    let skips = |f: (Seq<char>, Seq<char>)| !full && unchanged(f, existing);
    let embeds = |f: (Seq<char>, Seq<char>)| full || !unchanged(f, existing);
    if incoming.len() == 0 {
        assert(to_skip(incoming, existing, full) == firsts(incoming));
        assert(to_embed(incoming, existing, full) == Seq::<Seq<char>>::empty());
        assert(Seq::<Seq<char>>::empty().to_multiset() =~= vstd::multiset::Multiset::empty());
    } else {
        let init = incoming.drop_last();
        let file = incoming.last();
        law_every_file_is_skipped_or_embedded(init, existing, full);
        let (s0, e0) = (init.filter(skips), init.filter(embeds));
        assert(firsts(s0.push(file)) == firsts(s0).push(file.0));
        assert(firsts(e0.push(file)) == firsts(e0).push(file.0));
        assert(firsts(incoming) == firsts(init).push(file.0));
    }
    assert(to_skip(incoming, existing, full).to_multiset().add(
        to_embed(incoming, existing, full).to_multiset(),
    ) =~= firsts(incoming).to_multiset());
}

/// A full run embeds every incoming file, whatever is stored.
pub proof fn law_full_embeds_everything(
    incoming: Seq<(Seq<char>, Seq<char>)>,
    existing: Map<Seq<char>, Seq<char>>,
)
    ensures
        to_skip(incoming, existing, true) == Seq::<Seq<char>>::empty(),
        to_embed(incoming, existing, true) == firsts(incoming),
    decreases incoming.len(),
{
    reveal(Seq::filter);
    let skips = |f: (Seq<char>, Seq<char>)| !true && unchanged(f, existing);
    let embeds = |f: (Seq<char>, Seq<char>)| true || !unchanged(f, existing);
    if incoming.len() == 0 {
        assert(to_skip(incoming, existing, true) == Seq::<Seq<char>>::empty());
        assert(to_embed(incoming, existing, true) == firsts(incoming));
    } else {
        let init = incoming.drop_last();
        law_full_embeds_everything(init, existing);
        let (s0, e0) = (init.filter(skips), init.filter(embeds));
        assert(firsts(e0.push(incoming.last())) == firsts(e0).push(incoming.last().0));
        assert(firsts(incoming) == firsts(init).push(incoming.last().0));
    }
}

/// Where every incoming file is stored with the hash that it has now, a run that
/// is not full skips them all.
pub proof fn law_unchanged_files_are_skipped(
    incoming: Seq<(Seq<char>, Seq<char>)>,
    existing: Map<Seq<char>, Seq<char>>,
)
    requires
        forall|i: int| 0 <= i < incoming.len() ==> unchanged(#[trigger] incoming[i], existing),
    ensures
        to_skip(incoming, existing, false) == firsts(incoming),
        to_embed(incoming, existing, false) == Seq::<Seq<char>>::empty(),
    decreases incoming.len(),
{
    reveal(Seq::filter);
    let skips = |f: (Seq<char>, Seq<char>)| !false && unchanged(f, existing);
    let embeds = |f: (Seq<char>, Seq<char>)| false || !unchanged(f, existing);
    if incoming.len() == 0 {
        assert(to_skip(incoming, existing, false) == firsts(incoming));
        assert(to_embed(incoming, existing, false) == Seq::<Seq<char>>::empty());
    } else {
        let init = incoming.drop_last();
        assert forall|i: int| 0 <= i < init.len() implies unchanged(
            #[trigger] init[i],
            existing,
        ) by {
            assert(init[i] == incoming[i]);
        }
        law_unchanged_files_are_skipped(init, existing);
        assert(unchanged(incoming[incoming.len() - 1], existing));
        let (s0, e0) = (init.filter(skips), init.filter(embeds));
        assert(firsts(s0.push(incoming.last())) == firsts(s0).push(incoming.last().0));
        assert(firsts(incoming) == firsts(init).push(incoming.last().0));
    }
}

/// What is deleted is stored and does not come in; without pruning nothing is
/// deleted.
pub proof fn law_prune_spares_incoming(
    incoming: Seq<(Seq<char>, Seq<char>)>,
    existing: Map<Seq<char>, Seq<char>>,
    path: Seq<char>,
)
    ensures
        to_prune(incoming, existing, true).contains(path) <==> existing.contains_key(path)
            && !firsts(incoming).contains(path),
        !to_prune(incoming, existing, false).contains(path),
{
}

/// The hashes that an index holds after a plan has been carried out.
pub open spec fn applied(
    incoming: Seq<(Seq<char>, Seq<char>)>,
    existing: Map<Seq<char>, Seq<char>>,
    prune: bool,
) -> Map<Seq<char>, Seq<char>> {
    existing.remove_keys(to_prune(incoming, existing, prune)).union_prefer_right(as_map(incoming))
}

/// The pairs of one path give it one hash.
pub open spec fn consistent(pairs: Seq<(Seq<char>, Seq<char>)>) -> bool {
    forall|i: int, j: int|
        0 <= i < pairs.len() && 0 <= j < pairs.len() && (#[trigger] pairs[i]).0 == (
        #[trigger] pairs[j]).0 ==> pairs[i].1 == pairs[j].1
}

proof fn lemma_as_map(pairs: Seq<(Seq<char>, Seq<char>)>)
    ensures
        as_map(pairs).dom() == firsts(pairs).to_set(),
        consistent(pairs) ==> forall|i: int|
            0 <= i < pairs.len() ==> as_map(pairs)[(#[trigger] pairs[i]).0] == pairs[i].1,
    decreases pairs.len(),
{
    if pairs.len() == 0 {
        assert(as_map(pairs).dom() =~= firsts(pairs).to_set());
    } else {
        let init = pairs.drop_last();
        let last = pairs.last();
        lemma_as_map(init);
        assert(firsts(pairs) == firsts(init).push(last.0));
        firsts(init).lemma_push_to_set_commute(last.0);
        assert(as_map(pairs).dom() =~= as_map(init).dom().insert(last.0));
        if consistent(pairs) {
            assert forall|i: int, j: int|
                0 <= i < init.len() && 0 <= j < init.len() && (#[trigger] init[i]).0 == (
                #[trigger] init[j]).0 implies init[i].1 == init[j].1 by {
                assert(pairs[i] == init[i] && pairs[j] == init[j]);
            }
            assert forall|i: int| 0 <= i < pairs.len() implies as_map(pairs)[(
            #[trigger] pairs[i]).0] == pairs[i].1 by {
                assert(pairs[pairs.len() - 1] == last);
                if i < init.len() {
                    assert(init[i] == pairs[i]);
                    assert(firsts(init)[i] == init[i].0);
                }
            }
        }
    }
}

/// Planning again after a plan has been carried out finds nothing to do: every
/// file is skipped, none is embedded, and none is deleted. This asks that no path
/// comes in with two hashes.
pub proof fn law_second_run_does_nothing(
    incoming: Seq<(Seq<char>, Seq<char>)>,
    existing: Map<Seq<char>, Seq<char>>,
    prune: bool,
)
    requires
        consistent(incoming),
    ensures
        ({
            let now = applied(incoming, existing, prune);
            &&& to_skip(incoming, now, false) == firsts(incoming)
            &&& to_embed(incoming, now, false) == Seq::<Seq<char>>::empty()
            &&& to_prune(incoming, now, prune) == Set::<Seq<char>>::empty()
        }),
{
    let now = applied(incoming, existing, prune);
    lemma_as_map(incoming);
    assert forall|i: int| 0 <= i < incoming.len() implies unchanged(#[trigger] incoming[i], now) by {
        assert(firsts(incoming)[i] == incoming[i].0);
        assert(firsts(incoming).to_set().contains(incoming[i].0));
    }
    law_unchanged_files_are_skipped(incoming, now);
    assert forall|p: Seq<char>| !to_prune(incoming, now, prune).contains(p) by {
        if prune && now.contains_key(p) {
            assert(as_map(incoming).contains_key(p) || existing.contains_key(p));
        }
    }
    assert(to_prune(incoming, now, prune) =~= Set::<Seq<char>>::empty());
}

/// What comes in or is stored is read as it stands: each path with its hash, and of
/// two hashes for one path the later.
pub proof fn law_pairs_are_read_as_they_stand(
    pairs: Seq<(String, String)>,
    i: int,
    held: Seq<(Seq<char>, Seq<char>)>,
    path: Seq<char>,
    hash: Seq<char>,
)
    requires
        0 <= i < pairs.len(),
    ensures
        pair_views(pairs).len() == pairs.len(),
        pair_views(pairs)[i] == (pairs[i].0@, pairs[i].1@),
        as_map(Seq::<(Seq<char>, Seq<char>)>::empty()) == Map::<Seq<char>, Seq<char>>::empty(),
        as_map(held.push((path, hash))) == as_map(held).insert(path, hash),
{
    assert(held.push((path, hash)).drop_last() == held);
}

/// Whether one more file is skipped or embedded does not depend on the others: it
/// is skipped if the run is not full and exactly its hash is stored for its path,
/// and else embedded. What is done with the others stays.
pub proof fn law_files_are_decided_one_by_one(
    incoming: Seq<(Seq<char>, Seq<char>)>,
    path: Seq<char>,
    hash: Seq<char>,
    existing: Map<Seq<char>, Seq<char>>,
    full: bool,
)
    ensures
        to_skip(Seq::empty(), existing, full) == Seq::<Seq<char>>::empty(),
        to_embed(Seq::empty(), existing, full) == Seq::<Seq<char>>::empty(),
        !full && existing.contains_key(path) && existing[path] == hash ==> {
            &&& to_skip(incoming.push((path, hash)), existing, full) == to_skip(
                incoming,
                existing,
                full,
            ).push(path)
            &&& to_embed(incoming.push((path, hash)), existing, full) == to_embed(
                incoming,
                existing,
                full,
            )
        },
        full || !existing.contains_key(path) || existing[path] != hash ==> {
            &&& to_embed(incoming.push((path, hash)), existing, full) == to_embed(
                incoming,
                existing,
                full,
            ).push(path)
            &&& to_skip(incoming.push((path, hash)), existing, full) == to_skip(
                incoming,
                existing,
                full,
            )
        },
{
    reveal(Seq::filter);
    let file = (path, hash);
    let all = incoming.push(file);
    let skips = |f: (Seq<char>, Seq<char>)| !full && unchanged(f, existing);
    let embeds = |f: (Seq<char>, Seq<char>)| full || !unchanged(f, existing);
    assert(all.drop_last() == incoming);
    let (s, e) = (incoming.filter(skips), incoming.filter(embeds));
    assert(firsts(s.push(file)) == firsts(s).push(path));
    assert(firsts(e.push(file)) == firsts(e).push(path));
    assert(to_skip(Seq::empty(), existing, full) == Seq::<Seq<char>>::empty());
    assert(to_embed(Seq::empty(), existing, full) == Seq::<Seq<char>>::empty());
}

/// An edited or new file is embedded, and one whose hash is stored for its path is
/// skipped: in a run that is not full, the hash that comes in is held against the
/// one that is stored, in full length.
pub proof fn law_edited_files_are_embedded(
    incoming: Seq<(Seq<char>, Seq<char>)>,
    existing: Map<Seq<char>, Seq<char>>,
    i: int,
)
    requires
        0 <= i < incoming.len(),
    ensures
        !existing.contains_key(incoming[i].0) || existing[incoming[i].0] != incoming[i].1 ==> {
            &&& to_embed(incoming, existing, false).contains(incoming[i].0)
            &&& (forall|j: int|
                0 <= j < incoming.len() && j != i ==> (#[trigger] incoming[j]).0 != incoming[i].0)
                ==> !to_skip(incoming, existing, false).contains(incoming[i].0)
        },
        existing.contains_key(incoming[i].0) && existing[incoming[i].0] == incoming[i].1 ==> {
            &&& to_skip(incoming, existing, false).contains(incoming[i].0)
            &&& (forall|j: int|
                0 <= j < incoming.len() && j != i ==> (#[trigger] incoming[j]).0 != incoming[i].0)
                ==> !to_embed(incoming, existing, false).contains(incoming[i].0)
        },
    decreases incoming.len(),
{
    let path = incoming[i].0;
    let init = incoming.drop_last();
    let last = incoming.last();
    assert(incoming == init.push((last.0, last.1)));
    law_files_are_decided_one_by_one(init, last.0, last.1, existing, false);
    let (s, e) = (to_skip(init, existing, false), to_embed(init, existing, false));
    lemma_push_contains(s, last.0, path);
    lemma_push_contains(e, last.0, path);
    if i < init.len() {
        law_edited_files_are_embedded(init, existing, i);
        if forall|j: int| 0 <= j < incoming.len() && j != i ==> (#[trigger] incoming[j]).0 != path {
            assert(incoming[incoming.len() - 1].0 != path);
            assert forall|j: int| 0 <= j < init.len() && j != i implies (#[trigger] init[j]).0
                != path by {
                assert(incoming[j].0 != path);
            }
        }
    } else {
        if forall|j: int| 0 <= j < incoming.len() && j != i ==> (#[trigger] incoming[j]).0 != path {
            lemma_decided_paths_come_in(init, existing, path);
        }
    }
}

proof fn lemma_push_contains(s: Seq<Seq<char>>, last: Seq<char>, x: Seq<char>)
    ensures
        s.push(last).contains(x) <==> s.contains(x) || x == last,
{
    let t = s.push(last);
    if s.contains(x) {
        let i = choose|i: int| 0 <= i < s.len() && s[i] == x;
        assert(t[i] == x);
    }
    if x == last {
        assert(t[s.len() as int] == x);
    }
    if t.contains(x) && x != last {
        let i = choose|i: int| 0 <= i < t.len() && t[i] == x;
        assert(s[i] == x);
    }
}

/// What is skipped or embedded comes in.
proof fn lemma_decided_paths_come_in(
    incoming: Seq<(Seq<char>, Seq<char>)>,
    existing: Map<Seq<char>, Seq<char>>,
    path: Seq<char>,
)
    ensures
        to_skip(incoming, existing, false).contains(path) || to_embed(
            incoming,
            existing,
            false,
        ).contains(path) ==> exists|j: int|
            0 <= j < incoming.len() && (#[trigger] incoming[j]).0 == path,
    decreases incoming.len(),
{
    if incoming.len() == 0 {
        assert(incoming == Seq::<(Seq<char>, Seq<char>)>::empty());
        law_files_are_decided_one_by_one(incoming, path, path, existing, false);
    } else {
        let init = incoming.drop_last();
        let last = incoming.last();
        assert(incoming == init.push((last.0, last.1)));
        law_files_are_decided_one_by_one(init, last.0, last.1, existing, false);
        lemma_push_contains(to_skip(init, existing, false), last.0, path);
        lemma_push_contains(to_embed(init, existing, false), last.0, path);
        lemma_decided_paths_come_in(init, existing, path);
        assert(incoming[incoming.len() - 1] == last);
        if exists|j: int| 0 <= j < init.len() && (#[trigger] init[j]).0 == path {
            let j = choose|j: int| 0 <= j < init.len() && (#[trigger] init[j]).0 == path;
            assert(incoming[j].0 == path);
        }
    }
}

/// What is deleted is what is stored under a path that no incoming file has, and
/// that only in a run that prunes.
pub proof fn law_only_missing_files_are_deleted(
    incoming: Seq<(Seq<char>, Seq<char>)>,
    existing: Map<Seq<char>, Seq<char>>,
    path: Seq<char>,
)
    ensures
        to_prune(incoming, existing, true).contains(path) <==> {
            &&& existing.contains_key(path)
            &&& forall|i: int| 0 <= i < incoming.len() ==> (#[trigger] incoming[i]).0 != path
        },
        to_prune(incoming, existing, false) == Set::<Seq<char>>::empty(),
{
    let paths = firsts(incoming);
    if paths.contains(path) {
        let i = choose|i: int| 0 <= i < paths.len() && paths[i] == path;
        assert(incoming[i].0 == path);
    }
    assert forall|i: int| 0 <= i < incoming.len() && (#[trigger] incoming[i]).0
        == path implies paths.contains(path) by {
        assert(paths[i] == path);
    }
}

/// Sorting paths loses none and adds none, and puts them in order.
pub proof fn law_sorting_paths_keeps_them(sorted: Seq<Seq<char>>, s: Seq<Seq<char>>)
    requires
        sorts_paths(sorted, s),
    ensures
        sorted.to_multiset() == s.to_multiset(),
        paths_in_order(sorted),
{
}

/// Paths in order: each stands before those behind it, by the bytes.
pub proof fn law_order_is_by_bytes(paths: Seq<Seq<char>>, i: int, j: int, k: int)
    requires
        paths_in_order(paths),
        0 <= i < j < paths.len(),
        0 <= k < encode_utf8(paths[i]).len(),
        forall|m: int|
            0 <= m < k && m < encode_utf8(paths[j]).len() ==> #[trigger] encode_utf8(paths[i])[m]
                == encode_utf8(paths[j])[m],
    ensures
        k < encode_utf8(paths[j]).len(),
        encode_utf8(paths[i])[k] <= encode_utf8(paths[j])[k],
{
    let (a, b) = (paths[i], paths[j]);
    assert(path_leq(a, b));
    if k >= encode_utf8(b).len() {
        assert forall|m: int| 0 <= m < encode_utf8(b).len() implies #[trigger] encode_utf8(b)[m]
            == encode_utf8(a)[m] by {
            assert(encode_utf8(a)[m] == encode_utf8(b)[m]);
        }
        law_prefixes_stand_first(b, a);
    } else if encode_utf8(a)[k] != encode_utf8(b)[k] {
        law_paths_are_ordered_by_bytes(a, b, k);
    }
}

} // verus!
