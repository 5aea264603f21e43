use vstd::prelude::*;

use crate::listing::{is_backup_name, ItemType};
use crate::paths::sep;
use vstd::relations::injective;
use vstd::seq_lib::lemma_no_dup_in_concat;
use crate::mapper::{
    after_action, after_listing, awaits_listing, child_frame, entry_path, is_kept_file,
    kept_paths, next_dir, root_frame, FrameView, MapperView, Stage,
};

verus! {

/// A remote tree, as the listings of its directories describe it.
pub enum RemoteTree {
    File(Seq<char>),
    Dir(Seq<char>, Seq<RemoteTree>),
}

/// The line that a listing of the parent gives for node `t`.
pub open spec fn node_entry(t: RemoteTree) -> (Seq<char>, ItemType) {
    match t {
        RemoteTree::File(n) => (n, ItemType::File),
        RemoteTree::Dir(n, _) => (n, ItemType::Dir),
    }
}

/// The listing of a directory whose children are `cs`.
pub open spec fn listing_of(cs: Seq<RemoteTree>) -> Seq<(Seq<char>, ItemType)> {
    cs.map_values(|t: RemoteTree| node_entry(t))
}

/// The manifest paths of the files under `cs[i..]`, depth first, where `cs`
/// are the children of the directory whose local folder is `folder`.
pub open spec fn files_from(folder: Option<Seq<char>>, cs: Seq<RemoteTree>, i: int) -> Seq<
    Seq<char>,
>
    decreases cs, cs.len() - i,
{
    if i < 0 || i >= cs.len() {
        seq![]
    } else {
        let head = match cs[i] {
            RemoteTree::File(n) => if is_backup_name(n) {
                seq![]
            } else {
                seq![entry_path(folder, n)]
            },
            RemoteTree::Dir(n, sub) => files_from(Some(entry_path(folder, n)), sub, 0),
        };
        head + files_from(folder, cs, i + 1)
    }
}

/// The listings of the directories under `cs[i..]`, in the order in which a
/// depth-first traversal asks for them.
pub open spec fn listings_from(cs: Seq<RemoteTree>, i: int) -> Seq<Seq<(Seq<char>, ItemType)>>
    decreases cs, cs.len() - i,
{
    if i < 0 || i >= cs.len() {
        seq![]
    } else {
        let head = match cs[i] {
            RemoteTree::File(_) => seq![],
            RemoteTree::Dir(_, sub) => seq![listing_of(sub)] + listings_from(sub, 0),
        };
        head + listings_from(cs, i + 1)
    }
}

/// The listings that mapping a directory with children `cs` consumes.
pub open spec fn tree_listings(cs: Seq<RemoteTree>) -> Seq<Seq<(Seq<char>, ItemType)>> {
    seq![listing_of(cs)] + listings_from(cs, 0)
}

/// One move of a mapper whose listings are answered from `events`: it takes
/// the next listing when it waits for one, and otherwise asks for its next
/// action. A finished mapper, or one that waits with no listing left, stays.
pub open spec fn step(
    v: MapperView,
    events: Seq<Seq<(Seq<char>, ItemType)>>,
) -> (MapperView, Seq<Seq<(Seq<char>, ItemType)>>) {
    if awaits_listing(v) {
        if events.len() == 0 {
            (v, events)
        } else {
            (after_listing(v, events[0]), events.drop_first())
        }
    } else if v.frames.len() == 0 {
        (v, events)
    } else {
        (after_action(v), events)
    }
}

/// `fuel` moves in a row.
pub open spec fn run(
    v: MapperView,
    events: Seq<Seq<(Seq<char>, ItemType)>>,
    fuel: nat,
) -> (MapperView, Seq<Seq<(Seq<char>, ItemType)>>)
    decreases fuel,
{
    if fuel == 0 {
        (v, events)
    } else {
        let (v2, e2) = step(v, events);
        run(v2, e2, (fuel - 1) as nat)
    }
}

proof fn lemma_run_add(
    v: MapperView,
    events: Seq<Seq<(Seq<char>, ItemType)>>,
    a: nat,
    b: nat,
)
    ensures
        run(v, events, a + b) == run(run(v, events, a).0, run(v, events, a).1, b),
    decreases a,
{
    if a > 0 {
        let (v2, e2) = step(v, events);
        lemma_run_add(v2, e2, (a - 1) as nat, b);
        assert((a + b - 1) as nat == ((a - 1) as nat + b) as nat);
    }
}

proof fn lemma_next_dir(e: Seq<(Seq<char>, ItemType)>, i: int)
    requires
        0 <= i <= e.len(),
    ensures
        i <= next_dir(e, i) <= e.len(),
        forall|k: int| i <= k < next_dir(e, i) ==> e[k].1 == ItemType::File,
        next_dir(e, i) < e.len() ==> e[next_dir(e, i)].1 == ItemType::Dir,
    decreases e.len() - i,
{
    if i < e.len() && e[i].1 != ItemType::Dir {
        lemma_next_dir(e, i + 1);
    }
}

/// Over a stretch of plain files, the manifest grows as the walk loop grows it
/// and no listing is consumed.
proof fn lemma_files_stretch(folder: Option<Seq<char>>, cs: Seq<RemoteTree>, i: int, j: int)
    requires
        0 <= i <= j <= cs.len(),
        forall|k: int| i <= k < j ==> cs[k] is File,
    ensures
        files_from(folder, cs, i) == kept_paths(folder, listing_of(cs), i, j) + files_from(
            folder,
            cs,
            j,
        ),
        listings_from(cs, i) == listings_from(cs, j),
    decreases j - i,
{
    if i < j {
        lemma_files_stretch(folder, cs, i, j - 1);
        let e = listing_of(cs);
        assert(e[j - 1] == node_entry(cs[j - 1]));
        let prev = kept_paths(folder, e, i, j - 1);
        if let RemoteTree::File(n) = cs[j - 1] {
            if is_backup_name(n) {
                assert(!is_kept_file(e[j - 1]));
                assert(files_from(folder, cs, j - 1) =~= files_from(folder, cs, j));
            } else {
                assert(is_kept_file(e[j - 1]));
                assert(files_from(folder, cs, j - 1) =~= seq![entry_path(folder, n)]
                    + files_from(folder, cs, j));
                assert(kept_paths(folder, e, i, j) == prev.push(entry_path(folder, n)));
                assert(files_from(folder, cs, i) =~= kept_paths(folder, e, i, j) + files_from(
                    folder,
                    cs,
                    j,
                ));
            }
            assert(listings_from(cs, j - 1) =~= listings_from(cs, j));
        }
    }
}

/// A directory frame on top of the stack, about to navigate, whose children
/// are `cs` and whose listings come first in `events`, is mapped completely:
/// its frame leaves the stack, the manifest grows by its files, and exactly
/// its listings are consumed.
proof fn lemma_map_dir(
    v: MapperView,
    cs: Seq<RemoteTree>,
    rest: Seq<Seq<(Seq<char>, ItemType)>>,
) -> (fuel: nat)
    requires
        v.frames.len() > 0,
        v.frames.last().stage == Stage::Navigate,
    ensures
        run(v, tree_listings(cs) + rest, fuel).1 == rest,
        run(v, tree_listings(cs) + rest, fuel).0.frames == v.frames.drop_last(),
        run(v, tree_listings(cs) + rest, fuel).0.manifest == v.manifest + files_from(
            v.frames.last().folder,
            cs,
            0,
        ),
    decreases cs, cs.len() + 1,
{
    let ev = tree_listings(cs) + rest;
    let top = v.frames.last();
    let (v1, e1) = step(v, ev);
    assert(v1.frames.last().stage == Stage::List);
    let (v2, e2) = step(v1, e1);
    assert(awaits_listing(v2));
    assert(e2 == ev);
    let (v3, e3) = step(v2, e2);
    assert(ev[0] == listing_of(cs));
    assert(e3 =~= listings_from(cs, 0) + rest);
    assert(v3.frames.drop_last() =~= v.frames.drop_last());
    assert(v3.frames.last().folder == top.folder);
    let f = lemma_walk(v3, cs, 0, rest);
    lemma_run_add(v, ev, 3, f);
    assert(run(v, ev, 3) == (v3, e3)) by {
        reveal_with_fuel(run, 4);
    }
    3 + f
}

/// A walked frame on top of the stack, with the entries of `cs` and the
/// listings of its remaining subdirectories first in `events`, finishes: its
/// frame leaves the stack and the manifest grows by the files of `cs[i..]`.
proof fn lemma_walk(
    v: MapperView,
    cs: Seq<RemoteTree>,
    i: int,
    rest: Seq<Seq<(Seq<char>, ItemType)>>,
) -> (fuel: nat)
    requires
        v.frames.len() > 0,
        v.frames.last().stage == Stage::Walk,
        v.frames.last().entries == listing_of(cs),
        v.frames.last().next == i,
        0 <= i <= cs.len(),
    ensures
        run(v, listings_from(cs, i) + rest, fuel).1 == rest,
        run(v, listings_from(cs, i) + rest, fuel).0.frames == v.frames.drop_last(),
        run(v, listings_from(cs, i) + rest, fuel).0.manifest == v.manifest + files_from(
            v.frames.last().folder,
            cs,
            i,
        ),
    decreases cs, cs.len() - i,
{
    let top = v.frames.last();
    let folder = top.folder;
    let e = listing_of(cs);
    let ev = listings_from(cs, i) + rest;
    let j = next_dir(e, i);
    lemma_next_dir(e, i);
    assert forall|k: int| i <= k < j implies cs[k] is File by {
        assert(e[k] == node_entry(cs[k]));
    }
    lemma_files_stretch(folder, cs, i, j);
    let (v1, e1) = step(v, ev);
    assert(e1 == ev);
    assert(v1.manifest == v.manifest + kept_paths(folder, e, i, j));
    assert(run(v, ev, 1) == (v1, e1)) by {
        reveal_with_fuel(run, 2);
    }
    if j >= cs.len() {
        assert(files_from(folder, cs, j) =~= seq![]);
        assert(listings_from(cs, j) =~= seq![]);
        assert(ev =~= rest);
        assert(v1.manifest =~= v.manifest + files_from(folder, cs, i));
        1
    } else {
        assert(e[j] == node_entry(cs[j]));
        let sub = cs[j]->Dir_1;
        let n = cs[j]->Dir_0;
        let parent = FrameView { next: j + 1, ..top };
        let child = child_frame(top, j);
        assert(v1.frames == v.frames.drop_last().push(parent).push(child));
        assert(listings_from(cs, j) =~= tree_listings(sub) + listings_from(cs, j + 1));
        assert(ev =~= tree_listings(sub) + (listings_from(cs, j + 1) + rest));
        let f1 = lemma_map_dir(v1, sub, listings_from(cs, j + 1) + rest);
        let (v2, e2) = run(v1, ev, f1);
        assert(v2.frames =~= v.frames.drop_last().push(parent));
        assert(v2.frames.last().entries == listing_of(cs));
        let f2 = lemma_walk(v2, cs, j + 1, rest);
        lemma_run_add(v1, ev, f1, f2);
        lemma_run_add(v, ev, 1, f1 + f2);
        assert(child.folder == Some(entry_path(folder, n)));
        assert(files_from(folder, cs, j) =~= files_from(Some(entry_path(folder, n)), sub, 0)
            + files_from(folder, cs, j + 1));
        assert(run(v, ev, 1 + f1 + f2).0.manifest =~= v.manifest + files_from(folder, cs, i));
        1 + f1 + f2
    }
}

/// The state of a fresh mapper of entry `name` of remote directory `wd`.
pub open spec fn initial(wd: Seq<char>, name: Seq<char>) -> MapperView {
    MapperView { frames: seq![root_frame(wd, name)], manifest: seq![], made: Set::empty() }
}

/// Mapping a remote directory whose children are `cs`, each listing answered
/// from that tree, finishes after consuming exactly the tree's listings, with
/// a manifest that holds the path of every file reachable from the directory,
/// depth first in listing order, except the backup artifacts, and nothing else.
pub proof fn lemma_mapping_lists_tree_files(
    wd: Seq<char>,
    name: Seq<char>,
    cs: Seq<RemoteTree>,
) -> (fuel: nat)
    ensures
        run(initial(wd, name), tree_listings(cs), fuel).0.frames.len() == 0,
        run(initial(wd, name), tree_listings(cs), fuel).0.manifest == files_from(None, cs, 0),
        run(initial(wd, name), tree_listings(cs), fuel).1.len() == 0,
{
    let v = initial(wd, name);
    assert(tree_listings(cs) + seq![] =~= tree_listings(cs));
    let fuel = lemma_map_dir(v, cs, seq![]);
    assert(v.frames.drop_last() =~= seq![]);
    assert(v.manifest + files_from(None, cs, 0) =~= files_from(None, cs, 0));
    fuel
}

proof fn lemma_finished_stays(
    v: MapperView,
    events: Seq<Seq<(Seq<char>, ItemType)>>,
    fuel: nat,
)
    requires
        v.frames.len() == 0,
    ensures
        run(v, events, fuel) == (v, events),
    decreases fuel,
{
    if fuel > 0 {
        lemma_finished_stays(v, events, (fuel - 1) as nat);
    }
}

/// Mapping the same unchanged tree twice, from the same place, gives the
/// same manifest both times: whenever two runs answered from the tree have
/// finished, their manifests are equal.
pub proof fn lemma_mapping_is_repeatable(
    wd: Seq<char>,
    name: Seq<char>,
    cs: Seq<RemoteTree>,
    f1: nat,
    f2: nat,
)
    requires
        run(initial(wd, name), tree_listings(cs), f1).0.frames.len() == 0,
        run(initial(wd, name), tree_listings(cs), f2).0.frames.len() == 0,
    ensures
        run(initial(wd, name), tree_listings(cs), f1).0.manifest == run(
            initial(wd, name),
            tree_listings(cs),
            f2,
        ).0.manifest,
{
    let v = initial(wd, name);
    let ev = tree_listings(cs);
    if f1 <= f2 {
        let r = run(v, ev, f1);
        lemma_run_add(v, ev, f1, (f2 - f1) as nat);
        lemma_finished_stays(r.0, r.1, (f2 - f1) as nat);
        assert(f1 + (f2 - f1) as nat == f2);
    } else {
        let r = run(v, ev, f2);
        lemma_run_add(v, ev, f2, (f1 - f2) as nat);
        lemma_finished_stays(r.0, r.1, (f1 - f2) as nat);
        assert(f2 + (f1 - f2) as nat == f1);
    }
}

/// A name that holds no path separator.
pub open spec fn has_no_sep(n: Seq<char>) -> bool {
    forall|i: int| 0 <= i < n.len() ==> n[i] != '/'
}

/// Every directory of the tree lists distinct names, none holding a `/`.
pub open spec fn well_named(cs: Seq<RemoteTree>) -> bool
    decreases cs,
{
    &&& forall|i: int| 0 <= i < cs.len() ==> has_no_sep(#[trigger] node_entry(cs[i]).0)
    &&& forall|i: int, j: int|
        0 <= i < cs.len() && 0 <= j < cs.len() && i != j ==> #[trigger] node_entry(cs[i]).0
            != #[trigger] node_entry(cs[j]).0
    &&& forall|i: int|
        0 <= i < cs.len() ==> (#[trigger] cs[i] matches RemoteTree::Dir(_, sub) ==> well_named(sub))
}

/// Path `p` is the entry named `n`, or lies beneath it.
pub open spec fn owned_by(p: Seq<char>, n: Seq<char>) -> bool {
    p == n || (n + sep()).is_prefix_of(p)
}

pub open spec fn prefixed(f: Seq<char>) -> spec_fn(Seq<char>) -> Seq<char> {
    |p: Seq<char>| f + sep() + p
}

/// The paths under a folder are the paths relative to it, prefixed with it.
proof fn lemma_files_relative(f: Seq<char>, cs: Seq<RemoteTree>, i: int)
    ensures
        files_from(Some(f), cs, i) == files_from(None, cs, i).map_values(prefixed(f)),
    decreases cs, cs.len() - i,
{
    if i < 0 || i >= cs.len() {
        assert(files_from(None, cs, i).map_values(prefixed(f)) =~= seq![]);
    } else {
        lemma_files_relative(f, cs, i + 1);
        let g = prefixed(f);
        let tail_s = files_from(Some(f), cs, i + 1);
        let tail_n = files_from(None, cs, i + 1);
        match cs[i] {
            RemoteTree::File(n) => {
                if is_backup_name(n) {
                    assert(files_from(Some(f), cs, i) =~= tail_s);
                    assert(files_from(None, cs, i) =~= tail_n);
                } else {
                    assert(files_from(Some(f), cs, i) =~= seq![f + sep() + n] + tail_s);
                    assert(files_from(None, cs, i) =~= seq![n] + tail_n);
                    assert((seq![n] + tail_n).map_values(g) =~= seq![g(n)] + tail_n.map_values(g));
                }
            },
            RemoteTree::Dir(n, sub) => {
                lemma_files_relative(f + sep() + n, sub, 0);
                lemma_files_relative(n, sub, 0);
                let rel = files_from(None, sub, 0);
                let hs = files_from(Some(f + sep() + n), sub, 0);
                let hn = files_from(Some(n), sub, 0);
                assert(hs =~= hn.map_values(g)) by {
                    assert forall|k: int| 0 <= k < rel.len() implies #[trigger] hs[k] == hn.map_values(g)[k] by {
                        assert(f + sep() + n + sep() + rel[k] =~= f + sep() + (n + sep() + rel[k]));
                    }
                }
                assert(files_from(Some(f), cs, i) =~= hs + tail_s);
                assert(files_from(None, cs, i) =~= hn + tail_n);
                assert((hn + tail_n).map_values(g) =~= hn.map_values(g) + tail_n.map_values(g));
            },
        }
    }
}

/// Every path found under `cs[i..]` is owned by the name of one of those
/// children.
proof fn lemma_files_owned(cs: Seq<RemoteTree>, i: int)
    requires
        0 <= i,
    ensures
        forall|k: int|
            0 <= k < files_from(None, cs, i).len() ==> exists|c: int|
                i <= c < cs.len() && owned_by(#[trigger] files_from(None, cs, i)[k], node_entry(cs[c]).0),
    decreases cs.len() - i,
{
    if i < cs.len() {
        lemma_files_owned(cs, i + 1);
        let all = files_from(None, cs, i);
        let tail = files_from(None, cs, i + 1);
        let head = match cs[i] {
            RemoteTree::File(n) => if is_backup_name(n) {
                seq![]
            } else {
                seq![n]
            },
            RemoteTree::Dir(n, sub) => files_from(Some(n), sub, 0),
        };
        assert(all =~= head + tail);
        let name = node_entry(cs[i]).0;
        assert forall|k: int| 0 <= k < head.len() implies owned_by(#[trigger] head[k], name) by {
            if let RemoteTree::Dir(n, sub) = cs[i] {
                lemma_files_relative(n, sub, 0);
                let q = files_from(None, sub, 0)[k];
                assert(head[k] == n + sep() + q);
                assert((n + sep()).is_prefix_of(head[k])) by {
                    assert(head[k].subrange(0, (n + sep()).len() as int) =~= n + sep());
                }
            }
        }
        assert forall|k: int| 0 <= k < all.len() implies exists|c: int|
            i <= c < cs.len() && owned_by(#[trigger] all[k], node_entry(cs[c]).0) by {
            if k < head.len() {
                assert(all[k] == head[k]);
                assert(owned_by(all[k], node_entry(cs[i]).0));
            } else {
                assert(all[k] == tail[k - head.len()]);
                let c = choose|c: int|
                    i + 1 <= c < cs.len() && owned_by(tail[k - head.len()], node_entry(cs[c]).0);
                assert(owned_by(all[k], node_entry(cs[c]).0));
            }
        }
    }
}

/// Two names without separators that own one path are the same name.
proof fn lemma_owner_unique(p: Seq<char>, n: Seq<char>, m: Seq<char>)
    requires
        has_no_sep(n),
        has_no_sep(m),
        owned_by(p, n),
        owned_by(p, m),
    ensures
        n == m,
{
    if p == n && p != m {
        assert(p[m.len() as int] == (m + sep())[m.len() as int]);
    } else if p == m && p != n {
        assert(p[n.len() as int] == (n + sep())[n.len() as int]);
    } else if p != n && p != m {
        if n.len() < m.len() {
            assert(p[n.len() as int] == (n + sep())[n.len() as int]);
            assert(p[n.len() as int] == (m + sep())[n.len() as int]);
        } else if m.len() < n.len() {
            assert(p[m.len() as int] == (m + sep())[m.len() as int]);
            assert(p[m.len() as int] == (n + sep())[m.len() as int]);
        } else {
            assert(n =~= m) by {
                assert forall|k: int| 0 <= k < n.len() implies n[k] == m[k] by {
                    assert(p[k] == (n + sep())[k]);
                    assert(p[k] == (m + sep())[k]);
                }
            }
        }
    }
}

proof fn lemma_prefixed_injective(f: Seq<char>)
    ensures
        injective(prefixed(f)),
{
    assert forall|a: Seq<char>, b: Seq<char>| #[trigger] prefixed(f)(a) == #[trigger] prefixed(f)(
        b,
    ) implies a == b by {
        let l = (f + sep()).len() as int;
        assert(a =~= prefixed(f)(a).subrange(l, prefixed(f)(a).len() as int));
        assert(b =~= prefixed(f)(b).subrange(l, prefixed(f)(b).len() as int));
    }
}

/// No path twice: where every directory lists distinct names, none holding a
/// `/`, the files found under `cs[i..]` are all distinct paths. With
/// `lemma_mapping_lists_tree_files`, a complete mapping of such a tree lists
/// each of its files exactly once.
pub proof fn lemma_manifest_has_no_repeats(cs: Seq<RemoteTree>, i: int)
    requires
        well_named(cs),
        0 <= i,
    ensures
        files_from(None, cs, i).no_duplicates(),
    decreases cs, cs.len() - i,
{
    if i < cs.len() {
        lemma_manifest_has_no_repeats(cs, i + 1);
        lemma_files_owned(cs, i + 1);
        let all = files_from(None, cs, i);
        let tail = files_from(None, cs, i + 1);
        let name = node_entry(cs[i]).0;
        let head = match cs[i] {
            RemoteTree::File(n) => if is_backup_name(n) {
                seq![]
            } else {
                seq![n]
            },
            RemoteTree::Dir(n, sub) => files_from(Some(n), sub, 0),
        };
        assert(all =~= head + tail);
        assert(has_no_sep(name));
        if let RemoteTree::Dir(n, sub) = cs[i] {
            assert(well_named(sub));
            lemma_manifest_has_no_repeats(sub, 0);
            lemma_files_relative(n, sub, 0);
            lemma_prefixed_injective(n);
            files_from(None, sub, 0).lemma_no_duplicates_injective(prefixed(n));
        }
        assert forall|a: int, b: int| 0 <= a < head.len() && 0 <= b < tail.len() implies head[a]
            != tail[b] by {
            assert(owned_by(head[a], name)) by {
                if let RemoteTree::Dir(n, sub) = cs[i] {
                    lemma_files_relative(n, sub, 0);
                    assert(head[a] == n + sep() + files_from(None, sub, 0)[a]);
                    assert(head[a].subrange(0, (n + sep()).len() as int) =~= n + sep());
                }
            }
            let c = choose|c: int| i + 1 <= c < cs.len() && owned_by(tail[b], node_entry(cs[c]).0);
            assert(has_no_sep(node_entry(cs[c]).0));
            assert(node_entry(cs[i]).0 != node_entry(cs[c]).0);
            if head[a] == tail[b] {
                lemma_owner_unique(head[a], name, node_entry(cs[c]).0);
            }
        }
        lemma_no_dup_in_concat(head, tail);
    }
}

} // verus!
