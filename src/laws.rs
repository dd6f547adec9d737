//! Laws of the engine, stated over the models that the operations' contracts
//! use, and proved.
use crate::head::{fork_spec, HeadModel};
use crate::merge::{merge_entries, merge_node};
use crate::objects::{tree_hash, BlobModel, TreeModel, blob_hash};
use crate::paths::{lemma_parent_rank, parent_path, path_rank};
use crate::repo::{
    add_spec, apply_chain, base_or_empty, chain, commit_spec, lemma_apply_chain_keeps,
    lemma_chain_stage_some, lemma_chain_step, level_tree, with_index,
};
use crate::store::StoreModel;
use crate::strmap::{
    canonical, has_key, is_entry_map, key_pos, lemma_map_at, lemma_sorted_unique, seq_to_map,
    sorted_keys,
};
use vstd::prelude::*;

verus! {

/// Staging the same content at the same path twice stores one blob: the first
/// staging adds exactly that blob to the store's blobs, and the second adds
/// none.
pub proof fn law_add_idempotent(
    s: StoreModel,
    idx: Map<Seq<char>, Seq<char>>,
    path: Seq<char>,
    contents: Seq<u8>,
)
    ensures
        ({
            let b = BlobModel { name: path, contents };
            let (s2, i2) = add_spec(s, idx, path, contents);
            let (s3, i3) = add_spec(s2, i2, path, contents);
            &&& s2.blobs == s.blobs.insert(blob_hash(b), b)
            &&& s2.blobs.contains_key(blob_hash(b))
            &&& s3.blobs == s2.blobs
        }),
{
    let b = BlobModel { name: path, contents };
    let h = blob_hash(b);
    lemma_chain_stage_some(s, idx, path, parent_path(path), true, h, Seq::empty());
    let plan = chain(s, idx, path, parent_path(path), true, Some(h), Seq::empty()).unwrap();
    lemma_apply_chain_keeps(StoreModel { blobs: s.blobs.insert(h, b), ..s }, idx.insert(path, h), plan);
    let (s2, i2) = add_spec(s, idx, path, contents);
    lemma_chain_stage_some(s2, i2, path, parent_path(path), true, h, Seq::empty());
    let plan2 = chain(s2, i2, path, parent_path(path), true, Some(h), Seq::empty()).unwrap();
    lemma_apply_chain_keeps(StoreModel { blobs: s2.blobs.insert(h, b), ..s2 }, i2.insert(path, h), plan2);
    assert(s2.blobs.insert(h, b) =~= s2.blobs);
}

/// A tree's hash is a function of its name and its two mappings: the same
/// content gives the same hash, whatever order its entries were added in.
pub proof fn law_tree_hash_deterministic(t1: TreeModel, t2: TreeModel)
    requires
        t1.name == t2.name,
        t1.trees == t2.trees,
        t1.blobs == t2.blobs,
    ensures
        tree_hash(t1) == tree_hash(t2),
{
    assert(t1 == t2);
}

/// The keys that a change below `p` rebuilds: `p` and each of its ancestors.
pub open spec fn chain_names(p: Seq<char>) -> Seq<Seq<char>>
    decreases path_rank(p),
{
    if p.len() == 0 {
        Seq::empty()
    } else {
        proof {
            lemma_parent_rank(p);
        }
        seq![p] + chain_names(parent_path(p))
    }
}

/// Each tree of `ts` after the first holds, under the name of the tree before
/// it, that tree's hash.
pub open spec fn linked(ts: Seq<TreeModel>) -> bool {
    forall|j: int|
        0 < j < ts.len() ==> #[trigger] ts[j].trees.contains_key(ts[j - 1].name) && ts[j].trees[ts[j
            - 1].name] == tree_hash(ts[j - 1])
}

pub open spec fn names_of(ts: Seq<TreeModel>) -> Seq<Seq<char>> {
    ts.map_values(|t: TreeModel| t.name)
}

/// The rebuilt trees are the ancestors, nearest first; right above the leaf the
/// staged blob's hash is entered, and each higher ancestor holds the new hash
/// of the rebuilt tree below it.
pub proof fn lemma_chain_shape(
    s: StoreModel,
    idx: Map<Seq<char>, Seq<char>>,
    child: Seq<char>,
    parent: Seq<char>,
    first: bool,
    leaf: Option<Seq<char>>,
    child_hash: Seq<char>,
)
    requires
        chain(s, idx, child, parent, first, leaf, child_hash) is Some,
    ensures
        ({
            let ts = chain(s, idx, child, parent, first, leaf, child_hash).unwrap();
            &&& names_of(ts) == chain_names(parent)
            &&& ts.len() > 0 && first && leaf is Some ==> ts[0].blobs.contains_key(child)
                && ts[0].blobs[child] == leaf.unwrap()
            &&& ts.len() > 0 && !first ==> ts[0].trees.contains_key(child) && ts[0].trees[child]
                == child_hash
            &&& linked(ts)
        }),
    decreases path_rank(parent),
{
    let ts = chain(s, idx, child, parent, first, leaf, child_hash).unwrap();
    if parent.len() == 0 {
        assert(ts.len() == 0);
        assert(names_of(ts) =~= chain_names(parent));
        assert(linked(ts));
    } else {
        lemma_parent_rank(parent);
        lemma_chain_step(s, idx, child, parent, first, leaf, child_hash);
        let t = level_tree(base_or_empty(s, idx, parent), parent, child, first, leaf, child_hash);
        let rest_o = chain(s, idx, parent, parent_path(parent), false, leaf, tree_hash(t));
        let rest = rest_o.unwrap();
        lemma_chain_shape(s, idx, parent, parent_path(parent), false, leaf, tree_hash(t));
        assert(ts == seq![t] + rest);
        assert(names_of(ts) =~= seq![parent] + names_of(rest));
        assert(chain_names(parent) == seq![parent] + chain_names(parent_path(parent)));
        assert(linked(rest));
        assert forall|j: int| 0 < j < ts.len() implies #[trigger] ts[j].trees.contains_key(
            ts[j - 1].name,
        ) && ts[j].trees[ts[j - 1].name] == tree_hash(ts[j - 1]) by {
            assert(ts[j] == rest[j - 1]);
            if j == 1 {
                assert(ts[0] == t);
            } else {
                assert(ts[j - 1] == rest[j - 2]);
            }
        }
        assert(ts[0] == t);
        assert(names_of(ts) == chain_names(parent));
        assert(ts.len() > 0 && first && leaf is Some ==> ts[0].blobs.contains_key(child)
                && ts[0].blobs[child] == leaf.unwrap());
        assert(ts.len() > 0 && !first ==> ts[0].trees.contains_key(child) && ts[0].trees[child]
                == child_hash);
        assert(linked(ts));
    }
}

proof fn lemma_apply_chain_other_keys(
    s: StoreModel,
    idx: Map<Seq<char>, Seq<char>>,
    ts: Seq<TreeModel>,
    k: Seq<char>,
)
    requires
        !names_of(ts).contains(k),
    ensures
        apply_chain(s, idx, ts).1.contains_key(k) == idx.contains_key(k),
        idx.contains_key(k) ==> apply_chain(s, idx, ts).1[k] == idx[k],
        forall|h: Seq<char>| s.trees.contains_key(h) ==> #[trigger] apply_chain(
            s,
            idx,
            ts,
        ).0.trees.contains_key(h),
    decreases ts.len(),
{
    if ts.len() > 0 {
        let p = ts.drop_last();
        assert(names_of(p) =~= names_of(ts).drop_last());
        if names_of(p).contains(k) {
            let i = choose|i: int| 0 <= i < names_of(p).len() && names_of(p)[i] == k;
            assert(names_of(ts)[i] == k);
        }
        assert(names_of(ts)[ts.len() - 1] == ts.last().name);
        lemma_apply_chain_other_keys(s, idx, p, k);
    }
}

/// Staging at `path` changes the index only at `path` and at its ancestors;
/// each ancestor is rebuilt so that it holds the new hash of the entry below
/// it, and no stored tree is lost.
pub proof fn law_add_rebuilds_ancestors_only(
    s: StoreModel,
    idx: Map<Seq<char>, Seq<char>>,
    path: Seq<char>,
    contents: Seq<u8>,
    k: Seq<char>,
)
    requires
        k != path,
        !chain_names(parent_path(path)).contains(k),
    ensures
        ({
            let (s2, i2) = add_spec(s, idx, path, contents);
            let h = blob_hash(BlobModel { name: path, contents });
            let ts = chain(s, idx, path, parent_path(path), true, Some(h), Seq::empty()).unwrap();
            &&& i2.contains_key(k) == idx.contains_key(k)
            &&& idx.contains_key(k) ==> i2[k] == idx[k]
            &&& forall|x: Seq<char>| s.trees.contains_key(x) ==> #[trigger] s2.trees.contains_key(x)
            &&& names_of(ts) == chain_names(parent_path(path))
            &&& ts.len() > 0 ==> ts[0].blobs.contains_key(path) && ts[0].blobs[path] == h
            &&& linked(ts)
        }),
{
    let b = BlobModel { name: path, contents };
    let h = blob_hash(b);
    lemma_chain_stage_some(s, idx, path, parent_path(path), true, h, Seq::empty());
    let ts = chain(s, idx, path, parent_path(path), true, Some(h), Seq::empty()).unwrap();
    lemma_chain_shape(s, idx, path, parent_path(path), true, Some(h), Seq::empty());
    let s1 = StoreModel { blobs: s.blobs.insert(h, b), ..s };
    lemma_apply_chain_other_keys(s1, idx.insert(path, h), ts, k);
}

/// A commit's lineage ends with the branch's previous tip; the first commit on
/// a branch at the empty initial commit has no parents.
pub proof fn law_commit_lineage(s: StoreModel, h: HeadModel, message: Seq<char>, author: Seq<char>)
    ensures
        match commit_spec(s, h, message, author) {
            Ok((s2, h2)) => {
                let tip = h.branches[h.current].commitpointer;
                let new_tip = h2.branches[h2.current].commitpointer;
                &&& new_tip is Some
                &&& s2.commits.contains_key(new_tip.unwrap())
                &&& tip is None ==> s2.commits[new_tip.unwrap()].parents.len() == 0
                &&& tip is Some ==> s2.commits[new_tip.unwrap()].parents == s.commits[tip.unwrap()].parents.push(
                    tip.unwrap(),
                ) && s2.commits[new_tip.unwrap()].parents.last() == tip.unwrap()
            },
            Err(_) => true,
        },
{
}

/// Right after a fork, both branches have the same commit pointer and equal
/// indexes; changing the index of the new branch leaves the old one as it was.
pub proof fn law_fork_equal(h: HeadModel, name: Seq<char>, idx: Map<Seq<char>, Seq<char>>)
    ensures
        match fork_spec(h, name) {
            Ok(h2) => {
                &&& h2.branches[name].commitpointer == h2.branches[h.current].commitpointer
                &&& h2.branches[name].references == h2.branches[h.current].references
                &&& h2.branches[h.current] == h.branches[h.current]
                &&& with_index(HeadModel { current: name, ..h2 }, idx).branches[h.current]
                    == h2.branches[h.current]
            },
            Err(_) => true,
        },
{
}

/// At the top level of a merge every blob name and every subtree name of either
/// root is an entry of the merged root, and only those are.
pub proof fn law_merge_root_union(
    s: StoreModel,
    m: TreeModel,
    o: TreeModel,
    name: Seq<char>,
    fuel: nat,
)
    requires
        fuel > 0,
        is_entry_map(o.trees),
    ensures
        ({
            let r = merge_node(s, m, o, name, fuel).1;
            &&& r.blobs.dom() == m.blobs.dom().union(o.blobs.dom())
            &&& r.trees.dom() == m.trees.dom().union(o.trees.dom())
        }),
{
    let r = merge_node(s, m, o, name, fuel).1;
    assert(r.blobs.dom() =~= m.blobs.dom().union(o.blobs.dom()));
    let es = canonical(o.trees);
    assert(sorted_keys(es) && seq_to_map(es) == o.trees);
    lemma_merge_entries_keys(s, m.trees, es, (fuel - 1) as nat);
    assert forall|k: Seq<char>| o.trees.contains_key(k) <==> exists|i: int|
        0 <= i < es.len() && es[i].0 == k by {
        if o.trees.contains_key(k) {
            assert(has_key(es, k));
        }
        if exists|i: int| 0 <= i < es.len() && es[i].0 == k {
            assert(has_key(es, k));
        }
    }
    assert forall|k: Seq<char>| #[trigger] r.trees.contains_key(k) <==> (m.trees.contains_key(k)
        || o.trees.contains_key(k)) by {
        assert(crate::merge::merge_entries(s, m.trees, es, (fuel - 1) as nat).1.contains_key(k) <==> (
        m.trees.contains_key(k) || exists|i: int| 0 <= i < es.len() && es[i].0 == k));
    }
    assert(r.trees.dom() =~= m.trees.dom().union(o.trees.dom()));
}

proof fn lemma_merge_entries_keys(
    s: StoreModel,
    mtrees: Map<Seq<char>, Seq<char>>,
    es: Seq<(Seq<char>, Seq<char>)>,
    fuel: nat,
)
    ensures
        merge_entries_keys(s, mtrees, es, fuel),
    decreases es.len(),
{
    if es.len() > 0 {
        let p = es.drop_last();
        lemma_merge_entries_keys(s, mtrees, p, fuel);
        let r = crate::merge::merge_entries(s, mtrees, es, fuel).1;
        let acc = crate::merge::merge_entries(s, mtrees, p, fuel).1;
        let last = es.last().0;
        if mtrees.contains_key(last) {
            assert(acc.contains_key(last));
        }
        assert(forall|k: Seq<char>| #[trigger] r.contains_key(k) <==> (acc.contains_key(k) || k == last));
        assert forall|k: Seq<char>| #[trigger]
            crate::merge::merge_entries(s, mtrees, es, fuel).1.contains_key(k) <==> (
            mtrees.contains_key(k) || exists|i: int| 0 <= i < es.len() && es[i].0 == k) by {
            let p = es.drop_last();
            if exists|i: int| 0 <= i < p.len() && p[i].0 == k {
                let i = choose|i: int| 0 <= i < p.len() && p[i].0 == k;
                assert(es[i] == p[i]);
            }
            if exists|i: int| 0 <= i < es.len() && es[i].0 == k {
                let i = choose|i: int| 0 <= i < es.len() && es[i].0 == k;
                if i < p.len() {
                    assert(es[i] == p[i]);
                }
            }
        }
    }
}

pub open spec fn merge_entries_keys(
    s: StoreModel,
    mtrees: Map<Seq<char>, Seq<char>>,
    es: Seq<(Seq<char>, Seq<char>)>,
    fuel: nat,
) -> bool {
    forall|k: Seq<char>| #[trigger]
        crate::merge::merge_entries(s, mtrees, es, fuel).1.contains_key(k) <==> (
        mtrees.contains_key(k) || exists|i: int| 0 <= i < es.len() && es[i].0 == k)
}

/// Where both roots hold a blob of the same name, the merged root holds main's,
/// whatever the other branch's content.
pub proof fn law_merge_prefers_main(
    s: StoreModel,
    m: TreeModel,
    o: TreeModel,
    name: Seq<char>,
    fuel: nat,
    k: Seq<char>,
)
    requires
        fuel > 0,
        m.blobs.contains_key(k),
    ensures
        merge_node(s, m, o, name, fuel).1.blobs[k] == m.blobs[k],
{
}

proof fn lemma_merge_entries_child(
    s: StoreModel,
    mtrees: Map<Seq<char>, Seq<char>>,
    es: Seq<(Seq<char>, Seq<char>)>,
    fuel: nat,
    i: int,
)
    requires
        sorted_keys(es),
        0 <= i < es.len(),
        mtrees.contains_key(es[i].0),
        s.trees.contains_key(mtrees[es[i].0]),
        s.trees.contains_key(es[i].1),
    ensures
        ({
            let mt = s.trees[mtrees[es[i].0]];
            let c = merge_node(s, mt, s.trees[es[i].1], mt.name, fuel).1;
            let r = merge_entries(s, mtrees, es, fuel);
            &&& r.1.contains_key(es[i].0)
            &&& r.1[es[i].0] == tree_hash(c)
            &&& r.0.contains(c)
            &&& forall|x: TreeModel| #[trigger]
                merge_node(s, mt, s.trees[es[i].1], mt.name, fuel).0.contains(x) ==> r.0.contains(x)
        }),
    decreases es.len(),
{
    let k = es[i].0;
    let mt = s.trees[mtrees[k]];
    let c = merge_node(s, mt, s.trees[es[i].1], mt.name, fuel).1;
    let p = es.drop_last();
    let prev = merge_entries(s, mtrees, p, fuel);
    let r = merge_entries(s, mtrees, es, fuel);
    if i == es.len() - 1 {
        let sub_ts = merge_node(s, mt, s.trees[es[i].1], mt.name, fuel).0;
        assert(r.0 == prev.0 + sub_ts + seq![c]);
        assert(r.0[r.0.len() - 1] == c);
        assert forall|x: TreeModel| #[trigger] sub_ts.contains(x) implies r.0.contains(x) by {
            let q = choose|q: int| 0 <= q < sub_ts.len() && sub_ts[q] == x;
            assert(r.0[prev.0.len() + q] == x);
        }
    } else {
        assert(sorted_keys(p)) by {
            assert forall|a: int, b: int| 0 <= a < b < p.len() implies crate::strmap::key_lt(
                #[trigger] p[a].0,
                #[trigger] p[b].0,
            ) by {
                assert(p[a] == es[a] && p[b] == es[b]);
            }
        }
        assert(p[i] == es[i]);
        lemma_merge_entries_child(s, mtrees, p, fuel, i);
        lemma_sorted_unique(es, i, es.len() - 1);
        let j = choose|j: int| 0 <= j < prev.0.len() && prev.0[j] == c;
        let last = es.last();
        if mtrees.contains_key(last.0) && s.trees.contains_key(mtrees[last.0]) && s.trees.contains_key(
            last.1,
        ) {
            let lt = s.trees[mtrees[last.0]];
            let sub = merge_node(s, lt, s.trees[last.1], lt.name, fuel);
            assert(r.0 == prev.0 + sub.0 + seq![sub.1]);
            assert(r.0[j] == c);
            assert forall|x: TreeModel| #[trigger]
                merge_node(s, mt, s.trees[es[i].1], mt.name, fuel).0.contains(x) implies r.0.contains(
                x,
            ) by {
                let q = choose|q: int| 0 <= q < prev.0.len() && prev.0[q] == x;
                assert(r.0[q] == x);
            }
        } else {
            assert(r.0 == prev.0);
        }
    }
}

/// Where both roots hold a subtree of the same name (both stored), the merged
/// root's entry for it is the hash of the merge of the two subtrees, and that
/// merged subtree is among the new trees the merge stores. With
/// `law_merge_root_union` this carries the union down each shared directory.
pub proof fn law_merge_descends(
    s: StoreModel,
    m: TreeModel,
    o: TreeModel,
    name: Seq<char>,
    fuel: nat,
    k: Seq<char>,
)
    requires
        fuel > 0,
        is_entry_map(o.trees),
        m.trees.contains_key(k),
        o.trees.contains_key(k),
        s.trees.contains_key(m.trees[k]),
        s.trees.contains_key(o.trees[k]),
    ensures
        ({
            let (ts, r) = merge_node(s, m, o, name, fuel);
            let mt = s.trees[m.trees[k]];
            let c = merge_node(s, mt, s.trees[o.trees[k]], mt.name, (fuel - 1) as nat).1;
            &&& r.trees.contains_key(k)
            &&& r.trees[k] == tree_hash(c)
            &&& ts.contains(c)
            &&& forall|x: TreeModel| #[trigger]
                merge_node(s, mt, s.trees[o.trees[k]], mt.name, (fuel - 1) as nat).0.contains(x)
                    ==> ts.contains(x)
        }),
{
    let es = canonical(o.trees);
    assert(sorted_keys(es) && seq_to_map(es) == o.trees);
    assert(has_key(es, k));
    let i = key_pos(es, k);
    lemma_map_at(es, i);
    lemma_merge_entries_child(s, m.trees, es, (fuel - 1) as nat, i);
}

/// The tree `t` holds, within `g` levels of subtrees resolved in `s`, a blob
/// entry `p` with hash `h`.
pub open spec fn has_entry(s: StoreModel, t: TreeModel, p: Seq<char>, h: Seq<char>, g: nat) -> bool
    decreases g,
{
    (t.blobs.contains_key(p) && t.blobs[p] == h) || (g > 0 && exists|k: Seq<char>|
        #[trigger] t.trees.contains_key(k) && s.trees.contains_key(t.trees[k]) && has_entry(
            s,
            s.trees[t.trees[k]],
            p,
            h,
            (g - 1) as nat,
        ))
}

/// Every subtree entry of `t` names a stored tree, and its subtree entries
/// form a mapping of a `StrMap`.
pub open spec fn tree_valid(s: StoreModel, t: TreeModel) -> bool {
    &&& is_entry_map(t.trees)
    &&& forall|k: Seq<char>| #[trigger] t.trees.contains_key(k) ==> s.trees.contains_key(t.trees[k])
}

/// The store's Merkle integrity: each stored tree is valid in it.
pub open spec fn store_valid(s: StoreModel) -> bool {
    forall|h: Seq<char>| #[trigger] s.trees.contains_key(h) ==> tree_valid(s, s.trees[h])
}

/// `s2` keeps every tree of `s` under its key.
pub open spec fn keeps_trees(s: StoreModel, s2: StoreModel) -> bool {
    forall|h: Seq<char>| #[trigger] s.trees.contains_key(h) ==> s2.trees.contains_key(h)
        && s2.trees[h] == s.trees[h]
}

/// No tree of `l` shares its hash with a different tree, stored or in `l`.
pub open spec fn distinct_hashes(s: StoreModel, l: Seq<TreeModel>) -> bool {
    &&& forall|i: int|
        0 <= i < l.len() && #[trigger] s.trees.contains_key(tree_hash(l[i])) ==> s.trees[tree_hash(
            l[i],
        )] == l[i]
    &&& forall|i: int, j: int|
        0 <= i < l.len() && 0 <= j < l.len() && #[trigger] tree_hash(l[i]) == #[trigger] tree_hash(
            l[j],
        ) ==> l[i] == l[j]
}

proof fn lemma_store_trees_lookup(s: StoreModel, l: Seq<TreeModel>)
    requires
        distinct_hashes(s, l),
    ensures
        keeps_trees(s, crate::merge::store_trees(s, l)),
        forall|i: int|
            0 <= i < l.len() ==> crate::merge::store_trees(s, l).trees.contains_key(
                #[trigger] tree_hash(l[i]),
            ) && crate::merge::store_trees(s, l).trees[tree_hash(l[i])] == l[i],
    decreases l.len(),
{
    if l.len() > 0 {
        let p = l.drop_last();
        assert(distinct_hashes(s, p)) by {
            assert forall|i: int, j: int|
                0 <= i < p.len() && 0 <= j < p.len() && #[trigger] tree_hash(p[i])
                    == #[trigger] tree_hash(p[j]) implies p[i] == p[j] by {
                assert(p[i] == l[i] && p[j] == l[j]);
            }
            assert forall|i: int|
                0 <= i < p.len() && #[trigger] s.trees.contains_key(
                    tree_hash(p[i]),
                ) implies s.trees[tree_hash(p[i])] == p[i] by {
                assert(p[i] == l[i]);
            }
        }
        lemma_store_trees_lookup(s, p);
        let last = l.last();
        assert(last == l[l.len() - 1]);
        assert forall|i: int| 0 <= i < l.len() implies crate::merge::store_trees(
            s,
            l,
        ).trees.contains_key(#[trigger] tree_hash(l[i])) && crate::merge::store_trees(s, l).trees[
            tree_hash(l[i])] == l[i] by {
            if i < l.len() - 1 {
                assert(p[i] == l[i]);
                if tree_hash(l[i]) == tree_hash(last) {
                    assert(l[i] == l[l.len() - 1]);
                }
            }
        }
    }
}

proof fn lemma_has_entry_kept(s: StoreModel, s2: StoreModel, t: TreeModel, p: Seq<char>, h: Seq<char>, g: nat)
    requires
        keeps_trees(s, s2),
        has_entry(s, t, p, h, g),
    ensures
        has_entry(s2, t, p, h, g),
    decreases g,
{
    if !(t.blobs.contains_key(p) && t.blobs[p] == h) {
        let k = choose|k: Seq<char>|
            #[trigger] t.trees.contains_key(k) && s.trees.contains_key(t.trees[k]) && has_entry(
                s,
                s.trees[t.trees[k]],
                p,
                h,
                (g - 1) as nat,
            );
        lemma_has_entry_kept(s, s2, s.trees[t.trees[k]], p, h, (g - 1) as nat);
        assert(t.trees.contains_key(k) && s2.trees.contains_key(t.trees[k]));
    }
}

/// Keys of `es` that main lacks keep the other tree's entry; keys that `es`
/// lacks keep main's.
proof fn lemma_merge_entries_unshared(
    s: StoreModel,
    mtrees: Map<Seq<char>, Seq<char>>,
    es: Seq<(Seq<char>, Seq<char>)>,
    fuel: nat,
    k: Seq<char>,
)
    requires
        sorted_keys(es),
    ensures
        mtrees.contains_key(k) && !has_key(es, k) ==> merge_entries(s, mtrees, es, fuel).1.contains_key(k)
            && merge_entries(s, mtrees, es, fuel).1[k] == mtrees[k],
        !mtrees.contains_key(k) && has_key(es, k) ==> merge_entries(s, mtrees, es, fuel).1.contains_key(k)
            && merge_entries(s, mtrees, es, fuel).1[k] == seq_to_map(es)[k],
    decreases es.len(),
{
    if es.len() > 0 {
        let p = es.drop_last();
        assert(sorted_keys(p)) by {
            assert forall|a: int, b: int| 0 <= a < b < p.len() implies crate::strmap::key_lt(
                #[trigger] p[a].0,
                #[trigger] p[b].0,
            ) by {
                assert(p[a] == es[a] && p[b] == es[b]);
            }
        }
        lemma_merge_entries_unshared(s, mtrees, p, fuel, k);
        let last = es.last();
        assert(last == es[es.len() - 1]);
        if has_key(p, k) {
            let i = key_pos(p, k);
            assert(es[i] == p[i]);
        }
        if has_key(es, k) && !has_key(p, k) {
            let i = key_pos(es, k);
            if i < es.len() - 1 {
                assert(p[i] == es[i]);
            }
        }
        if !mtrees.contains_key(k) && has_key(es, k) {
            let i = key_pos(es, k);
            lemma_map_at(es, i);
            if has_key(p, k) {
                let j = key_pos(p, k);
                assert(p[j] == es[j]);
                lemma_map_at(p, j);
                lemma_map_at(es, j);
                if last.0 == k {
                    lemma_sorted_unique(es, j, es.len() - 1);
                }
            } else {
                assert(i == es.len() - 1) by {
                    if i < es.len() - 1 {
                        assert(p[i] == es[i]);
                    }
                }
            }
        }
        if mtrees.contains_key(k) && !has_key(es, k) {
            assert(last.0 != k);
            assert(!has_key(p, k)) by {
                if has_key(p, k) {
                    let j = key_pos(p, k);
                    assert(es[j] == p[j]);
                }
            }
        }
    }
}

proof fn lemma_merge_keeps_entries(
    s: StoreModel,
    s2: StoreModel,
    m: TreeModel,
    o: TreeModel,
    name: Seq<char>,
    fuel: nat,
    g: nat,
    p: Seq<char>,
    h: Seq<char>,
)
    requires
        store_valid(s),
        tree_valid(s, m),
        tree_valid(s, o),
        fuel >= g + 1,
        keeps_trees(s, s2),
        forall|x: TreeModel| #[trigger]
            merge_node(s, m, o, name, fuel).0.contains(x) ==> s2.trees.contains_key(tree_hash(x))
                && s2.trees[tree_hash(x)] == x,
    ensures
        has_entry(s, m, p, h, g) ==> has_entry(s2, merge_node(s, m, o, name, fuel).1, p, h, g),
        has_entry(s, o, p, h, g) ==> exists|h2: Seq<char>|
            has_entry(s2, merge_node(s, m, o, name, fuel).1, p, h2, g),
    decreases g,
{
    let (ts, r) = merge_node(s, m, o, name, fuel);
    let f = (fuel - 1) as nat;
    let es = canonical(o.trees);
    assert(sorted_keys(es) && seq_to_map(es) == o.trees);
    assert(r.blobs == o.blobs.union_prefer_right(m.blobs));
    assert(r.trees == merge_entries(s, m.trees, es, f).1);
    if has_entry(s, m, p, h, g) {
        if !(m.blobs.contains_key(p) && m.blobs[p] == h) {
            let k = choose|k: Seq<char>|
                #[trigger] m.trees.contains_key(k) && s.trees.contains_key(m.trees[k]) && has_entry(
                    s,
                    s.trees[m.trees[k]],
                    p,
                    h,
                    (g - 1) as nat,
                );
            let mc = s.trees[m.trees[k]];
            if o.trees.contains_key(k) {
                let oc = s.trees[o.trees[k]];
                law_merge_descends(s, m, o, name, fuel, k);
                let c = merge_node(s, mc, oc, mc.name, f).1;
                lemma_merge_keeps_entries(s, s2, mc, oc, mc.name, f, (g - 1) as nat, p, h);
                assert(r.trees.contains_key(k) && s2.trees.contains_key(r.trees[k]) && s2.trees[r.trees[k]] == c);
            } else {
                assert(!has_key(es, k));
                lemma_merge_entries_unshared(s, m.trees, es, f, k);
                lemma_has_entry_kept(s, s2, mc, p, h, (g - 1) as nat);
                assert(r.trees.contains_key(k) && s2.trees.contains_key(r.trees[k]));
            }
        }
    }
    if has_entry(s, o, p, h, g) {
        if o.blobs.contains_key(p) && o.blobs[p] == h {
            assert(has_entry(s2, r, p, r.blobs[p], g));
        } else {
            let k = choose|k: Seq<char>|
                #[trigger] o.trees.contains_key(k) && s.trees.contains_key(o.trees[k]) && has_entry(
                    s,
                    s.trees[o.trees[k]],
                    p,
                    h,
                    (g - 1) as nat,
                );
            let oc = s.trees[o.trees[k]];
            if m.trees.contains_key(k) {
                let mc = s.trees[m.trees[k]];
                law_merge_descends(s, m, o, name, fuel, k);
                let c = merge_node(s, mc, oc, mc.name, f).1;
                lemma_merge_keeps_entries(s, s2, mc, oc, mc.name, f, (g - 1) as nat, p, h);
                let g1 = (g - 1) as nat;
                let h2 = choose|h2: Seq<char>| #[trigger] has_entry(s2, c, p, h2, g1);
                assert(r.trees.contains_key(k) && s2.trees.contains_key(r.trees[k]) && s2.trees[r.trees[k]] == c);
                assert(has_entry(s2, r, p, h2, g));
            } else {
                assert(has_key(es, k));
                lemma_merge_entries_unshared(s, m.trees, es, f, k);
                lemma_has_entry_kept(s, s2, oc, p, h, (g - 1) as nat);
                assert(r.trees.contains_key(k) && s2.trees.contains_key(r.trees[k]));
                assert(has_entry(s2, r, p, h, g));
            }
        }
    }
}

/// A merge loses no file of either side, at any depth within `g` levels: each
/// blob entry of main's root tree is an entry of the merged tree with the same
/// hash (main's version wins a conflict), and each path of the other root is
/// present in the merged tree, all resolved in the store after the merge. This
/// holds where no new tree's hash equals that of a different tree, which SHA-1
/// makes all but certain and no proof can show.
pub proof fn law_merge_keeps_every_path(
    s: StoreModel,
    m: TreeModel,
    o: TreeModel,
    fuel: nat,
    g: nat,
    p: Seq<char>,
    h: Seq<char>,
)
    requires
        store_valid(s),
        tree_valid(s, m),
        tree_valid(s, o),
        fuel >= g + 1,
        distinct_hashes(
            s,
            merge_node(s, m, o, seq!['.'], fuel).0.push(merge_node(s, m, o, seq!['.'], fuel).1),
        ),
    ensures
        ({
            let (ts, r) = merge_node(s, m, o, seq!['.'], fuel);
            let s2 = crate::merge::store_trees(s, ts.push(r));
            &&& has_entry(s, m, p, h, g) ==> has_entry(s2, r, p, h, g)
            &&& has_entry(s, o, p, h, g) ==> exists|h2: Seq<char>| has_entry(s2, r, p, h2, g)
        }),
{
    let (ts, r) = merge_node(s, m, o, seq!['.'], fuel);
    let l = ts.push(r);
    lemma_store_trees_lookup(s, l);
    let s2 = crate::merge::store_trees(s, l);
    assert forall|x: TreeModel| #[trigger] ts.contains(x) implies s2.trees.contains_key(tree_hash(x))
        && s2.trees[tree_hash(x)] == x by {
        let i = choose|i: int| 0 <= i < ts.len() && ts[i] == x;
        assert(l[i] == x);
    }
    lemma_merge_keeps_entries(s, s2, m, o, seq!['.'], fuel, g, p, h);
}

proof fn lemma_apply_chain_keys(s: StoreModel, idx: Map<Seq<char>, Seq<char>>, ts: Seq<TreeModel>)
    ensures
        apply_chain(s, idx, ts).1.dom() == idx.dom().union(names_of(ts).to_set()),
    decreases ts.len(),
{
    if ts.len() == 0 {
        assert(names_of(ts).to_set() =~= Set::<Seq<char>>::empty());
        assert(idx.dom().union(names_of(ts).to_set()) =~= idx.dom());
    } else {
        let p = ts.drop_last();
        lemma_apply_chain_keys(s, idx, p);
        assert(names_of(ts) =~= names_of(p).push(ts.last().name));
        assert(names_of(ts).to_set() =~= names_of(p).to_set().insert(ts.last().name)) by {
            assert forall|x: Seq<char>| names_of(ts).to_set().contains(x) <==> names_of(p).to_set().insert(
                ts.last().name,
            ).contains(x) by {
                if names_of(ts).contains(x) {
                    let i = choose|i: int| 0 <= i < names_of(ts).len() && names_of(ts)[i] == x;
                    if i < p.len() {
                        assert(names_of(p)[i] == x);
                    }
                }
                if names_of(p).contains(x) {
                    let i = choose|i: int| 0 <= i < names_of(p).len() && names_of(p)[i] == x;
                    assert(names_of(ts)[i] == x);
                }
                if x == ts.last().name {
                    assert(names_of(ts)[ts.len() - 1] == x);
                }
            }
        }
        assert(apply_chain(s, idx, ts).1.dom() =~= idx.dom().union(names_of(ts).to_set()));
    }
}

/// After staging at `path`, the index holds exactly the keys it held before,
/// `path`, and the ancestors of `path`.
pub proof fn law_add_index_keys(
    s: StoreModel,
    idx: Map<Seq<char>, Seq<char>>,
    path: Seq<char>,
    contents: Seq<u8>,
)
    ensures
        add_spec(s, idx, path, contents).1.dom() == idx.dom().insert(path).union(
            chain_names(parent_path(path)).to_set(),
        ),
{
    let b = BlobModel { name: path, contents };
    let h = blob_hash(b);
    lemma_chain_stage_some(s, idx, path, parent_path(path), true, h, Seq::empty());
    let ts = chain(s, idx, path, parent_path(path), true, Some(h), Seq::empty()).unwrap();
    lemma_chain_shape(s, idx, path, parent_path(path), true, Some(h), Seq::empty());
    lemma_apply_chain_keys(StoreModel { blobs: s.blobs.insert(h, b), ..s }, idx.insert(path, h), ts);
    assert(idx.insert(path, h).dom() =~= idx.dom().insert(path));
}

} // verus!
