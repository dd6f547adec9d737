//! The merge of another branch into the current one.
//!
//! The two root trees are united level by level. At each level the current
//! ("main") branch's blob wins where both have one of the same name, with no
//! comparison of contents; a subtree that only the other branch has is taken
//! whole; subtrees that both have are united in turn. Each united tree is
//! stored fresh, children before parents, so a tree's hash is taken only once
//! the hashes below it are final. The index of the current branch then maps
//! every object reachable from the merged root to its hash.
//!
//! Hash links are followed at most `fuel` levels deep, the number of stored
//! trees: in a store without cycles no chain of subtrees is longer.
use crate::head::{clone_opt, opt_view, BranchModel, HeadModel, HEAD};
use crate::objects::{commit_hash, strings_view, tree, tree_hash, Commit, CommitModel, TreeModel};
use crate::repo::{clone_strings, empty_tree, trees_view};
use crate::store::{GitError, Objects, StoreModel};
use crate::strmap::{canonical, lemma_canonical, lemma_prefix_push, seq_to_map, StrMap};
use vstd::prelude::*;

verus! {

/// The union of the subtree entries `mtrees` of main with the entries `es` of
/// the other tree, in order: the new trees made on the way, children first,
/// and the resulting entries.
pub open spec fn merge_entries(
    s: StoreModel,
    mtrees: Map<Seq<char>, Seq<char>>,
    es: Seq<(Seq<char>, Seq<char>)>,
    fuel: nat,
) -> (Seq<TreeModel>, Map<Seq<char>, Seq<char>>)
    decreases fuel, es.len() + 1,
{
    if es.len() == 0 {
        (Seq::empty(), mtrees)
    } else {
        let (ts, acc) = merge_entries(s, mtrees, es.drop_last(), fuel);
        let k = es.last().0;
        let oh = es.last().1;
        if mtrees.contains_key(k) {
            if s.trees.contains_key(mtrees[k]) && s.trees.contains_key(oh) {
                let mt = s.trees[mtrees[k]];
                let (sub_ts, sub) = merge_node(s, mt, s.trees[oh], mt.name, fuel);
                (ts + sub_ts + seq![sub], acc.insert(k, tree_hash(sub)))
            } else {
                (ts, acc)
            }
        } else {
            (ts, acc.insert(k, oh))
        }
    }
}

/// The union of tree `m` of main with tree `o` of the other branch, named
/// `name`: the new trees made below it, children first, and the united tree.
pub open spec fn merge_node(s: StoreModel, m: TreeModel, o: TreeModel, name: Seq<char>, fuel: nat) -> (
    Seq<TreeModel>,
    TreeModel,
)
    decreases fuel, 0nat,
{
    if fuel == 0 {
        (Seq::empty(), TreeModel { name, ..m })
    } else {
        let (ts, trees) = merge_entries(s, m.trees, canonical(o.trees), (fuel - 1) as nat);
        (ts, TreeModel { name, trees, blobs: o.blobs.union_prefer_right(m.blobs) })
    }
}

/// The index entries for the tree stored under `h` and everything below it:
/// its blob entries, then what each subtree gives, then the tree itself.
pub open spec fn reg_tree(s: StoreModel, h: Seq<char>, fuel: nat) -> Seq<(Seq<char>, Seq<char>)>
    decreases fuel, 0nat,
{
    if fuel == 0 || !s.trees.contains_key(h) {
        Seq::empty()
    } else {
        let t = s.trees[h];
        canonical(t.blobs) + reg_entries(s, canonical(t.trees), (fuel - 1) as nat) + seq![(t.name, h)]
    }
}

pub open spec fn reg_entries(s: StoreModel, es: Seq<(Seq<char>, Seq<char>)>, fuel: nat) -> Seq<
    (Seq<char>, Seq<char>),
>
    decreases fuel, es.len() + 1,
{
    if es.len() == 0 {
        Seq::empty()
    } else {
        reg_entries(s, es.drop_last(), fuel) + reg_tree(s, es.last().1, fuel)
    }
}

/// Sets each entry of `regs` in `idx`, in order.
pub open spec fn apply_regs(idx: Map<Seq<char>, Seq<char>>, regs: Seq<(Seq<char>, Seq<char>)>) -> Map<
    Seq<char>,
    Seq<char>,
>
    decreases regs.len(),
{
    if regs.len() == 0 {
        idx
    } else {
        apply_regs(idx, regs.drop_last()).insert(regs.last().0, regs.last().1)
    }
}

/// Stores each tree of `ts` under its hash, in order.
pub open spec fn store_trees(s: StoreModel, ts: Seq<TreeModel>) -> StoreModel
    decreases ts.len(),
{
    if ts.len() == 0 {
        s
    } else {
        let s1 = store_trees(s, ts.drop_last());
        StoreModel { trees: s1.trees.insert(tree_hash(ts.last()), ts.last()), ..s1 }
    }
}

/// The blob entries of `m`, and those of `o` whose names `m` lacks.
fn union_blobs(m: &StrMap<String>, o: &StrMap<String>) -> (r: StrMap<String>)
    ensures
        r@ == o@.union_prefer_right(m@),
{
    proof {
        use_type_invariant(o);
    }
    let mut acc = m.duplicate();
    let n = o.len();
    let mut i: usize = 0;
    assert(seq_to_map(o.pairs().subrange(0, 0)).union_prefer_right(m@) =~= m@);
    while i < n
        invariant
            n == o.pairs().len(),
            i <= n,
            crate::strmap::sorted_keys(o.pairs()),
            acc@ == seq_to_map(o.pairs().subrange(0, i as int)).union_prefer_right(m@),
        decreases n - i,
    {
        let k = o.key_at(i);
        proof {
            lemma_prefix_push(o.pairs(), i as int);
        }
        let ghost before = seq_to_map(o.pairs().subrange(0, i as int));
        let ghost after = seq_to_map(o.pairs().subrange(0, i + 1));
        if !m.contains_key(k) {
            acc.insert(k.clone(), o.value_at(i).clone());
            assert(acc@ =~= after.union_prefer_right(m@));
        } else {
            assert(acc@ =~= after.union_prefer_right(m@));
        }
        i = i + 1;
    }
    assert(o.pairs().subrange(0, n as int) =~= o.pairs());
    acc
}

/// Unites `m` of main with `o` of the other branch under the name `name`,
/// pushing the new trees below it onto `out`, children first.
fn merge_trees(objects: &Objects, m: &tree, o: &tree, name: String, fuel: usize, out: &mut Vec<tree>) -> (r:
    tree)
    ensures
        trees_view(final(out)@) == trees_view(old(out)@) + merge_node(
            objects@,
            m@,
            o@,
            name@,
            fuel as nat,
        ).0,
        r@ == merge_node(objects@, m@, o@, name@, fuel as nat).1,
    decreases fuel,
{
    if fuel == 0 {
        let r = m.renamed_copy(name);
        assert(trees_view(out@) =~= trees_view(out@) + Seq::<TreeModel>::empty());
        return r;
    }
    let ghost s = objects@;
    let ghost f = (fuel - 1) as nat;
    proof {
        use_type_invariant(&o.trees);
        lemma_canonical(o.trees.pairs());
    }
    let ghost es = o.trees.pairs();
    let ghost out0 = trees_view(out@);
    let mut trees = m.trees.duplicate();
    let n = o.trees.len();
    let mut i: usize = 0;
    assert(es.subrange(0, 0) =~= Seq::<(Seq<char>, Seq<char>)>::empty());
    assert(out0 + Seq::<TreeModel>::empty() =~= out0);
    while i < n
        invariant
            s == objects@,
            f == fuel - 1,
            fuel > 0,
            es == o.trees.pairs(),
            n == es.len(),
            i <= n,
            trees_view(out@) == out0 + merge_entries(s, m@.trees, es.subrange(0, i as int), f).0,
            trees@ == merge_entries(s, m@.trees, es.subrange(0, i as int), f).1,
        decreases n - i,
    {
        let k = o.trees.key_at(i);
        let oh = o.trees.value_at(i);
        let ghost pre = es.subrange(0, i as int);
        let ghost next = es.subrange(0, i + 1);
        assert(next.drop_last() =~= pre);
        assert(next.last() == (k@, oh@));
        let ghost prev_ts = merge_entries(s, m@.trees, pre, f).0;
        match m.trees.get(k) {
            Some(mh) => {
                match objects.treemap.get(mh) {
                    Some(mt) => {
                        match objects.treemap.get(oh) {
                            Some(ot) => {
                                let sub = merge_trees(objects, mt, ot, mt.name.clone(), fuel - 1, out);
                                let sh = sub.hash();
                                let ghost subv = sub@;
                                let ghost mid = trees_view(out@);
                                out.push(sub);
                                assert(trees_view(out@) =~= mid + seq![subv]);
                                trees.insert(k.clone(), sh);
                                let ghost sub_ts = merge_node(s, mt@, ot@, mt@.name, f).0;
                                assert(out0 + prev_ts + sub_ts + seq![subv] =~= out0 + (prev_ts
                                    + sub_ts + seq![subv]));
                            },
                            None => {},
                        }
                    },
                    None => {},
                }
            },
            None => {
                trees.insert(k.clone(), oh.clone());
            },
        }
        i = i + 1;
    }
    assert(es.subrange(0, n as int) =~= es);
    let blobs = union_blobs(&m.blobs, &o.blobs);
    tree { name, trees, blobs }
}

pub open spec fn pairs_view(v: Seq<(String, String)>) -> Seq<(Seq<char>, Seq<char>)> {
    v.map_values(|p: (String, String)| (p.0@, p.1@))
}

/// Appends the entries of `m`, in order.
fn push_entries(m: &StrMap<String>, out: &mut Vec<(String, String)>)
    ensures
        pairs_view(final(out)@) == pairs_view(old(out)@) + canonical(m@),
{
    proof {
        use_type_invariant(m);
        lemma_canonical(m.pairs());
    }
    let ghost out0 = pairs_view(out@);
    let n = m.len();
    let mut i: usize = 0;
    assert(out0 + m.pairs().subrange(0, 0) =~= out0);
    while i < n
        invariant
            n == m.pairs().len(),
            i <= n,
            pairs_view(out@) == out0 + m.pairs().subrange(0, i as int),
        decreases n - i,
    {
        let ghost mid = pairs_view(out@);
        out.push((m.key_at(i).clone(), m.value_at(i).clone()));
        assert(pairs_view(out@) =~= mid.push(m.pairs()[i as int]));
        assert(m.pairs().subrange(0, i + 1) =~= m.pairs().subrange(0, i as int).push(
            m.pairs()[i as int],
        ));
        i = i + 1;
    }
    assert(m.pairs().subrange(0, n as int) =~= m.pairs());
}

/// Appends the index entries for the tree stored under `h` and all below it.
fn register(objects: &Objects, h: &String, fuel: usize, out: &mut Vec<(String, String)>)
    ensures
        pairs_view(final(out)@) == pairs_view(old(out)@) + reg_tree(objects@, h@, fuel as nat),
    decreases fuel,
{
    let ghost out0 = pairs_view(out@);
    if fuel == 0 {
        assert(out0 + Seq::<(Seq<char>, Seq<char>)>::empty() =~= out0);
        return;
    }
    let t = match objects.treemap.get(h) {
        Some(t) => t,
        None => {
            assert(out0 + Seq::<(Seq<char>, Seq<char>)>::empty() =~= out0);
            return;
        },
    };
    let ghost s = objects@;
    let ghost f = (fuel - 1) as nat;
    push_entries(&t.blobs, out);
    let ghost out1 = pairs_view(out@);
    proof {
        use_type_invariant(&t.trees);
        lemma_canonical(t.trees.pairs());
    }
    let ghost es = t.trees.pairs();
    let n = t.trees.len();
    let mut i: usize = 0;
    assert(es.subrange(0, 0) =~= Seq::<(Seq<char>, Seq<char>)>::empty());
    assert(out1 + Seq::<(Seq<char>, Seq<char>)>::empty() =~= out1);
    while i < n
        invariant
            s == objects@,
            f == fuel - 1,
            fuel > 0,
            es == t.trees.pairs(),
            n == es.len(),
            i <= n,
            pairs_view(out@) == out1 + reg_entries(s, es.subrange(0, i as int), f),
        decreases n - i,
    {
        let ghost pre = es.subrange(0, i as int);
        let ghost next = es.subrange(0, i + 1);
        assert(next.drop_last() =~= pre);
        register(objects, t.trees.value_at(i), fuel - 1, out);
        assert(out1 + reg_entries(s, pre, f) + reg_tree(s, es[i as int].1, f) =~= out1 + (
        reg_entries(s, pre, f) + reg_tree(s, es[i as int].1, f)));
        i = i + 1;
    }
    assert(es.subrange(0, n as int) =~= es);
    let ghost mid = pairs_view(out@);
    out.push((t.name.clone(), h.clone()));
    assert(pairs_view(out@) =~= mid.push((t@.name, h@)));
    assert(pairs_view(out@) =~= out0 + reg_tree(s, h@, fuel as nat));
}

/// Sets each entry of `regs` in `index`, in order.
fn apply_entries(index: &mut StrMap<String>, regs: &Vec<(String, String)>)
    ensures
        final(index)@ == apply_regs(old(index)@, pairs_view(regs@)),
{
    let ghost pv = pairs_view(regs@);
    let mut i: usize = 0;
    assert(pv.subrange(0, 0) =~= Seq::<(Seq<char>, Seq<char>)>::empty());
    while i < regs.len()
        invariant
            pv == pairs_view(regs@),
            i <= regs@.len(),
            index@ == apply_regs(old(index)@, pv.subrange(0, i as int)),
        decreases regs@.len() - i,
    {
        index.insert(regs[i].0.clone(), regs[i].1.clone());
        let ghost next = pv.subrange(0, i + 1);
        assert(next.drop_last() =~= pv.subrange(0, i as int));
        i = i + 1;
    }
    assert(pv.subrange(0, regs@.len() as int) =~= pv);
}

/// Stores each tree of `ts` under its hash, in order.
fn store_all(objects: &mut Objects, ts: &Vec<tree>)
    ensures
        final(objects)@ == store_trees(old(objects)@, trees_view(ts@)),
{
    let ghost tv = trees_view(ts@);
    let mut i: usize = 0;
    assert(tv.subrange(0, 0) =~= Seq::<TreeModel>::empty());
    while i < ts.len()
        invariant
            tv == trees_view(ts@),
            i <= ts@.len(),
            objects@ == store_trees(old(objects)@, tv.subrange(0, i as int)),
        decreases ts@.len() - i,
    {
        let t = &ts[i];
        let h = t.hash();
        let copy = t.renamed_copy(t.name.clone());
        assert(copy@ == t@);
        objects.treemap.insert(h, copy);
        let ghost next = tv.subrange(0, i + 1);
        assert(next.drop_last() =~= tv.subrange(0, i as int));
        assert(objects@ =~= store_trees(old(objects)@, next));
        i = i + 1;
    }
    assert(tv.subrange(0, ts@.len() as int) =~= tv);
}

/// The lineage that a branch tip hands on to a merge commit, and the root tree
/// to merge: for a stored commit its parents followed by itself, and its
/// snapshot; for the empty initial commit (`None`) no lineage, and the empty
/// root tree `"."`. `None` when the tip or its snapshot is not stored.
pub open spec fn tip_view(s: StoreModel, tip: Option<Seq<char>>) -> Option<(Seq<Seq<char>>, TreeModel)> {
    match tip {
        None => Some((Seq::empty(), empty_tree(seq!['.']))),
        Some(t) => if s.commits.contains_key(t) && s.trees.contains_key(s.commits[t].snapshot) {
            Some((s.commits[t].parents.push(t), s.trees[s.commits[t].snapshot]))
        } else {
            None
        },
    }
}

/// The store and HEAD after merging branch `other` into the current branch.
pub open spec fn merge_spec(
    s: StoreModel,
    h: HeadModel,
    other: Seq<char>,
    message: Seq<char>,
    author: Seq<char>,
) -> Result<(StoreModel, HeadModel), GitError> {
    if !h.branches.contains_key(h.current) || !h.branches.contains_key(other) {
        Err(GitError::NotFound)
    } else {
        let main = h.branches[h.current];
        let oth = h.branches[other];
        match (tip_view(s, main.commitpointer), tip_view(s, oth.commitpointer)) {
            (Some((mps, mroot)), Some((ops, oroot))) => {
                let (ts, root) = merge_node(s, mroot, oroot, seq!['.'], s.trees.len());
                let s1 = store_trees(s, ts.push(root));
                let rh = tree_hash(root);
                let regs = reg_tree(s1, rh, s1.trees.len());
                let c = CommitModel {
                    parents: mps,
                    mergeparents: ops,
                    author,
                    message,
                    snapshot: rh,
                };
                let ch = commit_hash(c);
                Ok(
                    (
                        StoreModel { commits: s1.commits.insert(ch, c), ..s1 },
                        HeadModel {
                            branches: h.branches.insert(
                                h.current,
                                BranchModel {
                                    commitpointer: Some(ch),
                                    references: apply_regs(main.references, regs).insert(message, ch),
                                    ..main
                                },
                            ),
                            ..h
                        },
                    ),
                )
            },
            _ => Err(GitError::PreconditionViolated),
        }
    }
}

/// The lineage and root tree of a branch tip, as `tip_view` gives them.
fn tip_parts<'a>(objects: &'a Objects, tip: &Option<String>, empty: &'a tree) -> (r: Option<
    (Vec<String>, &'a tree),
>)
    requires
        empty@ == empty_tree(seq!['.']),
    ensures
        match tip_view(objects@, opt_view(*tip)) {
            Some((ps, t)) => r is Some && strings_view(r.unwrap().0@) == ps && r.unwrap().1@ == t,
            None => r is None,
        },
{
    match tip {
        None => {
            let ps: Vec<String> = Vec::new();
            assert(strings_view(ps@) =~= Seq::<Seq<char>>::empty());
            Some((ps, empty))
        },
        Some(t) => match objects.commitmap.get(t) {
            Some(c) => match objects.treemap.get(&c.snapshot) {
                Some(root) => {
                    let mut ps = clone_strings(&c.parents);
                    let ghost p0 = ps@;
                    ps.push(t.clone());
                    assert(strings_view(ps@) =~= strings_view(p0).push(t@));
                    Some((ps, root))
                },
                None => None,
            },
            None => None,
        },
    }
}

/// Merges branch `branch2` into the current branch: unites the two tip
/// commits' root trees, stores the result, records a commit whose `parents`
/// are the current tip's parents and the tip, and whose `mergeparents` are the
/// same for the other tip; tags it under `message` and makes it the tip. A tip
/// at the empty initial commit contributes the empty root and no lineage.
pub fn gitMerge(head: &mut HEAD, branch2: String, message: &str, author: &str, objects: &mut Objects) -> (r:
    Result<(), GitError>)
    ensures
        match merge_spec(old(objects)@, old(head)@, branch2@, message@, author@) {
            Ok((s, h)) => r is Ok && final(objects)@ == s && final(head)@ == h,
            Err(e) => r == Err::<(), GitError>(e) && final(objects)@ == old(objects)@
                && final(head)@ == old(head)@,
        },
{
    let ghost h0 = head@;
    let ghost s0 = objects@;
    let name = head.currentBranchName.clone();
    let (mp, op) = match (head.branch.get(&name), head.branch.get(&branch2)) {
        (Some(mb), Some(ob)) => (clone_opt(&mb.commitpointer), clone_opt(&ob.commitpointer)),
        _ => {
            return Err(GitError::NotFound);
        },
    };
    proof {
        reveal_strlit(".");
    }
    let empty = tree::new(String::from_str("."));
    assert(empty@.name =~= seq!['.']);
    assert(empty@ == empty_tree(seq!['.']));
    let (parents, mroot) = match tip_parts(objects, &mp, &empty) {
        Some(x) => x,
        None => {
            return Err(GitError::PreconditionViolated);
        },
    };
    let (mergeparents, oroot) = match tip_parts(objects, &op, &empty) {
        Some(x) => x,
        None => {
            return Err(GitError::PreconditionViolated);
        },
    };
    let dot = String::from_str(".");
    assert(dot@ =~= seq!['.']);
    let fuel = objects.treemap.len();
    let mut out: Vec<tree> = Vec::new();
    let root = merge_trees(objects, mroot, oroot, dot, fuel, &mut out);
    assert(trees_view(out@) =~= Seq::<TreeModel>::empty() + trees_view(out@));
    let rh = root.hash();
    let ghost rootv = root@;
    let ghost ts = trees_view(out@);
    out.push(root);
    assert(trees_view(out@) =~= ts.push(rootv));
    store_all(objects, &out);
    let fuel2 = objects.treemap.len();
    let mut regs: Vec<(String, String)> = Vec::new();
    register(objects, &rh, fuel2, &mut regs);
    assert(pairs_view(regs@) =~= Seq::<(Seq<char>, Seq<char>)>::empty() + pairs_view(regs@));
    let c = Commit {
        parents,
        mergeparents,
        author: String::from_str(author),
        message: String::from_str(message),
        snapshot: rh,
    };
    let ch = c.hash();
    objects.commitmap.insert(ch.clone(), c);
    let mut br = match head.branch.remove(&name) {
        Some(b) => b,
        None => {
            return Err(GitError::NotFound);
        },
    };
    apply_entries(&mut br.references.refermap, &regs);
    br.references.refermap.insert(String::from_str(message), ch.clone());
    br.commitpointer = Some(ch);
    head.branch.insert(name, br);
    proof {
        let expected = merge_spec(s0, h0, branch2@, message@, author@);
        assert(expected is Ok);
        assert(objects@ =~= expected.unwrap().0);
        assert(head@.branches =~= expected.unwrap().1.branches);
    }
    Ok(())
}

} // verus!
