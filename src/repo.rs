//! Staging, unstaging and committing on the current branch.
//!
//! Staging or unstaging a path rebuilds each ancestor directory, from the
//! path's parent up to the root `"."`, as a fresh tree: the ancestor as the
//! index resolves it before the call, with the entry for the child below it
//! changed. Trees are never changed in place, so a tree shared with another
//! branch or commit keeps its content.
use crate::head::{checkout_spec, fork_spec, opt_view, BranchModel, HeadModel, HEAD};
use crate::objects::{
    blob, blob_hash, commit_hash, strings_view, tree, tree_hash, BlobModel, Commit, CommitModel,
    TreeModel,
};
use crate::paths::{fatherName, lemma_parent_rank, parent_path, path_rank, root_path};
use crate::store::{GitError, Objects, StoreModel};
use crate::strmap::StrMap;
use vstd::prelude::*;

verus! {

pub open spec fn trees_view(v: Seq<tree>) -> Seq<TreeModel> {
    v.map_values(|t: tree| t@)
}

pub open spec fn empty_tree(name: Seq<char>) -> TreeModel {
    TreeModel { name, trees: Map::empty(), blobs: Map::empty() }
}

/// The tree stored under the hash that the index gives for `key`, if any.
pub open spec fn stored_tree(s: StoreModel, idx: Map<Seq<char>, Seq<char>>, key: Seq<char>) -> Option<
    TreeModel,
> {
    if idx.contains_key(key) && s.trees.contains_key(idx[key]) {
        Some(s.trees[idx[key]])
    } else {
        None
    }
}

/// The tree an ancestor is rebuilt from: the stored one, or a fresh one.
pub open spec fn base_or_empty(s: StoreModel, idx: Map<Seq<char>, Seq<char>>, key: Seq<char>) -> TreeModel {
    match stored_tree(s, idx, key) {
        Some(t) => t,
        None => empty_tree(key),
    }
}

/// The rebuilt ancestor `name` of `child`: the entries of `base` with the entry
/// for `child` changed. Right above the leaf (`first`) the change is to the
/// blob entry, staged with hash `leaf` or, for `None`, removed; higher up the
/// subtree entry of `child` becomes `child_hash`.
pub open spec fn level_tree(
    base: TreeModel,
    name: Seq<char>,
    child: Seq<char>,
    first: bool,
    leaf: Option<Seq<char>>,
    child_hash: Seq<char>,
) -> TreeModel {
    TreeModel {
        name,
        trees: if first {
            base.trees
        } else {
            base.trees.insert(child, child_hash)
        },
        blobs: if first {
            match leaf {
                Some(h) => base.blobs.insert(child, h),
                None => base.blobs.remove(child),
            }
        } else {
            base.blobs
        },
    }
}

/// The fresh trees for `parent` and each of its ancestors, nearest first, as
/// rebuilt from the store and index given. Staging (`leaf` is `Some`) starts an
/// ancestor that the index does not resolve to a stored tree afresh;
/// unstaging needs every ancestor, and gives `None` without one.
pub open spec fn chain(
    s: StoreModel,
    idx: Map<Seq<char>, Seq<char>>,
    child: Seq<char>,
    parent: Seq<char>,
    first: bool,
    leaf: Option<Seq<char>>,
    child_hash: Seq<char>,
) -> Option<Seq<TreeModel>>
    decreases path_rank(parent),
{
    if parent.len() == 0 {
        Some(Seq::empty())
    } else {
        let base = stored_tree(s, idx, parent);
        if leaf is None && base is None {
            None
        } else {
            let t = level_tree(base_or_empty(s, idx, parent), parent, child, first, leaf, child_hash);
            proof {
                lemma_parent_rank(parent);
            }
            match chain(s, idx, parent, parent_path(parent), false, leaf, tree_hash(t)) {
                Some(rest) => Some(seq![t] + rest),
                None => None,
            }
        }
    }
}

pub open spec fn prepend(p: Seq<TreeModel>, o: Option<Seq<TreeModel>>) -> Option<Seq<TreeModel>> {
    match o {
        Some(r) => Some(p + r),
        None => None,
    }
}

/// Stores each tree of `ts` under its hash and points the index entry of its
/// name at that hash, in order.
pub open spec fn apply_chain(s: StoreModel, idx: Map<Seq<char>, Seq<char>>, ts: Seq<TreeModel>) -> (
    StoreModel,
    Map<Seq<char>, Seq<char>>,
)
    decreases ts.len(),
{
    if ts.len() == 0 {
        (s, idx)
    } else {
        let (s1, i1) = apply_chain(s, idx, ts.drop_last());
        let t = ts.last();
        (StoreModel { trees: s1.trees.insert(tree_hash(t), t), ..s1 }, i1.insert(t.name, tree_hash(t)))
    }
}

pub proof fn lemma_chain_step(
    s: StoreModel,
    idx: Map<Seq<char>, Seq<char>>,
    child: Seq<char>,
    parent: Seq<char>,
    first: bool,
    leaf: Option<Seq<char>>,
    child_hash: Seq<char>,
)
    requires
        parent.len() > 0,
    ensures
        (leaf is None && stored_tree(s, idx, parent) is None) ==> chain(
            s,
            idx,
            child,
            parent,
            first,
            leaf,
            child_hash,
        ) is None,
        !(leaf is None && stored_tree(s, idx, parent) is None) ==> {
            let t = level_tree(base_or_empty(s, idx, parent), parent, child, first, leaf, child_hash);
            chain(s, idx, child, parent, first, leaf, child_hash) == prepend(
                seq![t],
                chain(s, idx, parent, parent_path(parent), false, leaf, tree_hash(t)),
            )
        },
{
}

proof fn lemma_prepend_assoc(a: Seq<TreeModel>, b: Seq<TreeModel>, o: Option<Seq<TreeModel>>)
    ensures
        prepend(a, prepend(b, o)) == prepend(a + b, o),
{
    if let Some(r) = o {
        assert(a + (b + r) =~= (a + b) + r);
    }
}

/// Staging never lacks an ancestor.
pub proof fn lemma_chain_stage_some(
    s: StoreModel,
    idx: Map<Seq<char>, Seq<char>>,
    child: Seq<char>,
    parent: Seq<char>,
    first: bool,
    h: Seq<char>,
    child_hash: Seq<char>,
)
    ensures
        chain(s, idx, child, parent, first, Some(h), child_hash) is Some,
    decreases path_rank(parent),
{
    if parent.len() > 0 {
        let t = level_tree(base_or_empty(s, idx, parent), parent, child, first, Some(h), child_hash);
        lemma_parent_rank(parent);
        lemma_chain_stage_some(s, idx, parent, parent_path(parent), false, h, tree_hash(t));
    }
}

/// Applying rebuilt trees leaves the blobs and commits of the store alone.
pub proof fn lemma_apply_chain_keeps(s: StoreModel, idx: Map<Seq<char>, Seq<char>>, ts: Seq<TreeModel>)
    ensures
        apply_chain(s, idx, ts).0.blobs == s.blobs,
        apply_chain(s, idx, ts).0.commits == s.commits,
    decreases ts.len(),
{
    if ts.len() > 0 {
        lemma_apply_chain_keeps(s, idx, ts.drop_last());
    }
}

/// The store and index after staging `contents` at `path`: the blob is stored
/// (a blob stored already stays as it is), the index points `path` at it, and
/// each ancestor is rebuilt. Planning never fails when staging
/// (`lemma_chain_stage_some`).
pub open spec fn add_spec(
    s: StoreModel,
    idx: Map<Seq<char>, Seq<char>>,
    path: Seq<char>,
    contents: Seq<u8>,
) -> (StoreModel, Map<Seq<char>, Seq<char>>) {
    let b = BlobModel { name: path, contents };
    let h = blob_hash(b);
    match chain(s, idx, path, parent_path(path), true, Some(h), Seq::empty()) {
        Some(plan) => apply_chain(
            StoreModel { blobs: s.blobs.insert(h, b), ..s },
            idx.insert(path, h),
            plan,
        ),
        None => (s, idx),
    }
}

/// The store and index after unstaging `path`: the blob its index entry names
/// leaves the store, the entry goes, and its ancestors are rebuilt without it.
/// A path that the index does not hold was never staged: `NotFound`.
pub open spec fn rm_spec(s: StoreModel, idx: Map<Seq<char>, Seq<char>>, path: Seq<char>) -> Result<
    (StoreModel, Map<Seq<char>, Seq<char>>),
    GitError,
> {
    if !idx.contains_key(path) {
        Err(GitError::NotFound)
    } else {
        match chain(s, idx, path, parent_path(path), true, None, Seq::empty()) {
            Some(plan) => Ok(
                apply_chain(
                    StoreModel { blobs: s.blobs.remove(idx[path]), ..s },
                    idx.remove(path),
                    plan,
                ),
            ),
            None => Err(GitError::NotFound),
        }
    }
}

/// `h` with the index of its current branch replaced by `idx`.
pub open spec fn with_index(h: HeadModel, idx: Map<Seq<char>, Seq<char>>) -> HeadModel {
    HeadModel {
        branches: h.branches.insert(
            h.current,
            BranchModel { references: idx, ..h.branches[h.current] },
        ),
        ..h
    }
}

/// The lineage of a new commit on a branch whose tip is `tip`: the tip's own
/// parents followed by the tip, or none at the empty initial commit; `None`
/// when the tip is not a stored commit.
pub open spec fn lineage(s: StoreModel, tip: Option<Seq<char>>) -> Option<Seq<Seq<char>>> {
    match tip {
        None => Some(Seq::empty()),
        Some(t) => if s.commits.contains_key(t) {
            Some(s.commits[t].parents.push(t))
        } else {
            None
        },
    }
}

/// The store and HEAD after committing the current branch's root tree.
pub open spec fn commit_spec(
    s: StoreModel,
    h: HeadModel,
    message: Seq<char>,
    author: Seq<char>,
) -> Result<(StoreModel, HeadModel), GitError> {
    if !h.branches.contains_key(h.current) {
        Err(GitError::NotFound)
    } else {
        let br = h.branches[h.current];
        if !br.references.contains_key(root_path()) {
            Err(GitError::NotFound)
        } else {
            let root = br.references[root_path()];
            match lineage(s, br.commitpointer) {
                None => Err(GitError::PreconditionViolated),
                Some(ps) => {
                    let c = CommitModel {
                        parents: ps,
                        mergeparents: Seq::empty(),
                        author,
                        message,
                        snapshot: root,
                    };
                    let ch = commit_hash(c);
                    Ok(
                        (
                            StoreModel { commits: s.commits.insert(ch, c), ..s },
                            HeadModel {
                                branches: h.branches.insert(
                                    h.current,
                                    BranchModel {
                                        commitpointer: Some(ch),
                                        references: br.references.insert(message, ch),
                                        ..br
                                    },
                                ),
                                ..h
                            },
                        ),
                    )
                },
            }
        }
    }
}

/// Rebuilds the ancestor `parent` of `child`; `None` when unstaging and the
/// index does not resolve `parent` to a stored tree.
fn rebuild_level(
    objects: &Objects,
    index: &StrMap<String>,
    parent: &String,
    child: &String,
    first: bool,
    leaf: &Option<String>,
    child_hash: &String,
) -> (r: Option<tree>)
    ensures
        match r {
            Some(t) => !(leaf.is_none() && stored_tree(objects@, index@, parent@) is None) && t@
                == level_tree(
                base_or_empty(objects@, index@, parent@),
                parent@,
                child@,
                first,
                opt_view(*leaf),
                child_hash@,
            ),
            None => leaf.is_none() && stored_tree(objects@, index@, parent@) is None,
        },
{
    let ghost s = objects@;
    let ghost idx = index@;
    let base: Option<&tree> = match index.get(parent) {
        Some(h) => objects.treemap.get(h),
        None => None,
    };
    assert(base.is_some() == (stored_tree(s, idx, parent@) is Some));
    if leaf.is_none() && base.is_none() {
        return None;
    }
    let mut t = match base {
        Some(b) => b.renamed_copy(parent.clone()),
        None => tree::new(parent.clone()),
    };
    let ghost b = base_or_empty(s, idx, parent@);
    assert(t@ == (TreeModel { name: parent@, ..b })) by {
        assert(t@.trees =~= b.trees);
        assert(t@.blobs =~= b.blobs);
    }
    if first {
        match leaf {
            Some(h) => {
                t.blobs.insert(child.clone(), h.clone());
            },
            None => {
                let _ = t.blobs.remove(child);
            },
        }
    } else {
        t.trees.insert(child.clone(), child_hash.clone());
    }
    let ghost lt = level_tree(b, parent@, child@, first, opt_view(*leaf), child_hash@);
    assert(t@ == lt) by {
        assert(t@.trees =~= lt.trees);
        assert(t@.blobs =~= lt.blobs);
    }
    Some(t)
}

/// Plans the rebuilt ancestors of `path` from the store and index as they are.
#[verifier::rlimit(60)]
fn plan_chain(objects: &Objects, index: &StrMap<String>, path: &String, leaf: &Option<String>) -> (r:
    Option<Vec<tree>>)
    ensures
        match r {
            Some(v) => chain(
                objects@,
                index@,
                path@,
                parent_path(path@),
                true,
                opt_view(*leaf),
                Seq::empty(),
            ) == Some(trees_view(v@)),
            None => chain(
                objects@,
                index@,
                path@,
                parent_path(path@),
                true,
                opt_view(*leaf),
                Seq::empty(),
            ) is None,
        },
{
    let ghost s = objects@;
    let ghost idx = index@;
    let ghost lv = opt_view(*leaf);
    let ghost whole = chain(s, idx, path@, parent_path(path@), true, lv, Seq::empty());
    let mut built: Vec<tree> = Vec::new();
    let mut child: String = path.clone();
    let mut parent: String = fatherName(path.as_str());
    let mut first: bool = true;
    let mut child_hash: String = String::new();
    assert(trees_view(built@) =~= Seq::<TreeModel>::empty());
    assert(prepend(Seq::empty(), whole) == whole) by {
        if let Some(w) = whole {
            assert(Seq::<TreeModel>::empty() + w =~= w);
        }
    }
    while !parent.as_str().is_empty()
        invariant
            whole == prepend(
                trees_view(built@),
                chain(s, idx, child@, parent@, first, lv, child_hash@),
            ),
            whole == chain(s, idx, path@, parent_path(path@), true, lv, Seq::empty()),
            s == objects@,
            idx == index@,
            lv == opt_view(*leaf),
        decreases path_rank(parent@),
    {
        proof {
            lemma_chain_step(s, idx, child@, parent@, first, lv, child_hash@);
        }
        let t = match rebuild_level(objects, index, &parent, &child, first, leaf, &child_hash) {
            Some(t) => t,
            None => {
                assert(lv is None);
                assert(chain(s, idx, child@, parent@, first, lv, child_hash@) is None);
                return None;
            },
        };
        let ghost lt = t@;
        let h = t.hash();
        let ghost prev = trees_view(built@);
        built.push(t);
        assert(trees_view(built@) =~= prev + seq![lt]);
        let next = fatherName(parent.as_str());
        proof {
            lemma_parent_rank(parent@);
            let rest = chain(s, idx, parent@, parent_path(parent@), false, lv, tree_hash(lt));
            lemma_prepend_assoc(prev, seq![lt], rest);
        }
        child = parent;
        parent = next;
        child_hash = h;
        first = false;
    }
    assert(trees_view(built@) + Seq::<TreeModel>::empty() =~= trees_view(built@));
    Some(built)
}

/// Stores each planned tree and points the index at it.
fn apply_plan(objects: &mut Objects, index: &mut StrMap<String>, plan: &Vec<tree>)
    ensures
        (final(objects)@, final(index)@) == apply_chain(old(objects)@, old(index)@, trees_view(plan@)),
{
    let ghost ts = trees_view(plan@);
    let mut i: usize = 0;
    assert(ts.subrange(0, 0) =~= Seq::<TreeModel>::empty());
    while i < plan.len()
        invariant
            ts == trees_view(plan@),
            i <= plan@.len(),
            (objects@, index@) == apply_chain(old(objects)@, old(index)@, ts.subrange(0, i as int)),
        decreases plan@.len() - i,
    {
        let t = &plan[i];
        let h = t.hash();
        let copy = t.renamed_copy(t.name.clone());
        assert(copy@ == t@);
        objects.treemap.insert(h.clone(), copy);
        index.insert(t.name.clone(), h);
        proof {
            let next = ts.subrange(0, i + 1);
            assert(next.drop_last() =~= ts.subrange(0, i as int));
            assert(next.last() == t@);
            assert(objects@ =~= apply_chain(old(objects)@, old(index)@, next).0);
        }
        i = i + 1;
    }
    assert(ts.subrange(0, plan@.len() as int) =~= ts);
}

/// Stages `contents` as the blob at `path` on the current branch: stores the
/// blob, points the index at it, and rebuilds every ancestor directory. Gives
/// whether the blob was new to the store; storing one already there changes
/// nothing in the store's blobs.
pub fn gitAdd(path: String, contents: Vec<u8>, objects: &mut Objects, head: &mut HEAD) -> (r: Result<
    bool,
    GitError,
>)
    ensures
        !old(head)@.branches.contains_key(old(head)@.current) ==> r == Err::<bool, GitError>(
            GitError::NotFound,
        ) && final(objects)@ == old(objects)@ && final(head)@ == old(head)@,
        old(head)@.branches.contains_key(old(head)@.current) ==> {
            let (s, idx) = add_spec(
                old(objects)@,
                old(head)@.branches[old(head)@.current].references,
                path@,
                contents@,
            );
            &&& r == Ok::<bool, GitError>(
                !old(objects)@.blobs.contains_key(
                    blob_hash(BlobModel { name: path@, contents: contents@ }),
                ),
            )
            &&& final(objects)@ == s
            &&& final(head)@ == with_index(old(head)@, idx)
        },
{
    let ghost h0 = head@;
    let name = head.currentBranchName.clone();
    let mut br = match head.branch.remove(&name) {
        Some(b) => b,
        None => {
            assert(head@.branches =~= h0.branches);
            return Err(GitError::NotFound);
        },
    };
    let ghost idx = br.references@;
    let file = blob { name: path, contents };
    let h = file.hash();
    let ghost bm = file@;
    proof {
        lemma_chain_stage_some(objects@, idx, bm.name, parent_path(bm.name), true, h@, Seq::empty());
    }
    let is_new = !objects.blobmap.contains_key(&h);
    let leaf = Some(h.clone());
    // staging never lacks an ancestor, so planning succeeds
    let plan = plan_chain(objects, &br.references.refermap, &file.name, &leaf).unwrap();
    let key = file.name.clone();
    objects.blobmap.insert(h.clone(), file);
    br.references.refermap.insert(key, h);
    apply_plan(objects, &mut br.references.refermap, &plan);
    head.branch.insert(name, br);
    assert(head@.branches =~= with_index(h0, br.references@).branches);
    Ok(is_new)
}

/// Unstages `path` on the current branch: removes its blob from the store and
/// its entry from the index, and rebuilds every ancestor directory without it.
/// Nothing changes, and `NotFound` is returned, when the index holds no entry
/// for the path or does not resolve one of its ancestors to a stored tree.
pub fn gitRm(path: String, objects: &mut Objects, head: &mut HEAD) -> (r: Result<(), GitError>)
    ensures
        !old(head)@.branches.contains_key(old(head)@.current) ==> r == Err::<(), GitError>(
            GitError::NotFound,
        ) && final(objects)@ == old(objects)@ && final(head)@ == old(head)@,
        old(head)@.branches.contains_key(old(head)@.current) ==> match rm_spec(
            old(objects)@,
            old(head)@.branches[old(head)@.current].references,
            path@,
        ) {
            Ok((s, idx)) => r is Ok && final(objects)@ == s && final(head)@ == with_index(
                old(head)@,
                idx,
            ),
            Err(e) => r == Err::<(), GitError>(e) && final(objects)@ == old(objects)@
                && final(head)@ == old(head)@,
        },
{
    let ghost h0 = head@;
    let name = head.currentBranchName.clone();
    let mut br = match head.branch.remove(&name) {
        Some(b) => b,
        None => {
            assert(head@.branches =~= h0.branches);
            return Err(GitError::NotFound);
        },
    };
    let key = match br.references.refermap.get(&path) {
        Some(k) => k.clone(),
        None => {
            head.branch.insert(name, br);
            assert(head@.branches =~= h0.branches);
            return Err(GitError::NotFound);
        },
    };
    let leaf: Option<String> = None;
    let plan = match plan_chain(objects, &br.references.refermap, &path, &leaf) {
        Some(p) => p,
        None => {
            head.branch.insert(name, br);
            assert(head@.branches =~= h0.branches);
            return Err(GitError::NotFound);
        },
    };
    let _ = objects.blobmap.remove(&key);
    let _ = br.references.refermap.remove(&path);
    apply_plan(objects, &mut br.references.refermap, &plan);
    head.branch.insert(name, br);
    assert(head@.branches =~= with_index(h0, br.references@).branches);
    Ok(())
}

pub(crate) fn clone_strings(v: &Vec<String>) -> (r: Vec<String>)
    ensures
        strings_view(r@) == strings_view(v@),
{
    let mut r: Vec<String> = Vec::new();
    let mut i: usize = 0;
    while i < v.len()
        invariant
            i <= v@.len(),
            r@.len() == i,
            forall|j: int| 0 <= j < i ==> #[trigger] r@[j]@ == v@[j]@,
        decreases v@.len() - i,
    {
        r.push(v[i].clone());
        i = i + 1;
    }
    assert(strings_view(r@) =~= strings_view(v@));
    r
}

/// Commits the current branch's root tree `"."`: the new commit's lineage is
/// the tip's parents followed by the tip (none at the empty initial commit); it
/// is stored under its hash, tagged in the index under `message`, and becomes
/// the branch's tip.
pub fn gitCommit(head: &mut HEAD, objects: &mut Objects, message: &str, author: &str) -> (r: Result<
    (),
    GitError,
>)
    ensures
        match commit_spec(old(objects)@, old(head)@, message@, author@) {
            Ok((s, h)) => r is Ok && final(objects)@ == s && final(head)@ == h,
            Err(e) => r == Err::<(), GitError>(e) && final(objects)@ == old(objects)@
                && final(head)@ == old(head)@,
        },
{
    let ghost h0 = head@;
    let name = head.currentBranchName.clone();
    let mut br = match head.branch.remove(&name) {
        Some(b) => b,
        None => {
            assert(head@.branches =~= h0.branches);
            return Err(GitError::NotFound);
        },
    };
    let ghost b0 = br@;
    proof {
        reveal_strlit(".");
    }
    let dot = String::from_str(".");
    assert(dot@ =~= root_path());
    let root = match br.references.refermap.get(&dot) {
        Some(h) => h.clone(),
        None => {
            head.branch.insert(name, br);
            assert(head@.branches =~= h0.branches);
            return Err(GitError::NotFound);
        },
    };
    let parents = match &br.commitpointer {
        None => Vec::new(),
        Some(t) => match objects.commitmap.get(t) {
            Some(c) => {
                let mut ps = clone_strings(&c.parents);
                let ghost before = ps@;
                ps.push(t.clone());
                assert(strings_view(ps@) =~= strings_view(before).push(t@));
                ps
            },
            None => {
                head.branch.insert(name, br);
                assert(head@.branches =~= h0.branches);
                return Err(GitError::PreconditionViolated);
            },
        },
    };
    assert(lineage(objects@, b0.commitpointer) == Some(strings_view(parents@))) by {
        if b0.commitpointer is None {
            assert(strings_view(parents@) =~= Seq::<Seq<char>>::empty());
        }
    }
    let c = Commit {
        parents,
        mergeparents: Vec::new(),
        author: String::from_str(author),
        message: String::from_str(message),
        snapshot: root,
    };
    assert(c@.mergeparents =~= Seq::<Seq<char>>::empty());
    let ch = c.hash();
    objects.commitmap.insert(ch.clone(), c);
    br.references.refermap.insert(String::from_str(message), ch.clone());
    br.commitpointer = Some(ch);
    head.branch.insert(name, br);
    assert(head@.branches =~= commit_spec(old(objects)@, h0, message@, author@).unwrap().1.branches);
    Ok(())
}

/// Forks the current branch into a new branch `branchname` (see
/// `HEAD::addbranch`).
pub fn gitBranch(head: &mut HEAD, branchname: String) -> (r: Result<(), GitError>)
    ensures
        match fork_spec(old(head)@, branchname@) {
            Ok(h) => r is Ok && final(head)@ == h,
            Err(e) => r == Err::<(), GitError>(e) && final(head)@ == old(head)@,
        },
{
    head.addbranch(branchname)
}

/// Makes `branchname` the current branch (see `HEAD::checkout`).
pub fn gitCheckout(head: &mut HEAD, branchname: String) -> (r: Result<(), GitError>)
    ensures
        match checkout_spec(old(head)@, branchname@) {
            Ok(h) => r is Ok && final(head)@ == h,
            Err(e) => r == Err::<(), GitError>(e) && final(head)@ == old(head)@,
        },
{
    head.checkout(branchname)
}

} // verus!
