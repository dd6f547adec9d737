//! The object store and the path index.
use crate::objects::{blob, tree, BlobModel, Commit, CommitModel, TreeModel};
use crate::strmap::StrMap;
use vstd::prelude::*;

verus! {

/// What an operation of the library reports when it cannot proceed. Nothing
/// has changed when one is returned.
#[derive(Debug, Clone, Copy, PartialEq, Eq, Structural)]
pub enum GitError {
    /// A branch, path, or hash is absent where it is required.
    NotFound,
    /// A branch of that name exists already.
    AlreadyExists,
    /// A commit pointer names a commit, or a commit a snapshot, that is not
    /// stored.
    PreconditionViolated,
}

/// The path index of a branch: keys (paths, or commit messages used as tags)
/// to the hash each currently resolves to.
#[derive(Debug, PartialEq, Eq)]
pub struct References {
    pub refermap: StrMap<String>,
}

impl View for References {
    type V = Map<Seq<char>, Seq<char>>;

    open spec fn view(&self) -> Map<Seq<char>, Seq<char>> {
        self.refermap@
    }
}

impl References {
    pub fn new() -> (r: References)
        ensures
            r@ == Map::<Seq<char>, Seq<char>>::empty(),
    {
        References { refermap: StrMap::new() }
    }

    pub fn update_reference(&mut self, name: String, id: String)
        ensures
            final(self)@ == old(self)@.insert(name@, id@),
    {
        self.refermap.insert(name, id);
    }

    pub fn read_reference(&self, name: String) -> (r: Result<String, GitError>)
        ensures
            match r {
                Ok(id) => self@.contains_key(name@) && id@ == self@[name@],
                Err(e) => e == GitError::NotFound && !self@.contains_key(name@),
            },
    {
        match self.refermap.get(&name) {
            Some(id) => Ok(id.clone()),
            None => Err(GitError::NotFound),
        }
    }

    /// A second index with the same entries, owned separately.
    pub fn duplicate(&self) -> (r: References)
        ensures
            r@ == self@,
    {
        References { refermap: self.refermap.duplicate() }
    }
}

/// The three hash-keyed collections of the store.
#[derive(Debug, PartialEq, Eq)]
pub struct Objects {
    pub treemap: StrMap<tree>,
    pub commitmap: StrMap<Commit>,
    pub blobmap: StrMap<blob>,
}

pub struct StoreModel {
    pub trees: Map<Seq<char>, TreeModel>,
    pub commits: Map<Seq<char>, CommitModel>,
    pub blobs: Map<Seq<char>, BlobModel>,
}

impl View for Objects {
    type V = StoreModel;

    open spec fn view(&self) -> StoreModel {
        StoreModel { trees: self.treemap@, commits: self.commitmap@, blobs: self.blobmap@ }
    }
}

impl Objects {
    pub fn new() -> (o: Objects)
        ensures
            o@.trees == Map::<Seq<char>, TreeModel>::empty(),
            o@.commits == Map::<Seq<char>, CommitModel>::empty(),
            o@.blobs == Map::<Seq<char>, BlobModel>::empty(),
    {
        Objects { treemap: StrMap::new(), commitmap: StrMap::new(), blobmap: StrMap::new() }
    }
}

/// The hash a key stands for: its entry in the index, or else the key itself.
pub open spec fn resolve_key(idx: Map<Seq<char>, Seq<char>>, key: Seq<char>) -> Seq<char> {
    if idx.contains_key(key) {
        idx[key]
    } else {
        key
    }
}

fn resolve<'a>(references: &'a References, name_or_id: &'a String) -> (r: &'a String)
    ensures
        r@ == resolve_key(references@, name_or_id@),
{
    match references.refermap.get(name_or_id) {
        Some(id) => id,
        None => name_or_id,
    }
}

/// The blob that `name_or_id` resolves to: through the index, or as a hash.
pub fn load_reference<'a>(references: &References, objects: &'a Objects, name_or_id: String) -> (r:
    Result<&'a blob, GitError>)
    ensures
        match r {
            Ok(b) => objects@.blobs.contains_key(resolve_key(references@, name_or_id@))
                && b@ == objects@.blobs[resolve_key(references@, name_or_id@)],
            Err(e) => e == GitError::NotFound && !objects@.blobs.contains_key(
                resolve_key(references@, name_or_id@),
            ),
        },
{
    let id = resolve(references, &name_or_id);
    match objects.blobmap.get(id) {
        Some(b) => Ok(b),
        None => Err(GitError::NotFound),
    }
}

/// The tree that `name_or_id` resolves to: through the index, or as a hash.
pub fn load_reference_tree<'a>(references: &References, objects: &'a Objects, name_or_id: String) -> (r:
    Result<&'a tree, GitError>)
    ensures
        match r {
            Ok(t) => objects@.trees.contains_key(resolve_key(references@, name_or_id@))
                && t@ == objects@.trees[resolve_key(references@, name_or_id@)],
            Err(e) => e == GitError::NotFound && !objects@.trees.contains_key(
                resolve_key(references@, name_or_id@),
            ),
        },
{
    let id = resolve(references, &name_or_id);
    match objects.treemap.get(id) {
        Some(t) => Ok(t),
        None => Err(GitError::NotFound),
    }
}

} // verus!
