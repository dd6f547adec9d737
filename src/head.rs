//! Branches and HEAD, the root of all mutable state.
use crate::objects::strings_view;
use crate::store::{GitError, References};
use crate::strmap::StrMap;
use vstd::prelude::*;

verus! {

/// A named commit pointer with its own path index. A pointer of `None` stands
/// for the empty initial commit, which has no lineage.
#[derive(Debug, PartialEq, Eq)]
pub struct Branch {
    pub name: String,
    pub commitpointer: Option<String>,
    pub references: References,
}

pub struct BranchModel {
    pub name: Seq<char>,
    pub commitpointer: Option<Seq<char>>,
    pub references: Map<Seq<char>, Seq<char>>,
}

pub open spec fn opt_view(o: Option<String>) -> Option<Seq<char>> {
    match o {
        Some(s) => Some(s@),
        None => None,
    }
}

impl View for Branch {
    type V = BranchModel;

    open spec fn view(&self) -> BranchModel {
        BranchModel {
            name: self.name@,
            commitpointer: opt_view(self.commitpointer),
            references: self.references@,
        }
    }
}

impl Branch {
    /// A branch at the empty initial commit, with an empty index.
    pub fn new(name: String) -> (b: Branch)
        ensures
            b@.name == name@,
            b@.commitpointer is None,
            b@.references == Map::<Seq<char>, Seq<char>>::empty(),
    {
        Branch { name, commitpointer: None, references: References::new() }
    }
}

pub(crate) fn clone_opt(o: &Option<String>) -> (r: Option<String>)
    ensures
        opt_view(r) == opt_view(*o),
{
    match o {
        Some(s) => Some(s.clone()),
        None => None,
    }
}

/// The name of the current branch and the branches by name.
#[derive(Debug, PartialEq, Eq)]
pub struct HEAD {
    pub currentBranchName: String,
    pub branch: StrMap<Branch>,
}

pub struct HeadModel {
    pub current: Seq<char>,
    pub branches: Map<Seq<char>, BranchModel>,
}

impl View for HEAD {
    type V = HeadModel;

    open spec fn view(&self) -> HeadModel {
        HeadModel { current: self.currentBranchName@, branches: self.branch@ }
    }
}

pub open spec fn master_name() -> Seq<char> {
    seq!['m', 'a', 's', 't', 'e', 'r']
}

/// The result of forking the current branch into a new branch `name`.
pub open spec fn fork_spec(h: HeadModel, name: Seq<char>) -> Result<HeadModel, GitError> {
    if h.branches.contains_key(name) {
        Err(GitError::AlreadyExists)
    } else if !h.branches.contains_key(h.current) {
        Err(GitError::NotFound)
    } else {
        Ok(
            HeadModel {
                branches: h.branches.insert(
                    name,
                    BranchModel {
                        name,
                        commitpointer: h.branches[h.current].commitpointer,
                        references: h.branches[h.current].references,
                    },
                ),
                ..h
            },
        )
    }
}

/// The result of making `name` the current branch.
pub open spec fn checkout_spec(h: HeadModel, name: Seq<char>) -> Result<HeadModel, GitError> {
    if h.branches.contains_key(name) {
        Ok(HeadModel { current: name, ..h })
    } else {
        Err(GitError::NotFound)
    }
}

impl HEAD {
    /// No branches, and no current branch name.
    pub fn new() -> (h: HEAD)
        ensures
            h@.current.len() == 0,
            h@.branches == Map::<Seq<char>, BranchModel>::empty(),
    {
        HEAD { currentBranchName: String::new(), branch: StrMap::new() }
    }

    /// The state of a fresh repository: one branch, `master`, current, at the
    /// empty initial commit.
    pub fn init() -> (h: HEAD)
        ensures
            h@.current == master_name(),
            h@.branches == Map::<Seq<char>, BranchModel>::empty().insert(
                master_name(),
                BranchModel {
                    name: master_name(),
                    commitpointer: None,
                    references: Map::empty(),
                },
            ),
    {
        proof {
            reveal_strlit("master");
        }
        let mut h = HEAD::new();
        let name = String::from_str("master");
        assert(name@ =~= master_name());
        h.currentBranchName = name.clone();
        h.branch.insert(name.clone(), Branch::new(name));
        assert(h@.branches =~= Map::<Seq<char>, BranchModel>::empty().insert(
            master_name(),
            BranchModel { name: master_name(), commitpointer: None, references: Map::empty() },
        ));
        h
    }

    /// Forks the current branch's commit pointer and index into a new branch
    /// `branchname`; the current branch is left as it is.
    pub fn addbranch(&mut self, branchname: String) -> (r: Result<(), GitError>)
        ensures
            match fork_spec(old(self)@, branchname@) {
                Ok(h) => r is Ok && final(self)@ == h,
                Err(e) => r == Err::<(), GitError>(e) && final(self)@ == old(self)@,
            },
    {
        if self.branch.contains_key(&branchname) {
            return Err(GitError::AlreadyExists);
        }
        let (pointer, refs) = match self.branch.get(&self.currentBranchName) {
            Some(cur) => (clone_opt(&cur.commitpointer), cur.references.duplicate()),
            None => {
                return Err(GitError::NotFound);
            },
        };
        let newbranch = Branch { name: branchname.clone(), commitpointer: pointer, references: refs };
        self.branch.insert(branchname, newbranch);
        Ok(())
    }

    /// Makes `branchname` the current branch; no object changes.
    pub fn checkout(&mut self, branchname: String) -> (r: Result<(), GitError>)
        ensures
            match checkout_spec(old(self)@, branchname@) {
                Ok(h) => r is Ok && final(self)@ == h,
                Err(e) => r == Err::<(), GitError>(e) && final(self)@ == old(self)@,
            },
    {
        if self.branch.contains_key(&branchname) {
            self.currentBranchName = branchname;
            Ok(())
        } else {
            Err(GitError::NotFound)
        }
    }

    /// The names of all branches, in increasing order.
    pub fn showAllBranch(&self) -> (names: Vec<String>)
        ensures
            strings_view(names@) == self.branch.pairs().map_values(
                |e: (Seq<char>, BranchModel)| e.0,
            ),
    {
        let mut names: Vec<String> = Vec::new();
        let n = self.branch.len();
        let mut i: usize = 0;
        while i < n
            invariant
                n == self.branch.pairs().len(),
                i <= n,
                names@.len() == i,
                forall|j: int| 0 <= j < i ==> #[trigger] names@[j]@ == self.branch.pairs()[j].0,
            decreases n - i,
        {
            let k = self.branch.key_at(i).clone();
            names.push(k);
            i = i + 1;
        }
        assert(strings_view(names@) =~= self.branch.pairs().map_values(
            |e: (Seq<char>, BranchModel)| e.0,
        ));
        names
    }
}

} // verus!
