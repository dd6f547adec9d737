//! The objects of the store (blobs, trees, commits) and their canonical byte
//! encoding.
use crate::hashing::{getSHA1, hash_of};
use crate::strmap::{canonical, lemma_canonical, StrMap};
use vstd::prelude::*;
use vstd::utf8::encode_utf8;

verus! {

/// The kind of an object; it closes each object's encoding, so that objects of
/// different kinds never share an encoding.
#[derive(Debug, Clone, Copy, PartialEq, Eq, Structural)]
pub enum objecttype {
    commit,
    tree,
    blob,
}

/// Stored file content, named by its path.
#[derive(Debug, PartialEq, Eq)]
pub struct blob {
    pub name: String,
    pub contents: Vec<u8>,
}

pub struct BlobModel {
    pub name: Seq<char>,
    pub contents: Seq<u8>,
}

impl View for blob {
    type V = BlobModel;

    open spec fn view(&self) -> BlobModel {
        BlobModel { name: self.name@, contents: self.contents@ }
    }
}

/// A directory snapshot: the hashes of its subtrees and of its blobs, by path.
#[derive(Debug, PartialEq, Eq)]
pub struct tree {
    pub name: String,
    pub trees: StrMap<String>,
    pub blobs: StrMap<String>,
}

pub struct TreeModel {
    pub name: Seq<char>,
    pub trees: Map<Seq<char>, Seq<char>>,
    pub blobs: Map<Seq<char>, Seq<char>>,
}

impl View for tree {
    type V = TreeModel;

    open spec fn view(&self) -> TreeModel {
        TreeModel { name: self.name@, trees: self.trees@, blobs: self.blobs@ }
    }
}

/// A snapshot of a root tree with its lineage. `parents` holds the ancestors
/// inherited from the branch tip followed by the tip; `mergeparents`, set by a
/// merge only, holds the same for the other branch.
#[derive(Debug, PartialEq, Eq)]
pub struct Commit {
    pub parents: Vec<String>,
    pub mergeparents: Vec<String>,
    pub author: String,
    pub message: String,
    pub snapshot: String,
}

pub struct CommitModel {
    pub parents: Seq<Seq<char>>,
    pub mergeparents: Seq<Seq<char>>,
    pub author: Seq<char>,
    pub message: Seq<char>,
    pub snapshot: Seq<char>,
}

pub open spec fn strings_view(v: Seq<String>) -> Seq<Seq<char>> {
    v.map_values(|s: String| s@)
}

impl View for Commit {
    type V = CommitModel;

    open spec fn view(&self) -> CommitModel {
        CommitModel {
            parents: strings_view(self.parents@),
            mergeparents: strings_view(self.mergeparents@),
            author: self.author@,
            message: self.message@,
            snapshot: self.snapshot@,
        }
    }
}

/// `n` as `k` bytes, least significant first.
pub open spec fn le_bytes(n: nat, k: nat) -> Seq<u8>
    decreases k,
{
    if k == 0 {
        Seq::empty()
    } else {
        seq![(n % 256) as u8] + le_bytes(n / 256, (k - 1) as nat)
    }
}

pub open spec fn enc_len(n: nat) -> Seq<u8> {
    le_bytes(n, 8)
}

pub open spec fn enc_str(s: Seq<char>) -> Seq<u8> {
    enc_len(encode_utf8(s).len()) + encode_utf8(s)
}

pub open spec fn enc_bytes(b: Seq<u8>) -> Seq<u8> {
    enc_len(b.len()) + b
}

pub open spec fn enc_pairs(es: Seq<(Seq<char>, Seq<char>)>) -> Seq<u8>
    decreases es.len(),
{
    if es.len() == 0 {
        Seq::empty()
    } else {
        enc_pairs(es.drop_last()) + enc_str(es.last().0) + enc_str(es.last().1)
    }
}

/// A mapping written as its number of entries, then its entries in key order.
pub open spec fn enc_entries(m: Map<Seq<char>, Seq<char>>) -> Seq<u8> {
    enc_len(canonical(m).len()) + enc_pairs(canonical(m))
}

pub open spec fn enc_str_list(hs: Seq<Seq<char>>) -> Seq<u8>
    decreases hs.len(),
{
    if hs.len() == 0 {
        Seq::empty()
    } else {
        enc_str_list(hs.drop_last()) + enc_str(hs.last())
    }
}

pub open spec fn enc_strings(hs: Seq<Seq<char>>) -> Seq<u8> {
    enc_len(hs.len()) + enc_str_list(hs)
}

pub open spec fn kind_index(k: objecttype) -> nat {
    match k {
        objecttype::commit => 0,
        objecttype::tree => 1,
        objecttype::blob => 2,
    }
}

pub open spec fn enc_kind(k: objecttype) -> Seq<u8> {
    le_bytes(kind_index(k), 4)
}

/// The canonical encoding of a blob: name, contents, kind.
pub open spec fn blob_encoding(b: BlobModel) -> Seq<u8> {
    enc_str(b.name) + enc_bytes(b.contents) + enc_kind(objecttype::blob)
}

/// The canonical encoding of a tree: name, subtrees, blobs, kind.
pub open spec fn tree_encoding(t: TreeModel) -> Seq<u8> {
    enc_str(t.name) + enc_entries(t.trees) + enc_entries(t.blobs) + enc_kind(objecttype::tree)
}

/// The canonical encoding of a commit: its fields in declared order, then kind.
pub open spec fn commit_encoding(c: CommitModel) -> Seq<u8> {
    enc_strings(c.parents) + enc_strings(c.mergeparents) + enc_str(c.author) + enc_str(c.message)
        + enc_str(c.snapshot) + enc_kind(objecttype::commit)
}

#[verifier::opaque]
pub open spec fn blob_hash(b: BlobModel) -> Seq<char> {
    hash_of(blob_encoding(b))
}

#[verifier::opaque]
pub open spec fn tree_hash(t: TreeModel) -> Seq<char> {
    hash_of(tree_encoding(t))
}

#[verifier::opaque]
pub open spec fn commit_hash(c: CommitModel) -> Seq<char> {
    hash_of(commit_encoding(c))
}

fn write_le(out: &mut Vec<u8>, n: usize, k: usize)
    ensures
        final(out)@ == old(out)@ + le_bytes(n as nat, k as nat),
{
    let mut x: usize = n;
    let mut i: usize = 0;
    assert(old(out)@ + Seq::<u8>::empty() =~= old(out)@);
    while i < k
        invariant
            i <= k,
            out@ + le_bytes(x as nat, (k - i) as nat) == old(out)@ + le_bytes(n as nat, k as nat),
        decreases k - i,
    {
        let ghost before = out@;
        out.push((x % 256) as u8);
        proof {
            assert(le_bytes(x as nat, (k - i) as nat) == seq![(x % 256) as u8] + le_bytes(
                (x / 256) as nat,
                (k - i - 1) as nat,
            ));
            assert(out@ + le_bytes((x / 256) as nat, (k - i - 1) as nat) =~= before + le_bytes(
                x as nat,
                (k - i) as nat,
            ));
        }
        x = x / 256;
        i = i + 1;
    }
    assert(le_bytes(x as nat, 0) =~= Seq::<u8>::empty());
    assert(out@ =~= out@ + le_bytes(x as nat, 0));
}

fn write_bytes(out: &mut Vec<u8>, b: &[u8])
    ensures
        final(out)@ == old(out)@ + b@,
{
    let mut i: usize = 0;
    while i < b.len()
        invariant
            i <= b@.len(),
            out@ == old(out)@ + b@.subrange(0, i as int),
        decreases b@.len() - i,
    {
        out.push(b[i]);
        assert(b@.subrange(0, i + 1) =~= b@.subrange(0, i as int).push(b@[i as int]));
        i = i + 1;
    }
    assert(b@.subrange(0, b@.len() as int) =~= b@);
}

fn write_str(out: &mut Vec<u8>, s: &String)
    ensures
        final(out)@ == old(out)@ + enc_str(s@),
{
    let b = s.as_str().as_bytes();
    write_le(out, b.len(), 8);
    write_bytes(out, b);
    assert(final(out)@ =~= old(out)@ + enc_str(s@));
}

fn write_entries(out: &mut Vec<u8>, m: &StrMap<String>)
    ensures
        final(out)@ == old(out)@ + enc_entries(m@),
{
    proof {
        use_type_invariant(m);
        lemma_canonical(m.pairs());
    }
    let n = m.len();
    write_le(out, n, 8);
    let ghost start = out@;
    let mut i: usize = 0;
    assert(m.pairs().subrange(0, 0) =~= Seq::<(Seq<char>, Seq<char>)>::empty());
    while i < n
        invariant
            n == m.pairs().len(),
            i <= n,
            out@ == start + enc_pairs(m.pairs().subrange(0, i as int)),
        decreases n - i,
    {
        write_str(out, m.key_at(i));
        write_str(out, m.value_at(i));
        proof {
            let next = m.pairs().subrange(0, i + 1);
            assert(next.drop_last() =~= m.pairs().subrange(0, i as int));
        }
        i = i + 1;
    }
    assert(m.pairs().subrange(0, n as int) =~= m.pairs());
    assert(final(out)@ =~= old(out)@ + enc_entries(m@));
}

fn write_strings(out: &mut Vec<u8>, hs: &Vec<String>)
    ensures
        final(out)@ == old(out)@ + enc_strings(strings_view(hs@)),
{
    write_le(out, hs.len(), 8);
    let ghost start = out@;
    let ghost all = strings_view(hs@);
    let mut i: usize = 0;
    assert(all.subrange(0, 0) =~= Seq::<Seq<char>>::empty());
    while i < hs.len()
        invariant
            all == strings_view(hs@),
            i <= hs@.len(),
            out@ == start + enc_str_list(all.subrange(0, i as int)),
        decreases hs@.len() - i,
    {
        write_str(out, &hs[i]);
        proof {
            let next = all.subrange(0, i + 1);
            assert(next.drop_last() =~= all.subrange(0, i as int));
        }
        i = i + 1;
    }
    assert(all.subrange(0, hs@.len() as int) =~= all);
    assert(final(out)@ =~= old(out)@ + enc_strings(all));
}

fn write_kind(out: &mut Vec<u8>, k: objecttype)
    ensures
        final(out)@ == old(out)@ + enc_kind(k),
{
    let n: usize = match k {
        objecttype::commit => 0,
        objecttype::tree => 1,
        objecttype::blob => 2,
    };
    write_le(out, n, 4);
}

impl blob {
    /// An empty blob named `name`.
    pub fn new(name: String) -> (b: blob)
        ensures
            b.name@ == name@,
            b.contents@.len() == 0,
    {
        blob { name, contents: Vec::new() }
    }

    pub fn encode(&self) -> (r: Vec<u8>)
        ensures
            r@ == blob_encoding(self@),
    {
        let mut out: Vec<u8> = Vec::new();
        write_str(&mut out, &self.name);
        write_le(&mut out, self.contents.len(), 8);
        write_bytes(&mut out, self.contents.as_slice());
        write_kind(&mut out, objecttype::blob);
        assert(out@ =~= blob_encoding(self@));
        out
    }

    pub fn hash(&self) -> (r: String)
        ensures
            r@ == blob_hash(self@),
    {
        reveal(blob_hash);
        getSHA1(self.encode().as_slice())
    }
}

impl tree {
    /// An empty tree named `name`.
    pub fn new(name: String) -> (t: tree)
        ensures
            t.name@ == name@,
            t@.trees == Map::<Seq<char>, Seq<char>>::empty(),
            t@.blobs == Map::<Seq<char>, Seq<char>>::empty(),
    {
        tree { name, trees: StrMap::new(), blobs: StrMap::new() }
    }

    /// A tree named `name` with the entries of `self`.
    pub fn renamed_copy(&self, name: String) -> (t: tree)
        ensures
            t@ == (TreeModel { name: name@, ..self@ }),
    {
        tree { name, trees: self.trees.duplicate(), blobs: self.blobs.duplicate() }
    }

    pub fn encode(&self) -> (r: Vec<u8>)
        ensures
            r@ == tree_encoding(self@),
    {
        let mut out: Vec<u8> = Vec::new();
        write_str(&mut out, &self.name);
        write_entries(&mut out, &self.trees);
        write_entries(&mut out, &self.blobs);
        write_kind(&mut out, objecttype::tree);
        assert(out@ =~= tree_encoding(self@));
        out
    }

    pub fn hash(&self) -> (r: String)
        ensures
            r@ == tree_hash(self@),
    {
        reveal(tree_hash);
        getSHA1(self.encode().as_slice())
    }
}

impl Commit {
    /// The empty commit: no lineage, no author or message, and the empty root
    /// tree `"."` as its snapshot.
    pub fn new() -> (c: Commit)
        ensures
            c@.parents.len() == 0,
            c@.mergeparents.len() == 0,
            c@.author.len() == 0,
            c@.message.len() == 0,
            c@.snapshot == tree_hash(
                TreeModel { name: seq!['.'], trees: Map::empty(), blobs: Map::empty() },
            ),
    {
        proof {
            reveal_strlit(".");
        }
        let root = tree::new(String::from_str("."));
        assert(root.name@ =~= seq!['.']);
        assert(root@ == (TreeModel { name: seq!['.'], trees: Map::empty(), blobs: Map::empty() }));
        Commit {
            parents: Vec::new(),
            mergeparents: Vec::new(),
            author: String::new(),
            message: String::new(),
            snapshot: root.hash(),
        }
    }

    pub fn encode(&self) -> (r: Vec<u8>)
        ensures
            r@ == commit_encoding(self@),
    {
        let mut out: Vec<u8> = Vec::new();
        write_strings(&mut out, &self.parents);
        write_strings(&mut out, &self.mergeparents);
        write_str(&mut out, &self.author);
        write_str(&mut out, &self.message);
        write_str(&mut out, &self.snapshot);
        write_kind(&mut out, objecttype::commit);
        assert(out@ =~= commit_encoding(self@));
        out
    }

    pub fn hash(&self) -> (r: String)
        ensures
            r@ == commit_hash(self@),
    {
        reveal(commit_hash);
        getSHA1(self.encode().as_slice())
    }
}

} // verus!
