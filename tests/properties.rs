use gitc::{
    fatherName, getSHA1, gitAdd, gitBranch, gitCheckout, gitCommit, gitMerge, hex_digest,
    load_reference, load_reference_tree, tree, Commit, GitError, Objects, References, StrMap,
    HEAD,
};

fn s(x: &str) -> String {
    x.to_string()
}

fn index_of<'a>(head: &'a HEAD, branch: &str) -> &'a StrMap<String> {
    &head.branch.get(&s(branch)).unwrap().references.refermap
}

fn tip<'a>(head: &HEAD, objects: &'a Objects, branch: &str) -> &'a Commit {
    let h = head.branch.get(&s(branch)).unwrap().commitpointer.clone().unwrap();
    objects.commitmap.get(&h).unwrap()
}

fn subtree<'a>(objects: &'a Objects, t: &tree, name: &str) -> &'a tree {
    objects.treemap.get(t.trees.get(&s(name)).unwrap()).unwrap()
}

#[test]
fn re_adding_same_content_stores_one_blob() {
    let mut head = HEAD::init();
    let mut objects = Objects::new();
    assert_eq!(gitAdd(s("./a.txt"), b"same".to_vec(), &mut objects, &mut head), Ok(true));
    let head_after: Vec<String> = index_of(&head, "master").get(&s(".")).into_iter().cloned().collect();
    let trees_after = objects.treemap.len();
    assert_eq!(gitAdd(s("./a.txt"), b"same".to_vec(), &mut objects, &mut head), Ok(false));
    assert_eq!(objects.blobmap.len(), 1);
    assert_eq!(objects.treemap.len(), trees_after);
    let again: Vec<String> = index_of(&head, "master").get(&s(".")).into_iter().cloned().collect();
    assert_eq!(head_after, again);
}

#[test]
fn tree_hash_depends_on_content_not_insertion_order() {
    let mut t1 = tree::new(s("."));
    t1.blobs.insert(s("b"), s("2"));
    t1.blobs.insert(s("a"), s("1"));
    t1.trees.insert(s("d"), s("3"));
    let mut t2 = tree::new(s("."));
    t2.trees.insert(s("d"), s("3"));
    t2.blobs.insert(s("a"), s("1"));
    t2.blobs.insert(s("b"), s("2"));
    assert_eq!(t1.hash(), t2.hash());
    assert_eq!(t1.hash(), t1.hash());
    t2.blobs.insert(s("b"), s("9"));
    assert_ne!(t1.hash(), t2.hash());
}

#[test]
fn changing_a_file_rehashes_its_ancestors_only() {
    let mut head = HEAD::init();
    let mut objects = Objects::new();
    gitAdd(s("x/y/f.txt"), b"one".to_vec(), &mut objects, &mut head).unwrap();
    gitAdd(s("z/g.txt"), b"other".to_vec(), &mut objects, &mut head).unwrap();
    let before: Vec<Option<String>> = ["x/y", "x", ".", "z", "z/g.txt"]
        .iter()
        .map(|k| index_of(&head, "master").get(&s(k)).cloned())
        .collect();
    gitAdd(s("x/y/f.txt"), b"two".to_vec(), &mut objects, &mut head).unwrap();
    let after: Vec<Option<String>> = ["x/y", "x", ".", "z", "z/g.txt"]
        .iter()
        .map(|k| index_of(&head, "master").get(&s(k)).cloned())
        .collect();
    assert_ne!(before[0], after[0]);
    assert_ne!(before[1], after[1]);
    assert_ne!(before[2], after[2]);
    assert_eq!(before[3], after[3]);
    assert_eq!(before[4], after[4]);
}

#[test]
fn commits_chain_their_lineage() {
    let mut head = HEAD::init();
    let mut objects = Objects::new();
    gitAdd(s("a.txt"), b"1".to_vec(), &mut objects, &mut head).unwrap();
    gitCommit(&mut head, &mut objects, "c1", "me").unwrap();
    let c1 = head.branch.get(&s("master")).unwrap().commitpointer.clone().unwrap();
    assert!(tip(&head, &objects, "master").parents.is_empty());
    gitAdd(s("a.txt"), b"2".to_vec(), &mut objects, &mut head).unwrap();
    gitCommit(&mut head, &mut objects, "c2", "me").unwrap();
    let c2 = head.branch.get(&s("master")).unwrap().commitpointer.clone().unwrap();
    assert_eq!(tip(&head, &objects, "master").parents, vec![c1.clone()]);
    gitAdd(s("a.txt"), b"3".to_vec(), &mut objects, &mut head).unwrap();
    gitCommit(&mut head, &mut objects, "c3", "me").unwrap();
    assert_eq!(tip(&head, &objects, "master").parents, vec![c1, c2]);
}

#[test]
fn fork_copies_pointer_and_index_independently() {
    let mut head = HEAD::init();
    let mut objects = Objects::new();
    gitAdd(s("a.txt"), b"1".to_vec(), &mut objects, &mut head).unwrap();
    gitCommit(&mut head, &mut objects, "c1", "me").unwrap();
    gitBranch(&mut head, s("f")).unwrap();
    assert_eq!(head.currentBranchName, "master");
    {
        let a = head.branch.get(&s("master")).unwrap();
        let b = head.branch.get(&s("f")).unwrap();
        assert_eq!(a.commitpointer, b.commitpointer);
        assert_eq!(a.references, b.references);
        assert_eq!(b.name, "f");
    }
    let master_index_before = head.branch.get(&s("master")).unwrap().references.refermap.len();
    gitCheckout(&mut head, s("f")).unwrap();
    gitAdd(s("b.txt"), b"2".to_vec(), &mut objects, &mut head).unwrap();
    assert_eq!(index_of(&head, "master").len(), master_index_before);
    assert!(!index_of(&head, "master").contains_key(&s("b.txt")));
}

fn two_branch_setup(main_path: &str, main_content: &[u8], other_path: &str, other_content: &[u8]) -> (HEAD, Objects) {
    let mut head = HEAD::init();
    let mut objects = Objects::new();
    gitAdd(s("base.txt"), b"base".to_vec(), &mut objects, &mut head).unwrap();
    gitCommit(&mut head, &mut objects, "base", "me").unwrap();
    gitBranch(&mut head, s("other")).unwrap();
    gitAdd(s(main_path), main_content.to_vec(), &mut objects, &mut head).unwrap();
    gitCommit(&mut head, &mut objects, "on main", "me").unwrap();
    gitCheckout(&mut head, s("other")).unwrap();
    gitAdd(s(other_path), other_content.to_vec(), &mut objects, &mut head).unwrap();
    gitCommit(&mut head, &mut objects, "on other", "me").unwrap();
    gitCheckout(&mut head, s("master")).unwrap();
    gitMerge(&mut head, s("other"), "merged", "me", &mut objects).unwrap();
    (head, objects)
}

#[test]
fn merge_unites_disjoint_paths() {
    let (head, objects) = two_branch_setup("m/one.txt", b"1", "m/two.txt", b"2");
    let root = objects.treemap.get(&tip(&head, &objects, "master").snapshot).unwrap();
    assert!(root.blobs.contains_key(&s("base.txt")));
    let m = subtree(&objects, root, "m");
    assert!(m.blobs.contains_key(&s("m/one.txt")));
    assert!(m.blobs.contains_key(&s("m/two.txt")));
    let idx = index_of(&head, "master");
    for p in ["base.txt", "m/one.txt", "m/two.txt", "m", "."] {
        assert!(idx.contains_key(&s(p)), "{}", p);
    }
    let two = idx.get(&s("m/two.txt")).unwrap();
    assert_eq!(objects.blobmap.get(two).unwrap().contents, b"2".to_vec());
}

#[test]
fn merge_keeps_main_version_on_conflict() {
    let (head, objects) = two_branch_setup("c.txt", b"main", "c.txt", b"other");
    let root = objects.treemap.get(&tip(&head, &objects, "master").snapshot).unwrap();
    let h = root.blobs.get(&s("c.txt")).unwrap();
    assert_eq!(objects.blobmap.get(h).unwrap().contents, b"main".to_vec());
}

#[test]
fn end_to_end_scenario() {
    let mut head = HEAD::init();
    let mut objects = Objects::new();
    gitAdd(s("a.txt"), b"hi".to_vec(), &mut objects, &mut head).unwrap();
    gitAdd(s("dir/b.txt"), b"yo".to_vec(), &mut objects, &mut head).unwrap();
    gitCommit(&mut head, &mut objects, "m1", "me").unwrap();
    gitBranch(&mut head, s("f1")).unwrap();
    gitCheckout(&mut head, s("f1")).unwrap();
    gitAdd(s("c.txt"), b"ok".to_vec(), &mut objects, &mut head).unwrap();
    gitCommit(&mut head, &mut objects, "f1c1", "me").unwrap();
    let f1c1 = head.branch.get(&s("f1")).unwrap().commitpointer.clone().unwrap();
    gitCheckout(&mut head, s("master")).unwrap();
    gitMerge(&mut head, s("f1"), "merged", "me", &mut objects).unwrap();
    let c = tip(&head, &objects, "master");
    assert!(c.mergeparents.contains(&f1c1));
    let root = objects.treemap.get(&c.snapshot).unwrap();
    assert!(root.blobs.contains_key(&s("a.txt")));
    assert!(root.blobs.contains_key(&s("c.txt")));
    assert!(subtree(&objects, root, "dir").blobs.contains_key(&s("dir/b.txt")));
}

#[test]
fn parent_paths() {
    assert_eq!(fatherName("./demo/demo1.txt"), "./demo");
    assert_eq!(fatherName("./demo"), ".");
    assert_eq!(fatherName("./hello.txt"), ".");
    assert_eq!(fatherName("a.txt"), ".");
    assert_eq!(fatherName("dir/b.txt"), "dir");
    assert_eq!(fatherName("."), "");
}

#[test]
fn digest_is_written_low_nibble_first() {
    assert_eq!(hex_digest(&[0x1f, 0xa0]), "f10a");
    assert_eq!(getSHA1(b""), "ad933aeee5b6b4d02355fbfe59068109fa8d7090");
    assert_eq!(getSHA1(b"abc").len(), 40);
}

#[test]
fn blob_encoding_layout() {
    let mut b = gitc::blob::new(s("a"));
    b.contents = vec![7, 8];
    assert_eq!(
        b.encode(),
        vec![1, 0, 0, 0, 0, 0, 0, 0, b'a', 2, 0, 0, 0, 0, 0, 0, 0, 7, 8, 2, 0, 0, 0]
    );
}

#[test]
fn empty_commit_points_at_empty_root() {
    let c = Commit::new();
    assert!(c.parents.is_empty() && c.message.is_empty());
    assert_eq!(c.snapshot, tree::new(s(".")).hash());
}

#[test]
fn references_read_and_update() {
    let mut r = References::new();
    assert_eq!(r.read_reference(s("k")), Err(GitError::NotFound));
    r.update_reference(s("k"), s("v"));
    r.update_reference(s("k"), s("w"));
    assert_eq!(r.read_reference(s("k")), Ok(s("w")));
}

#[test]
fn load_by_index_or_by_hash() {
    let mut head = HEAD::init();
    let mut objects = Objects::new();
    gitAdd(s("a.txt"), b"hi".to_vec(), &mut objects, &mut head).unwrap();
    let refs = &head.branch.get(&s("master")).unwrap().references;
    let b = load_reference(refs, &objects, s("a.txt")).unwrap();
    assert_eq!(b.contents, b"hi".to_vec());
    let h = refs.read_reference(s("a.txt")).unwrap();
    assert_eq!(load_reference(refs, &objects, h).unwrap().name, "a.txt");
    assert_eq!(load_reference(refs, &objects, s("nothing")), Err(GitError::NotFound));
    let root = load_reference_tree(refs, &objects, s(".")).unwrap();
    assert!(root.blobs.contains_key(&s("a.txt")));
    assert_eq!(load_reference_tree(refs, &objects, s("a.txt")), Err(GitError::NotFound));
}

#[test]
fn str_map_keeps_keys_sorted() {
    let mut m: StrMap<String> = StrMap::new();
    m.insert(s("b"), s("2"));
    m.insert(s("a"), s("1"));
    m.insert(s("c"), s("3"));
    m.insert(s("b"), s("22"));
    let keys: Vec<String> = (0..m.len()).map(|i| m.key_at(i).clone()).collect();
    assert_eq!(keys, vec![s("a"), s("b"), s("c")]);
    assert_eq!(m.get(&s("b")), Some(&s("22")));
    assert_eq!(m.remove(&s("a")), Some(s("1")));
    assert_eq!(m.remove(&s("a")), None);
    assert_eq!(m.len(), 2);
}
