use gitc::{
    gitAdd, gitBranch, gitCheckout, gitCommit, gitMerge, gitRm, blob, Commit, GitError, Objects,
    HEAD,
};

fn s(x: &str) -> String {
    x.to_string()
}

fn fresh() -> (HEAD, Objects) {
    (HEAD::init(), Objects::new())
}

fn index_of<'a>(head: &'a HEAD, branch: &str) -> &'a gitc::StrMap<String> {
    &head.branch.get(&s(branch)).unwrap().references.refermap
}

fn tip<'a>(head: &HEAD, objects: &'a Objects, branch: &str) -> &'a Commit {
    let h = head.branch.get(&s(branch)).unwrap().commitpointer.clone().unwrap();
    objects.commitmap.get(&h).unwrap()
}

fn message_of(objects: &Objects, hash: &String) -> String {
    objects.commitmap.get(hash).unwrap().message.clone()
}

#[test]
fn add_test() {
    let (mut head, mut objects) = fresh();
    assert_eq!(gitAdd(s("./hello.txt"), b"hello".to_vec(), &mut objects, &mut head), Ok(true));
    assert_eq!(gitAdd(s("./demo/demo1.txt"), b"demo one".to_vec(), &mut objects, &mut head), Ok(true));
    assert_eq!(objects.blobmap.len(), 2);
    let idx = index_of(&head, "master");
    assert!(idx.contains_key(&s("./hello.txt")));
    assert!(idx.contains_key(&s("./demo/demo1.txt")));
    assert!(idx.contains_key(&s("./demo")));
    assert!(idx.contains_key(&s(".")));
    let root = objects.treemap.get(idx.get(&s(".")).unwrap()).unwrap();
    assert!(root.blobs.contains_key(&s("./hello.txt")));
    assert!(root.trees.contains_key(&s("./demo")));
    let demo = objects.treemap.get(root.trees.get(&s("./demo")).unwrap()).unwrap();
    assert_eq!(demo.blobs.get(&s("./demo/demo1.txt")), idx.get(&s("./demo/demo1.txt")));
}

#[test]
fn add_test_save() {
    let (mut head, mut objects) = fresh();
    assert_eq!(gitAdd(s("./hello.txt"), b"hello".to_vec(), &mut objects, &mut head), Ok(true));
    assert_eq!(gitAdd(s("./demo/demo1.txt"), b"demo one".to_vec(), &mut objects, &mut head), Ok(true));
    // what a caller persists for each blob: its encoding, under its hash
    for i in 0..objects.blobmap.len() {
        let b = objects.blobmap.value_at(i);
        assert_eq!(&b.hash(), objects.blobmap.key_at(i));
        assert_eq!(b.hash().len(), 40);
        assert!(!b.encode().is_empty());
    }
}

#[test]
fn rm_test() {
    let (mut head, mut objects) = fresh();
    gitAdd(s("./hello.txt"), b"hello".to_vec(), &mut objects, &mut head).unwrap();
    gitAdd(s("./demo/demo1.txt"), b"demo one".to_vec(), &mut objects, &mut head).unwrap();
    assert_eq!(gitRm(s("./hello.txt"), &mut objects, &mut head), Ok(()));
    assert_eq!(objects.blobmap.len(), 1);
    let idx = index_of(&head, "master");
    assert!(!idx.contains_key(&s("./hello.txt")));
    let root = objects.treemap.get(idx.get(&s(".")).unwrap()).unwrap();
    assert!(!root.blobs.contains_key(&s("./hello.txt")));
    assert!(root.trees.contains_key(&s("./demo")));
}

#[test]
fn commit_test() {
    let (mut head, mut objects) = fresh();
    gitAdd(s("./hello.txt"), b"hello".to_vec(), &mut objects, &mut head).unwrap();
    gitAdd(s("./demo/demo1.txt"), b"demo one".to_vec(), &mut objects, &mut head).unwrap();
    assert_eq!(gitCommit(&mut head, &mut objects, "master_first", "alex"), Ok(()));
    assert_eq!(objects.commitmap.len(), 1);
    let c = tip(&head, &objects, "master");
    assert_eq!(c.message, "master_first");
    assert_eq!(c.author, "alex");
    assert!(c.parents.is_empty());
    assert!(c.mergeparents.is_empty());
    let idx = index_of(&head, "master");
    assert_eq!(&c.snapshot, idx.get(&s(".")).unwrap());
    assert_eq!(idx.get(&s("master_first")), head.branch.get(&s("master")).unwrap().commitpointer.as_ref());
}

#[test]
fn branch_test() {
    let (mut head, mut objects) = fresh();
    gitAdd(s("./hello.txt"), b"hello".to_vec(), &mut objects, &mut head).unwrap();
    gitAdd(s("./demo/demo1.txt"), b"demo one".to_vec(), &mut objects, &mut head).unwrap();
    gitCommit(&mut head, &mut objects, "master_first", "alex").unwrap();
    assert_eq!(gitBranch(&mut head, s("b1")), Ok(()));
    assert_eq!(gitCheckout(&mut head, s("b1")), Ok(()));
    assert_eq!(head.showAllBranch(), vec![s("b1"), s("master")]);
    let branch1 = head.branch.get(&s("master")).unwrap();
    let branch2 = head.branch.get(&s("b1")).unwrap();
    assert_eq!(branch1.commitpointer, branch2.commitpointer);
    assert_eq!(branch1.references, branch2.references);
    gitAdd(s("./hello1.txt"), b"hello again".to_vec(), &mut objects, &mut head).unwrap();
    gitCommit(&mut head, &mut objects, "b1_first", "alex").unwrap();
    assert!(!index_of(&head, "master").contains_key(&s("./hello1.txt")));
    assert!(index_of(&head, "b1").contains_key(&s("./hello1.txt")));
    assert_eq!(objects.commitmap.len(), 2);
}

#[test]
fn merge_test() {
    let (mut head, mut objects) = fresh();
    gitAdd(s("./hello.txt"), b"hello".to_vec(), &mut objects, &mut head).unwrap();
    gitAdd(s("./demo/demo1.txt"), b"demo one".to_vec(), &mut objects, &mut head).unwrap();
    gitCommit(&mut head, &mut objects, "master_first", "alex").unwrap();
    gitBranch(&mut head, s("b1")).unwrap();
    gitCheckout(&mut head, s("b1")).unwrap();
    gitAdd(s("./hello1.txt"), b"hello again".to_vec(), &mut objects, &mut head).unwrap();
    gitCommit(&mut head, &mut objects, "b1_first", "alex").unwrap();
    gitCheckout(&mut head, s("master")).unwrap();
    assert_eq!(gitMerge(&mut head, s("b1"), "merge_master_b1", "alex", &mut objects), Ok(()));
    let c = tip(&head, &objects, "master");
    assert_eq!(c.message, "merge_master_b1");
    let parents: Vec<String> = c.parents.iter().map(|h| message_of(&objects, h)).collect();
    assert_eq!(parents, vec![s("master_first")]);
    let merge_parents: Vec<String> = c.mergeparents.iter().map(|h| message_of(&objects, h)).collect();
    assert_eq!(merge_parents, vec![s("master_first"), s("b1_first")]);
    let root = objects.treemap.get(&c.snapshot).unwrap();
    assert!(root.blobs.contains_key(&s("./hello.txt")));
    assert!(root.blobs.contains_key(&s("./hello1.txt")));
    assert!(root.trees.contains_key(&s("./demo")));
    let idx = index_of(&head, "master");
    assert!(idx.contains_key(&s("./hello1.txt")));
    assert_eq!(idx.get(&s(".")), Some(&c.snapshot));
}

#[test]
fn blob_new_is_empty() {
    let b = blob::new(s("x"));
    assert_eq!(b.name, "x");
    assert!(b.contents.is_empty());
}

#[test]
fn errors_leave_state_alone() {
    let (mut head, mut objects) = fresh();
    assert_eq!(gitCheckout(&mut head, s("nope")), Err(GitError::NotFound));
    assert_eq!(gitCommit(&mut head, &mut objects, "empty", "alex"), Err(GitError::NotFound));
    assert_eq!(gitRm(s("./missing.txt"), &mut objects, &mut head), Err(GitError::NotFound));
    gitBranch(&mut head, s("b1")).unwrap();
    assert_eq!(gitBranch(&mut head, s("b1")), Err(GitError::AlreadyExists));
    assert_eq!(gitMerge(&mut head, s("zz"), "m", "alex", &mut objects), Err(GitError::NotFound));
    assert_eq!(head.currentBranchName, "master");
    assert_eq!(objects, Objects::new());
}

#[test]
fn missing_current_branch_is_not_found() {
    let mut head = HEAD::new();
    let mut objects = Objects::new();
    assert_eq!(gitAdd(s("a"), vec![1], &mut objects, &mut head), Err(GitError::NotFound));
    assert_eq!(gitBranch(&mut head, s("b")), Err(GitError::NotFound));
}

#[test]
fn rm_without_staged_ancestor_is_not_found() {
    let (mut head, mut objects) = fresh();
    gitAdd(s("./hello.txt"), b"hello".to_vec(), &mut objects, &mut head).unwrap();
    let mut br = head.branch.remove(&s("master")).unwrap();
    br.references.refermap.remove(&s("."));
    head.branch.insert(s("master"), br);
    let blobs_before = objects.blobmap.len();
    assert_eq!(gitRm(s("./hello.txt"), &mut objects, &mut head), Err(GitError::NotFound));
    assert_eq!(objects.blobmap.len(), blobs_before);
    assert!(index_of(&head, "master").contains_key(&s("./hello.txt")));
}

#[test]
fn commit_with_unstored_tip_is_precondition_violated() {
    let (mut head, mut objects) = fresh();
    gitAdd(s("a.txt"), b"hi".to_vec(), &mut objects, &mut head).unwrap();
    let mut br = head.branch.remove(&s("master")).unwrap();
    br.commitpointer = Some(s("0000"));
    head.branch.insert(s("master"), br);
    assert_eq!(gitCommit(&mut head, &mut objects, "c", "alex"), Err(GitError::PreconditionViolated));
}

#[test]
fn merge_from_the_initial_commit() {
    let (mut head, mut objects) = fresh();
    gitBranch(&mut head, s("f")).unwrap();
    gitCheckout(&mut head, s("f")).unwrap();
    gitAdd(s("a.txt"), b"a".to_vec(), &mut objects, &mut head).unwrap();
    gitCommit(&mut head, &mut objects, "on f", "alex").unwrap();
    let f_tip = head.branch.get(&s("f")).unwrap().commitpointer.clone().unwrap();
    gitCheckout(&mut head, s("master")).unwrap();
    assert_eq!(gitMerge(&mut head, s("f"), "merge f", "alex", &mut objects), Ok(()));
    let c = tip(&head, &objects, "master");
    assert!(c.parents.is_empty());
    assert_eq!(c.mergeparents, vec![f_tip]);
    let root = objects.treemap.get(&c.snapshot).unwrap();
    assert!(root.blobs.contains_key(&s("a.txt")));
    assert!(index_of(&head, "master").contains_key(&s("a.txt")));
}

#[test]
fn merge_with_unstored_tip_is_precondition_violated() {
    let (mut head, mut objects) = fresh();
    gitBranch(&mut head, s("b1")).unwrap();
    let mut br = head.branch.remove(&s("b1")).unwrap();
    br.commitpointer = Some(s("0000"));
    head.branch.insert(s("b1"), br);
    assert_eq!(
        gitMerge(&mut head, s("b1"), "m", "alex", &mut objects),
        Err(GitError::PreconditionViolated)
    );
    assert_eq!(objects, Objects::new());
}

#[test]
fn rm_of_unstaged_path_named_like_a_blob_is_not_found() {
    let (mut head, mut objects) = fresh();
    gitAdd(s("a.txt"), b"a".to_vec(), &mut objects, &mut head).unwrap();
    let key = objects.blobmap.key_at(0).clone();
    let blobs_before = objects.blobmap.len();
    assert_eq!(gitRm(key.clone(), &mut objects, &mut head), Err(GitError::NotFound));
    assert_eq!(objects.blobmap.len(), blobs_before);
    assert!(objects.blobmap.contains_key(&key));
}

#[test]
fn restaging_old_content_points_index_back() {
    let (mut head, mut objects) = fresh();
    gitAdd(s("a.txt"), b"one".to_vec(), &mut objects, &mut head).unwrap();
    let first = index_of(&head, "master").get(&s("a.txt")).unwrap().clone();
    let root_first = index_of(&head, "master").get(&s(".")).unwrap().clone();
    gitAdd(s("a.txt"), b"two".to_vec(), &mut objects, &mut head).unwrap();
    assert_ne!(index_of(&head, "master").get(&s("a.txt")), Some(&first));
    assert_eq!(gitAdd(s("a.txt"), b"one".to_vec(), &mut objects, &mut head), Ok(false));
    assert_eq!(index_of(&head, "master").get(&s("a.txt")), Some(&first));
    assert_eq!(index_of(&head, "master").get(&s(".")), Some(&root_first));
}
