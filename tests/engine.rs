use pit::command::{
    head_ref_for, ignore_entries, is_ignored, resolve_target, staged_added, AddArgs, AddCommand,
    CommitArgs, CommitCommand, MergeArgs, MergeCommand,
};
use pit::commit::build_commit;
use pit::diff::{classify_entry, diff_file, diff_trees, EntryChange, EntryStatus, FileChange, LineTag};
use pit::error::PitError;
use pit::index::StagingIndex;
use pit::merge::{ancestry, decide_merge, merge, merge_branch};
use pit::object::{blob_object, commit_object, parse_blob, parse_commit, parse_tree, tree_object, ObjectKind, TreeEntry};
use pit::store::ObjectStore;
use pit::tree::{segments_of, Tree};

fn sha1(s: &str) -> String {
    chksum_sha1::hash(s).to_hex_lowercase()
}

fn s(x: &str) -> String {
    x.to_string()
}

/// A store and index with `a.txt` holding `content` committed with `message`
/// on top of `parent`; returns the commit digest.
fn commit_file(store: &mut ObjectStore, path: &str, content: &str, parent: &str, message: &str) -> String {
    let mut index = StagingIndex::new();
    index.stage_file(store, s(path), content);
    build_commit(store, &index, &s(parent), &s(message)).unwrap()
}

#[test]
fn put_then_get_returns_content() {
    let mut store = ObjectStore::new();
    let text = s("some text\nwith lines");
    let d = store.put(text.clone());
    assert_eq!(d, sha1("some text\nwith lines"));
    assert_eq!(store.get(&d), Ok(text));
}

#[test]
fn put_twice_is_idempotent() {
    let mut store = ObjectStore::new();
    let d1 = store.put(s("x"));
    let d2 = store.put(s("x"));
    assert_eq!(d1, d2);
    assert_eq!(store.len(), 1);
}

#[test]
fn get_missing_is_not_found() {
    let store = ObjectStore::new();
    assert_eq!(store.get(&s("0123")), Err(PitError::NotFound));
}

#[test]
fn staging_same_path_twice_keeps_one_entry() {
    let mut store = ObjectStore::new();
    let mut index = StagingIndex::new();
    let d1 = index.stage_file(&mut store, s("a.txt"), "one");
    let d2 = index.stage_file(&mut store, s("a.txt"), "two");
    assert_ne!(d1, d2);
    assert_eq!(index.len(), 1);
    let (p, d) = index.get(0);
    assert_eq!(p, "a.txt");
    assert_eq!(*d, d2);
}

#[test]
fn staging_keeps_order_of_other_paths() {
    let mut store = ObjectStore::new();
    let mut index = StagingIndex::new();
    index.stage_file(&mut store, s("a.txt"), "1");
    index.stage_file(&mut store, s("b.txt"), "2");
    let d3 = index.stage_file(&mut store, s("a.txt"), "3");
    assert_eq!(index.len(), 2);
    assert_eq!(index.get(0).0, "b.txt");
    assert_eq!(*index.get(1).1, d3);
}

#[test]
fn index_reloads_from_digests() {
    let mut store = ObjectStore::new();
    let mut index = StagingIndex::new();
    index.stage_file(&mut store, s("a.txt"), "1");
    index.stage_file(&mut store, s("dir/b.txt"), "2");
    let mut ds = index.digests();
    ds.push(s("not-a-digest"));
    let again = StagingIndex::load(&store, &ds);
    assert_eq!(again.len(), 2);
    assert_eq!(again.get(1).0, "dir/b.txt");
}

#[test]
fn first_commit_objects() {
    let mut store = ObjectStore::new();
    let mut index = StagingIndex::new();
    let h1 = index.stage_file(&mut store, s("a.txt"), "hello");
    assert_eq!(h1, sha1("hello\n\na.txt\n\nblob"));
    assert_eq!(h1.len(), 40);
    assert!(h1.chars().all(|c| c.is_ascii_digit() || ('a'..='f').contains(&c)));
    let c = build_commit(&mut store, &index, &s(""), &s("first")).unwrap();
    let tree_text = format!("blob {} a.txt\n\n.\n\ntree", h1);
    let ht = sha1(&tree_text);
    assert_eq!(store.get(&ht), Ok(tree_text));
    let commit_text = format!("tree {}\nparent \n\nfirst\n\ncommit", ht);
    assert_eq!(c, sha1(&commit_text));
    assert_eq!(store.get(&c), Ok(commit_text));
}

#[test]
fn commit_with_empty_index_after_prior_commit() {
    let mut store = ObjectStore::new();
    let c = commit_file(&mut store, "a.txt", "hello", "", "first");
    let index = StagingIndex::new();
    assert_eq!(build_commit(&mut store, &index, &c, &s("again")), Err(PitError::NothingToCommit));
}

#[test]
fn commit_with_blank_message() {
    let mut store = ObjectStore::new();
    let mut index = StagingIndex::new();
    index.stage_file(&mut store, s("a.txt"), "hello");
    assert_eq!(build_commit(&mut store, &index, &s(""), &s("")), Err(PitError::EmptyInput));
}

#[test]
fn commit_with_whitespace_message() {
    let mut store = ObjectStore::new();
    let mut index = StagingIndex::new();
    index.stage_file(&mut store, s("a.txt"), "hello");
    let before = store.len();
    assert_eq!(build_commit(&mut store, &index, &s(""), &s(" ")), Err(PitError::EmptyInput));
    assert_eq!(build_commit(&mut store, &index, &s(""), &s(" \t\r\n")), Err(PitError::EmptyInput));
    assert_eq!(store.len(), before);
    assert!(build_commit(&mut store, &index, &s(""), &s(" x ")).is_ok());
}

#[test]
fn commit_of_unchanged_file_is_nothing_to_commit() {
    let mut store = ObjectStore::new();
    let c = commit_file(&mut store, "a.txt", "hello", "", "first");
    let mut index = StagingIndex::new();
    index.stage_file(&mut store, s("a.txt"), "hello");
    assert_eq!(build_commit(&mut store, &index, &c, &s("same")), Err(PitError::NothingToCommit));
}

#[test]
fn second_commit_names_parent_and_nested_tree() {
    let mut store = ObjectStore::new();
    let c1 = commit_file(&mut store, "a.txt", "hello", "", "first");
    let c2 = commit_file(&mut store, "src/b.txt", "bee", &c1, "second");
    let text = store.get(&c2).unwrap();
    let (tree, parent) = parse_commit(&text).unwrap();
    assert_eq!(parent, c1);
    let t = Tree::load(&store, &c2);
    assert_eq!(t.node(0).hash, tree);
    assert_eq!(t.len(), 4);
    let paths: Vec<String> = (0..t.len()).map(|i| t.node(i).path.clone()).collect();
    assert_eq!(paths, vec![s("."), s("a.txt"), s("src"), s("src/b.txt")]);
    assert_eq!(t.node(2).kind, ObjectKind::Tree);
    assert_eq!(t.node(3).name, "b.txt");
}

#[test]
fn working_diff_without_changes_is_unchanged() {
    let mut store = ObjectStore::new();
    let c = commit_file(&mut store, "a.txt", "hello\nworld\n", "", "first");
    let t = Tree::load(&store, &c);
    let files = t.tracked_files();
    assert_eq!(files.len(), 1);
    let node = t.node(files[0]);
    match diff_file(&store, &node.hash, Some(s("hello\nworld\n"))) {
        FileChange::Unchanged => {}
        other => panic!("expected no change, got {:?}", other),
    }
}

#[test]
fn working_diff_reports_changed_lines() {
    let mut store = ObjectStore::new();
    let c = commit_file(&mut store, "a.txt", "one\ntwo\n", "", "first");
    let t = Tree::load(&store, &c);
    let node = t.node(t.tracked_files()[0]);
    match diff_file(&store, &node.hash, Some(s("one\nthree\n"))) {
        FileChange::Modified(lines) => {
            let got: Vec<(LineTag, String)> = lines.into_iter().map(|l| (l.tag, l.text)).collect();
            assert_eq!(
                got,
                vec![
                    (LineTag::Equal, s("one\n")),
                    (LineTag::Delete, s("two\n")),
                    (LineTag::Insert, s("three\n")),
                ]
            );
        }
        other => panic!("expected a modification, got {:?}", other),
    }
}

#[test]
fn working_diff_missing_file_is_deleted() {
    let mut store = ObjectStore::new();
    let c = commit_file(&mut store, "a.txt", "x", "", "first");
    let t = Tree::load(&store, &c);
    let node = t.node(t.tracked_files()[0]);
    assert!(matches!(diff_file(&store, &node.hash, None), FileChange::Deleted));
    assert!(matches!(diff_file(&store, &s("nothing"), Some(s("x"))), FileChange::Unreadable));
}

#[test]
fn commit_diff_with_itself_is_empty() {
    let mut store = ObjectStore::new();
    let c1 = commit_file(&mut store, "a.txt", "hello", "", "first");
    let c2 = commit_file(&mut store, "src/b.txt", "bee", &c1, "second");
    let t = Tree::load(&store, &c2);
    let u = Tree::load(&store, &c2);
    assert!(diff_trees(&store, &t, &u).is_empty());
}

#[test]
fn commit_diff_reports_added_and_modified() {
    let mut store = ObjectStore::new();
    let c1 = commit_file(&mut store, "a.txt", "old\n", "", "first");
    let mut index = StagingIndex::new();
    index.stage_file(&mut store, s("a.txt"), "new\n");
    index.stage_file(&mut store, s("b.txt"), "bee\n");
    let c2 = build_commit(&mut store, &index, &c1, &s("second")).unwrap();
    let t2 = Tree::load(&store, &c2);
    let t1 = Tree::load(&store, &c1);
    let changes = diff_trees(&store, &t2, &t1);
    assert_eq!(changes.len(), 2);
    assert_eq!(changes[0].path, "a.txt");
    match &changes[0].change {
        EntryChange::Modified(lines) => {
            assert_eq!(lines.len(), 2);
            assert_eq!(lines[0].tag, LineTag::Delete);
            assert_eq!(lines[0].text, "old\n");
            assert_eq!(lines[1].tag, LineTag::Insert);
            assert_eq!(lines[1].text, "new\n");
        }
        other => panic!("expected a modification, got {:?}", other),
    }
    assert_eq!(changes[1].path, "b.txt");
    assert!(matches!(changes[1].change, EntryChange::Added));
}

#[test]
fn merge_fast_forwards_to_descendant() {
    let mut store = ObjectStore::new();
    let c1 = commit_file(&mut store, "a.txt", "1", "", "first");
    let c2 = commit_file(&mut store, "a.txt", "2", &c1, "second");
    let c3 = commit_file(&mut store, "a.txt", "3", &c2, "third");
    assert_eq!(merge(&store, &c1, &c3), Ok(c3.clone()));
    assert_eq!(merge(&store, &c3, &c1), Err(PitError::NothingToMerge));
    assert_eq!(merge(&store, &c2, &c2), Err(PitError::NothingToMerge));
}

#[test]
fn merge_of_divergent_branches_fails() {
    let mut store = ObjectStore::new();
    let c1 = commit_file(&mut store, "a.txt", "1", "", "first");
    let left = commit_file(&mut store, "a.txt", "left", &c1, "left");
    let right = commit_file(&mut store, "a.txt", "right", &c1, "right");
    assert_eq!(merge(&store, &left, &right), Err(PitError::NoSimpleMerge));
    let other_root = commit_file(&mut store, "b.txt", "b", "", "elsewhere");
    assert_eq!(merge(&store, &left, &other_root), Err(PitError::NoSimpleMerge));
}

#[test]
fn merge_of_missing_branch() {
    let mut store = ObjectStore::new();
    let c1 = commit_file(&mut store, "a.txt", "1", "", "first");
    assert_eq!(merge_branch(&store, &c1, None), Err(PitError::BranchNotFound));
    assert_eq!(merge_branch(&store, &c1, Some(c1.clone())), Err(PitError::NothingToMerge));
    let c2 = commit_file(&mut store, "a.txt", "2", &c1, "second");
    assert_eq!(merge_branch(&store, &c1, Some(c2.clone())), Ok(c2));
}

#[test]
fn merge_with_empty_branch() {
    let mut store = ObjectStore::new();
    let c1 = commit_file(&mut store, "a.txt", "1", "", "first");
    assert_eq!(merge(&store, &s(""), &c1), Err(PitError::EmptyBranch));
    assert_eq!(merge(&store, &c1, &s("")), Err(PitError::EmptyBranch));
}

#[test]
fn ancestry_of_missing_or_broken_commit() {
    let mut store = ObjectStore::new();
    assert_eq!(ancestry(&store, &s("abc")), Err(PitError::NotFound));
    let blob = store.put(s("not a commit"));
    assert_eq!(ancestry(&store, &blob), Err(PitError::Corrupted));
    let c1 = commit_file(&mut store, "a.txt", "1", "", "first");
    let c2 = commit_file(&mut store, "a.txt", "2", &c1, "second");
    assert_eq!(ancestry(&store, &c2), Ok(vec![c1, c2]));
}

#[test]
fn decide_merge_on_chains() {
    let a = vec![s("r"), s("x")];
    let b = vec![s("r"), s("x"), s("y")];
    assert_eq!(decide_merge(&a, &b), Ok(s("y")));
    assert_eq!(decide_merge(&b, &a), Err(PitError::NothingToMerge));
    assert_eq!(decide_merge(&a, &vec![s("r"), s("z")]), Err(PitError::NoSimpleMerge));
    assert_eq!(decide_merge(&vec![], &a), Err(PitError::EmptyBranch));
}

#[test]
fn loading_twice_gives_same_tree() {
    let mut store = ObjectStore::new();
    let c1 = commit_file(&mut store, "a.txt", "hello", "", "first");
    let c2 = commit_file(&mut store, "x/y/z.txt", "deep", &c1, "second");
    let t = Tree::load(&store, &c2);
    let u = Tree::load(&store, &c2);
    assert_eq!(t.len(), u.len());
    for i in 0..t.len() {
        assert_eq!(t.node(i).hash, u.node(i).hash);
        assert_eq!(t.node(i).path, u.node(i).path);
        assert_eq!(t.node(i).children, u.node(i).children);
    }
}

#[test]
fn loading_missing_commit_gives_empty_root() {
    let store = ObjectStore::new();
    let t = Tree::load(&store, &s(""));
    assert_eq!(t.len(), 1);
    assert_eq!(t.node(0).path, ".");
    assert_eq!(t.node(0).hash, "");
}

#[test]
fn loading_without_history_tracks_nothing() {
    let mut store = ObjectStore::new();
    commit_file(&mut store, "a.txt", "hello", "", "first");
    for missing in ["", "0123456789abcdef0123456789abcdef01234567"] {
        let t = Tree::load(&store, &s(missing));
        assert_eq!(t.len(), 1);
        assert!(t.tracked_files().is_empty());
    }
}

#[test]
fn object_texts_and_parsers() {
    let b = blob_object("line\n", "dir/f.txt");
    assert_eq!(b, "line\n\n\ndir/f.txt\n\nblob");
    assert_eq!(parse_blob(&b), Some((s("line\n"), s("dir/f.txt"))));
    assert_eq!(parse_blob("no blob here"), None);
    let entries = vec![
        TreeEntry { kind: ObjectKind::Blob, hash: s("aa"), path: s("./f") },
        TreeEntry { kind: ObjectKind::Tree, hash: s("bb"), path: s("./d") },
    ];
    let t = tree_object(&entries, ".");
    assert_eq!(t, "blob aa ./f\n\ntree bb ./d\n\n.\n\ntree");
    let parsed = parse_tree(&t);
    assert_eq!(parsed.len(), 2);
    assert_eq!(parsed[1].kind, ObjectKind::Tree);
    assert_eq!(parsed[1].hash, "bb");
    assert_eq!(parsed[0].path, "./f");
    let c = commit_object("tt", "pp", "msg");
    assert_eq!(c, "tree tt\nparent pp\n\nmsg\n\ncommit");
    assert_eq!(parse_commit(&c), Some((s("tt"), s("pp"))));
    assert_eq!(parse_commit("tree x"), None);
}

#[test]
fn path_segments_skip_dots() {
    assert_eq!(segments_of("./src/a.txt"), vec![s("src"), s("a.txt")]);
    assert_eq!(segments_of("a.txt"), vec![s("a.txt")]);
}

#[test]
fn ignore_rules() {
    let top = ignore_entries(&s("./"), "target\n\n*.log\n");
    assert_eq!(top, vec![s("./target"), s("./*.log")]);
    let crlf = ignore_entries(&s("./"), "target\r\nout\r\n");
    assert_eq!(crlf, vec![s("./target"), s("./out")]);
    let sub = ignore_entries(&s("./src"), "gen");
    assert_eq!(sub, vec![s("./src/gen")]);
    assert!(is_ignored(&top, &s("target")));
    assert!(is_ignored(&top, &s("./target")));
    assert!(!is_ignored(&top, &s("src")));
}

#[test]
fn refs_and_targets() {
    assert_eq!(head_ref_for(&s("main")), "refs/main");
    let mut store = ObjectStore::new();
    let d = store.put(s("object"));
    assert_eq!(resolve_target(&store, &s("dev"), Some(s("abc"))), "abc");
    assert_eq!(resolve_target(&store, &d, None), d);
    assert_eq!(resolve_target(&store, &s("nope"), None), "");
}

#[test]
fn status_marks_added_and_modified() {
    let mut store = ObjectStore::new();
    let c = commit_file(&mut store, "a.txt", "1", "", "first");
    let mut index = StagingIndex::new();
    index.stage_file(&mut store, s("a.txt"), "2");
    index.stage_file(&mut store, s("new.txt"), "n");
    let mut t = Tree::load(&store, &c);
    assert_eq!(staged_added(&mut t, &index), vec![false, true]);
}

#[test]
fn commands_keep_their_arguments() {
    let add = AddCommand::new(AddArgs { directory: vec![s("a.txt")] });
    assert_eq!(add.arguments.directory, vec![s("a.txt")]);
    let commit = CommitCommand::new(CommitArgs { message: s("m") });
    assert_eq!(commit.arguments.message, "m");
    let merge = MergeCommand::new(MergeArgs { branch: s("dev") });
    assert_eq!(merge.arguments.branch, "dev");
}

#[test]
fn working_entries_are_classified() {
    let mut store = ObjectStore::new();
    let c1 = commit_file(&mut store, "a.txt", "1", "", "first");
    let c2 = commit_file(&mut store, "src/b.txt", "bee", &c1, "second");
    let t = Tree::load(&store, &c2);
    assert_eq!(classify_entry(&store, &t, 0, &s("a.txt"), false, Some(s("1"))), EntryStatus::Clean);
    assert_eq!(classify_entry(&store, &t, 0, &s("a.txt"), false, Some(s("2"))), EntryStatus::Modified);
    assert_eq!(classify_entry(&store, &t, 0, &s("new.txt"), false, Some(s("n"))), EntryStatus::Untracked);
    let src = t.node_with_path(&s("src")).unwrap();
    assert_eq!(classify_entry(&store, &t, 0, &s("src"), true, None), EntryStatus::Descend(src));
    assert_eq!(classify_entry(&store, &t, src, &s("src/b.txt"), false, Some(s("bee"))), EntryStatus::Clean);
}
