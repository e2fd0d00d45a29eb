use git_index::bytes::{bytes_eq, clone_bytes};
use git_index::commit::{branch_index_update, CommitRecord, CommitTree, Signature};
use git_index::discovery::{discover_step, project_list_entry, DirEntry};
use git_index::paths::{get_relative_path, join_path, path_file_name};
use git_index::refs::{filter_indexable_refs, is_branch_ref, is_indexable_ref, is_tag_ref};
use git_index::repo::{
    branch_index_ref, find_last_committed_time, repository_guard, take_repository,
    update_repository_metadata, OpenOutcome, RepoEntry, RepoRecord, RepositoryIndex,
};
use git_index::tags::{tag_index_delete, tag_index_scan, tag_index_update, GitTag, TagRecord};

fn sig(name: &str, time: i64) -> Signature {
    Signature {
        name: name.as_bytes().to_vec(),
        email: format!("{name}@example.com").into_bytes(),
        time,
    }
}

fn commit(hash: u8, time: i64) -> CommitRecord {
    CommitRecord {
        hash: vec![hash; 20],
        author: sig("alice", time),
        committer: sig("bob", time),
        message: format!("commit {hash}").into_bytes(),
    }
}

fn hashes(tree: &CommitTree) -> Vec<u8> {
    tree.records.iter().map(|r| r.hash[0]).collect()
}

#[test]
fn indexes_fresh_history_oldest_first() {
    let mut tree = CommitTree::new();
    let walk = vec![commit(1, 10), commit(2, 20), commit(3, 30)];
    let outcome = branch_index_update(&mut tree, &walk, false);
    assert_eq!(outcome.inserted, 3);
    assert!(!outcome.rebuilt);
    assert_eq!(tree.counter(), 3);
    assert_eq!(hashes(&tree), vec![1, 2, 3]);
    assert_eq!(tree.records[0].message, b"commit 1".to_vec());
}

#[test]
fn second_run_on_unchanged_history_writes_nothing() {
    let mut tree = CommitTree::new();
    let walk = vec![commit(1, 10), commit(2, 20), commit(3, 30)];
    branch_index_update(&mut tree, &walk, false);
    let outcome = branch_index_update(&mut tree, &walk, false);
    assert_eq!(outcome.inserted, 0);
    assert!(!outcome.rebuilt);
    assert_eq!(tree.counter(), 3);
    assert_eq!(hashes(&tree), vec![1, 2, 3]);
}

#[test]
fn fast_forward_appends_only_the_new_commits() {
    let mut tree = CommitTree::new();
    branch_index_update(&mut tree, &vec![commit(1, 10), commit(2, 20), commit(3, 30)], false);
    assert_eq!(tree.counter(), 3);
    let advanced = vec![commit(1, 10), commit(2, 20), commit(3, 30), commit(4, 40)];
    let outcome = branch_index_update(&mut tree, &advanced, false);
    assert_eq!(outcome.inserted, 1);
    assert!(!outcome.rebuilt);
    assert_eq!(tree.counter(), 4);
    assert_eq!(hashes(&tree), vec![1, 2, 3, 4]);
    // the new commit sits at sequence number 3, prior entries untouched
    assert_eq!(tree.records[3].hash, vec![4; 20]);
}

#[test]
fn force_push_converges_to_fresh_index() {
    let mut tree = CommitTree::new();
    branch_index_update(&mut tree, &vec![commit(1, 10), commit(2, 20), commit(3, 30)], false);
    // history rewritten: the old tip (3) is reachable nowhere from the new tip
    let rewritten = vec![commit(1, 10), commit(5, 50), commit(6, 60)];
    let outcome = branch_index_update(&mut tree, &rewritten, false);
    assert!(outcome.rebuilt);
    assert_eq!(outcome.inserted, 3);
    assert_eq!(hashes(&tree), vec![1, 5, 6]);

    // the result matches a fresh index of the same walk
    let mut fresh = CommitTree::new();
    branch_index_update(&mut fresh, &rewritten, false);
    assert_eq!(hashes(&fresh), hashes(&tree));
}

#[test]
fn forced_reindex_drops_and_rebuilds() {
    let mut tree = CommitTree::new();
    branch_index_update(&mut tree, &vec![commit(1, 10), commit(2, 20)], false);
    let walk = vec![commit(1, 10), commit(2, 20)];
    let outcome = branch_index_update(&mut tree, &walk, true);
    assert_eq!(outcome.inserted, 2);
    assert!(!outcome.rebuilt);
    assert_eq!(hashes(&tree), vec![1, 2]);
}

#[test]
fn tag_reconciliation_inserts_missing_and_deletes_stale() {
    let mut tag_tree = git_index::kvstore::KvStore::new();
    tag_index_update(
        &b"refs/tags/v1".to_vec(),
        Some(&TagRecord { tagger: Some(sig("carol", 1)) }),
        &mut tag_tree,
    );
    tag_index_update(
        &b"refs/tags/v3".to_vec(),
        Some(&TagRecord { tagger: Some(sig("carol", 3)) }),
        &mut tag_tree,
    );
    let git_tags = vec![
        GitTag { name: b"refs/tags/v1".to_vec(), peeled: Some(TagRecord { tagger: Some(sig("dave", 9)) }) },
        GitTag { name: b"refs/tags/v2".to_vec(), peeled: Some(TagRecord { tagger: Some(sig("erin", 2)) }) },
    ];
    tag_index_scan(&mut tag_tree, &git_tags);
    assert!(tag_tree.contains_key(&b"refs/tags/v1".to_vec()));
    assert!(tag_tree.contains_key(&b"refs/tags/v2".to_vec()));
    assert!(!tag_tree.contains_key(&b"refs/tags/v3".to_vec()));
    assert_eq!(tag_tree.len(), 2);
    // the record already indexed for v1 is untouched, not overwritten
    let v1 = tag_tree.get(&b"refs/tags/v1".to_vec()).unwrap();
    assert_eq!(v1.tagger.as_ref().unwrap().name, b"carol".to_vec());
    let v2 = tag_tree.get(&b"refs/tags/v2".to_vec()).unwrap();
    assert_eq!(v2.tagger.as_ref().unwrap().name, b"erin".to_vec());
}

#[test]
fn lightweight_tags_are_silently_skipped() {
    let mut tag_tree = git_index::kvstore::KvStore::new();
    let git_tags = vec![
        GitTag { name: b"refs/tags/light".to_vec(), peeled: None },
        GitTag { name: b"refs/tags/annotated".to_vec(), peeled: Some(TagRecord { tagger: None }) },
    ];
    tag_index_scan(&mut tag_tree, &git_tags);
    assert!(!tag_tree.contains_key(&b"refs/tags/light".to_vec()));
    assert!(tag_tree.contains_key(&b"refs/tags/annotated".to_vec()));
    assert_eq!(tag_tree.len(), 1);
}

#[test]
fn tag_delete_removes_only_the_named_tag() {
    let mut tag_tree = git_index::kvstore::KvStore::new();
    tag_index_update(&b"refs/tags/a".to_vec(), Some(&TagRecord { tagger: None }), &mut tag_tree);
    tag_index_update(&b"refs/tags/b".to_vec(), Some(&TagRecord { tagger: None }), &mut tag_tree);
    tag_index_delete(&b"refs/tags/a".to_vec(), &mut tag_tree);
    assert!(!tag_tree.contains_key(&b"refs/tags/a".to_vec()));
    assert!(tag_tree.contains_key(&b"refs/tags/b".to_vec()));
}

fn scanned_repository(index: &mut RepositoryIndex, path: &[u8]) -> u64 {
    update_repository_metadata(
        index,
        &path.to_vec(),
        b"repo".to_vec(),
        b"a description".to_vec(),
        Some(b"owner".to_vec()),
        &vec![100, 50],
        Some(b"refs/heads/main".to_vec()),
    )
}

#[test]
fn dangling_repository_loses_all_index_state() {
    let mut index = RepositoryIndex::new();
    let path = b"group/repo.git".to_vec();
    scanned_repository(&mut index, &path);

    // give it a commit log, a tag and heads, as a full run would
    let mut entry = take_repository(&mut index, &path).unwrap();
    branch_index_ref(&mut entry, &b"refs/heads/main".to_vec(), &vec![commit(1, 10)]);
    tag_index_update(&b"refs/tags/v1".to_vec(), Some(&TagRecord { tagger: None }), &mut entry.tags);
    entry.replace_heads(vec![b"refs/heads/main".to_vec(), b"refs/tags/v1".to_vec()]);
    git_index::repo::put_repository(&mut index, path.clone(), entry);

    // the project list no longer carries the path: everything is deleted
    let proceed = repository_guard(&mut index, &path, Some(false), OpenOutcome::Opened);
    assert!(!proceed);
    assert!(take_repository(&mut index, &path).is_none());
}

#[test]
fn transient_open_failure_deletes_nothing() {
    let mut index = RepositoryIndex::new();
    let path = b"repo.git".to_vec();
    scanned_repository(&mut index, &path);
    let proceed = repository_guard(&mut index, &path, None, OpenOutcome::Failed);
    assert!(!proceed);
    assert!(take_repository(&mut index, &path).is_some());
}

#[test]
fn live_repository_proceeds_untouched() {
    let mut index = RepositoryIndex::new();
    let path = b"repo.git".to_vec();
    scanned_repository(&mut index, &path);
    let proceed = repository_guard(&mut index, &path, Some(true), OpenOutcome::Opened);
    assert!(proceed);
    assert!(take_repository(&mut index, &path).is_some());
}

#[test]
fn renamed_repository_gets_a_fresh_identity() {
    let mut index = RepositoryIndex::new();
    let old_path = b"old.git".to_vec();
    let old_id = scanned_repository(&mut index, &old_path);

    // no project list; the old path fails to open with not-found
    let proceed = repository_guard(&mut index, &old_path, None, OpenOutcome::NotFound);
    assert!(!proceed);
    assert!(take_repository(&mut index, &old_path).is_none());

    // the new path is discovered as a brand-new repository
    let new_path = b"new.git".to_vec();
    let new_id = scanned_repository(&mut index, &new_path);
    assert_ne!(old_id, new_id);
}

#[test]
fn metadata_sync_keeps_id_and_index_state_of_a_known_path() {
    let mut index = RepositoryIndex::new();
    let path = b"repo.git".to_vec();
    let id = scanned_repository(&mut index, &path);

    let mut entry = take_repository(&mut index, &path).unwrap();
    assert_eq!(entry.record.description, Some(b"a description".to_vec()));
    assert_eq!(entry.record.owner, Some(b"owner".to_vec()));
    assert_eq!(entry.record.last_modified, 100);
    branch_index_ref(&mut entry, &b"refs/heads/main".to_vec(), &vec![commit(1, 10)]);
    git_index::repo::put_repository(&mut index, path.clone(), entry);

    // a later scan with an empty description replaces the record in full
    let id2 = update_repository_metadata(
        &mut index,
        &path,
        b"repo".to_vec(),
        Vec::new(),
        None,
        &Vec::new(),
        None,
    );
    assert_eq!(id, id2);
    let entry = take_repository(&mut index, &path).unwrap();
    assert_eq!(entry.record.description, None);
    assert_eq!(entry.record.owner, None);
    assert_eq!(entry.record.last_modified, 0);
    // the commit log survived the metadata update
    let tree = entry.trees.get(&b"refs/heads/main".to_vec()).unwrap();
    assert_eq!(tree.counter(), 1);
}

#[test]
fn per_reference_indexing_carries_state_in_the_entry() {
    let mut entry = RepoEntry::new(RepoRecord {
        id: 0,
        name: b"repo".to_vec(),
        description: None,
        owner: None,
        last_modified: 0,
        default_branch: None,
    });
    let main = b"refs/heads/main".to_vec();
    branch_index_ref(&mut entry, &main, &vec![commit(1, 10), commit(2, 20), commit(3, 30)]);
    let outcome = branch_index_ref(
        &mut entry,
        &main,
        &vec![commit(1, 10), commit(2, 20), commit(3, 30), commit(4, 40)],
    );
    assert_eq!(outcome.inserted, 1);
    let tree = entry.trees.get(&main).unwrap();
    assert_eq!(tree.counter(), 4);
    assert_eq!(hashes(tree), vec![1, 2, 3, 4]);
}

#[test]
fn heads_list_is_replaced_wholesale() {
    let mut entry = RepoEntry::new(RepoRecord {
        id: 0,
        name: b"repo".to_vec(),
        description: None,
        owner: None,
        last_modified: 0,
        default_branch: None,
    });
    entry.replace_heads(vec![b"refs/heads/main".to_vec(), b"refs/tags/v1".to_vec()]);
    entry.replace_heads(vec![b"refs/heads/dev".to_vec()]);
    assert_eq!(entry.heads, vec![b"refs/heads/dev".to_vec()]);
}

#[test]
fn relative_paths_strip_the_scan_root() {
    let root = b"/srv/git".to_vec();
    assert_eq!(
        get_relative_path(&root, &b"/srv/git/group/repo.git".to_vec()),
        Some(b"group/repo.git".to_vec())
    );
    assert_eq!(get_relative_path(&root, &b"/srv/git".to_vec()), Some(Vec::new()));
    assert_eq!(get_relative_path(&root, &b"/other/repo.git".to_vec()), None);
    assert_eq!(get_relative_path(&root, &b"/srv".to_vec()), None);
}

#[test]
fn join_then_strip_is_identity() {
    let root = b"/srv/git".to_vec();
    let rel = b"repo.git".to_vec();
    let full = join_path(&root, &rel);
    assert_eq!(full, b"/srv/git/repo.git".to_vec());
    assert_eq!(get_relative_path(&root, &full), Some(rel));
}

#[test]
fn repository_name_is_the_last_path_component() {
    assert_eq!(path_file_name(&b"group/repo.git".to_vec()), Some(b"repo.git".to_vec()));
    assert_eq!(path_file_name(&b"repo.git".to_vec()), Some(b"repo.git".to_vec()));
    assert_eq!(path_file_name(&b"group/".to_vec()), None);
    assert_eq!(path_file_name(&Vec::new()), None);
}

#[test]
fn project_list_lines_join_the_root_and_skip_empties() {
    let root = b"/srv/git".to_vec();
    assert_eq!(
        project_list_entry(&root, &b"repo.git\n".to_vec()),
        Some(b"/srv/git/repo.git".to_vec())
    );
    assert_eq!(
        project_list_entry(&root, &b"repo.git\r\n".to_vec()),
        Some(b"/srv/git/repo.git".to_vec())
    );
    assert_eq!(
        project_list_entry(&root, &b"repo.git".to_vec()),
        Some(b"/srv/git/repo.git".to_vec())
    );
    assert_eq!(project_list_entry(&root, &b"\n".to_vec()), None);
    assert_eq!(project_list_entry(&root, &b"\r\n".to_vec()), None);
    assert_eq!(project_list_entry(&root, &Vec::new()), None);
}

#[test]
fn directory_walk_takes_bare_leaves_and_recurses_into_the_rest() {
    let mut pending: Vec<Vec<u8>> = Vec::new();
    let mut discovered: Vec<Vec<u8>> = Vec::new();
    let entries = vec![
        DirEntry { path: b"/srv/git/a.git".to_vec(), is_dir: true, has_packed_refs: true },
        DirEntry { path: b"/srv/git/group".to_vec(), is_dir: true, has_packed_refs: false },
        DirEntry { path: b"/srv/git/README".to_vec(), is_dir: false, has_packed_refs: false },
    ];
    discover_step(&entries, &mut pending, &mut discovered);
    assert_eq!(discovered, vec![b"/srv/git/a.git".to_vec()]);
    assert_eq!(pending, vec![b"/srv/git/group".to_vec()]);
}

#[test]
fn last_committed_time_is_the_latest_never_before_the_epoch() {
    assert_eq!(find_last_committed_time(&Vec::new()), 0);
    assert_eq!(find_last_committed_time(&vec![-5, -1]), 0);
    assert_eq!(find_last_committed_time(&vec![30, 10, 20]), 30);
}

#[test]
fn only_branches_and_tags_are_indexable() {
    assert!(is_branch_ref(&b"refs/heads/main".to_vec()));
    assert!(!is_branch_ref(&b"refs/tags/v1".to_vec()));
    assert!(is_tag_ref(&b"refs/tags/v1".to_vec()));
    assert!(is_indexable_ref(&b"refs/heads/main".to_vec()));
    assert!(is_indexable_ref(&b"refs/tags/v1".to_vec()));
    assert!(!is_indexable_ref(&b"refs/remotes/origin/main".to_vec()));
    assert!(!is_indexable_ref(&b"HEAD".to_vec()));
    assert!(!is_indexable_ref(&b"refs/heads".to_vec()));
}

#[test]
fn heads_are_the_indexable_references_in_order() {
    let names = vec![
        b"HEAD".to_vec(),
        b"refs/heads/main".to_vec(),
        b"refs/remotes/origin/main".to_vec(),
        b"refs/tags/v1".to_vec(),
    ];
    assert_eq!(
        filter_indexable_refs(&names),
        vec![b"refs/heads/main".to_vec(), b"refs/tags/v1".to_vec()]
    );
}

#[test]
fn inserting_an_existing_key_replaces_the_value_in_full() {
    let mut tag_tree = git_index::kvstore::KvStore::new();
    tag_index_update(&b"refs/tags/a".to_vec(), Some(&TagRecord { tagger: Some(sig("carol", 1)) }), &mut tag_tree);
    tag_index_update(&b"refs/tags/a".to_vec(), Some(&TagRecord { tagger: Some(sig("dave", 2)) }), &mut tag_tree);
    assert_eq!(tag_tree.len(), 1);
    let a = tag_tree.get(&b"refs/tags/a".to_vec()).unwrap();
    assert_eq!(a.tagger.as_ref().unwrap().name, b"dave".to_vec());
}

#[test]
fn byte_utilities_compare_and_copy() {
    let a = b"abc".to_vec();
    let b = clone_bytes(&a);
    assert!(bytes_eq(&a, &b));
    assert!(!bytes_eq(&a, &b"abd".to_vec()));
    assert!(!bytes_eq(&a, &b"ab".to_vec()));
}
