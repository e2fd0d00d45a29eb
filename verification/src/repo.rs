use vstd::prelude::*;
use crate::bytes::{clone_bytes, views_of_bytes};
use crate::commit::{CommitTree, CommitView};
use crate::kvstore::{KvStore, lemma_map_of_dom, lemma_map_of_get, lemma_map_of_push,
    lemma_map_of_remove};
use crate::tags::{TagTree, TagView};

verus! {

/// View of an optional byte vector.
pub open spec fn opt_bytes_view(o: Option<Vec<u8>>) -> Option<Seq<u8>> {
    match o {
        Some(v) => Some(v@),
        None => None,
    }
}

/// The descriptive record kept for one on-disk repository, keyed by its
/// path relative to the scan root.
pub struct RepoRecord {
    pub id: u64,
    pub name: Vec<u8>,
    pub description: Option<Vec<u8>>,
    pub owner: Option<Vec<u8>>,
    pub last_modified: i64,
    pub default_branch: Option<Vec<u8>>,
}

pub ghost struct RepoRecordView {
    pub id: u64,
    pub name: Seq<u8>,
    pub description: Option<Seq<u8>>,
    pub owner: Option<Seq<u8>>,
    pub last_modified: i64,
    pub default_branch: Option<Seq<u8>>,
}

impl View for RepoRecord {
    type V = RepoRecordView;

    open spec fn view(&self) -> RepoRecordView {
        RepoRecordView {
            id: self.id,
            name: self.name@,
            description: opt_bytes_view(self.description),
            owner: opt_bytes_view(self.owner),
            last_modified: self.last_modified,
            default_branch: opt_bytes_view(self.default_branch),
        }
    }
}

/// Everything the index holds for one repository: its metadata record, one
/// commit log per reference, its tag map, and its current heads list.
pub struct RepoEntry {
    pub record: RepoRecord,
    pub trees: KvStore<CommitTree>,
    pub tags: TagTree,
    pub heads: Vec<Vec<u8>>,
}

pub ghost struct RepoEntryView {
    pub record: RepoRecordView,
    pub trees: Map<Seq<u8>, Seq<CommitView>>,
    pub tags: Map<Seq<u8>, TagView>,
    pub heads: Seq<Seq<u8>>,
}

impl View for RepoEntry {
    type V = RepoEntryView;

    open spec fn view(&self) -> RepoEntryView {
        RepoEntryView {
            record: self.record@,
            trees: self.trees@,
            tags: self.tags@,
            heads: views_of_bytes(self.heads@),
        }
    }
}

impl RepoEntry {
    pub open spec fn wf(&self) -> bool {
        self.trees.wf() && self.tags.wf()
    }

    /// A fresh entry for a newly discovered repository: no commit logs, no
    /// tags, no heads yet.
    pub fn new(record: RepoRecord) -> (e: RepoEntry)
        ensures
            e.wf(),
            e@ == (RepoEntryView {
                record: record@,
                trees: Map::<Seq<u8>, Seq<CommitView>>::empty(),
                tags: Map::<Seq<u8>, TagView>::empty(),
                heads: Seq::<Seq<u8>>::empty(),
            }),
    {
        let e = RepoEntry {
            record,
            trees: KvStore::new(),
            tags: KvStore::new(),
            heads: Vec::new(),
        };
        proof {
            assert(views_of_bytes(e.heads@) =~= Seq::<Seq<u8>>::empty());
        }
        e
    }

    /// Hands out the commit log of one reference for indexing, leaving the
    /// slot empty; a reference not indexed yet gets an empty log.
    pub fn take_commit_tree(&mut self, reference_name: &Vec<u8>) -> (t: CommitTree)
        requires
            old(self).wf(),
        ensures
            final(self).wf(),
            t@ == if old(self)@.trees.dom().contains(reference_name@) {
                old(self)@.trees[reference_name@]
            } else {
                Seq::<CommitView>::empty()
            },
            final(self)@.trees == old(self)@.trees.remove(reference_name@),
            final(self)@.record == old(self)@.record,
            final(self)@.tags == old(self)@.tags,
            final(self)@.heads == old(self)@.heads,
    {
        match self.trees.remove(reference_name) {
            Some(t) => t,
            None => CommitTree::new(),
        }
    }

    /// Puts a reference's commit log back after indexing.
    pub fn put_commit_tree(&mut self, reference_name: Vec<u8>, tree: CommitTree)
        requires
            old(self).wf(),
        ensures
            final(self).wf(),
            final(self)@.trees == old(self)@.trees.insert(reference_name@, tree@),
            final(self)@.record == old(self)@.record,
            final(self)@.tags == old(self)@.tags,
            final(self)@.heads == old(self)@.heads,
    {
        self.trees.insert(reference_name, tree);
    }

    /// Replaces the repository's heads list wholesale with the reference
    /// names observed during the latest pass.
    pub fn replace_heads(&mut self, valid_references: Vec<Vec<u8>>)
        requires
            old(self).wf(),
        ensures
            final(self).wf(),
            final(self)@.heads == views_of_bytes(valid_references@),
            final(self)@.record == old(self)@.record,
            final(self)@.trees == old(self)@.trees,
            final(self)@.tags == old(self)@.tags,
    {
        self.heads = valid_references;
    }
}

/// The whole persisted index: one entry per known repository, keyed by path
/// relative to the scan root, and the next unused repository id.
pub struct RepositoryIndex {
    pub repos: KvStore<RepoEntry>,
    pub next_id: u64,
}

pub ghost struct RepositoryIndexView {
    pub repos: Map<Seq<u8>, RepoEntryView>,
    pub next_id: u64,
}

impl View for RepositoryIndex {
    type V = RepositoryIndexView;

    open spec fn view(&self) -> RepositoryIndexView {
        RepositoryIndexView { repos: self.repos@, next_id: self.next_id }
    }
}

impl RepositoryIndex {
    pub open spec fn wf(&self) -> bool {
        &&& self.repos.wf()
        &&& forall|i: int| 0 <= i < self.repos.entries@.len() ==> self.repos.entries@[i].1.wf()
        &&& forall|i: int|
            0 <= i < self.repos.entries@.len() ==> self.repos.entries@[i].1.record.id
                < self.next_id
    }

    pub fn new() -> (index: RepositoryIndex)
        ensures
            index.wf(),
            index@.repos == Map::<Seq<u8>, RepoEntryView>::empty(),
            index@.next_id == 0,
    {
        RepositoryIndex { repos: KvStore::new(), next_id: 0 }
    }
}

/// Hands out one repository's whole index state, removing it; the caller
/// puts it back with [`put_repository`] once done.
pub fn take_repository(index: &mut RepositoryIndex, relative_path: &Vec<u8>) -> (r: Option<
    RepoEntry,
>)
    requires
        old(index).wf(),
    ensures
        final(index).wf(),
        final(index)@.next_id == old(index)@.next_id,
        final(index)@.repos == old(index)@.repos.remove(relative_path@),
        match r {
            Some(e) => e.wf() && e.record.id < old(index)@.next_id && old(
                index,
            )@.repos.dom().contains(relative_path@) && e@ == old(index)@.repos[relative_path@],
            None => !old(index)@.repos.dom().contains(relative_path@) && final(index)@ == old(
                index,
            )@,
        },
{
    proof {
        lemma_map_of_dom(index.repos.entries@, relative_path@);
    }
    match index.repos.find_idx(relative_path) {
        Some(i) => {
            proof {
                lemma_map_of_get(index.repos.entries@, i as int);
                lemma_map_of_remove(index.repos.entries@, i as int);
            }
            let ghost pre = index.repos.entries@;
            let (_, e) = index.repos.entries.remove(i);
            proof {
                assert(e.wf());
                assert forall|a: int, b: int|
                    0 <= a < b < index.repos.entries@.len() implies index.repos.entries@[a].0@
                    != index.repos.entries@[b].0@ by {
                    let a0 = if a < i as int { a } else { a + 1 };
                    let b0 = if b < i as int { b } else { b + 1 };
                    assert(index.repos.entries@[a] == pre[a0]);
                    assert(index.repos.entries@[b] == pre[b0]);
                }
                assert forall|k: int|
                    0 <= k < index.repos.entries@.len() implies index.repos.entries@[k].1.wf()
                    && index.repos.entries@[k].1.record.id < index.next_id by {
                    let k0 = if k < i as int { k } else { k + 1 };
                    assert(index.repos.entries@[k] == pre[k0]);
                }
            }
            Some(e)
        },
        None => {
            proof {
                assert(old(index)@.repos.remove(relative_path@) =~= old(index)@.repos);
            }
            None
        },
    }
}

/// Puts a repository's index state (back) in under its relative path.
pub fn put_repository(index: &mut RepositoryIndex, relative_path: Vec<u8>, entry: RepoEntry)
    requires
        old(index).wf(),
        entry.wf(),
        entry.record.id < old(index).next_id,
        !old(index)@.repos.dom().contains(relative_path@),
    ensures
        final(index).wf(),
        final(index)@.next_id == old(index)@.next_id,
        final(index)@.repos == old(index)@.repos.insert(relative_path@, entry@),
{
    proof {
        lemma_map_of_dom(index.repos.entries@, relative_path@);
        lemma_map_of_push(index.repos.entries@, relative_path, entry);
    }
    let ghost pre = index.repos.entries@;
    index.repos.entries.push((relative_path, entry));
    proof {
        assert forall|a: int, b: int|
            0 <= a < b < index.repos.entries@.len() implies index.repos.entries@[a].0@
            != index.repos.entries@[b].0@ by {
            assert(index.repos.entries@[a] == pre[a]);
            if b < index.repos.entries@.len() - 1 {
                assert(index.repos.entries@[b] == pre[b]);
            }
        }
        assert forall|k: int|
            0 <= k < index.repos.entries@.len() implies index.repos.entries@[k].1.wf()
            && index.repos.entries@[k].1.record.id < index.next_id by {
            if k < index.repos.entries@.len() - 1 {
                assert(index.repos.entries@[k] == pre[k]);
            }
        }
    }
}

/// Law: a repository id is assigned once and never reused. Every id stored
/// in a well-formed index lies below the next unused one, so the id a fresh
/// discovery allocates — the next unused one — differs from every stored
/// id: a path move reads as delete plus create, with no identity carried
/// over.
pub proof fn lemma_fresh_id_unassigned(index: RepositoryIndex)
    requires
        index.wf(),
    ensures
        forall|p: Seq<u8>| #![auto]
            index@.repos.dom().contains(p) ==> index@.repos[p].record.id < index@.next_id,
{
    assert forall|p: Seq<u8>| #![auto]
        index@.repos.dom().contains(p) implies index@.repos[p].record.id < index@.next_id by {
        lemma_map_of_dom(index.repos.entries@, p);
        let i = choose|i: int|
            0 <= i < index.repos.entries@.len() && index.repos.entries@[i].0@ == p;
        lemma_map_of_get(index.repos.entries@, i);
        assert(index@.repos[p] == index.repos.entries@[i].1@);
    }
}

/// The latest committer time over the commits reachable from any reference
/// of a repository, in seconds since the epoch; the epoch itself when there
/// is no later commit, or none at all.
pub open spec fn spec_last_committed_time(times: Seq<i64>) -> i64
    decreases times.len(),
{
    if times.len() == 0 {
        0
    } else {
        let rest = spec_last_committed_time(times.drop_last());
        if times.last() > rest {
            times.last()
        } else {
            rest
        }
    }
}

/// Folds the committer times of a repository's reachable commits into its
/// `last_modified` stamp.
pub fn find_last_committed_time(committer_times: &Vec<i64>) -> (t: i64)
    ensures
        t == spec_last_committed_time(committer_times@),
{
    let mut t: i64 = 0;
    let mut i: usize = 0;
    while i < committer_times.len()
        invariant
            i <= committer_times@.len(),
            t == spec_last_committed_time(committer_times@.take(i as int)),
        decreases committer_times@.len() - i,
    {
        proof {
            assert(committer_times@.take(i as int + 1).drop_last() =~= committer_times@.take(
                i as int,
            ));
            assert(committer_times@.take(i as int + 1).last() == committer_times@[i as int]);
        }
        if committer_times[i] > t {
            t = committer_times[i];
        }
        i += 1;
    }
    proof {
        assert(committer_times@.take(committer_times@.len() as int) =~= committer_times@);
    }
    t
}

/// One repository's metadata synchronization: reuses the stored id when the
/// relative path is already known, allocates the next one otherwise, and
/// replaces the metadata record in full — an empty description reads as "no
/// description", `last_modified` is the latest committer time over the given
/// reachable commits. Commit logs, tags and heads of a known repository are
/// left untouched. Returns the repository's id.
pub fn update_repository_metadata(
    index: &mut RepositoryIndex,
    relative_path: &Vec<u8>,
    name: Vec<u8>,
    description: Vec<u8>,
    owner: Option<Vec<u8>>,
    committer_times: &Vec<i64>,
    default_branch: Option<Vec<u8>>,
) -> (id: u64)
    requires
        old(index).wf(),
        old(index).next_id < u64::MAX,
    ensures
        final(index).wf(),
        final(index)@.repos.dom().contains(relative_path@),
        final(index)@.repos.remove(relative_path@) == old(index)@.repos.remove(relative_path@),
        ({
            let entry_v = final(index)@.repos[relative_path@];
            &&& entry_v.record.id == id
            &&& entry_v.record.name == name@
            &&& entry_v.record.description == (if description@.len() == 0 {
                None::<Seq<u8>>
            } else {
                Some(description@)
            })
            &&& entry_v.record.owner == opt_bytes_view(owner)
            &&& entry_v.record.last_modified == spec_last_committed_time(committer_times@)
            &&& entry_v.record.default_branch == opt_bytes_view(default_branch)
            &&& if old(index)@.repos.dom().contains(relative_path@) {
                let prior = old(index)@.repos[relative_path@];
                &&& id == prior.record.id
                &&& entry_v.trees == prior.trees
                &&& entry_v.tags == prior.tags
                &&& entry_v.heads == prior.heads
                &&& final(index)@.next_id == old(index)@.next_id
            } else {
                &&& id == old(index)@.next_id
                &&& entry_v.trees == Map::<Seq<u8>, Seq<CommitView>>::empty()
                &&& entry_v.tags == Map::<Seq<u8>, TagView>::empty()
                &&& entry_v.heads == Seq::<Seq<u8>>::empty()
                &&& final(index)@.next_id == old(index)@.next_id + 1
            }
        }),
{
    let taken = take_repository(index, relative_path);
    let last_modified = find_last_committed_time(committer_times);
    let description = if description.len() == 0 {
        None
    } else {
        Some(description)
    };
    match taken {
        Some(e) => {
            let id = e.record.id;
            let record = RepoRecord { id, name, description, owner, last_modified, default_branch };
            let entry = RepoEntry { record, trees: e.trees, tags: e.tags, heads: e.heads };
            put_repository(index, clone_bytes(relative_path), entry);
            proof {
                assert(index@.repos.remove(relative_path@) =~= old(index)@.repos.remove(
                    relative_path@,
                ));
            }
            id
        },
        None => {
            let id = index.next_id;
            index.next_id = index.next_id + 1;
            let record = RepoRecord { id, name, description, owner, last_modified, default_branch };
            let entry = RepoEntry::new(record);
            put_repository(index, clone_bytes(relative_path), entry);
            proof {
                assert(index@.repos.remove(relative_path@) =~= old(index)@.repos.remove(
                    relative_path@,
                ));
            }
            id
        },
    }
}

/// One indexing invocation for one reference of a repository, against the
/// state the repository's entry carries: the reference's stored commit log
/// (an empty one when the reference is new) is brought up to date with the
/// walk from the reference's tip, converged history rebuilt from scratch,
/// and stored back under the reference name.
pub fn branch_index_ref(
    entry: &mut RepoEntry,
    reference_name: &Vec<u8>,
    walk: &Vec<crate::commit::CommitRecord>,
) -> (outcome: crate::commit::IndexOutcome)
    requires
        old(entry).wf(),
        walk@.len() >= 1,
    ensures
        final(entry).wf(),
        ({
            let prior = if old(entry)@.trees.dom().contains(reference_name@) {
                old(entry)@.trees[reference_name@]
            } else {
                Seq::<CommitView>::empty()
            };
            let walk_v = crate::commit::views_of_commits(walk@);
            &&& final(entry)@.trees == old(entry)@.trees.insert(
                reference_name@,
                crate::commit::spec_branch_index(prior, walk_v, false),
            )
            &&& outcome.inserted as int == crate::commit::spec_inserted(prior, walk_v, false)
            &&& outcome.rebuilt == crate::commit::spec_converged(prior, walk_v, false)
        }),
        final(entry)@.record == old(entry)@.record,
        final(entry)@.tags == old(entry)@.tags,
        final(entry)@.heads == old(entry)@.heads,
{
    let mut tree = entry.take_commit_tree(reference_name);
    let outcome = crate::commit::branch_index_update(&mut tree, walk, false);
    entry.put_commit_tree(clone_bytes(reference_name), tree);
    proof {
        assert(old(entry)@.trees.remove(reference_name@).insert(reference_name@, entry@.trees[reference_name@])
            =~= old(entry)@.trees.insert(reference_name@, entry@.trees[reference_name@]));
    }
    outcome
}

/// What opening a discovered repository as a git object store came to.
pub enum OpenOutcome {
    /// The repository opened; its references can be read.
    Opened,
    /// The repository is gone from disk.
    NotFound,
    /// The open failed for another, possibly transient, reason.
    Failed,
}

/// The dangling-repository guard shared by the commit-index and tag passes.
///
/// A repository absent from a supplied project list, or gone from disk, has
/// all its index state deleted and is skipped. An open failure of any other
/// kind skips the repository without deleting anything — a transient failure
/// must not destroy an index. The pass proceeds only on a live, opened
/// repository.
pub fn repository_guard(
    index: &mut RepositoryIndex,
    relative_path: &Vec<u8>,
    present_in_projects: Option<bool>,
    outcome: OpenOutcome,
) -> (proceed: bool)
    requires
        old(index).wf(),
    ensures
        final(index).wf(),
        final(index)@.next_id == old(index)@.next_id,
        proceed == (present_in_projects != Some(false) && outcome is Opened),
        if present_in_projects == Some(false) || (present_in_projects != Some(false)
            && outcome is NotFound) {
            final(index)@.repos == old(index)@.repos.remove(relative_path@)
        } else {
            final(index)@ == old(index)@
        },
{
    let gated = match present_in_projects {
        Some(false) => true,
        _ => false,
    };
    if gated {
        let _ = take_repository(index, relative_path);
        return false;
    }
    match outcome {
        OpenOutcome::Opened => true,
        OpenOutcome::NotFound => {
            let _ = take_repository(index, relative_path);
            false
        },
        OpenOutcome::Failed => false,
    }
}

} // verus!
