use vstd::prelude::*;
use crate::bytes::{bytes_eq, clone_bytes};

verus! {

/// Identity of a commit author, committer or tagger, with the time of the
/// action in seconds since the epoch.
pub struct Signature {
    pub name: Vec<u8>,
    pub email: Vec<u8>,
    pub time: i64,
}

pub ghost struct SignatureView {
    pub name: Seq<u8>,
    pub email: Seq<u8>,
    pub time: i64,
}

impl View for Signature {
    type V = SignatureView;

    open spec fn view(&self) -> SignatureView {
        SignatureView { name: self.name@, email: self.email@, time: self.time }
    }
}

/// One indexed commit: immutable once written — a commit is only ever
/// appended, or dropped together with its whole tree.
pub struct CommitRecord {
    pub hash: Vec<u8>,
    pub author: Signature,
    pub committer: Signature,
    pub message: Vec<u8>,
}

pub ghost struct CommitView {
    pub hash: Seq<u8>,
    pub author: SignatureView,
    pub committer: SignatureView,
    pub message: Seq<u8>,
}

impl View for CommitRecord {
    type V = CommitView;

    open spec fn view(&self) -> CommitView {
        CommitView {
            hash: self.hash@,
            author: self.author@,
            committer: self.committer@,
            message: self.message@,
        }
    }
}

/// The commit records of a walk, as their views.
pub open spec fn views_of_commits(s: Seq<CommitRecord>) -> Seq<CommitView> {
    s.map_values(|c: CommitRecord| c@)
}

pub fn clone_signature(s: &Signature) -> (r: Signature)
    ensures
        r@ == s@,
{
    Signature { name: clone_bytes(&s.name), email: clone_bytes(&s.email), time: s.time }
}

pub fn clone_commit(c: &CommitRecord) -> (r: CommitRecord)
    ensures
        r@ == c@,
{
    CommitRecord {
        hash: clone_bytes(&c.hash),
        author: clone_signature(&c.author),
        committer: clone_signature(&c.committer),
        message: clone_bytes(&c.message),
    }
}

/// The per-(repository, reference) append-only commit log. Entry `i` of
/// `records` is the record at sequence number `i`; the tree's sequence
/// counter is exactly the number of records, reported by [`Self::counter`].
pub struct CommitTree {
    pub records: Vec<CommitRecord>,
}

impl View for CommitTree {
    type V = Seq<CommitView>;

    open spec fn view(&self) -> Seq<CommitView> {
        views_of_commits(self.records@)
    }
}

impl CommitTree {
    pub fn new() -> (t: CommitTree)
        ensures
            t@ == Seq::<CommitView>::empty(),
    {
        let t = CommitTree { records: Vec::new() };
        proof {
            assert(t@ =~= Seq::<CommitView>::empty());
        }
        t
    }

    /// The stored sequence counter: the number of indexed commits, and the
    /// next unused sequence number.
    pub fn counter(&self) -> (n: usize)
        ensures
            n == self@.len(),
    {
        self.records.len()
    }

    /// Drops every record and resets the counter to zero.
    pub fn drop_commits(&mut self)
        ensures
            final(self)@ == Seq::<CommitView>::empty(),
    {
        self.records.clear();
        proof {
            assert(self@ =~= Seq::<CommitView>::empty());
        }
    }
}

/// Position of the first commit in `walk` whose hash is `marker`, or -1 when
/// no commit of the walk carries it.
pub open spec fn first_match(walk: Seq<CommitView>, marker: Seq<u8>) -> int
    decreases walk.len(),
{
    if walk.len() == 0 {
        -1
    } else if walk[0].hash == marker {
        0
    } else {
        let r = first_match(walk.drop_first(), marker);
        if r == -1 {
            -1
        } else {
            r + 1
        }
    }
}

pub proof fn lemma_first_match(walk: Seq<CommitView>, marker: Seq<u8>)
    ensures
        -1 <= first_match(walk, marker) < walk.len(),
        first_match(walk, marker) >= 0 ==> walk[first_match(walk, marker)].hash == marker,
        forall|k: int|
            0 <= k < walk.len() && walk[k].hash == marker ==> 0 <= first_match(walk, marker) <= k,
    decreases walk.len(),
{
    if walk.len() == 0 {
    } else if walk[0].hash == marker {
    } else {
        lemma_first_match(walk.drop_first(), marker);
        assert forall|k: int| 0 <= k < walk.len() && walk[k].hash == marker implies 0 <= first_match(
            walk,
            marker,
        ) <= k by {
            assert(k != 0);
            assert(walk.drop_first()[k - 1] == walk[k]);
        }
    }
}

/// The tree contents after one indexing invocation on a reference: `tree` is
/// the stored log, `walk` the commits reachable from the reference tip in
/// oldest-first order, `force` the forced-reindex flag.
///
/// With the flag set, or with nothing indexed yet, the whole walk is
/// indexed. When the stored tip equals the walk's tip the tree is already
/// current. When the stored tip appears earlier in the walk, everything
/// after its first occurrence is appended. When the stored tip never appears
/// — the indexed history was rewritten — the tree converges to a fresh index
/// of the walk.
pub open spec fn spec_branch_index(tree: Seq<CommitView>, walk: Seq<CommitView>, force: bool) -> Seq<
    CommitView,
> {
    if force {
        walk
    } else if tree.len() == 0 {
        walk
    } else if walk.len() > 0 && walk.last().hash == tree.last().hash {
        tree
    } else {
        let p = first_match(walk, tree.last().hash);
        if p >= 0 {
            tree + walk.skip(p + 1)
        } else {
            walk
        }
    }
}

/// How many records one indexing invocation writes.
pub open spec fn spec_inserted(tree: Seq<CommitView>, walk: Seq<CommitView>, force: bool) -> int {
    if force || tree.len() == 0 {
        walk.len() as int
    } else if walk.len() > 0 && walk.last().hash == tree.last().hash {
        0
    } else {
        let p = first_match(walk, tree.last().hash);
        if p >= 0 {
            walk.len() - p - 1
        } else {
            walk.len() as int
        }
    }
}

/// Whether one indexing invocation detects converged (rewritten) history:
/// a stored tip exists, differs from the walk's tip, and is never matched
/// during the walk.
pub open spec fn spec_converged(tree: Seq<CommitView>, walk: Seq<CommitView>, force: bool) -> bool {
    &&& !force
    &&& tree.len() > 0
    &&& !(walk.len() > 0 && walk.last().hash == tree.last().hash)
    &&& first_match(walk, tree.last().hash) < 0
}

/// What one invocation of the indexer did: how many records it wrote, and
/// whether it detected converged history and rebuilt the tree from scratch.
pub struct IndexOutcome {
    pub inserted: usize,
    pub rebuilt: bool,
}

/// Position of the first commit of `walk` whose hash equals `marker`.
fn find_marker(walk: &Vec<CommitRecord>, marker: &Vec<u8>) -> (r: Option<usize>)
    ensures
        match r {
            Some(p) => p < walk@.len() && first_match(views_of_commits(walk@), marker@) == p as int,
            None => first_match(views_of_commits(walk@), marker@) == -1,
        },
{
    let mut j: usize = 0;
    while j < walk.len()
        invariant
            j <= walk@.len(),
            forall|k: int| 0 <= k < j ==> views_of_commits(walk@)[k].hash != marker@,
        decreases walk@.len() - j,
    {
        if bytes_eq(&walk[j].hash, marker) {
            proof {
                let wv = views_of_commits(walk@);
                lemma_first_match(wv, marker@);
                assert(wv[j as int].hash == marker@);
            }
            return Some(j);
        }
        j += 1;
    }
    proof {
        let wv = views_of_commits(walk@);
        lemma_first_match(wv, marker@);
        if first_match(wv, marker@) >= 0 {
            assert(wv[first_match(wv, marker@)].hash == marker@);
        }
    }
    None
}

/// Appends copies of `walk[from..]` to the tree and returns how many were
/// appended.
fn append_from(tree: &mut CommitTree, walk: &Vec<CommitRecord>, from: usize) -> (count: usize)
    requires
        from <= walk@.len(),
    ensures
        final(tree)@ == old(tree)@ + views_of_commits(walk@).skip(from as int),
        count == walk@.len() - from,
{
    let mut j: usize = from;
    while j < walk.len()
        invariant
            from <= j <= walk@.len(),
            tree@ == old(tree)@ + views_of_commits(walk@).subrange(from as int, j as int),
        decreases walk@.len() - j,
    {
        let c = clone_commit(&walk[j]);
        proof {
            let wv = views_of_commits(walk@);
            assert(views_of_commits(tree.records@.push(c)) =~= views_of_commits(tree.records@).push(
                c@,
            ));
            assert((old(tree)@ + wv.subrange(from as int, j as int)).push(wv[j as int]) =~= old(
                tree,
            )@ + wv.subrange(from as int, j as int + 1));
        }
        tree.records.push(c);
        j += 1;
    }
    proof {
        assert(views_of_commits(walk@).subrange(from as int, walk@.len() as int)
            =~= views_of_commits(walk@).skip(from as int));
    }
    walk.len() - from
}

/// One indexing invocation for one (repository, reference) pair.
///
/// `tree` is the stored commit log for the reference, `walk` the commits
/// reachable from the reference tip via parent links, in oldest-first order
/// (so the reference tip is the walk's last commit; a resolved reference
/// reaches at least its own tip commit). The resulting log is
/// [`spec_branch_index`] of the inputs; in particular, when the stored tip
/// is no longer reachable from the new tip the invocation rebuilds the tree
/// from scratch and reports it, and when the tree is already current it
/// writes nothing.
pub fn branch_index_update(tree: &mut CommitTree, walk: &Vec<CommitRecord>, force_reindex: bool) -> (outcome:
    IndexOutcome)
    requires
        walk@.len() >= 1,
    ensures
        final(tree)@ == spec_branch_index(old(tree)@, views_of_commits(walk@), force_reindex),
        outcome.inserted as int == spec_inserted(old(tree)@, views_of_commits(walk@), force_reindex),
        outcome.rebuilt == spec_converged(old(tree)@, views_of_commits(walk@), force_reindex),
{
    let ghost wv = views_of_commits(walk@);
    if force_reindex {
        tree.drop_commits();
        let count = append_from(tree, walk, 0);
        proof {
            assert(Seq::<CommitView>::empty() + wv.skip(0) =~= wv);
        }
        return IndexOutcome { inserted: count, rebuilt: false };
    }
    let n = tree.records.len();
    if n == 0 {
        let count = append_from(tree, walk, 0);
        proof {
            assert(old(tree)@ + wv.skip(0) =~= wv);
        }
        return IndexOutcome { inserted: count, rebuilt: false };
    }
    proof {
        assert(old(tree)@.last() == old(tree).records@[n - 1]@);
        assert(wv.last() == walk@[walk@.len() - 1]@);
    }
    let tip_idx = walk.len() - 1;
    if bytes_eq(&tree.records[n - 1].hash, &walk[tip_idx].hash) {
        return IndexOutcome { inserted: 0, rebuilt: false };
    }
    let marker = clone_bytes(&tree.records[n - 1].hash);
    match find_marker(walk, &marker) {
        Some(p) => {
            let count = append_from(tree, walk, p + 1);
            IndexOutcome { inserted: count, rebuilt: false }
        },
        None => {
            tree.drop_commits();
            let count = append_from(tree, walk, 0);
            proof {
                assert(Seq::<CommitView>::empty() + wv.skip(0) =~= wv);
            }
            IndexOutcome { inserted: count, rebuilt: true }
        },
    }
}

/// Law: indexing is idempotent. Whatever one invocation produced, running
/// the indexer again on the same walk is a no-op: the tree is unchanged and
/// zero records are written.
pub proof fn lemma_index_idempotent(tree: Seq<CommitView>, walk: Seq<CommitView>, force: bool)
    requires
        walk.len() >= 1,
    ensures
        spec_branch_index(spec_branch_index(tree, walk, force), walk, false) == spec_branch_index(
            tree,
            walk,
            force,
        ),
        spec_inserted(spec_branch_index(tree, walk, force), walk, false) == 0,
{
    let t2 = spec_branch_index(tree, walk, force);
    if force || tree.len() == 0 {
        assert(t2 == walk);
    } else if walk.last().hash == tree.last().hash {
        assert(t2 == tree);
    } else {
        let p = first_match(walk, tree.last().hash);
        lemma_first_match(walk, tree.last().hash);
        if p >= 0 {
            assert(walk[walk.len() - 1].hash != tree.last().hash);
            assert(p < walk.len() - 1);
            assert(t2 == tree + walk.skip(p + 1));
            assert(t2.last() == walk.skip(p + 1)[walk.len() - p - 2]);
            assert(walk.skip(p + 1)[walk.len() - p - 2] == walk[walk.len() - 1]);
        } else {
            assert(t2 == walk);
        }
    }
    assert(t2.len() >= 1);
    assert(t2.last().hash == walk.last().hash);
}

/// Law: monotonic append. When the stored tip is the `m`-th commit of the
/// walk (position `m - 1`), occurs nowhere else in it, and is not the walk's
/// tip, indexing appends exactly the commits after it — the walk's last
/// `len - m` commits — and leaves every prior entry untouched.
pub proof fn lemma_monotonic_append(tree: Seq<CommitView>, walk: Seq<CommitView>, m: int)
    requires
        tree.len() > 0,
        1 <= m < walk.len(),
        walk[m - 1].hash == tree.last().hash,
        forall|k: int| 0 <= k < walk.len() && walk[k].hash == tree.last().hash ==> k == m - 1,
    ensures
        spec_branch_index(tree, walk, false) == tree + walk.skip(m),
        spec_branch_index(tree, walk, false).take(tree.len() as int) == tree,
        spec_inserted(tree, walk, false) == walk.len() - m,
{
    lemma_first_match(walk, tree.last().hash);
    let p = first_match(walk, tree.last().hash);
    assert(0 <= p <= m - 1);
    assert(walk[p].hash == tree.last().hash);
    assert(p == m - 1);
    assert(walk[walk.len() - 1].hash != tree.last().hash);
    assert((tree + walk.skip(m)).take(tree.len() as int) =~= tree);
}

/// Law: crash recovery. Records are committed in chunks, each chunk's
/// records together with the advanced counter, so a tree interrupted at any
/// point holds some prefix of the walk being indexed. Rerunning the indexer
/// on such a tree ends with exactly the full index of the walk: partial
/// progress already committed stays valid and is resumed, never redone.
/// (Hashes within one walk are pairwise distinct, as a history walk visits
/// every commit once.)
pub proof fn lemma_resume_partial_index(walk: Seq<CommitView>, m: int)
    requires
        1 <= m <= walk.len(),
        forall|i: int, j: int| 0 <= i < j < walk.len() ==> walk[i].hash != walk[j].hash,
    ensures
        spec_branch_index(walk.take(m), walk, false) == walk,
{
    let tree = walk.take(m);
    assert(tree.last() == walk[m - 1]);
    if m == walk.len() {
        assert(walk.last().hash == tree.last().hash);
        assert(walk.take(m) =~= walk);
    } else {
        assert(walk.last().hash != tree.last().hash);
        lemma_first_match(walk, tree.last().hash);
        let p = first_match(walk, tree.last().hash);
        assert(0 <= p <= m - 1);
        assert(walk[p].hash == walk[m - 1].hash);
        assert(p == m - 1);
        assert(tree + walk.skip(m) =~= walk);
    }
}

/// Law: convergence rebuild. When the stored tip is reachable nowhere in the
/// new walk — the indexed history was rewritten from under the index — the
/// invocation detects it and ends with exactly a fresh index of the new
/// history, previous contents fully discarded.
pub proof fn lemma_convergence_rebuild(tree: Seq<CommitView>, walk: Seq<CommitView>)
    requires
        walk.len() >= 1,
        tree.len() > 0,
        forall|k: int| 0 <= k < walk.len() ==> walk[k].hash != tree.last().hash,
    ensures
        spec_converged(tree, walk, false),
        spec_branch_index(tree, walk, false) == walk,
        spec_branch_index(tree, walk, false) == spec_branch_index(
            Seq::<CommitView>::empty(),
            walk,
            false,
        ),
{
    lemma_first_match(walk, tree.last().hash);
    let p = first_match(walk, tree.last().hash);
    if p >= 0 {
        assert(walk[p].hash == tree.last().hash);
    }
}

} // verus!
