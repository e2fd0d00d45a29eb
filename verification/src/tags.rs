use vstd::prelude::*;
use crate::bytes::bytes_eq;
use crate::commit::{Signature, SignatureView, clone_signature};
use crate::kvstore::KvStore;

verus! {

/// One indexed annotated tag: the tagger identity, when the tag object
/// carries one.
pub struct TagRecord {
    pub tagger: Option<Signature>,
}

pub ghost struct TagView {
    pub tagger: Option<SignatureView>,
}

impl View for TagRecord {
    type V = TagView;

    open spec fn view(&self) -> TagView {
        TagView {
            tagger: match self.tagger {
                Some(s) => Some(s@),
                None => None,
            },
        }
    }
}

pub fn clone_tag_record(t: &TagRecord) -> (r: TagRecord)
    ensures
        r@ == t@,
{
    TagRecord {
        tagger: match &t.tagger {
            Some(s) => Some(clone_signature(s)),
            None => None,
        },
    }
}

/// The per-repository map from tag reference name to tag record.
pub type TagTree = KvStore<TagRecord>;

/// One live tag reference of a repository: its reference name, and the
/// record its peeled annotated tag object yields — nothing for a
/// lightweight tag, which carries no tagger metadata to index.
pub struct GitTag {
    pub name: Vec<u8>,
    pub peeled: Option<TagRecord>,
}

pub ghost struct GitTagView {
    pub name: Seq<u8>,
    pub peeled: Option<TagView>,
}

impl View for GitTag {
    type V = GitTagView;

    open spec fn view(&self) -> GitTagView {
        GitTagView {
            name: self.name@,
            peeled: match self.peeled {
                Some(t) => Some(t@),
                None => None,
            },
        }
    }
}

pub open spec fn views_of_tags(s: Seq<GitTag>) -> Seq<GitTagView> {
    s.map_values(|t: GitTag| t@)
}

/// Whether some live tag reference carries the name.
pub open spec fn git_has(tags: Seq<GitTagView>, n: Seq<u8>) -> bool {
    exists|i: int| 0 <= i < tags.len() && tags[i].name == n
}

/// Whether some live tag reference carries the name and peels to an
/// annotated tag object.
pub open spec fn git_annotated(tags: Seq<GitTagView>, n: Seq<u8>) -> bool {
    exists|i: int| 0 <= i < tags.len() && tags[i].name == n && tags[i].peeled is Some
}

/// The live tag names are pairwise distinct, as reference names of one
/// repository are.
pub open spec fn distinct_tag_names(tags: Seq<GitTagView>) -> bool {
    forall|i: int, j: int| 0 <= i < j < tags.len() ==> tags[i].name != tags[j].name
}

fn git_has_name(git_tags: &Vec<GitTag>, name: &Vec<u8>) -> (r: bool)
    ensures
        r == git_has(views_of_tags(git_tags@), name@),
{
    let ghost gv = views_of_tags(git_tags@);
    let mut i: usize = 0;
    while i < git_tags.len()
        invariant
            i <= git_tags@.len(),
            gv == views_of_tags(git_tags@),
            forall|k: int| 0 <= k < i ==> gv[k].name != name@,
        decreases git_tags@.len() - i,
    {
        if bytes_eq(&git_tags[i].name, name) {
            proof {
                assert(gv[i as int].name == name@);
            }
            return true;
        }
        i += 1;
    }
    false
}

/// Inserts a newly discovered tag into the index: a tag that peeled to an
/// annotated tag object is recorded under its name, a lightweight one is
/// silently skipped.
pub fn tag_index_update(tag_name: &Vec<u8>, peeled: Option<&TagRecord>, tag_tree: &mut TagTree)
    requires
        old(tag_tree).wf(),
    ensures
        final(tag_tree).wf(),
        final(tag_tree)@ == match peeled {
            Some(t) => old(tag_tree)@.insert(tag_name@, t@),
            None => old(tag_tree)@,
        },
{
    match peeled {
        Some(t) => {
            let name = crate::bytes::clone_bytes(tag_name);
            tag_tree.insert(name, clone_tag_record(t));
        },
        None => {},
    }
}

/// Removes a stale tag from the index.
pub fn tag_index_delete(tag_name: &Vec<u8>, tag_tree: &mut TagTree)
    requires
        old(tag_tree).wf(),
    ensures
        final(tag_tree).wf(),
        final(tag_tree)@ == old(tag_tree)@.remove(tag_name@),
{
    let _ = tag_tree.remove(tag_name);
}

/// Full set reconciliation between the live tags of a repository and its
/// indexed tags.
///
/// Afterwards the index holds exactly: the names live in git that were
/// already indexed, with their records untouched, and the names live in git
/// that were missing from the index and peel to an annotated tag, with the
/// peeled record. Names absent from git are deleted; a no-op when the two
/// sets already agree.
pub fn tag_index_scan(tag_tree: &mut TagTree, git_tags: &Vec<GitTag>)
    requires
        old(tag_tree).wf(),
        distinct_tag_names(views_of_tags(git_tags@)),
    ensures
        final(tag_tree).wf(),
        forall|n: Seq<u8>|
            #![trigger final(tag_tree)@.dom().contains(n)]
            final(tag_tree)@.dom().contains(n) <==> (git_has(views_of_tags(git_tags@), n)
                && (old(tag_tree)@.dom().contains(n) || git_annotated(views_of_tags(git_tags@), n))),
        forall|n: Seq<u8>|
            #![trigger final(tag_tree)@[n]]
            final(tag_tree)@.dom().contains(n) && old(tag_tree)@.dom().contains(n)
                ==> final(tag_tree)@[n] == old(tag_tree)@[n],
        forall|n: Seq<u8>|
            #![trigger final(tag_tree)@[n]]
            final(tag_tree)@.dom().contains(n) && !old(tag_tree)@.dom().contains(n)
                ==> exists|i: int|
                    0 <= i < git_tags@.len() && views_of_tags(git_tags@)[i].name == n
                        && views_of_tags(git_tags@)[i].peeled == Some(final(tag_tree)@[n]),
{
    let ghost gv = views_of_tags(git_tags@);
    let ghost m0 = old(tag_tree)@;

    // insert any live tags that are missing from the index
    let mut j: usize = 0;
    while j < git_tags.len()
        invariant
            j <= git_tags@.len(),
            gv == views_of_tags(git_tags@),
            m0 == old(tag_tree)@,
            distinct_tag_names(gv),
            tag_tree.wf(),
            forall|n: Seq<u8>|
                #![trigger tag_tree@.dom().contains(n)]
                tag_tree@.dom().contains(n) <==> (m0.dom().contains(n) || exists|i: int|
                    0 <= i < j && gv[i].name == n && gv[i].peeled is Some),
            forall|n: Seq<u8>|
                #![trigger tag_tree@[n]]
                tag_tree@.dom().contains(n) && m0.dom().contains(n) ==> tag_tree@[n] == m0[n],
            forall|n: Seq<u8>|
                #![trigger tag_tree@[n]]
                tag_tree@.dom().contains(n) && !m0.dom().contains(n) ==> exists|i: int|
                    0 <= i < j && gv[i].name == n && gv[i].peeled == Some(tag_tree@[n]),
        decreases git_tags@.len() - j,
    {
        let ghost pre = tag_tree@;
        if !tag_tree.contains_key(&git_tags[j].name) {
            match &git_tags[j].peeled {
                Some(t) => {
                    tag_index_update(&git_tags[j].name, Some(t), tag_tree);
                    proof {
                        assert(gv[j as int].name == git_tags@[j as int].name@);
                        assert(gv[j as int].peeled == Some(t@));
                        assert forall|n: Seq<u8>| #![trigger tag_tree@.dom().contains(n)]
                            tag_tree@.dom().contains(n) <==> (m0.dom().contains(n) || exists|i: int|
                                0 <= i < j + 1 && gv[i].name == n && gv[i].peeled is Some) by {
                            if n == gv[j as int].name {
                                assert(gv[j as int].peeled is Some);
                            } else {
                                assert(tag_tree@.dom().contains(n) == pre.dom().contains(n));
                                if exists|i: int|
                                    0 <= i < j + 1 && gv[i].name == n && gv[i].peeled is Some {
                                    let i = choose|i: int|
                                        0 <= i < j + 1 && gv[i].name == n && gv[i].peeled is Some;
                                    assert(i < j);
                                }
                            }
                        }
                        assert forall|n: Seq<u8>| #![trigger tag_tree@[n]]
                            tag_tree@.dom().contains(n) && !m0.dom().contains(n) implies exists|i: int|
                            0 <= i < j + 1 && gv[i].name == n && gv[i].peeled == Some(tag_tree@[n])
                        by {
                            if n == gv[j as int].name {
                                assert(gv[j as int].peeled == Some(tag_tree@[n]));
                            } else {
                                assert(tag_tree@[n] == pre[n]);
                                let i = choose|i: int|
                                    0 <= i < j && gv[i].name == n && gv[i].peeled == Some(pre[n]);
                                assert(gv[i].peeled == Some(tag_tree@[n]));
                            }
                        }
                    }
                },
                None => {
                    proof {
                        assert forall|n: Seq<u8>| #![trigger tag_tree@.dom().contains(n)]
                            tag_tree@.dom().contains(n) <==> (m0.dom().contains(n) || exists|i: int|
                                0 <= i < j + 1 && gv[i].name == n && gv[i].peeled is Some) by {
                            if exists|i: int|
                                0 <= i < j + 1 && gv[i].name == n && gv[i].peeled is Some {
                                let i = choose|i: int|
                                    0 <= i < j + 1 && gv[i].name == n && gv[i].peeled is Some;
                                if i == j {
                                    assert(gv[j as int].peeled is None);
                                }
                            }
                        }
                    }
                },
            }
        } else {
            proof {
                assert forall|n: Seq<u8>| #![trigger tag_tree@.dom().contains(n)]
                    tag_tree@.dom().contains(n) <==> (m0.dom().contains(n) || exists|i: int|
                        0 <= i < j + 1 && gv[i].name == n && gv[i].peeled is Some) by {
                    if exists|i: int| 0 <= i < j + 1 && gv[i].name == n && gv[i].peeled is Some {
                        let i = choose|i: int|
                            0 <= i < j + 1 && gv[i].name == n && gv[i].peeled is Some;
                        if i == j {
                            assert(n == gv[j as int].name);
                            assert(tag_tree@.dom().contains(n));
                        }
                    }
                }
            }
        }
        j += 1;
    }

    let ghost mid = tag_tree@;
    let ghost mid_entries = tag_tree.entries@;

    // collect the indexed names that are no longer live in git
    let mut stale: Vec<Vec<u8>> = Vec::new();
    let mut t: usize = 0;
    while t < tag_tree.entries.len()
        invariant
            t <= tag_tree.entries@.len(),
            gv == views_of_tags(git_tags@),
            mid_entries == tag_tree.entries@,
            forall|k: int| 0 <= k < stale@.len() ==> !git_has(gv, stale@[k]@),
            forall|e: int|
                0 <= e < t ==> git_has(gv, tag_tree.entries@[e].0@) || exists|k: int|
                    0 <= k < stale@.len() && stale@[k]@ == tag_tree.entries@[e].0@,
        decreases tag_tree.entries@.len() - t,
    {
        if !git_has_name(git_tags, &tag_tree.entries[t].0) {
            let ghost pre_stale = stale@;
            stale.push(crate::bytes::clone_bytes(&tag_tree.entries[t].0));
            proof {
                assert forall|e: int|
                    0 <= e < t + 1 implies git_has(gv, tag_tree.entries@[e].0@) || exists|k: int|
                    0 <= k < stale@.len() && stale@[k]@ == tag_tree.entries@[e].0@ by {
                    if e == t as int {
                        assert(stale@[stale@.len() - 1]@ == tag_tree.entries@[e].0@);
                    } else if !git_has(gv, tag_tree.entries@[e].0@) {
                        let k = choose|k: int|
                            0 <= k < pre_stale.len() && pre_stale[k]@ == tag_tree.entries@[e].0@;
                        assert(stale@[k]@ == tag_tree.entries@[e].0@);
                    }
                }
            }
        }
        t += 1;
    }

    // remove the extra tags that only the index has
    let mut d: usize = 0;
    while d < stale.len()
        invariant
            d <= stale@.len(),
            gv == views_of_tags(git_tags@),
            tag_tree.wf(),
            forall|k: int| 0 <= k < stale@.len() ==> !git_has(gv, stale@[k]@),
            forall|n: Seq<u8>|
                #![trigger tag_tree@.dom().contains(n)]
                tag_tree@.dom().contains(n) <==> (mid.dom().contains(n) && !(exists|k: int|
                    0 <= k < d && stale@[k]@ == n)),
            forall|n: Seq<u8>|
                #![trigger tag_tree@[n]]
                tag_tree@.dom().contains(n) ==> tag_tree@[n] == mid[n],
        decreases stale@.len() - d,
    {
        let ghost pre = tag_tree@;
        tag_index_delete(&stale[d], tag_tree);
        proof {
            assert forall|n: Seq<u8>| #![trigger tag_tree@.dom().contains(n)]
                tag_tree@.dom().contains(n) <==> (mid.dom().contains(n) && !(exists|k: int|
                    0 <= k < d + 1 && stale@[k]@ == n)) by {
                if n == stale@[d as int]@ {
                    assert(stale@[d as int]@ == n);
                } else {
                    assert(tag_tree@.dom().contains(n) == pre.dom().contains(n));
                    if exists|k: int| 0 <= k < d + 1 && stale@[k]@ == n {
                        let k = choose|k: int| 0 <= k < d + 1 && stale@[k]@ == n;
                        assert(k < d);
                    }
                }
            }
        }
        d += 1;
    }

    // tie the final state to the live tag set
    proof {
        assert forall|n: Seq<u8>| #![trigger tag_tree@.dom().contains(n)]
            tag_tree@.dom().contains(n) <==> (git_has(gv, n) && (m0.dom().contains(n)
                || git_annotated(gv, n))) by {
            crate::kvstore::lemma_map_of_dom(mid_entries, n);
            if tag_tree@.dom().contains(n) {
                assert(mid.dom().contains(n));
                let e = choose|e: int| 0 <= e < mid_entries.len() && mid_entries[e].0@ == n;
                if !git_has(gv, n) {
                    let k = choose|k: int|
                        0 <= k < stale@.len() && stale@[k]@ == mid_entries[e].0@;
                    assert(stale@[k]@ == n);
                }
                assert(git_has(gv, n));
                if !m0.dom().contains(n) {
                    let i = choose|i: int|
                        0 <= i < gv.len() && gv[i].name == n && gv[i].peeled == Some(mid[n]);
                    assert(gv[i].peeled is Some);
                    assert(git_annotated(gv, n));
                }
            } else {
                if git_has(gv, n) && (m0.dom().contains(n) || git_annotated(gv, n)) {
                    assert(mid.dom().contains(n));
                    if exists|k: int| 0 <= k < stale@.len() && stale@[k]@ == n {
                        let k = choose|k: int| 0 <= k < stale@.len() && stale@[k]@ == n;
                        assert(!git_has(gv, stale@[k]@));
                    }
                }
            }
        }
    }
}

} // verus!
