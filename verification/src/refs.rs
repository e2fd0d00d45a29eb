use vstd::prelude::*;
use crate::bytes::{clone_bytes, views_of_bytes};

verus! {

/// The bytes of `refs/heads/`.
pub open spec fn refs_heads_prefix() -> Seq<u8> {
    seq![114u8, 101u8, 102u8, 115u8, 47u8, 104u8, 101u8, 97u8, 100u8, 115u8, 47u8]
}

/// The bytes of `refs/tags/`.
pub open spec fn refs_tags_prefix() -> Seq<u8> {
    seq![114u8, 101u8, 102u8, 115u8, 47u8, 116u8, 97u8, 103u8, 115u8, 47u8]
}

/// A branch reference name.
pub open spec fn is_heads_name(n: Seq<u8>) -> bool {
    n.len() >= 11 && n.take(11) == refs_heads_prefix()
}

/// A tag reference name.
pub open spec fn is_tags_name(n: Seq<u8>) -> bool {
    n.len() >= 10 && n.take(10) == refs_tags_prefix()
}

/// A reference the indexer follows: a branch or a tag.
pub open spec fn is_indexable_name(n: Seq<u8>) -> bool {
    is_heads_name(n) || is_tags_name(n)
}

/// Whether `v` begins with the bytes of `p`.
pub fn starts_with(v: &Vec<u8>, p: &Vec<u8>) -> (r: bool)
    ensures
        r == (v@.len() >= p@.len() && v@.take(p@.len() as int) == p@),
{
    if v.len() < p.len() {
        return false;
    }
    let mut i: usize = 0;
    while i < p.len()
        invariant
            i <= p@.len(),
            p@.len() <= v@.len(),
            forall|k: int| 0 <= k < i ==> v@[k] == p@[k],
        decreases p@.len() - i,
    {
        if v[i] != p[i] {
            proof {
                assert(v@.take(p@.len() as int)[i as int] != p@[i as int]);
            }
            return false;
        }
        i += 1;
    }
    proof {
        assert(v@.take(p@.len() as int) =~= p@);
    }
    true
}

fn refs_heads_vec() -> (p: Vec<u8>)
    ensures
        p@ == refs_heads_prefix(),
{
    let mut p: Vec<u8> = Vec::new();
    p.push(114u8);
    p.push(101u8);
    p.push(102u8);
    p.push(115u8);
    p.push(47u8);
    p.push(104u8);
    p.push(101u8);
    p.push(97u8);
    p.push(100u8);
    p.push(115u8);
    p.push(47u8);
    proof {
        assert(p@ =~= refs_heads_prefix());
    }
    p
}

fn refs_tags_vec() -> (p: Vec<u8>)
    ensures
        p@ == refs_tags_prefix(),
{
    let mut p: Vec<u8> = Vec::new();
    p.push(114u8);
    p.push(101u8);
    p.push(102u8);
    p.push(115u8);
    p.push(47u8);
    p.push(116u8);
    p.push(97u8);
    p.push(103u8);
    p.push(115u8);
    p.push(47u8);
    proof {
        assert(p@ =~= refs_tags_prefix());
    }
    p
}

/// Whether a reference name names a tag.
pub fn is_tag_ref(reference_name: &Vec<u8>) -> (r: bool)
    ensures
        r == is_tags_name(reference_name@),
{
    let p = refs_tags_vec();
    starts_with(reference_name, &p)
}

/// Whether a reference name names a branch.
pub fn is_branch_ref(reference_name: &Vec<u8>) -> (r: bool)
    ensures
        r == is_heads_name(reference_name@),
{
    let p = refs_heads_vec();
    starts_with(reference_name, &p)
}

/// Whether the indexer follows this reference: only `refs/heads/*` and
/// `refs/tags/*` are indexed; everything else is skipped.
pub fn is_indexable_ref(reference_name: &Vec<u8>) -> (r: bool)
    ensures
        r == is_indexable_name(reference_name@),
{
    if is_branch_ref(reference_name) {
        true
    } else {
        is_tag_ref(reference_name)
    }
}

/// The reference names the indexer follows, in their given order.
pub open spec fn indexable_names(names: Seq<Seq<u8>>) -> Seq<Seq<u8>>
    decreases names.len(),
{
    if names.len() == 0 {
        Seq::empty()
    } else {
        let rest = indexable_names(names.drop_last());
        if is_indexable_name(names.last()) {
            rest.push(names.last())
        } else {
            rest
        }
    }
}

/// Keeps exactly the references the indexer follows: what one pass observes
/// and persists as the repository's current heads list.
pub fn filter_indexable_refs(reference_names: &Vec<Vec<u8>>) -> (r: Vec<Vec<u8>>)
    ensures
        views_of_bytes(r@) == indexable_names(views_of_bytes(reference_names@)),
{
    let ghost nv = views_of_bytes(reference_names@);
    let mut r: Vec<Vec<u8>> = Vec::new();
    let mut i: usize = 0;
    while i < reference_names.len()
        invariant
            i <= reference_names@.len(),
            nv == views_of_bytes(reference_names@),
            views_of_bytes(r@) == indexable_names(nv.take(i as int)),
        decreases reference_names@.len() - i,
    {
        proof {
            assert(nv.take(i as int + 1).drop_last() =~= nv.take(i as int));
            assert(nv.take(i as int + 1).last() == nv[i as int]);
        }
        if is_indexable_ref(&reference_names[i]) {
            let p = clone_bytes(&reference_names[i]);
            proof {
                assert(views_of_bytes(r@.push(p)) =~= views_of_bytes(r@).push(p@));
            }
            r.push(p);
        }
        i += 1;
    }
    proof {
        assert(nv.take(reference_names@.len() as int) =~= nv);
    }
    r
}

} // verus!
