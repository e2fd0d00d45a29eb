use vstd::prelude::*;
use crate::bytes::{append_bytes, bytes_prefix, clone_bytes};

verus! {

/// A repository path joined to a scan root: the two parts with a single
/// separator between them.
pub open spec fn spec_join_path(base: Seq<u8>, rel: Seq<u8>) -> Seq<u8> {
    base + seq![47u8] + rel
}

/// What stripping the scan root off a full path yields: the remainder after
/// the root and one separator, the empty path when the two are equal, and
/// nothing when the root is not a prefix.
pub open spec fn spec_relative_path(base: Seq<u8>, full: Seq<u8>) -> Option<Seq<u8>> {
    if full == base {
        Some(Seq::<u8>::empty())
    } else if full.len() > base.len() && full.take(base.len() as int) == base && full[base.len() as int]
        == 47u8 {
        Some(full.skip(base.len() as int + 1))
    } else {
        None
    }
}

/// Joins a path fragment to a root path with a single separator.
pub fn join_path(base: &Vec<u8>, rel: &Vec<u8>) -> (r: Vec<u8>)
    ensures
        r@ == spec_join_path(base@, rel@),
{
    let mut r = clone_bytes(base);
    r.push(47u8);
    proof {
        assert(base@.push(47u8) =~= base@ + seq![47u8]);
    }
    append_bytes(&mut r, rel);
    r
}

/// The path of a discovered repository relative to the scan root, or nothing
/// when the repository does not lie under the root.
pub fn get_relative_path(relative_to: &Vec<u8>, full_path: &Vec<u8>) -> (r: Option<Vec<u8>>)
    ensures
        match r {
            Some(rel) => spec_relative_path(relative_to@, full_path@) == Some(rel@),
            None => spec_relative_path(relative_to@, full_path@) is None,
        },
{
    let n = relative_to.len();
    if full_path.len() < n {
        proof {
            assert(full_path@ != relative_to@);
        }
        return None;
    }
    let mut i: usize = 0;
    while i < n
        invariant
            i <= n,
            n == relative_to@.len(),
            n <= full_path@.len(),
            forall|k: int| 0 <= k < i ==> full_path@[k] == relative_to@[k],
        decreases n - i,
    {
        if full_path[i] != relative_to[i] {
            proof {
                assert(full_path@ != relative_to@);
                assert(full_path@.take(n as int)[i as int] != relative_to@[i as int]);
            }
            return None;
        }
        i += 1;
    }
    proof {
        assert(full_path@.take(n as int) =~= relative_to@.take(n as int));
        assert(relative_to@.take(n as int) =~= relative_to@);
    }
    if full_path.len() == n {
        proof {
            assert(full_path@ =~= relative_to@);
        }
        return Some(Vec::new());
    }
    if full_path[n] != 47u8 {
        proof {
            assert(full_path@ != relative_to@);
        }
        return None;
    }
    let mut rel: Vec<u8> = Vec::new();
    let mut j: usize = n + 1;
    while j < full_path.len()
        invariant
            n + 1 <= j <= full_path@.len(),
            rel@ == full_path@.subrange(n as int + 1, j as int),
        decreases full_path@.len() - j,
    {
        rel.push(full_path[j]);
        proof {
            assert(full_path@.subrange(n as int + 1, j as int).push(full_path@[j as int])
                =~= full_path@.subrange(n as int + 1, j as int + 1));
        }
        j += 1;
    }
    proof {
        assert(full_path@ != relative_to@);
        assert(rel@ =~= full_path@.skip(n as int + 1));
    }
    Some(rel)
}

/// The bytes of a path after its last separator.
pub open spec fn after_last_slash(p: Seq<u8>) -> Seq<u8>
    decreases p.len(),
{
    if p.len() == 0 {
        p
    } else if p.last() == 47u8 {
        Seq::empty()
    } else {
        after_last_slash(p.drop_last()) + seq![p.last()]
    }
}

/// The name of a repository: the last component of its relative path, or
/// nothing when the path is empty or ends in a separator.
pub open spec fn spec_file_name(p: Seq<u8>) -> Option<Seq<u8>> {
    if after_last_slash(p).len() == 0 {
        None
    } else {
        Some(after_last_slash(p))
    }
}

proof fn lemma_after_last_slash(p: Seq<u8>, cut: int)
    requires
        0 <= cut <= p.len(),
        forall|k: int| cut <= k < p.len() ==> p[k] != 47u8,
        cut > 0 ==> p[cut - 1] == 47u8,
    ensures
        after_last_slash(p) == p.skip(cut),
    decreases p.len() - cut,
{
    if p.len() == cut {
        if p.len() == 0 {
            assert(after_last_slash(p) =~= p.skip(cut));
        } else {
            assert(p.last() == 47u8);
            assert(after_last_slash(p) =~= p.skip(cut));
        }
    } else {
        assert(p.last() != 47u8);
        lemma_after_last_slash(p.drop_last(), cut);
        assert(p.drop_last().skip(cut) + seq![p.last()] =~= p.skip(cut));
    }
}

/// The last component of a path: what the repository found at it is named.
pub fn path_file_name(path: &Vec<u8>) -> (r: Option<Vec<u8>>)
    ensures
        match r {
            Some(name) => spec_file_name(path@) == Some(name@),
            None => spec_file_name(path@) is None,
        },
{
    let mut cut: usize = path.len();
    while cut > 0 && path[cut - 1] != 47u8
        invariant
            cut <= path@.len(),
            forall|k: int| cut <= k < path@.len() ==> path@[k] != 47u8,
        decreases cut,
    {
        cut = cut - 1;
    }
    proof {
        lemma_after_last_slash(path@, cut as int);
    }
    if cut == path.len() {
        proof {
            assert(path@.skip(cut as int) =~= Seq::<u8>::empty());
        }
        return None;
    }
    let mut name: Vec<u8> = Vec::new();
    let mut j: usize = cut;
    while j < path.len()
        invariant
            cut <= j <= path@.len(),
            name@ == path@.subrange(cut as int, j as int),
        decreases path@.len() - j,
    {
        name.push(path[j]);
        proof {
            assert(path@.subrange(cut as int, j as int).push(path@[j as int]) =~= path@.subrange(
                cut as int,
                j as int + 1,
            ));
        }
        j += 1;
    }
    proof {
        assert(name@ =~= path@.skip(cut as int));
    }
    Some(name)
}

/// Law: stripping the scan root off a joined path gives back the fragment
/// that was joined.
pub proof fn lemma_join_then_relative(base: Seq<u8>, rel: Seq<u8>)
    ensures
        spec_relative_path(base, spec_join_path(base, rel)) == Some(rel),
{
    let full = spec_join_path(base, rel);
    assert(full.len() == base.len() + 1 + rel.len());
    assert(full != base);
    assert(full.take(base.len() as int) =~= base);
    assert(full[base.len() as int] == 47u8);
    assert(full.skip(base.len() as int + 1) =~= rel);
}

} // verus!
