use vstd::prelude::*;
use crate::bytes::{bytes_prefix, clone_bytes, views_of_bytes};
use crate::paths::{join_path, spec_join_path};

verus! {

/// A project-list line with its end-of-line bytes stripped: one trailing
/// newline, then one trailing carriage return.
pub open spec fn strip_eol(line: Seq<u8>) -> Seq<u8> {
    let a = if line.len() > 0 && line.last() == 10u8 {
        line.drop_last()
    } else {
        line
    };
    if a.len() > 0 && a.last() == 13u8 {
        a.drop_last()
    } else {
        a
    }
}

/// What one line of the project-list file contributes: nothing for an empty
/// line, else the line joined to the scan root. Entries are not validated
/// here — an invalid path is filtered later, when the repository fails to
/// open.
pub open spec fn spec_list_entry(root: Seq<u8>, line: Seq<u8>) -> Option<Seq<u8>> {
    let s = strip_eol(line);
    if s.len() == 0 {
        None
    } else {
        Some(spec_join_path(root, s))
    }
}

/// Turns one line read from the project-list file into a candidate
/// repository path under the scan root.
pub fn project_list_entry(root: &Vec<u8>, line: &Vec<u8>) -> (r: Option<Vec<u8>>)
    ensures
        match r {
            Some(p) => spec_list_entry(root@, line@) == Some(p@),
            None => spec_list_entry(root@, line@) is None,
        },
{
    let mut end: usize = line.len();
    if end > 0 && line[end - 1] == 10u8 {
        end = end - 1;
    }
    if end > 0 && line[end - 1] == 13u8 {
        end = end - 1;
    }
    proof {
        assert(line@.take(end as int) =~= strip_eol(line@));
    }
    if end == 0 {
        return None;
    }
    let s = bytes_prefix(line, end);
    Some(join_path(root, &s))
}

/// One subdirectory listed while walking the scan tree: whether it is a
/// directory at all, and whether it directly contains a `packed-refs` file.
pub struct DirEntry {
    pub path: Vec<u8>,
    pub is_dir: bool,
    pub has_packed_refs: bool,
}

pub ghost struct DirEntryView {
    pub path: Seq<u8>,
    pub is_dir: bool,
    pub has_packed_refs: bool,
}

impl View for DirEntry {
    type V = DirEntryView;

    open spec fn view(&self) -> DirEntryView {
        DirEntryView {
            path: self.path@,
            is_dir: self.is_dir,
            has_packed_refs: self.has_packed_refs,
        }
    }
}

pub open spec fn views_of_entries(s: Seq<DirEntry>) -> Seq<DirEntryView> {
    s.map_values(|e: DirEntry| e@)
}

/// The directories of a listing that are bare repository leaves: they hold
/// a `packed-refs` file directly, are taken as repositories, and are not
/// recursed into.
pub open spec fn bare_leaves(es: Seq<DirEntryView>) -> Seq<Seq<u8>>
    decreases es.len(),
{
    if es.len() == 0 {
        Seq::empty()
    } else {
        let rest = bare_leaves(es.drop_last());
        if es.last().is_dir && es.last().has_packed_refs {
            rest.push(es.last().path)
        } else {
            rest
        }
    }
}

/// The directories of a listing to walk into: every directory that is not a
/// bare repository leaf. Non-directories are never walked.
pub open spec fn recurse_dirs(es: Seq<DirEntryView>) -> Seq<Seq<u8>>
    decreases es.len(),
{
    if es.len() == 0 {
        Seq::empty()
    } else {
        let rest = recurse_dirs(es.drop_last());
        if es.last().is_dir && !es.last().has_packed_refs {
            rest.push(es.last().path)
        } else {
            rest
        }
    }
}

/// One step of the explicit-stack recursive scan: classifies the listing of
/// one directory, taking every bare repository leaf as discovered and
/// putting every other subdirectory on the pending stack. An unreadable
/// directory simply contributes an empty listing.
pub fn discover_step(entries: &Vec<DirEntry>, pending: &mut Vec<Vec<u8>>, discovered: &mut Vec<
    Vec<u8>,
>)
    ensures
        views_of_bytes(final(discovered)@) == views_of_bytes(old(discovered)@) + bare_leaves(
            views_of_entries(entries@),
        ),
        views_of_bytes(final(pending)@) == views_of_bytes(old(pending)@) + recurse_dirs(
            views_of_entries(entries@),
        ),
{
    let ghost evs = views_of_entries(entries@);
    let mut i: usize = 0;
    while i < entries.len()
        invariant
            i <= entries@.len(),
            evs == views_of_entries(entries@),
            views_of_bytes(discovered@) == views_of_bytes(old(discovered)@) + bare_leaves(
                evs.take(i as int),
            ),
            views_of_bytes(pending@) == views_of_bytes(old(pending)@) + recurse_dirs(
                evs.take(i as int),
            ),
        decreases entries@.len() - i,
    {
        proof {
            assert(evs.take(i as int + 1).drop_last() =~= evs.take(i as int));
            assert(evs.take(i as int + 1).last() == evs[i as int]);
            assert(evs[i as int] == entries@[i as int]@);
        }
        if entries[i].is_dir {
            if entries[i].has_packed_refs {
                let p = clone_bytes(&entries[i].path);
                proof {
                    assert(views_of_bytes(discovered@.push(p)) =~= views_of_bytes(discovered@).push(
                        p@,
                    ));
                    assert((views_of_bytes(old(discovered)@) + bare_leaves(evs.take(i as int))).push(
                        evs[i as int].path,
                    ) =~= views_of_bytes(old(discovered)@) + bare_leaves(evs.take(i as int)).push(
                        evs[i as int].path,
                    ));
                }
                discovered.push(p);
            } else {
                let p = clone_bytes(&entries[i].path);
                proof {
                    assert(views_of_bytes(pending@.push(p)) =~= views_of_bytes(pending@).push(p@));
                    assert((views_of_bytes(old(pending)@) + recurse_dirs(evs.take(i as int))).push(
                        evs[i as int].path,
                    ) =~= views_of_bytes(old(pending)@) + recurse_dirs(evs.take(i as int)).push(
                        evs[i as int].path,
                    ));
                }
                pending.push(p);
            }
        }
        i += 1;
    }
    proof {
        assert(evs.take(entries@.len() as int) =~= evs);
    }
}

} // verus!
