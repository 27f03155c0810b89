//! Extraction: from archive bytes to the entries worth keeping.

use vstd::prelude::*;
use crate::entry::{entry_of, views, Entry, EntryView, RepackError};
use crate::path::{
    clean_path, escapes_root, normalized, sanitized, sanitized_is_normalized, slashed,
    traversal_is_refused,
};
use crate::zipio::{
    describe, encloses, member_at, member_count, member_named, names_directory, open_archive,
    found, parsed, stored, Member, MemberView,
};

verus! {

/// The entry that a member becomes, or `None` where it is skipped: a
/// member is kept if the container takes its name for an enclosed path and
/// the sanitizer accepts it. A directory is kept without content.
pub open spec fn kept(m: MemberView) -> Option<EntryView> {
    if !m.enclosed {
        None
    } else {
        match sanitized(m.name) {
            None => None,
            Some(path) => Some(
                EntryView {
                    path,
                    is_directory: m.is_directory,
                    content: if m.is_directory { Seq::<u8>::empty() } else { m.content },
                },
            ),
        }
    }
}

/// A stored record as the member it opens to, if it opens.
pub open spec fn opened(record: (Seq<char>, Option<Seq<u8>>)) -> Option<MemberView> {
    match record.1 {
        None => None,
        Some(content) => Some(
            MemberView {
                name: record.0,
                enclosed: encloses(record.0),
                is_directory: names_directory(record.0),
                content,
            },
        ),
    }
}

/// The entries extracted from a list of stored records: in stored order,
/// without the records that cannot be opened and the members that are
/// skipped.
pub open spec fn extracted(records: Seq<(Seq<char>, Option<Seq<u8>>)>) -> Seq<EntryView>
    decreases records.len(),
{
    if records.len() == 0 {
        Seq::<EntryView>::empty()
    } else {
        let before = extracted(records.drop_last());
        match opened(records.last()) {
            None => before,
            Some(m) => match kept(m) {
                None => before,
                Some(e) => before.push(e),
            },
        }
    }
}

/// A member whose name leads above the root is skipped, whatever the
/// container makes of the name.
pub proof fn traversal_member_is_skipped(m: MemberView)
    requires
        escapes_root(slashed(m.name)),
    ensures
        kept(m) is None,
{
    traversal_is_refused(m.name);
}

/// Every extracted entry has a path in normal form: no entry comes out
/// under a path that is absolute, empty or leaves the root.
pub proof fn extracted_paths_are_normalized(records: Seq<(Seq<char>, Option<Seq<u8>>)>)
    ensures
        forall|i: int|
            0 <= i < extracted(records).len() ==> normalized(
                (#[trigger] extracted(records)[i]).path,
            ),
    decreases records.len(),
{
    if records.len() > 0 {
        let before = extracted(records.drop_last());
        extracted_paths_are_normalized(records.drop_last());
        if opened(records.last()) is Some && kept(opened(records.last()).unwrap()) is Some {
            let m = opened(records.last()).unwrap();
            let e = kept(m).unwrap();
            sanitized_is_normalized(m.name);
            assert(extracted(records) == before.push(e));
            assert forall|i: int| 0 <= i < extracted(records).len() implies normalized(
                (#[trigger] extracted(records)[i]).path,
            ) by {
                if i < before.len() {
                    assert(extracted(records)[i] == before[i]);
                }
            }
        } else {
            assert(extracted(records) == before);
        }
    }
}

/// Decides on one member: the entry to keep, or `None` to skip it.
pub fn keep_member(m: Member) -> (r: Option<Entry>)
    ensures
        entry_of(r) == kept(m@),
{
    if !m.enclosed {
        return None;
    }
    match clean_path(m.name.as_str()) {
        None => None,
        Some(path) => {
            let content = if m.is_directory { Vec::new() } else { m.content };
            Some(Entry { path, is_directory: m.is_directory, content })
        },
    }
}

/// Extracts the entries of an archive. A buffer that cannot be opened as
/// an archive is the only error; a member that cannot be opened or whose
/// name is unsafe is left out.
pub fn extract(bytes: &[u8]) -> (r: Result<Vec<Entry>, RepackError>)
    ensures
        match parsed(bytes@) {
            None => r matches Err(RepackError::ArchiveOpen(_)),
            Some(records) => r matches Ok(entries) && views(entries@) == extracted(records),
        },
{
    let mut archive = match open_archive(bytes) {
        Ok(archive) => archive,
        Err(e) => {
            return Err(RepackError::ArchiveOpen(describe(&e)));
        },
    };
    let ghost records = stored(archive);
    let n: usize = member_count(&archive);
    let mut out: Vec<Entry> = Vec::new();
    let mut i: usize = 0;
    while i < n
        invariant
            i <= n,
            n == records.len(),
            stored(archive) == records,
            views(out@) == extracted(records.take(i as int)),
        decreases n - i,
    {
        proof {
            assert(records.take(i + 1).drop_last() == records.take(i as int));
            assert(records.take(i + 1).last() == records[i as int]);
        }
        let ghost before = views(out@);
        match member_at(&mut archive, i) {
            None => {},
            Some(m) => {
                assert(Some(m@) == opened(records[i as int]));
                match keep_member(m) {
                    None => {},
                    Some(e) => {
                        out.push(e);
                        assert(views(out@) =~= before.push(e@));
                    },
                }
            },
        }
        i += 1;
    }
    assert(records.take(n as int) == records);
    Ok(out)
}

/// Reads one member by its exact stored name, without any sanitizing.
pub fn read_file(bytes: &[u8], name: &str) -> (r: Result<Vec<u8>, RepackError>)
    ensures
        match parsed(bytes@) {
            None => r matches Err(RepackError::ArchiveOpen(_)),
            Some(records) => match found(records, name@) {
                None => r matches Err(RepackError::Lookup(_)),
                Some(content) => r matches Ok(v) && v@ == content,
            },
        },
{
    let mut archive = match open_archive(bytes) {
        Ok(archive) => archive,
        Err(e) => {
            return Err(RepackError::ArchiveOpen(describe(&e)));
        },
    };
    match member_named(&mut archive, name) {
        Ok(content) => Ok(content),
        Err(message) => Err(RepackError::Lookup(message)),
    }
}

/// Whether the archive holds a member of exactly this stored name that can
/// be opened.
pub fn zip_has_file(bytes: &[u8], name: &str) -> (r: Result<bool, RepackError>)
    ensures
        match parsed(bytes@) {
            None => r matches Err(RepackError::ArchiveOpen(_)),
            Some(records) => r == Ok::<bool, RepackError>(found(records, name@) is Some),
        },
{
    let mut archive = match open_archive(bytes) {
        Ok(archive) => archive,
        Err(e) => {
            return Err(RepackError::ArchiveOpen(describe(&e)));
        },
    };
    Ok(member_named(&mut archive, name).is_ok())
}

} // verus!
