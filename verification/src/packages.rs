//! The entry point for package uploads: one archive for a single package,
//! one archive per folder for a bundle.

use vstd::prelude::*;
use crate::entry::{EntryView, RepackError};
use crate::extract::{extracted, zip_has_file};
use crate::rebuild::{rebuilt, rezip_single};
use crate::seqs::rest_advances;
use crate::split::{
    folderless, folderless_has_no_groups, grouped, rezip_root_folders, split_results,
};
use crate::zipio::{found, parsed};

verus! {

/// The stored name whose presence marks an archive as a single package.
pub open spec fn marker() -> Seq<char> {
    "package.toml"@
}

/// The byte views of a list of archives.
pub open spec fn images(archives: Seq<Vec<u8>>) -> Seq<Seq<u8>> {
    Seq::new(archives.len(), |i: int| archives[i]@)
}

/// The first error among `results`, if there is one.
pub open spec fn first_error(results: Seq<Result<Vec<u8>, RepackError>>) -> Option<RepackError>
    decreases results.len(),
{
    if results.len() == 0 {
        None
    } else {
        match first_error(results.drop_last()) {
            Some(e) => Some(e),
            None => match results.last() {
                Ok(_) => None,
                Err(e) => Some(e),
            },
        }
    }
}

/// The archives of a list of results without an error.
pub open spec fn successes(results: Seq<Result<Vec<u8>, RepackError>>) -> Seq<Seq<u8>> {
    Seq::new(
        results.len(),
        |i: int|
            match results[i] {
                Ok(bytes) => bytes@,
                Err(_) => Seq::<u8>::empty(),
            },
    )
}

/// Turns the results of a split into the list of archives, or into the
/// first error among them.
pub fn collect_all(results: Vec<Result<Vec<u8>, RepackError>>) -> (r: Result<
    Vec<Vec<u8>>,
    RepackError,
>)
    ensures
        match first_error(results@) {
            Some(e) => r == Err::<Vec<Vec<u8>>, RepackError>(e),
            None => r matches Ok(archives) && images(archives@) == successes(results@),
        },
{
    let ghost all = results@;
    let mut rest = results;
    let mut out: Vec<Vec<u8>> = Vec::new();
    assert(all.take(0) =~= Seq::<Result<Vec<u8>, RepackError>>::empty());
    while rest.len() > 0
        invariant
            all == results@,
            out@.len() + rest@.len() == all.len(),
            rest@ == all.skip(out@.len() as int),
            first_error(all.take(out@.len() as int)) is None,
            images(out@) == successes(all.take(out@.len() as int)),
        decreases rest@.len(),
    {
        let ghost n = out@.len() as int;
        let ghost before = images(out@);
        let ghost old_rest = rest@;
        let item = rest.remove(0);
        proof {
            rest_advances(all, n, old_rest, rest@);
        }
        match item {
            Err(e) => {
                proof {
                    assert(first_error(all.take(n + 1)) == Some(e));
                    first_error_stays(all, n + 1);
                }
                return Err(e);
            },
            Ok(bytes) => {
                out.push(bytes);
                proof {
                    assert(first_error(all.take(n + 1)) is None);
                    assert forall|k: int| 0 <= k < n + 1 implies images(out@)[k] == successes(
                        all.take(n + 1),
                    )[k] by {
                        if k < n {
                            assert(images(out@)[k] == before[k]);
                            assert(successes(all.take(n))[k] == successes(all.take(n + 1))[k]);
                        }
                    }
                    assert(images(out@) =~= successes(all.take(n + 1)));
                }
            },
        }
    }
    assert(all.take(out@.len() as int) == all);
    Ok(out)
}

/// The first error of a prefix is the first error of the whole list.
pub proof fn first_error_stays(results: Seq<Result<Vec<u8>, RepackError>>, n: int)
    requires
        0 <= n <= results.len(),
        first_error(results.take(n)) is Some,
    ensures
        first_error(results) == first_error(results.take(n)),
    decreases results.len() - n,
{
    if n < results.len() {
        assert(results.take(n + 1).drop_last() == results.take(n));
        first_error_stays(results, n + 1);
    } else {
        assert(results.take(n) == results);
    }
}

/// Whether every group can be rebuilt.
pub open spec fn all_rebuilt(groups: Seq<(Seq<char>, Seq<EntryView>)>) -> bool {
    forall|i: int| 0 <= i < groups.len() ==> rebuilt((#[trigger] groups[i]).1) is Some
}

/// The rebuilt archives of groups that can all be rebuilt, in the order
/// of the groups.
pub open spec fn bundle_images(groups: Seq<(Seq<char>, Seq<EntryView>)>) -> Seq<Seq<u8>> {
    Seq::new(groups.len(), |i: int| rebuilt(groups[i].1).unwrap())
}

/// What a rebuild of `entries` yields: for a single package its one
/// archive; for a bundle one archive per group of the split, in the order
/// of the groups; `None` where an archive cannot be written.
pub open spec fn is_repacked(
    entries: Seq<EntryView>,
    single: bool,
    archives: Option<Seq<Seq<u8>>>,
) -> bool {
    if single {
        archives == match rebuilt(entries) {
            Some(image) => Some(seq![image]),
            None => None,
        }
    } else {
        exists|groups: Seq<(Seq<char>, Seq<EntryView>)>|
            #![trigger grouped(groups, entries)]
            grouped(groups, entries) && archives == if all_rebuilt(groups) {
                Some(bundle_images(groups))
            } else {
                None
            }
    }
}

/// The archives of a result, as plain values; `None` for an error.
pub open spec fn archives_of<E>(r: Result<Vec<Vec<u8>>, E>) -> Option<Seq<Seq<u8>>> {
    match r {
        Ok(archives) => Some(images(archives@)),
        Err(_) => None,
    }
}

/// Rebuilds an archive in the way asked for: as a single package, or
/// split by top-level folder. It fails if the buffer does not open or an
/// archive cannot be written, and only then.
pub fn rebuild_as(bytes: &[u8], single: bool) -> (r: Result<Vec<Vec<u8>>, RepackError>)
    ensures
        match parsed(bytes@) {
            None => r matches Err(RepackError::ArchiveOpen(_)),
            Some(records) => is_repacked(extracted(records), single, archives_of(r)) && (
            r matches Err(e) ==> e is Rebuild),
        },
{
    if single {
        match rezip_single(bytes) {
            Err(e) => Err(e),
            Ok(archive) => {
                let mut out: Vec<Vec<u8>> = Vec::new();
                out.push(archive);
                assert(images(out@) =~= seq![archive@]);
                Ok(out)
            },
        }
    } else {
        match rezip_root_folders(bytes) {
            Err(e) => Err(e),
            Ok(results) => {
                let ghost entries = extracted(parsed(bytes@).unwrap());
                let ghost groups = choose|groups: Seq<(Seq<char>, Seq<EntryView>)>|
                    grouped(groups, entries) && #[trigger] split_results(groups, results@);
                match collect_all(results) {
                    Err(e) => {
                        proof {
                            error_is_listed(results@);
                            let i = choose|i: int|
                                0 <= i < results@.len() && #[trigger] results@[i] == Err::<
                                    Vec<u8>,
                                    RepackError,
                                >(first_error(results@).unwrap());
                            assert(rebuilt(groups[i].1) is None);
                            assert(grouped(groups, entries));
                        }
                        Err(e)
                    },
                    Ok(archives) => {
                        proof {
                            first_error_none(results@);
                            assert(images(archives@).len() == archives@.len());
                            assert(successes(results@).len() == results@.len());
                            assert forall|i: int| 0 <= i < groups.len() implies rebuilt(
                                (#[trigger] groups[i]).1,
                            ) is Some by {
                                assert(results@[i] is Ok);
                            }
                            assert forall|i: int| 0 <= i < archives@.len() implies images(
                                archives@,
                            )[i] == bundle_images(groups)[i] by {
                                assert(images(archives@)[i] == successes(results@)[i]);
                                assert(results@[i] is Ok);
                            }
                            assert(images(archives@) =~= bundle_images(groups));
                            assert(grouped(groups, entries));
                        }
                        Ok(archives)
                    },
                }
            },
        }
    }
}

/// Rebuilds an uploaded archive. An archive that holds the marker file at
/// its root is a single package and is rebuilt as one archive, whatever
/// folders it has; any other archive is split by top-level folder. It
/// fails if the buffer does not open or an archive cannot be written, and
/// only then; errors come back as their message.
pub fn rezip_packages(bytes: &[u8]) -> (r: Result<Vec<Vec<u8>>, String>)
    ensures
        match parsed(bytes@) {
            None => r is Err,
            Some(records) => is_repacked(
                extracted(records),
                found(records, marker()) is Some,
                archives_of(r),
            ),
        },
{
    match zip_has_file(bytes, "package.toml") {
        Err(e) => Err(e.message()),
        Ok(single) => match rebuild_as(bytes, single) {
            Err(e) => Err(e.message()),
            Ok(archives) => Ok(archives),
        },
    }
}

/// A bundle of entries of which none lies in a folder is rebuilt to no
/// archive at all, and that cannot fail.
pub proof fn folderless_bundle_is_empty(entries: Seq<EntryView>, archives: Option<Seq<Seq<u8>>>)
    requires
        folderless(entries),
        is_repacked(entries, false, archives),
    ensures
        archives == Some(Seq::<Seq<u8>>::empty()),
{
    let groups = choose|groups: Seq<(Seq<char>, Seq<EntryView>)>|
        #![trigger grouped(groups, entries)]
        grouped(groups, entries) && archives == if all_rebuilt(groups) {
            Some(bundle_images(groups))
        } else {
            None
        };
    folderless_has_no_groups(groups, entries);
    assert(bundle_images(groups) =~= Seq::<Seq<u8>>::empty());
}

/// The first error of a list is one of its results.
pub proof fn error_is_listed(results: Seq<Result<Vec<u8>, RepackError>>)
    requires
        first_error(results) is Some,
    ensures
        exists|i: int|
            0 <= i < results.len() && #[trigger] results[i] == Err::<Vec<u8>, RepackError>(
                first_error(results).unwrap(),
            ),
    decreases results.len(),
{
    if results.len() > 0 {
        if first_error(results.drop_last()) is Some {
            error_is_listed(results.drop_last());
            let i = choose|i: int|
                0 <= i < results.drop_last().len() && #[trigger] results.drop_last()[i] == Err::<
                    Vec<u8>,
                    RepackError,
                >(first_error(results.drop_last()).unwrap());
            assert(results[i] == results.drop_last()[i]);
        } else {
            assert(results[results.len() - 1] == Err::<Vec<u8>, RepackError>(
                first_error(results).unwrap(),
            ));
        }
    }
}

/// Without a first error, every result is a success.
pub proof fn first_error_none(results: Seq<Result<Vec<u8>, RepackError>>)
    requires
        first_error(results) is None,
    ensures
        forall|i: int| 0 <= i < results.len() ==> (#[trigger] results[i]) is Ok,
    decreases results.len(),
{
    if results.len() > 0 {
        first_error_none(results.drop_last());
        assert forall|i: int| 0 <= i < results.len() implies (#[trigger] results[i]) is Ok by {
            if i < results.len() - 1 {
                assert(results.drop_last()[i] == results[i]);
            }
        }
    }
}

} // verus!
