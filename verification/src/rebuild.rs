//! Rebuilding: entries in, one deterministic archive out.

use vstd::prelude::*;
use crate::entry::{views, Entry, EntryView, RepackError};
use crate::extract::{extract, extracted};
use crate::seqs::rest_advances;
use crate::text::{
    lex_le, lex_le_antisymmetric, lex_le_reflexive, lex_le_total, lex_le_transitive, str_le,
};
use crate::zipio::{
    describe, finish, new_writer, parsed, staged, start_file, starts, takes, write_bytes, written,
};

verus! {

/// Entries in strictly ascending order of their paths: no path twice.
pub open spec fn strictly_ascending(entries: Seq<EntryView>) -> bool {
    forall|i: int, j: int|
        0 <= i < j < entries.len() ==> lex_le(
            (#[trigger] entries[i]).path,
            (#[trigger] entries[j]).path,
        ) && entries[i].path != entries[j].path
}

/// Where an entry of path `path` goes into `sorted`: behind the last entry
/// whose path is not greater.
pub open spec fn slot(sorted: Seq<EntryView>, path: Seq<char>) -> int
    decreases sorted.len(),
{
    if sorted.len() == 0 {
        0
    } else if lex_le(sorted.last().path, path) {
        sorted.len() as int
    } else {
        slot(sorted.drop_last(), path)
    }
}

/// `sorted` with `e` put in its place: where `sorted` holds an entry of
/// the same path, `e` takes its place; otherwise `e` goes in between.
pub open spec fn placed_in(sorted: Seq<EntryView>, e: EntryView) -> Seq<EntryView> {
    let p = slot(sorted, e.path);
    if p > 0 && sorted[p - 1].path == e.path {
        sorted.update(p - 1, e)
    } else {
        sorted.insert(p, e)
    }
}

/// The files among `entries`, sorted by path. Directories are left out,
/// and of several files of one path the last one stands for all.
pub open spec fn sorted_entries(entries: Seq<EntryView>) -> Seq<EntryView>
    decreases entries.len(),
{
    if entries.len() == 0 {
        Seq::<EntryView>::empty()
    } else if entries.last().is_directory {
        sorted_entries(entries.drop_last())
    } else {
        placed_in(sorted_entries(entries.drop_last()), entries.last())
    }
}

/// The files that are written for a list of entries: every entry but the
/// directories, in order, as name and content.
pub open spec fn files_of(entries: Seq<EntryView>) -> Seq<(Seq<char>, Seq<u8>)>
    decreases entries.len(),
{
    if entries.len() == 0 {
        Seq::<(Seq<char>, Seq<u8>)>::empty()
    } else if entries.last().is_directory {
        files_of(entries.drop_last())
    } else {
        files_of(entries.drop_last()).push((entries.last().path, entries.last().content))
    }
}

/// Whether the writer takes `files` one after the other: each is started
/// on the files before it and then takes its bytes.
pub open spec fn goes_in(files: Seq<(Seq<char>, Seq<u8>)>) -> bool
    decreases files.len(),
{
    if files.len() == 0 {
        true
    } else {
        let before = files.drop_last();
        &&& goes_in(before)
        &&& starts(before, files.last().0)
        &&& takes(before.push((files.last().0, Seq::<u8>::empty())), files.last().1)
    }
}

/// The archive made of `files` in this order, or `None` where the writer
/// refuses one of them or fails to finish.
pub open spec fn produced(files: Seq<(Seq<char>, Seq<u8>)>) -> Option<Seq<u8>> {
    if goes_in(files) {
        written(files)
    } else {
        None
    }
}

/// The archive rebuilt from a list of entries: its files, sorted by path,
/// each path once.
pub open spec fn rebuilt(entries: Seq<EntryView>) -> Option<Seq<u8>> {
    produced(files_of(sorted_entries(entries)))
}

/// `r` is the outcome `expected`: the archive where there is one, a
/// rebuild error where there is none.
pub open spec fn is_outcome(r: Result<Vec<u8>, RepackError>, expected: Option<Seq<u8>>) -> bool {
    match expected {
        Some(image) => r matches Ok(bytes) && bytes@ == image,
        None => r matches Err(e) && e is Rebuild,
    }
}

/// The slot lies inside the list; every entry from it on has a greater
/// path, and the entry just before it has not.
pub proof fn slot_bounds(sorted: Seq<EntryView>, path: Seq<char>)
    ensures
        0 <= slot(sorted, path) <= sorted.len(),
        forall|k: int| slot(sorted, path) <= k < sorted.len() ==> !lex_le((#[trigger] sorted[k]).path, path),
        slot(sorted, path) > 0 ==> lex_le(sorted[slot(sorted, path) - 1].path, path),
    decreases sorted.len(),
{
    if sorted.len() > 0 && !lex_le(sorted.last().path, path) {
        slot_bounds(sorted.drop_last(), path);
        assert forall|k: int| slot(sorted, path) <= k < sorted.len() implies !lex_le(
            (#[trigger] sorted[k]).path,
            path,
        ) by {
            if k < sorted.len() - 1 {
                assert(sorted.drop_last()[k] == sorted[k]);
            }
        }
    }
}

/// Putting a file in its place keeps a strictly ascending list strictly
/// ascending.
pub proof fn placing_keeps_order(before: Seq<EntryView>, e: EntryView)
    requires
        strictly_ascending(before),
    ensures
        strictly_ascending(placed_in(before, e)),
{
    let p = slot(before, e.path);
    slot_bounds(before, e.path);
    lex_le_reflexive(e.path);
    let after = placed_in(before, e);
    if p > 0 && before[p - 1].path == e.path {
        assert forall|i: int, j: int| 0 <= i < j < after.len() implies lex_le(
            (#[trigger] after[i]).path,
            (#[trigger] after[j]).path,
        ) && after[i].path != after[j].path by {
            assert(after[i].path == before[i].path && after[j].path == before[j].path);
        }
    } else {
        assert forall|i: int, j: int| 0 <= i < j < after.len() implies lex_le(
            (#[trigger] after[i]).path,
            (#[trigger] after[j]).path,
        ) && after[i].path != after[j].path by {
            if j < p {
                assert(after[i] == before[i] && after[j] == before[j]);
            } else if j == p {
                assert(after[i] == before[i]);
                if i < p - 1 {
                    assert(lex_le(before[i].path, before[p - 1].path));
                    lex_le_transitive(before[i].path, before[p - 1].path, e.path);
                    if before[i].path == e.path {
                        lex_le_antisymmetric(before[p - 1].path, e.path);
                    }
                }
            } else if i == p {
                assert(after[j] == before[j - 1]);
                lex_le_total(before[j - 1].path, e.path);
            } else if i < p {
                assert(after[i] == before[i] && after[j] == before[j - 1]);
            } else {
                assert(after[i] == before[i - 1] && after[j] == before[j - 1]);
            }
        }
    }
}

/// What is written is strictly ascending by path, so no path is written
/// twice, and holds no directory.
pub proof fn sorted_is_strict(entries: Seq<EntryView>)
    ensures
        strictly_ascending(sorted_entries(entries)),
        forall|i: int|
            0 <= i < sorted_entries(entries).len() ==> !(#[trigger] sorted_entries(
                entries,
            )[i]).is_directory,
    decreases entries.len(),
{
    if entries.len() > 0 {
        let before = sorted_entries(entries.drop_last());
        let e = entries.last();
        sorted_is_strict(entries.drop_last());
        if !e.is_directory {
            placing_keeps_order(before, e);
            slot_bounds(before, e.path);
            let p = slot(before, e.path);
            let after = placed_in(before, e);
            assert forall|i: int| 0 <= i < after.len() implies !(#[trigger] after[i]).is_directory by {
                if p > 0 && before[p - 1].path == e.path {
                    if i != p - 1 {
                        assert(after[i] == before[i]);
                    }
                } else if i < p {
                    assert(after[i] == before[i]);
                } else if i > p {
                    assert(after[i] == before[i - 1]);
                }
            }
        }
    }
}

/// Entries whose paths differ from one another.
pub open spec fn distinct_paths(entries: Seq<EntryView>) -> bool {
    forall|i: int, j: int|
        0 <= i < j < entries.len() ==> (#[trigger] entries[i]).path != (#[trigger] entries[j]).path
}

/// Of entries with distinct paths, sorting keeps exactly the files.
pub proof fn sorted_holds_files(entries: Seq<EntryView>)
    requires
        distinct_paths(entries),
    ensures
        forall|x: EntryView| #[trigger]
            sorted_entries(entries).contains(x) <==> entries.contains(x) && !x.is_directory,
    decreases entries.len(),
{
    if entries.len() == 0 {
        assert forall|x: EntryView| #[trigger]
            sorted_entries(entries).contains(x) <==> entries.contains(x) && !x.is_directory by {}
    } else {
        let shorter = entries.drop_last();
        let n = entries.len() - 1;
        let before = sorted_entries(shorter);
        let e = entries.last();
        assert forall|i: int, j: int| 0 <= i < j < shorter.len() implies (#[trigger] shorter[i]).path
            != (#[trigger] shorter[j]).path by {
            assert(shorter[i] == entries[i] && shorter[j] == entries[j]);
        }
        sorted_holds_files(shorter);
        let p = slot(before, e.path);
        slot_bounds(before, e.path);
        if p > 0 && !e.is_directory {
            assert(before.contains(before[p - 1]));
            assert(shorter.contains(before[p - 1]));
            let i = choose|i: int| 0 <= i < shorter.len() && shorter[i] == before[p - 1];
            assert(entries[i] == shorter[i]);
            assert(entries[i].path != entries[n].path);
        }
        let after = sorted_entries(entries);
        assert forall|x: EntryView| #[trigger]
            after.contains(x) <==> entries.contains(x) && !x.is_directory by {
            if after.contains(x) {
                let i = choose|i: int| 0 <= i < after.len() && after[i] == x;
                if e.is_directory {
                    assert(before.contains(x));
                } else if i < p {
                    assert(before[i] == x);
                    assert(before.contains(x));
                } else if i > p {
                    assert(before[i - 1] == x);
                    assert(before.contains(x));
                } else {
                    assert(x == e);
                }
                if x != e {
                    assert(shorter.contains(x));
                    let k = choose|k: int| 0 <= k < shorter.len() && shorter[k] == x;
                    assert(entries[k] == x);
                } else {
                    assert(entries[n] == x);
                }
            }
            if entries.contains(x) && !x.is_directory {
                let k = choose|k: int| 0 <= k < entries.len() && entries[k] == x;
                if k < n {
                    assert(shorter[k] == x);
                    assert(shorter.contains(x));
                    assert(before.contains(x));
                    let i = choose|i: int| 0 <= i < before.len() && before[i] == x;
                    if e.is_directory {
                    } else if i < p {
                        assert(after[i] == x);
                    } else {
                        assert(after[i + 1] == x);
                    }
                } else {
                    assert(after[p] == x);
                }
            }
        }
    }
}

/// Dropping the last of a strictly ascending list drops exactly the entry
/// of the last path.
pub proof fn shorter_contains(x: Seq<EntryView>, e: EntryView)
    requires
        strictly_ascending(x),
        x.len() > 0,
    ensures
        strictly_ascending(x.drop_last()),
        x.drop_last().contains(e) == (x.contains(e) && e.path != x.last().path),
{
    let xs = x.drop_last();
    let n = x.len() - 1;
    assert forall|i: int, j: int| 0 <= i < j < xs.len() implies lex_le(
        (#[trigger] xs[i]).path,
        (#[trigger] xs[j]).path,
    ) && xs[i].path != xs[j].path by {
        assert(xs[i] == x[i] && xs[j] == x[j]);
    }
    if xs.contains(e) {
        let i = choose|i: int| 0 <= i < xs.len() && xs[i] == e;
        assert(x[i] == e);
        assert(x[i].path != x[n].path);
    }
    if x.contains(e) && e.path != x.last().path {
        let i = choose|i: int| 0 <= i < x.len() && x[i] == e;
        assert(xs[i] == e);
    }
}

/// Two strictly ascending lists of the same entries are the same list.
pub proof fn strict_is_unique(x: Seq<EntryView>, y: Seq<EntryView>)
    requires
        strictly_ascending(x),
        strictly_ascending(y),
        forall|e: EntryView|
            #![trigger x.contains(e)]
            #![trigger y.contains(e)]
            x.contains(e) == y.contains(e),
    ensures
        x == y,
    decreases x.len(),
{
    if x.len() == 0 {
        if y.len() > 0 {
            assert(y.contains(y[0]));
            assert(x.contains(y[0]));
        }
        assert(x =~= y);
    } else {
        let n = x.len() - 1;
        assert(x.contains(x[n]));
        assert(y.contains(x[n]));
        let k = choose|k: int| 0 <= k < y.len() && y[k] == x[n];
        let t = y.len() - 1;
        assert(y.contains(y[t]));
        assert(x.contains(y[t]));
        let m = choose|m: int| 0 <= m < x.len() && x[m] == y[t];
        lex_le_reflexive(x[n].path);
        lex_le_reflexive(y[t].path);
        assert(lex_le(y[k].path, y[t].path));
        assert(lex_le(x[m].path, x[n].path));
        lex_le_antisymmetric(x[n].path, y[t].path);
        assert(m == n);
        let xs = x.drop_last();
        let ys = y.drop_last();
        assert forall|e: EntryView|
            #![trigger xs.contains(e)]
            #![trigger ys.contains(e)]
            xs.contains(e) == ys.contains(e) by {
            shorter_contains(x, e);
            shorter_contains(y, e);
            assert(x.contains(e) == y.contains(e));
        }
        shorter_contains(x, x[n]);
        shorter_contains(y, x[n]);
        strict_is_unique(xs, ys);
        assert(x =~= xs.push(x[n]));
        assert(y =~= ys.push(y[t]));
    }
}

/// Rebuilding is deterministic: two lists of the same entries, each path
/// occurring once, are rebuilt alike, whatever their order: both to the
/// same archive, or both to an error.
pub proof fn rebuild_ignores_order(a: Seq<EntryView>, b: Seq<EntryView>)
    requires
        forall|e: EntryView|
            #![trigger a.contains(e)]
            #![trigger b.contains(e)]
            a.contains(e) == b.contains(e),
        distinct_paths(a),
        distinct_paths(b),
    ensures
        sorted_entries(a) == sorted_entries(b),
        rebuilt(a) == rebuilt(b),
{
    sorted_is_strict(a);
    sorted_is_strict(b);
    sorted_holds_files(a);
    sorted_holds_files(b);
    let x = sorted_entries(a);
    let y = sorted_entries(b);
    assert forall|e: EntryView|
        #![trigger x.contains(e)]
        #![trigger y.contains(e)]
        x.contains(e) == y.contains(e) by {
        assert(a.contains(e) == b.contains(e));
    }
    strict_is_unique(x, y);
}

/// Directories are never written: entries that are all directories are
/// rebuilt to what the writer makes of no file at all.
pub proof fn directories_leave_nothing(entries: Seq<EntryView>)
    requires
        forall|i: int| 0 <= i < entries.len() ==> (#[trigger] entries[i]).is_directory,
    ensures
        sorted_entries(entries) == Seq::<EntryView>::empty(),
        rebuilt(entries) == written(Seq::<(Seq<char>, Seq<u8>)>::empty()),
    decreases entries.len(),
{
    if entries.len() > 0 {
        let shorter = entries.drop_last();
        assert forall|i: int| 0 <= i < shorter.len() implies (#[trigger] shorter[i]).is_directory by {
            assert(shorter[i] == entries[i]);
        }
        directories_leave_nothing(shorter);
    }
}

/// Once the writer has refused a file, it takes no longer list either.
pub proof fn refusal_stays(entries: Seq<EntryView>, n: int)
    requires
        0 <= n <= entries.len(),
        !goes_in(files_of(entries.take(n))),
    ensures
        !goes_in(files_of(entries)),
    decreases entries.len() - n,
{
    if n < entries.len() {
        assert(entries.take(n + 1).drop_last() == entries.take(n));
        let before = files_of(entries.take(n));
        let e = entries[n];
        assert(entries.take(n + 1).last() == e);
        if !e.is_directory {
            assert(before.push((e.path, e.content)).drop_last() == before);
        }
        refusal_stays(entries, n + 1);
    } else {
        assert(entries.take(n) == entries);
    }
}

/// Puts one file into a sorted list: in the place of the entry of the
/// same path where there is one, else behind the entries of smaller path.
pub fn insert_entry(sorted: &mut Vec<Entry>, entry: Entry)
    ensures
        views(final(sorted)@) == placed_in(views(old(sorted)@), entry@),
{
    let ghost before = views(sorted@);
    let mut i: usize = sorted.len();
    assert(before.take(i as int) == before);
    while i > 0 && !str_le(sorted[i - 1].path.as_str(), entry.path.as_str())
        invariant
            i <= sorted@.len(),
            views(sorted@) == before,
            slot(before, entry@.path) == slot(before.take(i as int), entry@.path),
        decreases i,
    {
        proof {
            assert(before.take(i as int).last() == sorted@[i - 1]@);
            assert(before.take(i as int).drop_last() == before.take(i - 1));
        }
        i -= 1;
    }
    proof {
        if i > 0 {
            assert(before.take(i as int).last() == sorted@[i - 1]@);
            assert(before[i - 1] == sorted@[i - 1]@);
        }
        lex_le_reflexive(entry@.path);
    }
    if i > 0 && str_le(entry.path.as_str(), sorted[i - 1].path.as_str()) {
        proof {
            lex_le_antisymmetric(entry@.path, before[i - 1].path);
        }
        sorted.set(i - 1, entry);
        assert(views(sorted@) =~= before.update(i - 1, entry@));
    } else {
        sorted.insert(i, entry);
        assert(views(sorted@) =~= before.insert(i as int, entry@));
    }
}

/// Sorts the files among `entries` by path. Directories are left out; of
/// several files of one path the last one is kept.
pub fn sort_entries(entries: Vec<Entry>) -> (r: Vec<Entry>)
    ensures
        views(r@) == sorted_entries(views(entries@)),
{
    let ghost all = views(entries@);
    let mut rest = entries;
    let mut out: Vec<Entry> = Vec::new();
    let ghost mut done: int = 0;
    while rest.len() > 0
        invariant
            0 <= done <= all.len(),
            rest@.len() == all.len() - done,
            views(rest@) == all.skip(done),
            views(out@) == sorted_entries(all.take(done)),
        decreases rest@.len(),
    {
        let ghost old_rest = views(rest@);
        let e = rest.remove(0);
        proof {
            assert(e@ == old_rest[0]);
            rest_advances(all, done, old_rest, views(rest@));
            done = done + 1;
        }
        if !e.is_directory {
            insert_entry(&mut out, e);
        }
    }
    assert(all.take(done) == all);
    out
}

/// Writes the files of `entries`, in the order given, into a new archive.
/// It fails exactly where the writer refuses a file or fails to finish.
pub fn write_archive(entries: &Vec<Entry>) -> (r: Result<Vec<u8>, RepackError>)
    ensures
        is_outcome(r, produced(files_of(views(entries@)))),
{
    let ghost all = views(entries@);
    let mut writer = new_writer();
    let mut i: usize = 0;
    while i < entries.len()
        invariant
            i <= entries@.len(),
            all == views(entries@),
            staged(writer) == files_of(all.take(i as int)),
            goes_in(files_of(all.take(i as int))),
        decreases entries@.len() - i,
    {
        let entry = &entries[i];
        proof {
            assert(all.take(i + 1).drop_last() == all.take(i as int));
            assert(all.take(i + 1).last() == entry@);
        }
        if !entry.is_directory {
            let ghost before = staged(writer);
            let ghost after = before.push((entry@.path, entry@.content));
            assert(after.drop_last() == before);
            match start_file(&mut writer, entry.path.as_str()) {
                Ok(_) => {},
                Err(e) => {
                    proof {
                        refusal_stays(all, i + 1);
                    }
                    return Err(RepackError::Rebuild(describe(&e)));
                },
            }
            match write_bytes(&mut writer, entry.content.as_slice()) {
                Ok(_) => {},
                Err(e) => {
                    proof {
                        refusal_stays(all, i + 1);
                    }
                    return Err(RepackError::Rebuild(describe(&e)));
                },
            }
            proof {
                assert(Seq::<u8>::empty() + entry.content@ =~= entry.content@);
                assert(staged(writer) =~= after);
            }
        }
        i += 1;
    }
    assert(all.take(entries@.len() as int) == all);
    match finish(&mut writer) {
        Ok(bytes) => Ok(bytes),
        Err(e) => Err(RepackError::Rebuild(describe(&e))),
    }
}

/// Rebuilds one archive from entries: directories are left out, the files
/// are written in strictly ascending order of their paths, and of several
/// files of one path the last one is written.
pub fn zip_entries(entries: Vec<Entry>) -> (r: Result<Vec<u8>, RepackError>)
    ensures
        is_outcome(r, rebuilt(views(entries@))),
{
    let sorted = sort_entries(entries);
    write_archive(&sorted)
}

/// Rebuilds an archive as a single archive of all its files.
pub fn rezip_single(bytes: &[u8]) -> (r: Result<Vec<u8>, RepackError>)
    ensures
        match parsed(bytes@) {
            None => r matches Err(RepackError::ArchiveOpen(_)),
            Some(records) => is_outcome(r, rebuilt(extracted(records))),
        },
{
    match extract(bytes) {
        Err(e) => Err(e),
        Ok(entries) => zip_entries(entries),
    }
}

} // verus!
