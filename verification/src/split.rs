//! Splitting: one archive per top-level folder.

use vstd::prelude::*;
use crate::entry::{views, Entry, EntryView, RepackError};
use crate::extract::{extract, extracted};
use crate::rebuild::{distinct_paths, is_outcome, rebuild_ignores_order, rebuilt, zip_entries};
use crate::seqs::rest_advances;
use crate::text::{
    chars_of, lex_le, lex_le_antisymmetric, lex_le_reflexive, lex_le_total, lex_le_transitive,
    str_le, string_of,
};
use crate::zipio::parsed;

verus! {

/// `i` is the place of the first slash of `s`.
pub open spec fn first_slash(s: Seq<char>, i: int) -> bool {
    0 <= i < s.len() && s[i] == '/' && forall|k: int| 0 <= k < i ==> s[k] != '/'
}

/// A path cut at its first slash: the top-level folder and the path below
/// it. `None` for a path without a slash.
pub open spec fn top_folder(s: Seq<char>) -> Option<(Seq<char>, Seq<char>)> {
    if exists|i: int| first_slash(s, i) {
        let i = choose|i: int| first_slash(s, i);
        Some((s.take(i), s.skip(i + 1)))
    } else {
        None
    }
}

/// Where an entry goes in a split: the folder it belongs to and the entry
/// as it is stored there, under the path below the folder. Directories and
/// entries outside any folder go nowhere.
pub open spec fn placed(e: EntryView) -> Option<(Seq<char>, EntryView)> {
    if e.is_directory {
        None
    } else {
        match top_folder(e.path) {
            None => None,
            Some((key, rest)) => Some(
                (key, EntryView { path: rest, is_directory: false, content: e.content }),
            ),
        }
    }
}

/// The entries of the folder `key`, in the order of `entries`.
pub open spec fn members_of(entries: Seq<EntryView>, key: Seq<char>) -> Seq<EntryView>
    decreases entries.len(),
{
    if entries.len() == 0 {
        Seq::<EntryView>::empty()
    } else {
        let before = members_of(entries.drop_last(), key);
        match placed(entries.last()) {
            Some((k, item)) => if k == key { before.push(item) } else { before },
            None => before,
        }
    }
}

/// The entries of one top-level folder.
#[derive(Debug, Clone, PartialEq, Eq)]
pub struct Group {
    /// The folder's name.
    pub key: String,
    /// Its entries, each under its path below the folder.
    pub entries: Vec<Entry>,
}

/// Groups as plain values: each a folder name with its entries.
pub open spec fn group_views(groups: Seq<Group>) -> Seq<(Seq<char>, Seq<EntryView>)> {
    Seq::new(groups.len(), |i: int| (groups[i].key@, views(groups[i].entries@)))
}

/// Folder names in strictly descending order.
pub open spec fn descending_keys(groups: Seq<(Seq<char>, Seq<EntryView>)>) -> bool {
    forall|i: int, j: int|
        0 <= i < j < groups.len() ==> lex_le((#[trigger] groups[j]).0, (#[trigger] groups[i]).0)
            && groups[i].0 != groups[j].0
}

/// `groups` is the split of `entries`: one group for each folder that has
/// an entry, each holding exactly that folder's entries, the folders in
/// descending order of their names.
pub open spec fn grouped(groups: Seq<(Seq<char>, Seq<EntryView>)>, entries: Seq<EntryView>) -> bool {
    &&& descending_keys(groups)
    &&& forall|i: int|
        0 <= i < groups.len() ==> (#[trigger] groups[i]).1 == members_of(entries, groups[i].0)
            && groups[i].1.len() > 0
    &&& forall|key: Seq<char>|
        (#[trigger] members_of(entries, key)).len() > 0 ==> exists|i: int|
            0 <= i < groups.len() && (#[trigger] groups[i]).0 == key
}

/// `after` is `before` with `item` added to the folder `key`: at the end
/// of that folder's group, or as a new group where there was none.
pub open spec fn joined(
    before: Seq<(Seq<char>, Seq<EntryView>)>,
    after: Seq<(Seq<char>, Seq<EntryView>)>,
    key: Seq<char>,
    item: EntryView,
) -> bool {
    ||| exists|p: int|
        0 <= p < before.len() && (#[trigger] before[p]).0 == key && after == before.update(
            p,
            (key, before[p].1.push(item)),
        )
    ||| {
        &&& forall|i: int| 0 <= i < before.len() ==> (#[trigger] before[i]).0 != key
        &&& exists|p: int|
            0 <= p <= before.len() && after == #[trigger] before.insert(p, (key, seq![item]))
    }
}

/// Entries of which none lies in a folder: each is a directory or has a
/// path without a slash. Splitting them writes nothing.
pub open spec fn folderless(entries: Seq<EntryView>) -> bool {
    forall|i: int| 0 <= i < entries.len() ==> placed(#[trigger] entries[i]) is None
}

/// Where no entry lies in a folder, no folder has an entry.
pub proof fn folderless_has_no_members(entries: Seq<EntryView>, key: Seq<char>)
    requires
        folderless(entries),
    ensures
        members_of(entries, key).len() == 0,
    decreases entries.len(),
{
    if entries.len() > 0 {
        let shorter = entries.drop_last();
        assert forall|i: int| 0 <= i < shorter.len() implies placed(#[trigger] shorter[i]) is None by {
            assert(shorter[i] == entries[i]);
        }
        folderless_has_no_members(shorter, key);
        assert(placed(entries[entries.len() - 1]) is None);
    }
}

/// Where no entry lies in a folder, the split has no group.
pub proof fn folderless_has_no_groups(
    groups: Seq<(Seq<char>, Seq<EntryView>)>,
    entries: Seq<EntryView>,
)
    requires
        grouped(groups, entries),
        folderless(entries),
    ensures
        groups.len() == 0,
{
    if groups.len() > 0 {
        folderless_has_no_members(entries, groups[0].0);
        assert(groups[0].1.len() > 0);
    }
}

/// Whether one of `groups` is the folder `key`.
pub open spec fn holds_key(groups: Seq<(Seq<char>, Seq<EntryView>)>, key: Seq<char>) -> bool {
    exists|i: int| 0 <= i < groups.len() && (#[trigger] groups[i]).0 == key
}

/// Dropping the last of a descending list drops exactly its key.
pub proof fn shorter_holds(x: Seq<(Seq<char>, Seq<EntryView>)>, key: Seq<char>)
    requires
        descending_keys(x),
        x.len() > 0,
    ensures
        descending_keys(x.drop_last()),
        holds_key(x.drop_last(), key) == (holds_key(x, key) && key != x.last().0),
{
    let xs = x.drop_last();
    let n = x.len() - 1;
    assert forall|i: int, j: int| 0 <= i < j < xs.len() implies lex_le(
        (#[trigger] xs[j]).0,
        (#[trigger] xs[i]).0,
    ) && xs[i].0 != xs[j].0 by {
        assert(xs[i] == x[i] && xs[j] == x[j]);
    }
    if holds_key(xs, key) {
        let i = choose|i: int| 0 <= i < xs.len() && (#[trigger] xs[i]).0 == key;
        assert(x[i] == xs[i]);
        assert(x[i].0 != x[n].0);
    }
    if holds_key(x, key) && key != x.last().0 {
        let i = choose|i: int| 0 <= i < x.len() && (#[trigger] x[i]).0 == key;
        assert(xs[i] == x[i]);
    }
}

/// Two lists of groups in strictly descending order that name the same
/// folders name them in the same places.
pub proof fn descending_is_unique(
    x: Seq<(Seq<char>, Seq<EntryView>)>,
    y: Seq<(Seq<char>, Seq<EntryView>)>,
)
    requires
        descending_keys(x),
        descending_keys(y),
        forall|key: Seq<char>|
            #![trigger holds_key(x, key)]
            #![trigger holds_key(y, key)]
            holds_key(x, key) == holds_key(y, key),
    ensures
        x.len() == y.len(),
        forall|i: int| 0 <= i < x.len() ==> (#[trigger] x[i]).0 == y[i].0,
    decreases x.len(),
{
    if x.len() == 0 {
        if y.len() > 0 {
            assert(holds_key(y, y[0].0));
            assert(holds_key(x, y[0].0));
        }
    } else {
        let n = x.len() - 1;
        assert(holds_key(x, x[n].0));
        assert(holds_key(y, x[n].0));
        let k = choose|k: int| 0 <= k < y.len() && (#[trigger] y[k]).0 == x[n].0;
        let t = y.len() - 1;
        assert(holds_key(y, y[t].0));
        assert(holds_key(x, y[t].0));
        let m = choose|m: int| 0 <= m < x.len() && (#[trigger] x[m]).0 == y[t].0;
        lex_le_reflexive(x[n].0);
        lex_le_reflexive(y[t].0);
        assert(lex_le(y[t].0, y[k].0));
        assert(lex_le(x[n].0, x[m].0));
        lex_le_antisymmetric(x[n].0, y[t].0);
        let xs = x.drop_last();
        let ys = y.drop_last();
        assert forall|key: Seq<char>|
            #![trigger holds_key(xs, key)]
            #![trigger holds_key(ys, key)]
            holds_key(xs, key) == holds_key(ys, key) by {
            shorter_holds(x, key);
            shorter_holds(y, key);
            assert(holds_key(x, key) == holds_key(y, key));
        }
        shorter_holds(x, x[n].0);
        shorter_holds(y, x[n].0);
        descending_is_unique(xs, ys);
        assert forall|i: int| 0 <= i < x.len() implies (#[trigger] x[i]).0 == y[i].0 by {
            if i < n {
                assert(xs[i] == x[i] && ys[i] == y[i]);
            }
        }
    }
}

/// The split of a list of entries is unique: `grouped` holds of one list
/// of groups only.
pub proof fn grouped_is_unique(
    x: Seq<(Seq<char>, Seq<EntryView>)>,
    y: Seq<(Seq<char>, Seq<EntryView>)>,
    entries: Seq<EntryView>,
)
    requires
        grouped(x, entries),
        grouped(y, entries),
    ensures
        x == y,
{
    assert forall|key: Seq<char>|
        #![trigger holds_key(x, key)]
        #![trigger holds_key(y, key)]
        holds_key(x, key) == holds_key(y, key) by {
        if holds_key(x, key) {
            let i = choose|i: int| 0 <= i < x.len() && (#[trigger] x[i]).0 == key;
            assert(members_of(entries, key).len() > 0);
        }
        if holds_key(y, key) {
            let i = choose|i: int| 0 <= i < y.len() && (#[trigger] y[i]).0 == key;
            assert(members_of(entries, key).len() > 0);
        }
    }
    descending_is_unique(x, y);
    assert forall|i: int| 0 <= i < x.len() implies x[i] == y[i] by {
        assert(x[i].0 == y[i].0);
        assert(x[i].1 == members_of(entries, x[i].0));
        assert(y[i].1 == members_of(entries, y[i].0));
    }
    assert(x =~= y);
}

/// A path that is cut at its first slash is its folder, a slash and the
/// path below.
pub proof fn top_folder_joins(s: Seq<char>)
    requires
        top_folder(s) is Some,
    ensures
        s == top_folder(s).unwrap().0 + seq!['/'] + top_folder(s).unwrap().1,
{
    let i = choose|i: int| first_slash(s, i);
    assert(s =~= s.take(i) + seq!['/'] + s.skip(i + 1));
}

/// Whether one of `entries` is placed in the folder `key` as `item`.
pub open spec fn places(entries: Seq<EntryView>, key: Seq<char>, item: EntryView) -> bool {
    exists|i: int| 0 <= i < entries.len() && placed(#[trigger] entries[i]) == Some((key, item))
}

/// The members of a folder are exactly the entries placed in it.
pub proof fn members_are_placed(entries: Seq<EntryView>, key: Seq<char>, item: EntryView)
    ensures
        members_of(entries, key).contains(item) == places(entries, key, item),
    decreases entries.len(),
{
    if entries.len() > 0 {
        let shorter = entries.drop_last();
        let n = entries.len() - 1;
        members_are_placed(shorter, key, item);
        let before = members_of(shorter, key);
        let after = members_of(entries, key);
        if after.contains(item) {
            let j = choose|j: int| 0 <= j < after.len() && after[j] == item;
            if j < before.len() {
                assert(before[j] == item);
                assert(before.contains(item));
                let i = choose|i: int|
                    0 <= i < shorter.len() && placed(#[trigger] shorter[i]) == Some((key, item));
                assert(entries[i] == shorter[i]);
            } else {
                assert(placed(entries[n]) == Some((key, item)));
            }
        }
        if places(entries, key, item) {
            let i = choose|i: int|
                0 <= i < entries.len() && placed(#[trigger] entries[i]) == Some((key, item));
            if i < n {
                assert(shorter[i] == entries[i]);
                assert(places(shorter, key, item));
                let j = choose|j: int| 0 <= j < before.len() && before[j] == item;
                assert(after[j] == item);
            } else {
                assert(after[before.len() as int] == item);
            }
        }
    }
}

/// Entries of distinct paths have distinct paths inside each folder.
pub proof fn members_are_distinct(entries: Seq<EntryView>, key: Seq<char>)
    requires
        distinct_paths(entries),
    ensures
        distinct_paths(members_of(entries, key)),
    decreases entries.len(),
{
    if entries.len() > 0 {
        let shorter = entries.drop_last();
        let n = entries.len() - 1;
        assert forall|i: int, j: int| 0 <= i < j < shorter.len() implies (#[trigger] shorter[i]).path
            != (#[trigger] shorter[j]).path by {
            assert(shorter[i] == entries[i] && shorter[j] == entries[j]);
        }
        members_are_distinct(shorter, key);
        let before = members_of(shorter, key);
        let after = members_of(entries, key);
        assert forall|i: int, j: int| 0 <= i < j < after.len() implies (#[trigger] after[i]).path
            != (#[trigger] after[j]).path by {
            if j < before.len() {
                assert(after[i] == before[i] && after[j] == before[j]);
            } else {
                assert(after[i] == before[i]);
                assert(before.contains(before[i]));
                members_are_placed(shorter, key, before[i]);
                let m = choose|m: int|
                    0 <= m < shorter.len() && placed(#[trigger] shorter[m]) == Some(
                        (key, before[i]),
                    );
                assert(entries[m] == shorter[m]);
                top_folder_joins(entries[m].path);
                top_folder_joins(entries[n].path);
                assert(entries[m].path != entries[n].path);
            }
        }
    }
}

/// Two lists of the same entries place the same items in each folder.
pub proof fn members_agree(a: Seq<EntryView>, b: Seq<EntryView>, key: Seq<char>, item: EntryView)
    requires
        forall|e: EntryView|
            #![trigger a.contains(e)]
            #![trigger b.contains(e)]
            a.contains(e) == b.contains(e),
    ensures
        members_of(a, key).contains(item) == members_of(b, key).contains(item),
{
    members_are_placed(a, key, item);
    members_are_placed(b, key, item);
    if places(a, key, item) {
        let i = choose|i: int| 0 <= i < a.len() && placed(#[trigger] a[i]) == Some((key, item));
        assert(a.contains(a[i]));
        assert(b.contains(a[i]));
        let j = choose|j: int| 0 <= j < b.len() && b[j] == a[i];
        assert(placed(b[j]) == Some((key, item)));
    }
    if places(b, key, item) {
        let i = choose|i: int| 0 <= i < b.len() && placed(#[trigger] b[i]) == Some((key, item));
        assert(b.contains(b[i]));
        assert(a.contains(b[i]));
        let j = choose|j: int| 0 <= j < a.len() && a[j] == b[i];
        assert(placed(a[j]) == Some((key, item)));
    }
}

/// A split does not depend on the order of the entries: two lists of the
/// same entries, each path occurring once, split into the same folders in
/// the same order, and each folder is rebuilt alike.
pub proof fn split_ignores_order(
    a: Seq<EntryView>,
    b: Seq<EntryView>,
    x: Seq<(Seq<char>, Seq<EntryView>)>,
    y: Seq<(Seq<char>, Seq<EntryView>)>,
)
    requires
        forall|e: EntryView|
            #![trigger a.contains(e)]
            #![trigger b.contains(e)]
            a.contains(e) == b.contains(e),
        distinct_paths(a),
        distinct_paths(b),
        grouped(x, a),
        grouped(y, b),
    ensures
        x.len() == y.len(),
        forall|i: int|
            0 <= i < x.len() ==> (#[trigger] x[i]).0 == y[i].0 && rebuilt(x[i].1) == rebuilt(
                y[i].1,
            ),
{
    assert forall|key: Seq<char>|
        #![trigger holds_key(x, key)]
        #![trigger holds_key(y, key)]
        holds_key(x, key) == holds_key(y, key) by {
        let ma = members_of(a, key);
        let mb = members_of(b, key);
        if ma.len() > 0 {
            assert(ma.contains(ma[0]));
            members_agree(a, b, key, ma[0]);
        }
        if mb.len() > 0 {
            assert(mb.contains(mb[0]));
            members_agree(a, b, key, mb[0]);
        }
        if holds_key(x, key) {
            let i = choose|i: int| 0 <= i < x.len() && (#[trigger] x[i]).0 == key;
            assert(ma.len() > 0);
        }
        if holds_key(y, key) {
            let i = choose|i: int| 0 <= i < y.len() && (#[trigger] y[i]).0 == key;
            assert(mb.len() > 0);
        }
    }
    descending_is_unique(x, y);
    assert forall|i: int| 0 <= i < x.len() implies (#[trigger] x[i]).0 == y[i].0 && rebuilt(
        x[i].1,
    ) == rebuilt(y[i].1) by {
        let key = x[i].0;
        assert(y[i].0 == key);
        let ma = members_of(a, key);
        let mb = members_of(b, key);
        assert(x[i].1 == ma && y[i].1 == mb);
        members_are_distinct(a, key);
        members_are_distinct(b, key);
        assert forall|e: EntryView|
            #![trigger ma.contains(e)]
            #![trigger mb.contains(e)]
            ma.contains(e) == mb.contains(e) by {
            members_agree(a, b, key, e);
        }
        rebuild_ignores_order(ma, mb);
    }
}

/// The characters of `v` from `from` up to `to`.
pub fn slice_chars(v: &Vec<char>, from: usize, to: usize) -> (r: Vec<char>)
    requires
        from <= to <= v@.len(),
    ensures
        r@ == v@.subrange(from as int, to as int),
{
    let mut out: Vec<char> = Vec::new();
    let mut i: usize = from;
    while i < to
        invariant
            from <= i <= to <= v@.len(),
            out@ == v@.subrange(from as int, i as int),
        decreases to - i,
    {
        out.push(v[i]);
        i += 1;
        assert(v@.subrange(from as int, i as int) == v@.subrange(from as int, i - 1).push(
            v@[i - 1],
        ));
    }
    out
}

/// Cuts a path at its first slash.
pub fn split_top(path: &str) -> (r: Option<(String, String)>)
    ensures
        match r {
            Some((key, rest)) => top_folder(path@) == Some((key@, rest@)),
            None => top_folder(path@) is None,
        },
{
    let chars = chars_of(path);
    let mut i: usize = 0;
    while i < chars.len() && chars[i] != '/'
        invariant
            i <= chars@.len(),
            forall|k: int| 0 <= k < i ==> chars@[k] != '/',
        decreases chars@.len() - i,
    {
        i += 1;
    }
    if i < chars.len() {
        assert(first_slash(path@, i as int));
        let ghost j = choose|j: int| first_slash(path@, j);
        assert(j == i);
        let key = string_of(&slice_chars(&chars, 0, i));
        let rest = string_of(&slice_chars(&chars, i + 1, chars.len()));
        Some((key, rest))
    } else {
        None
    }
}

/// Adds an entry to the group of its folder, opening a new group in the
/// right place where the folder has none yet.
pub fn add_to_group(groups: &mut Vec<Group>, key: String, item: Entry)
    requires
        descending_keys(group_views(old(groups)@)),
    ensures
        descending_keys(group_views(final(groups)@)),
        joined(group_views(old(groups)@), group_views(final(groups)@), key@, item@),
{
    let ghost gv = group_views(groups@);
    let mut i: usize = 0;
    while i < groups.len() && !str_le(groups[i].key.as_str(), key.as_str())
        invariant
            i <= groups@.len(),
            group_views(groups@) == gv,
            forall|k: int| 0 <= k < i ==> !lex_le((#[trigger] gv[k]).0, key@),
        decreases groups@.len() - i,
    {
        assert(gv[i as int].0 == groups@[i as int].key@);
        i += 1;
    }
    if i < groups.len() && str_le(key.as_str(), groups[i].key.as_str()) {
        proof {
            assert(gv[i as int].0 == groups@[i as int].key@);
            lex_le_antisymmetric(key@, gv[i as int].0);
        }
        let mut g = groups.remove(i);
        let ghost held = views(g.entries@);
        assert(held == gv[i as int].1);
        g.entries.push(item);
        assert(views(g.entries@) =~= held.push(item@));
        groups.insert(i, g);
        assert(group_views(groups@) =~= gv.update(i as int, (key@, gv[i as int].1.push(item@))));
    } else {
        let mut entries: Vec<Entry> = Vec::new();
        entries.push(item);
        assert(views(entries@) =~= seq![item@]);
        groups.insert(i, Group { key, entries });
        let ghost after = group_views(groups@);
        proof {
            assert(after =~= gv.insert(i as int, (key@, seq![item@])));
            lex_le_reflexive(key@);
            if i < gv.len() {
                assert(gv[i as int].0 == old(groups)@[i as int].key@);
            }
            assert forall|k: int| 0 <= k < gv.len() implies (#[trigger] gv[k]).0 != key@ by {
                if k > i {
                    assert(lex_le(gv[k].0, gv[i as int].0));
                }
            }
            assert forall|a: int, b: int| 0 <= a < b < after.len() implies lex_le(
                (#[trigger] after[b]).0,
                (#[trigger] after[a]).0,
            ) && after[a].0 != after[b].0 by {
                if b < i {
                    assert(after[a] == gv[a] && after[b] == gv[b]);
                } else if b == i {
                    assert(after[a] == gv[a]);
                    lex_le_total(gv[a].0, key@);
                } else if a == i {
                    assert(after[b] == gv[b - 1]);
                    if b - 1 > i {
                        assert(lex_le(gv[b - 1].0, gv[i as int].0));
                    }
                    lex_le_reflexive(gv[i as int].0);
                    lex_le_transitive(gv[b - 1].0, gv[i as int].0, key@);
                } else if a < i {
                    assert(after[a] == gv[a] && after[b] == gv[b - 1]);
                } else {
                    assert(after[a] == gv[a - 1] && after[b] == gv[b - 1]);
                }
            }
        }
    }
}

/// Adding an entry to its folder keeps a split a split.
pub proof fn grouped_extends(
    before: Seq<(Seq<char>, Seq<EntryView>)>,
    after: Seq<(Seq<char>, Seq<EntryView>)>,
    entries: Seq<EntryView>,
    e: EntryView,
)
    requires
        grouped(before, entries),
        placed(e) is Some,
        descending_keys(after),
        joined(before, after, placed(e).unwrap().0, placed(e).unwrap().1),
    ensures
        grouped(after, entries.push(e)),
{
    let key = placed(e).unwrap().0;
    let item = placed(e).unwrap().1;
    let more = entries.push(e);
    assert(more.drop_last() == entries);
    assert(members_of(more, key) == members_of(entries, key).push(item));
    assert forall|k: Seq<char>| k != key implies members_of(more, k) == members_of(entries, k) by {}
    if exists|p: int|
        0 <= p < before.len() && (#[trigger] before[p]).0 == key && after == before.update(
            p,
            (key, before[p].1.push(item)),
        ) {
        let p = choose|p: int|
            0 <= p < before.len() && (#[trigger] before[p]).0 == key && after == before.update(
                p,
                (key, before[p].1.push(item)),
            );
        assert forall|i: int| 0 <= i < after.len() implies (#[trigger] after[i]).1 == members_of(
            more,
            after[i].0,
        ) && after[i].1.len() > 0 by {
            if i != p {
                assert(after[i] == before[i]);
                assert(before[i].0 != before[p].0);
            }
        }
        assert forall|k: Seq<char>| (#[trigger] members_of(more, k)).len() > 0 implies exists|
            i: int,
        |
            0 <= i < after.len() && (#[trigger] after[i]).0 == k by {
            if k == key {
                assert(after[p].0 == k);
            } else {
                assert(members_of(entries, k).len() > 0);
                let i = choose|i: int| 0 <= i < before.len() && (#[trigger] before[i]).0 == k;
                assert(after[i].0 == k);
            }
        }
    } else {
        let p = choose|p: int|
            0 <= p <= before.len() && after == #[trigger] before.insert(p, (key, seq![item]));
        if members_of(entries, key).len() > 0 {
            let i = choose|i: int| 0 <= i < before.len() && (#[trigger] before[i]).0 == key;
            assert(false);
        }
        assert(members_of(more, key) =~= seq![item]);
        assert forall|i: int| 0 <= i < after.len() implies (#[trigger] after[i]).1 == members_of(
            more,
            after[i].0,
        ) && after[i].1.len() > 0 by {
            if i < p {
                assert(after[i] == before[i]);
            } else if i > p {
                assert(after[i] == before[i - 1]);
            }
        }
        assert forall|k: Seq<char>| (#[trigger] members_of(more, k)).len() > 0 implies exists|
            i: int,
        |
            0 <= i < after.len() && (#[trigger] after[i]).0 == k by {
            if k == key {
                assert(after[p].0 == k);
            } else {
                assert(members_of(entries, k).len() > 0);
                let i = choose|i: int| 0 <= i < before.len() && (#[trigger] before[i]).0 == k;
                if i < p {
                    assert(after[i] == before[i]);
                } else {
                    assert(after[i + 1] == before[i]);
                }
            }
        }
    }
}

/// An entry that goes nowhere leaves a split as it is.
pub proof fn grouped_skips(
    groups: Seq<(Seq<char>, Seq<EntryView>)>,
    entries: Seq<EntryView>,
    e: EntryView,
)
    requires
        grouped(groups, entries),
        placed(e) is None,
    ensures
        grouped(groups, entries.push(e)),
{
    let more = entries.push(e);
    assert(more.drop_last() == entries);
    assert forall|k: Seq<char>| members_of(more, k) == members_of(entries, k) by {}
}

/// Splits entries by top-level folder. Directories and entries outside any
/// folder are dropped; the groups come in descending order of their names.
pub fn group_entries(entries: Vec<Entry>) -> (r: Vec<Group>)
    ensures
        grouped(group_views(r@), views(entries@)),
{
    let ghost all = views(entries@);
    let mut rest = entries;
    let mut groups: Vec<Group> = Vec::new();
    let ghost mut done: int = 0;
    assert(all.take(0) =~= Seq::<EntryView>::empty());
    while rest.len() > 0
        invariant
            0 <= done <= all.len(),
            rest@.len() == all.len() - done,
            views(rest@) == all.skip(done),
            grouped(group_views(groups@), all.take(done)),
        decreases rest@.len(),
    {
        let ghost old_rest = views(rest@);
        let ghost before = group_views(groups@);
        let e = rest.remove(0);
        proof {
            assert(e@ == old_rest[0]);
            rest_advances(all, done, old_rest, views(rest@));
        }
        if e.is_directory {
            proof {
                grouped_skips(before, all.take(done), e@);
            }
        } else {
            match split_top(e.path.as_str()) {
                None => {
                    proof {
                        grouped_skips(before, all.take(done), e@);
                    }
                },
                Some((key, below)) => {
                    let item = Entry { path: below, is_directory: false, content: e.content };
                    add_to_group(&mut groups, key, item);
                    proof {
                        grouped_extends(before, group_views(groups@), all.take(done), e@);
                    }
                },
            }
        }
        proof {
            done = done + 1;
        }
    }
    assert(all.take(done) == all);
    groups
}

/// What a split returns for its groups: one result per group, in order,
/// each the group's rebuilt archive, or a rebuild error where the group
/// cannot be written.
pub open spec fn split_results(
    groups: Seq<(Seq<char>, Seq<EntryView>)>,
    results: Seq<Result<Vec<u8>, RepackError>>,
) -> bool {
    &&& results.len() == groups.len()
    &&& forall|i: int|
        0 <= i < results.len() ==> is_outcome(#[trigger] results[i], rebuilt(groups[i].1))
}

/// `results` is what splitting `entries` returns: the results of rebuilding
/// the groups of their split.
pub open spec fn is_split(
    entries: Seq<EntryView>,
    results: Seq<Result<Vec<u8>, RepackError>>,
) -> bool {
    exists|groups: Seq<(Seq<char>, Seq<EntryView>)>|
        grouped(groups, entries) && #[trigger] split_results(groups, results)
}

/// Rebuilds each group as an archive of its own.
pub fn rebuild_groups(groups: Vec<Group>) -> (r: Vec<Result<Vec<u8>, RepackError>>)
    ensures
        split_results(group_views(groups@), r@),
{
    let ghost all = group_views(groups@);
    let mut rest = groups;
    let mut out: Vec<Result<Vec<u8>, RepackError>> = Vec::new();
    while rest.len() > 0
        invariant
            out@.len() + rest@.len() == all.len(),
            group_views(rest@) == all.skip(out@.len() as int),
            forall|i: int|
                0 <= i < out@.len() ==> is_outcome(#[trigger] out@[i], rebuilt(all[i].1)),
        decreases rest@.len(),
    {
        let ghost old_views = group_views(rest@);
        let ghost n = out@.len() as int;
        let g = rest.remove(0);
        proof {
            assert(old_views[0] == (g.key@, views(g.entries@)));
            rest_advances(all, n, old_views, group_views(rest@));
        }
        out.push(zip_entries(g.entries));
    }
    out
}

/// Rebuilds an archive as one archive per top-level folder, the folders
/// in descending order of their names.
pub fn rezip_root_folders(bytes: &[u8]) -> (r: Result<
    Vec<Result<Vec<u8>, RepackError>>,
    RepackError,
>)
    ensures
        match parsed(bytes@) {
            None => r matches Err(RepackError::ArchiveOpen(_)),
            Some(records) => r matches Ok(results) && is_split(extracted(records), results@),
        },
{
    match extract(bytes) {
        Err(e) => Err(e),
        Ok(entries) => {
            let groups = group_entries(entries);
            let ghost split = group_views(groups@);
            let results = rebuild_groups(groups);
            assert(grouped(split, extracted(parsed(bytes@).unwrap())));
            assert(split_results(split, results@));
            Ok(results)
        },
    }
}

} // verus!
