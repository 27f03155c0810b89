use rezip::entry::{Entry, RepackError};
use rezip::extract::{extract, keep_member, read_file, zip_has_file};
use rezip::packages::{collect_all, rebuild_as, rezip_packages};
use rezip::rebuild::{insert_entry, rezip_single, sort_entries, write_archive, zip_entries};
use rezip::split::{
    add_to_group, group_entries, rebuild_groups, rezip_root_folders, slice_chars, split_top, Group,
};
use rezip::zipio::Member;
use std::io::{Cursor, Read, Write};

fn build(files: &[(&str, &[u8])]) -> Vec<u8> {
    let mut writer = zip::ZipWriter::new(Cursor::new(Vec::new()));
    for (name, content) in files {
        writer.start_file(*name, zip::write::FileOptions::default()).unwrap();
        writer.write_all(content).unwrap();
    }
    writer.finish().unwrap().into_inner()
}

fn listing(bytes: &[u8]) -> Vec<(String, Vec<u8>)> {
    let mut archive = zip::ZipArchive::new(Cursor::new(bytes.to_vec())).unwrap();
    let mut out = Vec::new();
    for i in 0..archive.len() {
        let mut file = archive.by_index(i).unwrap();
        let mut content = Vec::new();
        file.read_to_end(&mut content).unwrap();
        out.push((file.name().to_string(), content));
    }
    out
}

fn file(path: &str, content: &[u8]) -> Entry {
    Entry { path: path.to_string(), is_directory: false, content: content.to_vec() }
}

fn directory(path: &str) -> Entry {
    Entry { path: path.to_string(), is_directory: true, content: Vec::new() }
}

fn paths(entries: &[Entry]) -> Vec<String> {
    entries.iter().map(|e| e.path.clone()).collect()
}

#[test]
fn extraction_keeps_order_and_content() {
    let bytes = build(&[("b.txt", b"bee"), ("a\\x.txt", b"ex"), ("dir/", b""), ("c/./d.txt", b"dee")]);
    let entries = extract(&bytes).unwrap();
    assert_eq!(paths(&entries), vec!["b.txt", "a/x.txt", "dir", "c/d.txt"]);
    assert_eq!(entries[0].content, b"bee".to_vec());
    assert_eq!(entries[1].content, b"ex".to_vec());
    assert!(entries[2].is_directory);
    assert!(entries[2].content.is_empty());
    assert!(!entries[3].is_directory);
    assert_eq!(entries[3].content, b"dee".to_vec());
}

#[test]
fn unsafe_member_is_skipped_not_fatal() {
    let bytes = build(&[("../evil.txt", b"bad"), ("good.txt", b"fine")]);
    let entries = extract(&bytes).unwrap();
    assert_eq!(entries.len(), 1);
    assert_eq!(entries[0].path, "good.txt");
    assert_eq!(entries[0].content, b"fine".to_vec());
}

#[test]
fn traversal_members_never_come_out() {
    let bytes = build(&[("a/../../b", b"1"), ("/abs", b"2"), ("x\\..\\..\\y", b"3"), ("ok", b"4")]);
    let entries = extract(&bytes).unwrap();
    assert_eq!(paths(&entries), vec!["ok"]);
}

#[test]
fn garbage_does_not_open() {
    assert!(matches!(extract(b"not an archive"), Err(RepackError::ArchiveOpen(_))));
    assert!(matches!(extract(b""), Err(RepackError::ArchiveOpen(_))));
    assert!(matches!(rezip_single(b"PK"), Err(RepackError::ArchiveOpen(_))));
    assert!(matches!(rezip_root_folders(b"PK"), Err(RepackError::ArchiveOpen(_))));
    assert!(matches!(read_file(b"PK", "a"), Err(RepackError::ArchiveOpen(_))));
    assert!(matches!(zip_has_file(b"PK", "a"), Err(RepackError::ArchiveOpen(_))));
    assert!(rezip_packages(b"PK").is_err());
}

#[test]
fn truncated_archive_does_not_open() {
    let bytes = build(&[("a.txt", b"hello")]);
    assert!(matches!(extract(&bytes[..bytes.len() - 5]), Err(RepackError::ArchiveOpen(_))));
}

#[test]
fn empty_archive_extracts_to_nothing() {
    let bytes = build(&[]);
    assert!(extract(&bytes).unwrap().is_empty());
    assert!(listing(&rezip_single(&bytes).unwrap()).is_empty());
    assert!(rezip_root_folders(&bytes).unwrap().is_empty());
}

#[test]
fn member_is_read_by_exact_name() {
    let bytes = build(&[("a/b.txt", b"one"), ("c.txt", b"two")]);
    assert_eq!(read_file(&bytes, "a/b.txt").unwrap(), b"one".to_vec());
    assert_eq!(read_file(&bytes, "c.txt").unwrap(), b"two".to_vec());
    assert!(matches!(read_file(&bytes, "b.txt"), Err(RepackError::Lookup(_))));
    assert!(matches!(read_file(&bytes, "a\\b.txt"), Err(RepackError::Lookup(_))));
}

#[test]
fn lookup_takes_the_last_of_a_name() {
    let bytes = build(&[("a", b"first"), ("b", b"other"), ("a", b"second")]);
    assert_eq!(read_file(&bytes, "a").unwrap(), b"second".to_vec());
}

#[test]
fn presence_is_by_raw_name() {
    let bytes = build(&[("pkg/package.toml", b""), ("x", b"")]);
    assert_eq!(zip_has_file(&bytes, "package.toml").ok(), Some(false));
    assert_eq!(zip_has_file(&bytes, "pkg/package.toml").ok(), Some(true));
    assert_eq!(zip_has_file(&bytes, "x").ok(), Some(true));
}

#[test]
fn error_message_is_carried() {
    assert_eq!(RepackError::ArchiveOpen("a".to_string()).message(), "a");
    assert_eq!(RepackError::Rebuild("b".to_string()).message(), "b");
    assert_eq!(RepackError::Lookup("c".to_string()).message(), "c");
    match read_file(&build(&[]), "missing") {
        Err(e) => assert!(!e.message().is_empty()),
        Ok(_) => panic!("a missing member was read"),
    }
}

#[test]
fn member_decision() {
    let m = Member {
        name: "a\\b.txt".to_string(),
        enclosed: true,
        is_directory: false,
        content: vec![1, 2],
    };
    let e = keep_member(m).unwrap();
    assert_eq!(e.path, "a/b.txt");
    assert!(!e.is_directory);
    assert_eq!(e.content, vec![1, 2]);

    let d = Member { name: "d/".to_string(), enclosed: true, is_directory: true, content: vec![9] };
    let e = keep_member(d).unwrap();
    assert_eq!(e.path, "d");
    assert!(e.is_directory);
    assert!(e.content.is_empty());

    let out = Member { name: "ok".to_string(), enclosed: false, is_directory: false, content: vec![] };
    assert!(keep_member(out).is_none());
    let up = Member { name: "../x".to_string(), enclosed: true, is_directory: false, content: vec![] };
    assert!(keep_member(up).is_none());
}

#[test]
fn sorting_is_strictly_ascending() {
    let sorted = sort_entries(vec![
        file("b", b"1"),
        file("a/z", b"2"),
        directory("d"),
        file("a", b"3"),
        file("b", b"4"),
        file("B", b"5"),
        file("ab", b"6"),
    ]);
    assert_eq!(paths(&sorted), vec!["B", "a", "a/z", "ab", "b"]);
    assert_eq!(sorted[4].content, b"4".to_vec());
    assert!(sort_entries(Vec::new()).is_empty());
    assert!(sort_entries(vec![directory("x"), directory("y")]).is_empty());
}

#[test]
fn insertion_replaces_an_equal_path() {
    let mut sorted = vec![file("a", b"1"), file("c", b"2")];
    insert_entry(&mut sorted, file("b", b"3"));
    insert_entry(&mut sorted, file("a", b"4"));
    insert_entry(&mut sorted, file("0", b"5"));
    insert_entry(&mut sorted, file("z", b"6"));
    insert_entry(&mut sorted, file("z", b"7"));
    assert_eq!(paths(&sorted), vec!["0", "a", "b", "c", "z"]);
    assert_eq!(sorted[1].content, b"4".to_vec());
    assert_eq!(sorted[4].content, b"7".to_vec());
}

#[test]
fn equal_paths_are_written_once() {
    let bytes = build(&[("a\\b", b"first"), ("x", b"1"), ("a/b", b"second"), ("a/./b", b"third")]);
    let rebuilt = rezip_single(&bytes).unwrap();
    assert_eq!(
        listing(&rebuilt),
        vec![("a/b".to_string(), b"third".to_vec()), ("x".to_string(), b"1".to_vec())]
    );
    let twice = zip_entries(vec![file("p", b"old"), file("p", b"new")]).unwrap();
    assert_eq!(listing(&twice), vec![("p".to_string(), b"new".to_vec())]);
    assert_eq!(twice, zip_entries(vec![file("p", b"new")]).unwrap());
}

#[test]
fn rebuilding_is_deterministic() {
    let one = zip_entries(vec![file("b.txt", b"bee"), file("a.txt", b"ay"), file("c/d", b"dee")]).unwrap();
    let two = zip_entries(vec![file("c/d", b"dee"), file("b.txt", b"bee"), file("a.txt", b"ay")]).unwrap();
    let three = zip_entries(vec![file("a.txt", b"ay"), file("b.txt", b"bee"), file("c/d", b"dee")]).unwrap();
    assert_eq!(one, two);
    assert_eq!(one, three);
    assert_eq!(
        listing(&one),
        vec![
            ("a.txt".to_string(), b"ay".to_vec()),
            ("b.txt".to_string(), b"bee".to_vec()),
            ("c/d".to_string(), b"dee".to_vec()),
        ]
    );
}

#[test]
fn writing_keeps_the_given_order() {
    let bytes = write_archive(&vec![file("z", b"1"), directory("d"), file("a", b"2")]).unwrap();
    assert_eq!(listing(&bytes), vec![("z".to_string(), b"1".to_vec()), ("a".to_string(), b"2".to_vec())]);
}

#[test]
fn directories_are_not_written() {
    let bytes = build(&[("only/", b"")]);
    assert!(listing(&rezip_single(&bytes).unwrap()).is_empty());
    let rebuilt = zip_entries(vec![directory("d"), file("d/f", b"x"), directory("e")]).unwrap();
    assert_eq!(listing(&rebuilt), vec![("d/f".to_string(), b"x".to_vec())]);
}

#[test]
fn single_rebuild_sorts_and_sanitizes() {
    let bytes = build(&[("z\\b.txt", b"1"), ("dir/", b""), ("a/./c.txt", b"2"), ("../up", b"3"), ("m", b"4")]);
    let rebuilt = rezip_single(&bytes).unwrap();
    assert_eq!(
        listing(&rebuilt),
        vec![
            ("a/c.txt".to_string(), b"2".to_vec()),
            ("m".to_string(), b"4".to_vec()),
            ("z/b.txt".to_string(), b"1".to_vec()),
        ]
    );
    assert_eq!(rezip_single(&rebuilt).unwrap(), rebuilt);
}

#[test]
fn paths_are_cut_at_the_first_slash() {
    assert_eq!(split_top("pkgA/sub/y.txt"), Some(("pkgA".to_string(), "sub/y.txt".to_string())));
    assert_eq!(split_top("a/b"), Some(("a".to_string(), "b".to_string())));
    assert_eq!(split_top("readme.md"), None);
    assert_eq!(split_top(""), None);
    assert_eq!(split_top("a/"), Some(("a".to_string(), String::new())));
    assert_eq!(slice_chars(&vec!['a', 'b', 'c', 'd'], 1, 3), vec!['b', 'c']);
    assert_eq!(slice_chars(&vec!['a', 'b'], 2, 2), Vec::<char>::new());
}

#[test]
fn entries_are_grouped_by_folder() {
    let groups = group_entries(vec![
        file("pkgA/x.txt", b"x"),
        file("readme.md", b"r"),
        directory("pkgC"),
        file("pkgB/z.txt", b"z"),
        file("pkgA/sub/y.txt", b"y"),
    ]);
    assert_eq!(groups.len(), 2);
    assert_eq!(groups[0].key, "pkgB");
    assert_eq!(paths(&groups[0].entries), vec!["z.txt"]);
    assert_eq!(groups[1].key, "pkgA");
    assert_eq!(paths(&groups[1].entries), vec!["x.txt", "sub/y.txt"]);
    assert_eq!(groups[1].entries[1].content, b"y".to_vec());
}

#[test]
fn groups_stay_in_descending_order() {
    let mut groups: Vec<Group> = Vec::new();
    for key in ["m", "a", "z", "m", "b", "a"] {
        add_to_group(&mut groups, key.to_string(), file("f", key.as_bytes()));
    }
    let keys: Vec<String> = groups.iter().map(|g| g.key.clone()).collect();
    assert_eq!(keys, vec!["z", "m", "b", "a"]);
    assert_eq!(groups[1].entries.len(), 2);
    assert_eq!(groups[3].entries.len(), 2);
    assert_eq!(groups[0].entries.len(), 1);
}

#[test]
fn split_gives_one_archive_per_folder() {
    let bytes = build(&[
        ("pkgA/x.txt", b"x"),
        ("pkgA/sub/y.txt", b"y"),
        ("pkgB/z.txt", b"z"),
        ("readme.md", b"r"),
        ("pkgA/", b""),
    ]);
    let results = rezip_root_folders(&bytes).unwrap();
    assert_eq!(results.len(), 2);
    let first = listing(results[0].as_ref().ok().unwrap());
    let second = listing(results[1].as_ref().ok().unwrap());
    assert_eq!(first, vec![("z.txt".to_string(), b"z".to_vec())]);
    assert_eq!(
        second,
        vec![("sub/y.txt".to_string(), b"y".to_vec()), ("x.txt".to_string(), b"x".to_vec())]
    );
}

#[test]
fn groups_are_rebuilt_in_order() {
    let groups = vec![
        Group { key: "b".to_string(), entries: vec![file("2", b"two"), file("1", b"one")] },
        Group { key: "a".to_string(), entries: vec![file("3", b"three")] },
    ];
    let results = rebuild_groups(groups);
    assert_eq!(results.len(), 2);
    assert_eq!(
        listing(results[0].as_ref().ok().unwrap()),
        vec![("1".to_string(), b"one".to_vec()), ("2".to_string(), b"two".to_vec())]
    );
    assert_eq!(listing(results[1].as_ref().ok().unwrap()), vec![("3".to_string(), b"three".to_vec())]);
}

#[test]
fn results_collect_to_the_first_error() {
    let all = collect_all(vec![Ok(vec![1]), Ok(vec![2, 3])]);
    assert_eq!(all.ok(), Some(vec![vec![1], vec![2, 3]]));
    let failed = collect_all(vec![
        Ok(vec![1]),
        Err(RepackError::Rebuild("first".to_string())),
        Err(RepackError::Rebuild("second".to_string())),
    ]);
    match failed {
        Err(e) => assert_eq!(e.message(), "first"),
        Ok(_) => panic!("an error was lost"),
    }
    assert_eq!(collect_all(Vec::new()).ok(), Some(Vec::new()));
}

#[test]
fn marker_selects_single_package() {
    let bytes = build(&[("src/main.lua", b"m"), ("package.toml", b"p"), ("assets/a.png", b"a")]);
    let archives = rezip_packages(&bytes).unwrap();
    assert_eq!(archives.len(), 1);
    assert_eq!(
        listing(&archives[0]),
        vec![
            ("assets/a.png".to_string(), b"a".to_vec()),
            ("package.toml".to_string(), b"p".to_vec()),
            ("src/main.lua".to_string(), b"m".to_vec()),
        ]
    );
    assert_eq!(archives[0], rezip_single(&bytes).unwrap());
}

#[test]
fn missing_marker_selects_split() {
    let bytes = build(&[
        ("one/package.toml", b"1"),
        ("two/package.toml", b"2"),
        ("two/src/x", b"x"),
        ("loose.txt", b"l"),
    ]);
    let archives = rezip_packages(&bytes).unwrap();
    assert_eq!(archives.len(), 2);
    assert_eq!(
        listing(&archives[0]),
        vec![("package.toml".to_string(), b"2".to_vec()), ("src/x".to_string(), b"x".to_vec())]
    );
    assert_eq!(listing(&archives[1]), vec![("package.toml".to_string(), b"1".to_vec())]);
}

#[test]
fn split_is_independent_of_member_order() {
    let one = build(&[("a/1", b"x"), ("b/2", b"y"), ("a/0", b"z")]);
    let two = build(&[("b/2", b"y"), ("a/0", b"z"), ("a/1", b"x")]);
    assert_eq!(rezip_packages(&one).unwrap(), rezip_packages(&two).unwrap());
}

#[test]
fn layout_is_as_asked() {
    let bytes = build(&[("a/1", b"x"), ("b/2", b"y"), ("top", b"t")]);
    let single = rebuild_as(&bytes, true).unwrap();
    assert_eq!(single.len(), 1);
    assert_eq!(
        listing(&single[0]),
        vec![
            ("a/1".to_string(), b"x".to_vec()),
            ("b/2".to_string(), b"y".to_vec()),
            ("top".to_string(), b"t".to_vec()),
        ]
    );
    let bundle = rebuild_as(&bytes, false).unwrap();
    assert_eq!(bundle.len(), 2);
    assert_eq!(listing(&bundle[0]), vec![("2".to_string(), b"y".to_vec())]);
    assert_eq!(listing(&bundle[1]), vec![("1".to_string(), b"x".to_vec())]);
    assert!(matches!(rebuild_as(b"junk", true), Err(RepackError::ArchiveOpen(_))));
    assert!(matches!(rebuild_as(b"junk", false), Err(RepackError::ArchiveOpen(_))));
}

#[test]
fn marker_below_the_root_does_not_count() {
    let bytes = build(&[("pkg/package.toml", b"p"), ("pkg/a", b"a")]);
    let archives = rezip_packages(&bytes).unwrap();
    assert_eq!(archives.len(), 1);
    assert_eq!(
        listing(&archives[0]),
        vec![("a".to_string(), b"a".to_vec()), ("package.toml".to_string(), b"p".to_vec())]
    );
}

#[test]
fn only_directories_split_to_nothing() {
    let bytes = build(&[("a/", b""), ("b/c/", b"")]);
    assert!(rezip_packages(&bytes).unwrap().is_empty());
}

#[test]
fn loose_files_without_marker_give_no_archive() {
    let bytes = build(&[("readme.md", b"r"), ("notes.txt", b"n"), ("docs/", b"")]);
    assert_eq!(rezip_packages(&bytes), Ok(Vec::new()));
    assert_eq!(rebuild_as(&bytes, false), Ok(Vec::new()));
    assert_eq!(rezip_packages(&build(&[])), Ok(Vec::new()));
}
