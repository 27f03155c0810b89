//! The zip container itself: the few operations of the `zip` crate that
//! the library relies on, each with the contract that the rest is proved
//! against.

use vstd::prelude::*;
use crate::path::{depth, segments};
use std::io::Cursor;
use std::io::Read;
use std::io::Write;
use zip::result::ZipError;
use zip::write::FileOptions;
use zip::ZipArchive;
use zip::ZipWriter;

verus! {

/// `std::io::Cursor`, carried through as an opaque value.
#[verifier::external_type_specification]
#[verifier::external_body]
#[verifier::reject_recursive_types(T)]
pub struct ExCursor<T>(Cursor<T>);

/// `zip::ZipArchive`, opaque but for what `stored` says it holds.
#[verifier::external_type_specification]
#[verifier::external_body]
#[verifier::reject_recursive_types(R)]
pub struct ExZipArchive<R>(ZipArchive<R>);

/// `zip::result::ZipError`, of which only the message is used.
#[verifier::external_type_specification]
#[verifier::external_body]
pub struct ExZipError(ZipError);

/// An archive opened for reading from memory.
pub type Reader = ZipArchive<Cursor<Vec<u8>>>;

/// An archive being written to memory: a `zip::ZipWriter` over a growing
/// buffer. Nothing of it is visible but what `staged` says it holds.
#[verifier::external_body]
pub struct Writer {
    inner: ZipWriter<Cursor<Vec<u8>>>,
}

/// One member as the container hands it out.
#[derive(Debug, Clone, PartialEq, Eq)]
pub struct Member {
    /// The name as stored.
    pub name: String,
    /// Whether the container itself takes the name for a path that stays
    /// inside the extraction root.
    pub enclosed: bool,
    /// Whether the member is a directory marker.
    pub is_directory: bool,
    /// The bytes that could be read from it.
    pub content: Vec<u8>,
}

/// A member as plain values.
pub struct MemberView {
    pub name: Seq<char>,
    pub enclosed: bool,
    pub is_directory: bool,
    pub content: Seq<u8>,
}

impl View for Member {
    type V = MemberView;

    open spec fn view(&self) -> MemberView {
        MemberView {
            name: self.name@,
            enclosed: self.enclosed,
            is_directory: self.is_directory,
            content: self.content@,
        }
    }
}

/// What `ZipArchive::new` makes of a buffer: `None` where it refuses the
/// buffer, else the members of the central directory in order, each with
/// its stored name and, where the member can be opened, the bytes that
/// reading it yields.
pub uninterp spec fn parsed(bytes: Seq<u8>) -> Option<Seq<(Seq<char>, Option<Seq<u8>>)>>;

/// The members that an open archive holds, as `parsed` describes them.
pub uninterp spec fn stored(archive: Reader) -> Seq<(Seq<char>, Option<Seq<u8>>)>;

/// Whether `ZipFile::enclosed_name` accepts a stored name, on targets where
/// `/` alone separates the components of a path: the name holds no NUL,
/// does not begin at the root, and a walk along its components never
/// leaves the directory it starts in.
pub open spec fn encloses(name: Seq<char>) -> bool {
    &&& !name.contains('\0')
    &&& !(name.len() > 0 && name[0] == '/')
    &&& depth(segments(name)) is Some
}

/// The files handed to a writer so far, each with its name and its bytes.
pub uninterp spec fn staged(writer: Writer) -> Seq<(Seq<char>, Seq<u8>)>;

/// Whether `ZipWriter::start_file`, with the default options, takes a file
/// of this name on a writer that holds `files`.
pub uninterp spec fn starts(files: Seq<(Seq<char>, Seq<u8>)>, name: Seq<char>) -> bool;

/// Whether `write_all` takes these bytes for the last file of a writer
/// that holds `files`.
pub uninterp spec fn takes(files: Seq<(Seq<char>, Seq<u8>)>, bytes: Seq<u8>) -> bool;

/// What `ZipWriter::finish` makes of a writer that holds `files`, written
/// with the default options: the archive, or `None` where it fails.
pub uninterp spec fn written(files: Seq<(Seq<char>, Seq<u8>)>) -> Option<Seq<u8>>;

/// A name that the container reads as a directory: it ends in a slash or
/// a backslash.
pub open spec fn names_directory(name: Seq<char>) -> bool {
    name.len() > 0 && (name.last() == '/' || name.last() == '\\')
}

/// Whether index `i` of `members` is a member that can be opened.
pub open spec fn opens(members: Seq<(Seq<char>, Option<Seq<u8>>)>, i: int) -> bool {
    0 <= i < members.len() && members[i].1 is Some
}

/// The index that a lookup by name leads to: the last member stored under
/// that name.
pub open spec fn last_named(members: Seq<(Seq<char>, Option<Seq<u8>>)>, name: Seq<char>) -> Option<int>
    decreases members.len(),
{
    if members.len() == 0 {
        None
    } else if members.last().0 == name {
        Some(members.len() - 1)
    } else {
        last_named(members.drop_last(), name)
    }
}

/// The bytes that a lookup by name yields: those of the last member of
/// that name, if there is one and it can be opened.
pub open spec fn found(members: Seq<(Seq<char>, Option<Seq<u8>>)>, name: Seq<char>) -> Option<Seq<u8>> {
    match last_named(members, name) {
        Some(i) => members[i].1,
        None => None,
    }
}

/// `ZipArchive::new` on a cursor over a copy of `bytes`. It reads the
/// central directory; whether it succeeds and what it finds depends on the
/// bytes alone.
#[verifier::external_body]
pub(crate) fn open_archive(bytes: &[u8]) -> (r: Result<Reader, ZipError>)
    ensures
        r is Ok <==> parsed(bytes@) is Some,
        r matches Ok(archive) ==> Some(stored(archive)) == parsed(bytes@),
{
    ZipArchive::new(Cursor::new(bytes.to_vec()))
}

/// `ZipArchive::len`: the number of members in the central directory.
#[verifier::external_body]
pub(crate) fn member_count(archive: &Reader) -> (r: usize)
    ensures
        r == stored(*archive).len(),
{
    archive.len()
}

/// `ZipArchive::by_index_decrypt` with an empty password, with the opened
/// member turned into plain values: its name, the verdict of
/// `enclosed_name`, `is_dir`, and what `read_to_end` could read. An index
/// past the end, a member that cannot be opened and one that wants a
/// password all give `None`. The archive holds the same members afterwards.
#[verifier::external_body]
pub(crate) fn member_at(archive: &mut Reader, index: usize) -> (r: Option<Member>)
    ensures
        stored(*final(archive)) == stored(*old(archive)),
        r is Some <==> opens(stored(*old(archive)), index as int),
        r matches Some(m) ==> {
            &&& m.name@ == stored(*old(archive))[index as int].0
            &&& Some(m.content@) == stored(*old(archive))[index as int].1
            &&& m.enclosed == encloses(m.name@)
            &&& m.is_directory == names_directory(m.name@)
        },
{
    let mut file = archive.by_index_decrypt(index, &[]).ok()?.ok()?;
    let name = file.name().to_string();
    let enclosed = file.enclosed_name().and_then(|p| p.to_str()).is_some();
    let is_directory = file.is_dir();
    let mut content = Vec::new();
    let _ = file.read_to_end(&mut content);
    Some(Member { name, enclosed, is_directory, content })
}

/// `ZipArchive::by_name_decrypt` with an empty password, followed by
/// `read_to_end`. The crate maps each name to the last member stored under
/// it and opens that one; a name that no member has, and a member that
/// cannot be opened with the empty password, are errors, handed back as
/// their message.
#[verifier::external_body]
pub(crate) fn member_named(archive: &mut Reader, name: &str) -> (r: Result<Vec<u8>, String>)
    ensures
        stored(*final(archive)) == stored(*old(archive)),
        r is Ok <==> found(stored(*old(archive)), name@) is Some,
        r matches Ok(content) ==> Some(content@) == found(stored(*old(archive)), name@),
{
    match archive.by_name_decrypt(name, &[]) {
        Ok(Ok(mut file)) => {
            let mut content = Vec::new();
            let _ = file.read_to_end(&mut content);
            Ok(content)
        },
        Ok(Err(e)) => Err(e.to_string()),
        Err(e) => Err(e.to_string()),
    }
}

/// `ZipWriter::new` on an empty buffer: a writer that holds no file yet.
#[verifier::external_body]
pub(crate) fn new_writer() -> (r: Writer)
    ensures
        staged(r) == Seq::<(Seq<char>, Seq<u8>)>::empty(),
{
    Writer { inner: ZipWriter::new(Cursor::new(Vec::new())) }
}

/// `ZipWriter::start_file` with the default options. Whether it succeeds
/// depends on the files written so far and on the name; where it does, the
/// writer holds one more file, of that name and still empty.
#[verifier::external_body]
pub(crate) fn start_file(writer: &mut Writer, name: &str) -> (r: Result<(), ZipError>)
    ensures
        r is Ok <==> starts(staged(*old(writer)), name@),
        r is Ok ==> staged(*final(writer)) == staged(*old(writer)).push((name@, Seq::<u8>::empty())),
{
    writer.inner.start_file(name, FileOptions::default())
}

/// `files` with `bytes` appended to the last file.
pub open spec fn appended(files: Seq<(Seq<char>, Seq<u8>)>, bytes: Seq<u8>) -> Seq<
    (Seq<char>, Seq<u8>),
> {
    files.update(files.len() - 1, (files.last().0, files.last().1 + bytes))
}

/// `write_all` on a writer on which a file has been started. Whether it
/// succeeds depends on the files written so far and on the bytes; where it
/// does, the bytes are appended to the last file.
#[verifier::external_body]
pub(crate) fn write_bytes(writer: &mut Writer, bytes: &[u8]) -> (r: Result<(), ZipError>)
    requires
        staged(*old(writer)).len() > 0,
    ensures
        r is Ok <==> takes(staged(*old(writer)), bytes@),
        r is Ok ==> staged(*final(writer)) == appended(staged(*old(writer)), bytes@),
{
    writer.inner.write_all(bytes).map_err(ZipError::Io)
}

/// `ZipWriter::finish`: closes the last file, writes the central
/// directory and hands the buffer back. With the default options nothing
/// but the files written enters the output, so both the outcome and the
/// bytes depend on them alone.
#[verifier::external_body]
pub(crate) fn finish(writer: &mut Writer) -> (r: Result<Vec<u8>, ZipError>)
    ensures
        match written(staged(*old(writer))) {
            Some(image) => r matches Ok(bytes) && bytes@ == image,
            None => r is Err,
        },
{
    writer.inner.finish().map(|cursor| cursor.into_inner())
}

/// The message of a container error, as its `Display` gives it.
#[verifier::external_body]
pub(crate) fn describe(error: &ZipError) -> (r: String)
{
    error.to_string()
}

} // verus!
