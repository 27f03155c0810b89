//! Member paths: the normal form, and the sanitizer that leads to it.

use vstd::prelude::*;
use crate::text::{chars_of, string_of};

verus! {

/// The segments of `s` between its slashes. A path without a slash is one
/// segment; a leading, trailing or doubled slash leaves an empty segment.
pub open spec fn segments(s: Seq<char>) -> Seq<Seq<char>>
    decreases s.len(),
{
    if s.len() == 0 {
        seq![Seq::<char>::empty()]
    } else {
        let before = segments(s.drop_last());
        if s.last() == '/' {
            before.push(Seq::<char>::empty())
        } else {
            before.update(before.len() - 1, before.last().push(s.last()))
        }
    }
}

/// The segment `.`.
pub open spec fn is_dot(seg: Seq<char>) -> bool {
    seg.len() == 1 && seg[0] == '.'
}

/// The segment `..`.
pub open spec fn is_dot_dot(seg: Seq<char>) -> bool {
    seg.len() == 2 && seg[0] == '.' && seg[1] == '.'
}

/// A segment that names something: not empty, not `.`, not `..`, and free
/// of backslashes.
pub open spec fn is_name(seg: Seq<char>) -> bool {
    seg.len() > 0 && !is_dot(seg) && !is_dot_dot(seg) && !seg.contains('\\')
}

/// The normal form of a member path: names joined by single forward
/// slashes. Such a path is relative and stays below the archive root.
pub open spec fn normalized(s: Seq<char>) -> bool {
    forall|i: int| 0 <= i < segments(s).len() ==> is_name(#[trigger] segments(s)[i])
}

/// `s` with every backslash turned into a forward slash.
pub open spec fn slashed(s: Seq<char>) -> Seq<char> {
    Seq::new(s.len(), |i: int| if s[i] == '\\' { '/' } else { s[i] })
}

/// How deep below the root a walk along `segs` ends, or `None` if some
/// `..` on the way has nothing left to leave.
pub open spec fn depth(segs: Seq<Seq<char>>) -> Option<nat>
    decreases segs.len(),
{
    if segs.len() == 0 {
        Some(0)
    } else {
        match depth(segs.drop_last()) {
            None => None,
            Some(d) => if is_dot_dot(segs.last()) {
                if d == 0 { None } else { Some((d - 1) as nat) }
            } else if segs.last().len() == 0 || is_dot(segs.last()) {
                Some(d)
            } else {
                Some(d + 1)
            },
        }
    }
}

/// A path whose `..` segments would lead above the archive root.
pub open spec fn escapes_root(s: Seq<char>) -> bool {
    depth(segments(s)) is None
}

/// What `path_clean::clean` returns for a path, as text.
pub uninterp spec fn cleaned(path: Seq<char>) -> Seq<char>;

/// The verdict on a lexically cleaned path: it is kept if it is in normal
/// form and refused otherwise.
pub open spec fn accepted(clean: Seq<char>) -> Option<Seq<char>> {
    if normalized(clean) { Some(clean) } else { None }
}

/// The sanitized form of a stored path, or `None` where the member must be
/// skipped. With its backslashes read as slashes, a path in normal form is
/// kept as it is; an empty path, one with a leading slash and one that
/// leaves the root are refused; any other is resolved lexically, and the
/// outcome is kept if it is in normal form.
pub open spec fn sanitized(raw: Seq<char>) -> Option<Seq<char>> {
    let s = slashed(raw);
    if normalized(s) {
        Some(s)
    } else if s.len() == 0 || s[0] == '/' || escapes_root(s) {
        None
    } else {
        accepted(cleaned(s))
    }
}

/// The view of an optional string.
pub open spec fn text_of(r: Option<String>) -> Option<Seq<char>> {
    match r {
        Some(s) => Some(s@),
        None => None,
    }
}

/// `path_clean::clean`: resolves `.`, `..` and repeated slashes lexically,
/// without touching a filesystem. The contract only names the result; on
/// targets where `/` separates components it is a function of the text.
#[verifier::external_body]
fn clean_lexically(path: &str) -> (r: String)
    ensures
        r@ == cleaned(path@),
{
    path_clean::clean(path).to_str().unwrap_or_default().to_string()
}

/// The texts of a list of segments.
pub open spec fn texts(segs: Seq<Vec<char>>) -> Seq<Seq<char>> {
    Seq::new(segs.len(), |i: int| segs[i]@)
}

/// Splits a path at its slashes.
pub fn split_segments(s: &Vec<char>) -> (r: Vec<Vec<char>>)
    ensures
        texts(r@) == segments(s@),
{
    let mut out: Vec<Vec<char>> = Vec::new();
    let mut cur: Vec<char> = Vec::new();
    let mut i: usize = 0;
    while i < s.len()
        invariant
            i <= s@.len(),
            texts(out@).push(cur@) == segments(s@.take(i as int)),
        decreases s@.len() - i,
    {
        let c = s[i];
        proof {
            assert(s@.take(i + 1).drop_last() == s@.take(i as int));
            assert(texts(out@).push(cur@).last() == cur@);
        }
        if c == '/' {
            let ghost before = texts(out@);
            out.push(cur);
            cur = Vec::new();
            proof {
                assert(texts(out@) =~= before.push(out@[out@.len() - 1]@));
            }
        } else {
            let ghost segs = texts(out@).push(cur@);
            cur.push(c);
            proof {
                assert(texts(out@).push(cur@) =~= segs.update(segs.len() - 1, segs.last().push(c)));
            }
        }
        i += 1;
    }
    let ghost before = texts(out@);
    proof {
        assert(s@.take(s@.len() as int) == s@);
    }
    out.push(cur);
    proof {
        assert(texts(out@) =~= before.push(out@[out@.len() - 1]@));
    }
    out
}

/// Turns every backslash into a forward slash.
pub fn slash_chars(s: &Vec<char>) -> (r: Vec<char>)
    ensures
        r@ == slashed(s@),
{
    let mut out: Vec<char> = Vec::new();
    let mut i: usize = 0;
    while i < s.len()
        invariant
            i <= s@.len(),
            out@.len() == i,
            forall|k: int| 0 <= k < i ==> out@[k] == slashed(s@)[k],
        decreases s@.len() - i,
    {
        let c = s[i];
        if c == '\\' {
            out.push('/');
        } else {
            out.push(c);
        }
        i += 1;
    }
    assert(out@ =~= slashed(s@));
    out
}

/// Whether a segment names something.
pub fn segment_is_name(seg: &Vec<char>) -> (r: bool)
    ensures
        r == is_name(seg@),
{
    let n: usize = seg.len();
    if n == 0 || (n == 1 && seg[0] == '.') || (n == 2 && seg[0] == '.' && seg[1] == '.') {
        return false;
    }
    let mut i: usize = 0;
    while i < n
        invariant
            n == seg@.len(),
            i <= n,
            forall|k: int| 0 <= k < i ==> seg@[k] != '\\',
        decreases n - i,
    {
        if seg[i] == '\\' {
            return false;
        }
        i += 1;
    }
    true
}

/// Whether a path is in normal form.
pub fn is_normalized(s: &Vec<char>) -> (r: bool)
    ensures
        r == normalized(s@),
{
    let segs = split_segments(s);
    let mut i: usize = 0;
    while i < segs.len()
        invariant
            i <= segs@.len(),
            texts(segs@) == segments(s@),
            forall|k: int| 0 <= k < i ==> is_name(#[trigger] segments(s@)[k]),
        decreases segs@.len() - i,
    {
        assert(texts(segs@)[i as int] == segs@[i as int]@);
        if !segment_is_name(&segs[i]) {
            return false;
        }
        i += 1;
    }
    true
}

/// Whether the `..` segments of a path lead above the root.
pub fn leaves_root(s: &Vec<char>) -> (r: bool)
    ensures
        r == escapes_root(s@),
{
    let segs = split_segments(s);
    let mut level: usize = 0;
    let mut i: usize = 0;
    while i < segs.len()
        invariant
            i <= segs@.len(),
            level <= i,
            texts(segs@) == segments(s@),
            depth(segments(s@).take(i as int)) == Some(level as nat),
        decreases segs@.len() - i,
    {
        let seg = &segs[i];
        proof {
            assert(texts(segs@)[i as int] == seg@);
            assert(segments(s@).take(i + 1).drop_last() == segments(s@).take(i as int));
            assert(segments(s@).take(i + 1).last() == seg@);
        }
        let n: usize = seg.len();
        if n == 2 && seg[0] == '.' && seg[1] == '.' {
            if level == 0 {
                proof {
                    depth_stays_none(segments(s@), i + 1);
                }
                return true;
            }
            level -= 1;
        } else if n == 0 || (n == 1 && seg[0] == '.') {
        } else {
            level += 1;
        }
        i += 1;
    }
    assert(segments(s@).take(i as int) == segments(s@));
    false
}

/// Once a walk has left the root, no further segment brings it back.
pub proof fn depth_stays_none(segs: Seq<Seq<char>>, n: int)
    requires
        0 <= n <= segs.len(),
        depth(segs.take(n)) is None,
    ensures
        depth(segs) is None,
    decreases segs.len() - n,
{
    if n < segs.len() {
        assert(segs.take(n + 1).drop_last() == segs.take(n));
        depth_stays_none(segs, n + 1);
    } else {
        assert(segs.take(n) == segs);
    }
}

/// Keeps a lexically cleaned path if it is in normal form.
pub fn accept_cleaned(clean: String) -> (r: Option<String>)
    ensures
        text_of(r) == accepted(clean@),
{
    let chars = chars_of(clean.as_str());
    if is_normalized(&chars) {
        Some(clean)
    } else {
        None
    }
}

/// Sanitizes the path that an archive member is stored under: backslashes
/// become slashes, `.` and `..` are resolved, and a path that is absolute,
/// empty or leaves the root is refused.
pub fn clean_path(raw: &str) -> (r: Option<String>)
    ensures
        text_of(r) == sanitized(raw@),
{
    let chars = slash_chars(&chars_of(raw));
    if is_normalized(&chars) {
        Some(string_of(&chars))
    } else if chars.len() == 0 || chars[0] == '/' || leaves_root(&chars) {
        None
    } else {
        let slashed_path = string_of(&chars);
        accept_cleaned(clean_lexically(slashed_path.as_str()))
    }
}

/// A walk along names only never leaves the root.
pub proof fn names_stay_inside(segs: Seq<Seq<char>>)
    requires
        forall|i: int| 0 <= i < segs.len() ==> is_name(#[trigger] segs[i]),
    ensures
        depth(segs) == Some(segs.len()),
    decreases segs.len(),
{
    if segs.len() > 0 {
        names_stay_inside(segs.drop_last());
    }
}

/// A path without backslashes is left alone by `slashed`.
pub proof fn slashed_keeps_plain(s: Seq<char>)
    requires
        !s.contains('\\'),
    ensures
        slashed(s) == s,
{
    assert forall|i: int| 0 <= i < s.len() implies slashed(s)[i] == s[i] by {
        if s[i] == '\\' {
            assert(s.contains(s[i]));
        }
    }
    assert(slashed(s) =~= s);
}

/// A character of a path is a character of one of its segments, so a path
/// whose segments hold no backslash holds none.
pub proof fn segments_cover(s: Seq<char>, c: char)
    requires
        s.contains(c),
        c != '/',
    ensures
        exists|i: int| 0 <= i < segments(s).len() && (#[trigger] segments(s)[i]).contains(c),
    decreases s.len(),
{
    let before = segments(s.drop_last());
    segments_nonempty(s.drop_last());
    if s.last() == c {
        let i = before.len() - 1;
        assert(segments(s)[i] == before.last().push(c));
        assert(before.last().push(c)[before.last().len() as int] == c);
    } else {
        let k = choose|k: int| 0 <= k < s.len() && s[k] == c;
        assert(s.drop_last()[k] == c);
        segments_cover(s.drop_last(), c);
        let i = choose|i: int| 0 <= i < before.len() && (#[trigger] before[i]).contains(c);
        let j = choose|j: int| 0 <= j < before[i].len() && before[i][j] == c;
        if s.last() == '/' {
            assert(segments(s)[i] == before[i]);
        } else if i == before.len() - 1 {
            assert(segments(s)[i] == before[i].push(s.last()));
            assert(segments(s)[i][j] == c);
        } else {
            assert(segments(s)[i] == before[i]);
        }
    }
}

/// Every path has at least one segment.
pub proof fn segments_nonempty(s: Seq<char>)
    ensures
        segments(s).len() > 0,
    decreases s.len(),
{
    if s.len() > 0 {
        segments_nonempty(s.drop_last());
    }
}

/// Sanitizing is idempotent: a path in normal form is returned unchanged.
pub proof fn normalized_is_fixed(path: Seq<char>)
    requires
        normalized(path),
    ensures
        sanitized(path) == Some(path),
{
    if path.contains('\\') {
        segments_cover(path, '\\');
    }
    slashed_keeps_plain(path);
}

/// Whatever the sanitizer returns is in normal form, so sanitizing it once
/// more changes nothing.
pub proof fn sanitized_is_normalized(raw: Seq<char>)
    requires
        sanitized(raw) is Some,
    ensures
        normalized(sanitized(raw).unwrap()),
        sanitized(sanitized(raw).unwrap()) == sanitized(raw),
{
    normalized_is_fixed(sanitized(raw).unwrap());
}

/// A path whose `..` segments lead above the root, once its backslashes
/// are read as slashes, is refused.
pub proof fn traversal_is_refused(raw: Seq<char>)
    requires
        escapes_root(slashed(raw)),
    ensures
        sanitized(raw) is None,
{
    if normalized(slashed(raw)) {
        names_stay_inside(segments(slashed(raw)));
    }
}

/// Backslashes and slashes are the same separator: a path and its form
/// with forward slashes sanitize alike.
pub proof fn separators_agree(raw: Seq<char>)
    ensures
        sanitized(raw) == sanitized(slashed(raw)),
{
    assert(slashed(slashed(raw)) =~= slashed(raw));
}

} // verus!
