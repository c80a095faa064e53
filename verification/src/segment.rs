//! The directory part of a path: one `key=value` segment per partition column.

use vstd::prelude::*;
use crate::codec::{parsed, rendered, ParquetDeltaFile};
use crate::error::{Failure, TreeError};
use crate::text::chars_of;
use crate::tree::DeltaTree;

verus! {

/// One `key=value` component of a path, borrowed from the path's text.
#[derive(Debug, PartialEq, Eq, PartialOrd, Ord, Clone, Copy)]
pub struct PartitionPath<'a> {
    /// The partition column's name: the text before the first `=`.
    pub key: &'a str,
    /// The column's value: the text after the first `=`.
    pub value: &'a str,
}

/// A segment as a pair of texts: key, then value.
pub type Segment = (Seq<char>, Seq<char>);

impl<'a> View for PartitionPath<'a> {
    type V = Segment;

    open spec fn view(&self) -> Segment {
        (self.key@, self.value@)
    }
}

/// What one path holds: its segments in order, and the descriptor of its file.
pub ghost struct PathEntry {
    pub segments: Seq<Segment>,
    pub file: ParquetDeltaFile,
}

/// A parsed path as the builder holds it: the segments, then the descriptor.
pub type Entry<'a> = (Vec<PartitionPath<'a>>, ParquetDeltaFile);

/// The segments of `parts`, each as a pair of texts.
pub open spec fn segments_of(parts: Seq<PartitionPath<'_>>) -> Seq<Segment> {
    Seq::new(parts.len(), |i: int| parts[i]@)
}

/// What `entry` holds.
pub open spec fn entry_of(entry: Entry<'_>) -> PathEntry {
    PathEntry { segments: segments_of(entry.0@), file: entry.1 }
}

/// What each of `entries` holds, in their order.
pub open spec fn entries_of(entries: Seq<Entry<'_>>) -> Seq<PathEntry> {
    Seq::new(entries.len(), |i: int| entry_of(entries[i]))
}

/// The directory that `segments` name: `key=value/` for each, in their
/// order.
pub open spec fn directory(segments: Seq<Segment>) -> Seq<char>
    decreases segments.len(),
{
    if segments.len() == 0 {
        Seq::empty()
    } else {
        segments[0].0 + "="@ + segments[0].1 + "/"@ + directory(segments.drop_first())
    }
}

/// The path that holds `entry`: its directory, then the name of its file.
pub open spec fn rendered_path(entry: PathEntry) -> Seq<char> {
    directory(entry.segments) + rendered(entry.file)
}

/// A directory with one more segment at its end.
pub proof fn lemma_directory_push(segments: Seq<Segment>, last: Segment)
    ensures
        directory(segments.push(last)) == directory(segments) + last.0 + "="@ + last.1 + "/"@,
    decreases segments.len(),
{
    let longer = segments.push(last);
    if segments.len() == 0 {
        assert(longer.drop_first() =~= Seq::<Segment>::empty());
        assert(directory(longer.drop_first()) =~= Seq::<char>::empty());
        assert(directory(longer) =~= directory(segments) + last.0 + "="@ + last.1 + "/"@);
    } else {
        lemma_directory_push(segments.drop_first(), last);
        assert(longer.drop_first() =~= segments.drop_first().push(last));
        assert(directory(longer) =~= directory(segments) + last.0 + "="@ + last.1 + "/"@);
    }
}

/// Writes the path that holds `entry`.
pub fn entry_path(entry: &Entry<'_>) -> (r: String)
    ensures
        r@ == rendered_path(entry_of(*entry)),
{
    let ghost segments = segments_of(entry.0@);
    let mut out = String::new();
    let mut i: usize = 0;
    assert(segments.take(0) =~= Seq::<Segment>::empty());
    while i < entry.0.len()
        invariant
            i <= entry.0.len(),
            segments == segments_of(entry.0@),
            out@ == directory(segments.take(i as int)),
        decreases entry.0.len() - i,
    {
        proof {
            lemma_directory_push(segments.take(i as int), segments[i as int]);
            assert(segments.take(i + 1) =~= segments.take(i as int).push(segments[i as int]));
        }
        out.append(entry.0[i].key);
        out.append("=");
        out.append(entry.0[i].value);
        out.append("/");
        i += 1;
    }
    assert(segments.take(entry.0@.len() as int) =~= segments);
    let name = entry.1.name();
    out.append(name.as_str());
    out
}

/// The texts of `parts`, in their order.
pub open spec fn texts_of(parts: Seq<&str>) -> Seq<Seq<char>> {
    Seq::new(parts.len(), |i: int| parts[i]@)
}

/// The place of the first `c` in `s`, or the length of `s` where it holds
/// none.
pub open spec fn first_index(s: Seq<char>, c: char) -> int
    decreases s.len(),
{
    if s.len() == 0 || s[0] == c {
        0
    } else {
        1 + first_index(s.drop_first(), c)
    }
}

/// `first_index` gives a place in `s` or its length; no `c` stands before
/// it, and one stands at it where it is a place.
pub proof fn lemma_first_index(s: Seq<char>, c: char)
    ensures
        0 <= first_index(s, c) <= s.len(),
        forall|j: int| 0 <= j < first_index(s, c) ==> s[j] != c,
        first_index(s, c) < s.len() ==> s[first_index(s, c)] == c,
    decreases s.len(),
{
    if s.len() == 0 || s[0] == c {
    } else {
        lemma_first_index(s.drop_first(), c);
        assert forall|j: int| 0 <= j < first_index(s, c) implies s[j] != c by {
            if j > 0 {
                assert(s[j] == s.drop_first()[j - 1]);
            }
        }
    }
}

/// The place before which no `c` stands, and at which one does or `s` ends,
/// is the one that `first_index` gives.
pub proof fn lemma_first_index_is(s: Seq<char>, c: char, i: int)
    requires
        0 <= i <= s.len(),
        forall|j: int| 0 <= j < i ==> s[j] != c,
        i < s.len() ==> s[i] == c,
    ensures
        first_index(s, c) == i,
    decreases s.len(),
{
    if s.len() == 0 || s[0] == c {
    } else {
        assert forall|j: int| 0 <= j < i - 1 implies s.drop_first()[j] != c by {
            assert(s[j + 1] != c);
        }
        lemma_first_index_is(s.drop_first(), c, i - 1);
    }
}

/// A directory component as a segment: the text before its first `=` and the
/// text after it. A component without `=` is none.
pub open spec fn segment_of(component: Seq<char>) -> Option<Segment> {
    let i = first_index(component, '=');
    if i < component.len() {
        Some((component.take(i), component.skip(i + 1)))
    } else {
        None
    }
}

/// The texts between the slashes of `path`: one more than it has slashes.
pub open spec fn components(path: Seq<char>) -> Seq<Seq<char>>
    decreases path.len(),
{
    let i = first_index(path, '/');
    if 0 <= i < path.len() {
        seq![path.take(i)] + components(path.skip(i + 1))
    } else {
        seq![path]
    }
}

/// The segments of the directory components `parts`, or the complaint about
/// the first of them that is none.
pub open spec fn segments_from(parts: Seq<Seq<char>>) -> Result<Seq<Segment>, Failure>
    decreases parts.len(),
{
    if parts.len() == 0 {
        Ok(Seq::empty())
    } else {
        match segment_of(parts[0]) {
            None => Err(Failure::Format { text: parts[0] }),
            Some(segment) => match segments_from(parts.drop_first()) {
                Ok(rest) => Ok(seq![segment] + rest),
                Err(failure) => Err(failure),
            },
        }
    }
}

/// What the components of one path hold: the last is the file's name, the
/// others are segments. A bad name is complained of before a bad segment.
pub open spec fn entry_from(parts: Seq<Seq<char>>) -> Result<PathEntry, Failure> {
    match parsed(parts.last()) {
        None => Err(Failure::Format { text: parts.last() }),
        Some(file) => match segments_from(parts.drop_last()) {
            Ok(segments) => Ok(PathEntry { segments, file }),
            Err(failure) => Err(failure),
        },
    }
}

/// What `path` holds.
#[verifier::opaque]
pub open spec fn entry_at(path: Seq<char>) -> Result<PathEntry, Failure> {
    entry_from(components(path))
}

/// `rest` with the segments `done` before it.
pub open spec fn segments_after(done: Seq<Segment>, rest: Result<Seq<Segment>, Failure>) -> Result<
    Seq<Segment>,
    Failure,
> {
    match rest {
        Ok(segments) => Ok(done + segments),
        Err(failure) => Err(failure),
    }
}

/// Splits `path` at its slashes.
pub fn split_path<'a>(path: &'a str) -> (r: Vec<&'a str>)
    ensures
        r@.len() > 0,
        texts_of(r@) == components(path@),
{
    let chars = chars_of(path);
    let n = chars.len();
    let mut parts: Vec<&'a str> = Vec::new();
    let mut start: usize = 0;
    let mut i: usize = 0;
    assert(path@.skip(0) =~= path@);
    assert(texts_of(parts@) + components(path@) =~= components(path@));
    while i < n
        invariant
            start <= i <= n,
            n == path@.len(),
            chars@ == path@,
            components(path@) == texts_of(parts@) + components(path@.skip(start as int)),
            forall|j: int| start <= j < i ==> path@[j] != '/',
        decreases n - i,
    {
        if chars[i] == '/' {
            let ghost rest = path@.skip(start as int);
            let part = path.substring_char(start, i);
            proof {
                lemma_first_index_is(rest, '/', i - start);
                assert(rest.take(i - start) =~= part@);
                assert(rest.skip(i - start + 1) =~= path@.skip(i + 1));
            }
            let ghost before = texts_of(parts@);
            parts.push(part);
            assert(texts_of(parts@) =~= before + seq![part@]);
            assert(before + (seq![part@] + components(path@.skip(i + 1))) =~= texts_of(parts@)
                + components(path@.skip(i + 1)));
            start = i + 1;
        }
        i += 1;
    }
    let ghost rest = path@.skip(start as int);
    let part = path.substring_char(start, n);
    proof {
        lemma_first_index_is(rest, '/', n - start);
        assert(rest =~= part@);
    }
    let ghost before = texts_of(parts@);
    parts.push(part);
    assert(texts_of(parts@) =~= before + seq![part@]);
    parts
}

impl DeltaTree {
    /// Splits a directory component at its first `=`.
    pub fn key_value<'a>(path: &'a str) -> (r: Option<PartitionPath<'a>>)
        ensures
            match r {
                Some(segment) => segment_of(path@) == Some(segment@),
                None => segment_of(path@) is None,
            },
    {
        let chars = chars_of(path);
        let n = chars.len();
        let mut i: usize = 0;
        while i < n
            invariant
                i <= n,
                n == path@.len(),
                chars@ == path@,
                forall|j: int| 0 <= j < i ==> path@[j] != '=',
            decreases n - i,
        {
            if chars[i] == '=' {
                proof {
                    lemma_first_index_is(path@, '=', i as int);
                }
                return Some(
                    PartitionPath {
                        key: path.substring_char(0, i),
                        value: path.substring_char(i + 1, n),
                    },
                );
            }
            i += 1;
        }
        proof {
            lemma_first_index_is(path@, '=', n as int);
        }
        None
    }

    /// Reads the components of one path: the last as a file name, the others
    /// as segments.
    pub fn parse_path<'a>(path: Vec<&'a str>) -> (r: Result<Entry<'a>, TreeError>)
        requires
            path@.len() > 0,
        ensures
            match r {
                Ok(entry) => entry_from(texts_of(path@)) == Ok::<PathEntry, Failure>(entry_of(entry)),
                Err(error) => entry_from(texts_of(path@)) == Err::<PathEntry, Failure>(error@),
            },
    {
        let ghost parts = texts_of(path@);
        let last = path.len() - 1;
        let parquet = match ParquetDeltaFile::from_string(path[last]) {
            Ok(file) => file,
            Err(error) => {
                return Err(error);
            },
        };
        let ghost dirs = parts.drop_last();
        let mut remaining_path: Vec<PartitionPath<'a>> = Vec::new();
        let mut i: usize = 0;
        assert(dirs.skip(0) =~= dirs);
        assert(segments_of(remaining_path@) + segments_from(dirs)->Ok_0 =~= segments_from(
            dirs,
        )->Ok_0);
        while i < last
            invariant
                i <= last,
                last == path@.len() - 1,
                parts == texts_of(path@),
                dirs == parts.drop_last(),
                parsed(parts.last()) == Some(parquet),
                segments_from(dirs) == segments_after(
                    segments_of(remaining_path@),
                    segments_from(dirs.skip(i as int)),
                ),
            decreases last - i,
        {
            let ghost rest = dirs.skip(i as int);
            assert(rest[0] == path@[i as int]@);
            assert(rest.drop_first() =~= dirs.skip(i + 1));
            let segment = match Self::key_value(path[i]) {
                Some(segment) => segment,
                None => {
                    return Err(TreeError::Format { text: path[i].to_owned() });
                },
            };
            let ghost before = segments_of(remaining_path@);
            remaining_path.push(segment);
            proof {
                assert(segments_of(remaining_path@) =~= before + seq![segment@]);
                let after = segments_from(dirs.skip(i + 1));
                if after is Ok {
                    assert(before + (seq![segment@] + after->Ok_0) =~= segments_of(remaining_path@)
                        + after->Ok_0);
                }
            }
            i += 1;
        }
        assert(segments_of(remaining_path@) + Seq::<Segment>::empty() =~= segments_of(
            remaining_path@,
        ));
        Ok((remaining_path, parquet))
    }
}

/// Reads one path of a manifest.
pub fn read_path<'a>(path: &'a str) -> (r: Result<Entry<'a>, TreeError>)
    ensures
        match r {
            Ok(entry) => entry_at(path@) == Ok::<PathEntry, Failure>(entry_of(entry)),
            Err(error) => entry_at(path@) == Err::<PathEntry, Failure>(error@),
        },
{
    reveal(entry_at);
    DeltaTree::parse_path(split_path(path))
}

} // verus!
