//! The order in which paths are ranked before they are grouped.
//!
//! Texts are ranked lexicographically by code point, segments by key and then
//! value, segment lists lexicographically, descriptors field by field, and a
//! path by its segments and then its descriptor.

use vstd::prelude::*;
use vstd::relations::*;
use vstd::std_specs::iter::IteratorSpec;
use crate::codec::{CompressionType, ParquetDeltaFile};
use crate::segment::{entries_of, entry_of, segments_of, Entry, PartitionPath, PathEntry, Segment};
use core::cmp::Ordering;

verus! {

/// Lexicographic order on sequences, by `le` on the first position at which two
/// sequences differ; a proper prefix comes first.
pub open spec fn lex_le<T>(le: spec_fn(T, T) -> bool, a: Seq<T>, b: Seq<T>) -> bool
    decreases a.len(),
{
    if a.len() == 0 {
        true
    } else if b.len() == 0 {
        false
    } else if a[0] == b[0] {
        lex_le(le, a.drop_first(), b.drop_first())
    } else {
        le(a[0], b[0])
    }
}

/// A sequence stands in lexicographic order with itself.
pub proof fn lemma_lex_reflexive<T>(le: spec_fn(T, T) -> bool, a: Seq<T>)
    ensures
        lex_le(le, a, a),
    decreases a.len(),
{
    if a.len() > 0 {
        lemma_lex_reflexive(le, a.drop_first());
    }
}

/// Two sequences that stand in lexicographic order both ways are equal,
/// where the order of the items is antisymmetric.
pub proof fn lemma_lex_antisymmetric<T>(le: spec_fn(T, T) -> bool, a: Seq<T>, b: Seq<T>)
    requires
        antisymmetric(le),
        lex_le(le, a, b),
        lex_le(le, b, a),
    ensures
        a == b,
    decreases a.len(),
{
    if a.len() == 0 || b.len() == 0 {
        assert(a =~= b);
    } else {
        if a[0] == b[0] {
            lemma_lex_antisymmetric(le, a.drop_first(), b.drop_first());
            assert(a =~= seq![a[0]] + a.drop_first());
            assert(b =~= seq![b[0]] + b.drop_first());
        } else {
            assert(le(a[0], b[0]) && le(b[0], a[0]));
        }
    }
}

/// Lexicographic order is transitive, where the order of the items is
/// antisymmetric and transitive.
pub proof fn lemma_lex_transitive<T>(le: spec_fn(T, T) -> bool, a: Seq<T>, b: Seq<T>, c: Seq<T>)
    requires
        antisymmetric(le),
        transitive(le),
        lex_le(le, a, b),
        lex_le(le, b, c),
    ensures
        lex_le(le, a, c),
    decreases a.len(),
{
    if a.len() == 0 || b.len() == 0 || c.len() == 0 {
    } else if a[0] == b[0] && b[0] == c[0] {
        lemma_lex_transitive(le, a.drop_first(), b.drop_first(), c.drop_first());
    } else if a[0] != b[0] && b[0] != c[0] {
        assert(le(a[0], b[0]) && le(b[0], c[0]));
        assert(le(a[0], c[0]));
        if a[0] == c[0] {
            assert(le(b[0], a[0]));
        }
    }
}

/// Any two sequences stand in lexicographic order one way or the other,
/// where any two items do.
pub proof fn lemma_lex_connected<T>(le: spec_fn(T, T) -> bool, a: Seq<T>, b: Seq<T>)
    requires
        strongly_connected(le),
    ensures
        lex_le(le, a, b) || lex_le(le, b, a),
    decreases a.len(),
{
    if a.len() == 0 || b.len() == 0 {
    } else if a[0] == b[0] {
        lemma_lex_connected(le, a.drop_first(), b.drop_first());
    } else {
        assert(le(a[0], b[0]) || le(b[0], a[0]));
    }
}

/// Where two sequences in lexicographic order agree on their first `k` items
/// and both go on, their items at `k` are equal or in order.
pub proof fn lemma_lex_at_prefix<T>(le: spec_fn(T, T) -> bool, a: Seq<T>, b: Seq<T>, k: int)
    requires
        lex_le(le, a, b),
        0 <= k < a.len(),
        k < b.len(),
        a.take(k) == b.take(k),
    ensures
        a[k] == b[k] || le(a[k], b[k]),
    decreases k,
{
    if k > 0 {
        assert(a[0] == a.take(k)[0] && b[0] == b.take(k)[0]);
        assert(a.drop_first().take(k - 1) =~= a.take(k).drop_first());
        assert(b.drop_first().take(k - 1) =~= b.take(k).drop_first());
        lemma_lex_at_prefix(le, a.drop_first(), b.drop_first(), k - 1);
    }
}

/// Code points in ascending order.
pub open spec fn char_le(x: char, y: char) -> bool {
    x as u32 <= y as u32
}

/// `char_le` as a value.
pub open spec fn char_order() -> spec_fn(char, char) -> bool {
    |x: char, y: char| char_le(x, y)
}

/// Texts in lexicographic order by code point.
pub open spec fn text_le(a: Seq<char>, b: Seq<char>) -> bool {
    lex_le(char_order(), a, b)
}

/// Whether `a` comes before `b` in `text_le` and is not `b`.
pub open spec fn text_lt(a: Seq<char>, b: Seq<char>) -> bool {
    text_le(a, b) && a != b
}

/// Segments by key, and by value where the keys are equal.
pub open spec fn segment_le(a: Segment, b: Segment) -> bool {
    if a.0 == b.0 {
        text_le(a.1, b.1)
    } else {
        text_le(a.0, b.0)
    }
}

/// `segment_le` as a value.
pub open spec fn segment_order() -> spec_fn(Segment, Segment) -> bool {
    |x: Segment, y: Segment| segment_le(x, y)
}

/// Segment lists in lexicographic order.
pub open spec fn segments_le(a: Seq<Segment>, b: Seq<Segment>) -> bool {
    lex_le(segment_order(), a, b)
}

/// The place of a codec among the codecs.
pub open spec fn compression_rank(c: CompressionType) -> nat {
    match c {
        CompressionType::SNAPPY => 0,
        CompressionType::GZIP => 1,
        CompressionType::NONE => 2,
    }
}

/// Descriptors by partition index, content identifier, cluster counter and
/// codec, in that order.
pub open spec fn file_le(a: ParquetDeltaFile, b: ParquetDeltaFile) -> bool {
    if a.partition != b.partition {
        a.partition < b.partition
    } else if a.uuid != b.uuid {
        a.uuid < b.uuid
    } else if a.cluster != b.cluster {
        a.cluster < b.cluster
    } else {
        compression_rank(a.compression) <= compression_rank(b.compression)
    }
}

/// Paths by their segments, and by their descriptor where the segments are
/// equal.
pub open spec fn entry_le(a: PathEntry, b: PathEntry) -> bool {
    if a.segments == b.segments {
        file_le(a.file, b.file)
    } else {
        segments_le(a.segments, b.segments)
    }
}

/// `entry_le` as a value.
pub open spec fn entry_order() -> spec_fn(PathEntry, PathEntry) -> bool {
    |x: PathEntry, y: PathEntry| entry_le(x, y)
}

/// The order of the code points is a total order.
pub proof fn lemma_char_total()
    ensures
        total_ordering(char_order()),
{
    assert forall|x: char, y: char| #[trigger] char_le(x, y) && #[trigger] char_le(y, x) implies x
        == y by {
        vstd::utf8::char_u32_cast(x, x as u32);
        vstd::utf8::char_u32_cast(y, y as u32);
    }
}

/// `text_le` is reflexive, antisymmetric, transitive and total.
pub proof fn lemma_text_le(a: Seq<char>, b: Seq<char>, c: Seq<char>)
    ensures
        text_le(a, a),
        text_le(a, b) && text_le(b, a) ==> a == b,
        text_le(a, b) && text_le(b, c) ==> text_le(a, c),
        text_le(a, b) || text_le(b, a),
{
    lemma_char_total();
    lemma_lex_reflexive(char_order(), a);
    lemma_lex_connected(char_order(), a, b);
    if text_le(a, b) && text_le(b, a) {
        lemma_lex_antisymmetric(char_order(), a, b);
    }
    if text_le(a, b) && text_le(b, c) {
        lemma_lex_transitive(char_order(), a, b, c);
    }
}

/// `segment_le` is reflexive, antisymmetric, transitive and total.
pub proof fn lemma_segment_le(a: Segment, b: Segment, c: Segment)
    ensures
        segment_le(a, a),
        segment_le(a, b) && segment_le(b, a) ==> a == b,
        segment_le(a, b) && segment_le(b, c) ==> segment_le(a, c),
        segment_le(a, b) || segment_le(b, a),
{
    lemma_text_le(a.0, b.0, c.0);
    lemma_text_le(a.1, b.1, c.1);
}

/// The order of the segments is a total order.
pub proof fn lemma_segment_total()
    ensures
        total_ordering(segment_order()),
{
    let r = segment_order();
    assert forall|a: Segment| #[trigger] r(a, a) by {
        lemma_segment_le(a, a, a);
    }
    assert forall|a: Segment, b: Segment| #[trigger] r(a, b) && #[trigger] r(b, a) implies a
        == b by {
        lemma_segment_le(a, b, a);
    }
    assert forall|a: Segment, b: Segment, c: Segment| #[trigger] r(a, b) && #[trigger] r(
        b,
        c,
    ) implies r(a, c) by {
        lemma_segment_le(a, b, c);
    }
    assert forall|a: Segment, b: Segment| #[trigger] r(a, b) || #[trigger] r(b, a) by {
        lemma_segment_le(a, b, a);
    }
}

/// `segments_le` is reflexive, antisymmetric, transitive and total.
pub proof fn lemma_segments_le(a: Seq<Segment>, b: Seq<Segment>, c: Seq<Segment>)
    ensures
        segments_le(a, a),
        segments_le(a, b) && segments_le(b, a) ==> a == b,
        segments_le(a, b) && segments_le(b, c) ==> segments_le(a, c),
        segments_le(a, b) || segments_le(b, a),
{
    lemma_segment_total();
    lemma_lex_reflexive(segment_order(), a);
    lemma_lex_connected(segment_order(), a, b);
    if segments_le(a, b) && segments_le(b, a) {
        lemma_lex_antisymmetric(segment_order(), a, b);
    }
    if segments_le(a, b) && segments_le(b, c) {
        lemma_lex_transitive(segment_order(), a, b, c);
    }
}

/// `entry_le` is reflexive, antisymmetric, transitive and total.
pub proof fn lemma_entry_le(a: PathEntry, b: PathEntry, c: PathEntry)
    ensures
        entry_le(a, a),
        entry_le(a, b) && entry_le(b, a) ==> a == b,
        entry_le(a, b) && entry_le(b, c) ==> entry_le(a, c),
        entry_le(a, b) || entry_le(b, a),
{
    lemma_segments_le(a.segments, b.segments, c.segments);
}

/// The order in which paths are ranked is a total order.
pub proof fn lemma_entry_total()
    ensures
        total_ordering(entry_order()),
{
    let r = entry_order();
    assert forall|a: PathEntry| #[trigger] r(a, a) by {
        lemma_entry_le(a, a, a);
    }
    assert forall|a: PathEntry, b: PathEntry| #[trigger] r(a, b) && #[trigger] r(b, a) implies a
        == b by {
        lemma_entry_le(a, b, a);
    }
    assert forall|a: PathEntry, b: PathEntry, c: PathEntry| #[trigger] r(a, b) && #[trigger] r(
        b,
        c,
    ) implies r(a, c) by {
        lemma_entry_le(a, b, c);
    }
    assert forall|a: PathEntry, b: PathEntry| #[trigger] r(a, b) || #[trigger] r(b, a) by {
        lemma_entry_le(a, b, a);
    }
}

/// How one value stands to another in a total order.
#[derive(Debug, PartialEq, Eq, Structural, Clone, Copy)]
pub enum Rank {
    Before,
    Same,
    After,
}

/// The rank of a value against another, from whether the two are equal and
/// whether the first is at most the second.
pub open spec fn rank(same: bool, le: bool) -> Rank {
    if same {
        Rank::Same
    } else if le {
        Rank::Before
    } else {
        Rank::After
    }
}

/// Ranks `a` against `b` in `text_le`.
pub fn rank_text(a: &str, b: &str) -> (r: Rank)
    ensures
        r == rank(a@ == b@, text_le(a@, b@)),
{
    let mut rest_a = a.chars();
    let mut rest_b = b.chars();
    let ghost mut seen: int = 0;
    loop
        invariant
            rest_a.obeys_prophetic_iter_laws(),
            rest_b.obeys_prophetic_iter_laws(),
            rest_a.decrease() is Some,
            0 <= seen <= a@.len(),
            seen <= b@.len(),
            rest_a.remaining() == a@.skip(seen),
            rest_b.remaining() == b@.skip(seen),
            text_le(a@, b@) == text_le(a@.skip(seen), b@.skip(seen)),
            (a@ == b@) == (a@.skip(seen) == b@.skip(seen)),
        decreases rest_a.decrease()->0,
    {
        let ghost tail_a = a@.skip(seen);
        let ghost tail_b = b@.skip(seen);
        let next_a = rest_a.next();
        let next_b = rest_b.next();
        match (next_a, next_b) {
            (None, None) => {
                assert(tail_a =~= tail_b);
                return Rank::Same;
            },
            (None, Some(_)) => {
                return Rank::Before;
            },
            (Some(_), None) => {
                return Rank::After;
            },
            (Some(x), Some(y)) => {
                if x != y {
                    proof {
                        vstd::utf8::char_u32_cast(x, x as u32);
                        vstd::utf8::char_u32_cast(y, y as u32);
                    }
                    if (x as u32) < (y as u32) {
                        return Rank::Before;
                    } else {
                        return Rank::After;
                    }
                }
                proof {
                    assert(tail_a.drop_first() =~= a@.skip(seen + 1));
                    assert(tail_b.drop_first() =~= b@.skip(seen + 1));
                    if a@.skip(seen + 1) == b@.skip(seen + 1) {
                        assert(tail_a =~= seq![x] + tail_a.drop_first());
                        assert(tail_b =~= seq![y] + tail_b.drop_first());
                    }
                    seen = seen + 1;
                }
            },
        }
    }
}

/// Ranks the segment list `a` against `b` in `segments_le`.
pub fn rank_segments(a: &Vec<PartitionPath<'_>>, b: &Vec<PartitionPath<'_>>) -> (r: Rank)
    ensures
        r == rank(
            segments_of(a@) == segments_of(b@),
            segments_le(segments_of(a@), segments_of(b@)),
        ),
{
    let ghost all_a = segments_of(a@);
    let ghost all_b = segments_of(b@);
    let mut i: usize = 0;
    assert(all_a.skip(0) =~= all_a && all_b.skip(0) =~= all_b);
    loop
        invariant
            i <= a.len(),
            i <= b.len(),
            all_a == segments_of(a@),
            all_b == segments_of(b@),
            segments_le(all_a, all_b) == segments_le(all_a.skip(i as int), all_b.skip(i as int)),
            (all_a == all_b) == (all_a.skip(i as int) == all_b.skip(i as int)),
        decreases a.len() - i,
    {
        let ghost rest_a = all_a.skip(i as int);
        let ghost rest_b = all_b.skip(i as int);
        if i == a.len() {
            if i == b.len() {
                assert(rest_a =~= rest_b);
                return Rank::Same;
            }
            assert(rest_a.len() == 0 && rest_b.len() > 0);
            return Rank::Before;
        }
        if i == b.len() {
            assert(rest_b.len() == 0 && rest_a.len() > 0);
            return Rank::After;
        }
        assert(rest_a[0] == a@[i as int]@ && rest_b[0] == b@[i as int]@);
        let by_key = rank_text(a[i].key, b[i].key);
        if by_key != Rank::Same {
            return by_key;
        }
        let by_value = rank_text(a[i].value, b[i].value);
        if by_value != Rank::Same {
            return by_value;
        }
        proof {
            assert(rest_a.drop_first() =~= all_a.skip(i + 1));
            assert(rest_b.drop_first() =~= all_b.skip(i + 1));
            if all_a.skip(i + 1) == all_b.skip(i + 1) {
                assert(rest_a =~= seq![rest_a[0]] + rest_a.drop_first());
                assert(rest_b =~= seq![rest_b[0]] + rest_b.drop_first());
            }
        }
        i += 1;
    }
}

/// The place of `c` among the codecs.
pub fn compression_place(c: CompressionType) -> (r: u8)
    ensures
        r == compression_rank(c),
{
    match c {
        CompressionType::SNAPPY => 0,
        CompressionType::GZIP => 1,
        CompressionType::NONE => 2,
    }
}

/// Ranks the descriptor `a` against `b` in `file_le`.
pub fn rank_files(a: &ParquetDeltaFile, b: &ParquetDeltaFile) -> (r: Rank)
    ensures
        r == rank(*a == *b, file_le(*a, *b)),
{
    if a.partition != b.partition {
        if a.partition < b.partition {
            Rank::Before
        } else {
            Rank::After
        }
    } else if a.uuid != b.uuid {
        if a.uuid < b.uuid {
            Rank::Before
        } else {
            Rank::After
        }
    } else if a.cluster != b.cluster {
        if a.cluster < b.cluster {
            Rank::Before
        } else {
            Rank::After
        }
    } else {
        let place_a = compression_place(a.compression);
        let place_b = compression_place(b.compression);
        if place_a == place_b {
            Rank::Same
        } else if place_a < place_b {
            Rank::Before
        } else {
            Rank::After
        }
    }
}

/// Ranks the path `a` against `b` in `entry_le`.
pub fn rank_entries(a: &Entry<'_>, b: &Entry<'_>) -> (r: Rank)
    ensures
        r == rank(entry_of(*a) == entry_of(*b), entry_le(entry_of(*a), entry_of(*b))),
{
    let by_segments = rank_segments(&a.0, &b.0);
    if by_segments != Rank::Same {
        by_segments
    } else {
        rank_files(&a.1, &b.1)
    }
}

/// `rank_entries` in the form that a sort takes.
pub fn entry_ordering(a: &Entry<'_>, b: &Entry<'_>) -> (r: Ordering)
    ensures
        r == match rank(entry_of(*a) == entry_of(*b), entry_le(entry_of(*a), entry_of(*b))) {
            Rank::Before => Ordering::Less,
            Rank::Same => Ordering::Equal,
            Rank::After => Ordering::Greater,
        },
{
    match rank_entries(a, b) {
        Rank::Before => Ordering::Less,
        Rank::Same => Ordering::Equal,
        Rank::After => Ordering::Greater,
    }
}

/// Sorts `entries` with `itertools::Itertools::sorted_by`, which collects
/// them, sorts them with the standard stable sort under `entry_ordering` and
/// hands them back. Believed of it: what comes back holds the same paths as
/// what went in, each as often, in ascending order of `entry_le`.
#[verifier::external_body]
pub(crate) fn sort_entries<'a>(entries: Vec<Entry<'a>>) -> (sorted: Vec<Entry<'a>>)
    ensures
        sorted_by(entries_of(sorted@), entry_order()),
        entries_of(sorted@).to_multiset() == entries_of(entries@).to_multiset(),
{
    itertools::Itertools::sorted_by(entries.into_iter(), |a, b| entry_ordering(a, b)).collect()
}

} // verus!
