//! What holds of the codec and of the tree, whatever the manifest.

use vstd::prelude::*;
use vstd::relations::sorted_by;
use vstd::seq_lib::lemma_sorted_unique;
use crate::codec::{
    codec_named, fields_at, hyphen_free, hyphenated_text, hyphenated_value, is_canonical,
    is_hyphenated, parsed, rendered, token, Fields, ParquetDeltaFile,
};
use crate::error::Failure;
use crate::numeral::{
    all_lower_hex, decimal_text, decimal_value, hex_text, is_hex, lemma_decimal_text,
    lemma_decimal_value_bound, lemma_decimal_value_text, lemma_hex_text, lemma_hex_value_bound,
    lemma_hex_value_text, pow10, pow16,
};
use crate::order::{
    entry_le, entry_order, file_le, lemma_entry_total, lemma_lex_at_prefix, lemma_text_le,
    segment_order, segments_le, text_le, text_lt,
};
use crate::segment::{
    components, directory, entry_at, first_index, lemma_directory_push, lemma_first_index,
    rendered_path, segment_of, PathEntry, Segment,
};
use crate::tree::{
    branch_paths, branch_prefix, branches, depth_of, entries_from, file_paths, files_of,
    first_mismatch, grown, key_mismatch, lemma_no_mismatch, lemma_run_length_bound, mismatch,
    ranked, run_length, shape_of, subtree, uniform, Shape,
};

verus! {

/// 16 to the power 32 is one more than the largest 128-bit number.
pub proof fn lemma_pow16_32()
    ensures
        pow16(32) == u128::MAX + 1,
{
    reveal_with_fuel(pow16, 9);
    assert(pow16(8) == 0x1_0000_0000);
    assert(pow16(16) == 0x1_0000_0000_0000_0000);
    assert(pow16(24) == 0x1_0000_0000_0000_0000_0000_0000);
    assert(pow16(32) == 0x1_0000_0000_0000_0000_0000_0000_0000_0000);
}

/// Whether the content identifier in `name` is written without upper-case
/// letters.
pub open spec fn in_lower_case(name: Seq<char>) -> bool {
    all_lower_hex(hyphen_free(fields_at(name).uuid))
}

/// A hyphenated identifier spells a number of 128 bits, and where it has no
/// upper-case letters it is the hyphenated form of that number.
pub proof fn lemma_hyphenated_value(text: Seq<char>)
    requires
        is_hyphenated(text),
    ensures
        hyphenated_value(text) <= u128::MAX,
        all_lower_hex(hyphen_free(text)) ==> hyphenated_text(hyphenated_value(text) as u128)
            == text,
{
    let digits = hyphen_free(text);
    lemma_hex_value_bound(digits);
    lemma_pow16_32();
    if all_lower_hex(digits) {
        lemma_hex_value_text(digits);
        assert(hyphenated_text(hyphenated_value(text) as u128) =~= text);
    }
}

/// The hyphenated form of a number is a hyphenated identifier without
/// upper-case letters that spells the number.
pub proof fn lemma_hyphenated_text(value: u128)
    ensures
        is_hyphenated(hyphenated_text(value)),
        all_lower_hex(hyphen_free(hyphenated_text(value))),
        hyphenated_value(hyphenated_text(value)) == value,
{
    lemma_pow16_32();
    lemma_hex_text(value as nat, 32);
    let digits = hex_text(value as nat, 32);
    let text = hyphenated_text(value);
    assert(hyphen_free(text) =~= digits);
    assert forall|i: int| 0 <= i < 36 implies if i == 8 || i == 13 || i == 18 || i == 23 {
        text[i] == '-'
    } else {
        is_hex(#[trigger] text[i])
    } by {
        if i < 8 {
            assert(text[i] == digits[i]);
        } else if i == 8 {
        } else if i < 13 {
            assert(text[i] == digits[i - 1]);
        } else if i == 13 {
        } else if i < 18 {
            assert(text[i] == digits[i - 2]);
        } else if i == 18 {
        } else if i < 23 {
            assert(text[i] == digits[i - 3]);
        } else if i == 23 {
        } else {
            assert(text[i] == digits[i - 4]);
        }
    }
}

/// A name is the name of the descriptor that is read from it, where its
/// content identifier is written without upper-case letters.
pub proof fn lemma_name_round_trip(name: Seq<char>)
    requires
        is_canonical(name),
        decimal_value(fields_at(name).cluster) <= u8::MAX,
        in_lower_case(name),
    ensures
        rendered(parsed(name)->0) == name,
{
    let fields = fields_at(name);
    let file = parsed(name)->0;
    lemma_decimal_value_bound(fields.part);
    lemma_decimal_value_bound(fields.cluster);
    reveal_with_fuel(pow10, 6);
    lemma_decimal_value_text(fields.part);
    lemma_decimal_value_text(fields.cluster);
    lemma_hyphenated_value(fields.uuid);
    assert(token(file.compression) == fields.codec);
    assert(decimal_text(file.partition as nat, 5) == fields.part);
    assert(decimal_text(file.cluster as nat, 3) == fields.cluster);
    assert(hyphenated_text(file.uuid) == fields.uuid);
}

/// The descriptor that is read from a name has that name, where the content
/// identifier in it is written without upper-case letters.
pub proof fn lemma_parsed_round_trip(name: Seq<char>)
    requires
        parsed(name) is Some,
        in_lower_case(name),
    ensures
        rendered(parsed(name)->0) == name,
{
    lemma_name_round_trip(name);
}

/// A descriptor with a partition index of at most five digits is read back
/// from its own name.
pub proof fn lemma_descriptor_round_trip(file: ParquetDeltaFile)
    requires
        file.partition < 100000,
    ensures
        parsed(rendered(file)) == Some(file),
{
    let fields = Fields {
        part: decimal_text(file.partition as nat, 5),
        uuid: hyphenated_text(file.uuid),
        cluster: decimal_text(file.cluster as nat, 3),
        codec: token(file.compression),
    };
    let name = rendered(file);
    reveal_with_fuel(pow10, 6);
    lemma_decimal_text(file.partition as nat, 5);
    lemma_decimal_text(file.cluster as nat, 3);
    lemma_hyphenated_text(file.uuid);
    reveal_strlit("part-");
    reveal_strlit("-");
    reveal_strlit(".c");
    reveal_strlit(".");
    reveal_strlit(".parquet");
    reveal_strlit("snappy");
    reveal_strlit("gzip");
    reveal_strlit("none");
    assert(fields_at(name).part =~= fields.part);
    assert(fields_at(name).uuid =~= fields.uuid);
    assert(fields_at(name).cluster =~= fields.cluster);
    assert(fields_at(name).codec =~= fields.codec);
    assert(fields_at(name) == fields);
    assert("snappy"@.len() == 6 && "gzip"@.len() == 4 && "none"@.len() == 4);
    assert("gzip"@[0] != "none"@[0]);
    assert(codec_named(fields.codec) == Some(file.compression));
}

/// The paths that hold `entries`, in their order.
pub open spec fn paths_of(entries: Seq<PathEntry>) -> Seq<Seq<char>> {
    entries.map_values(|entry: PathEntry| rendered_path(entry))
}

/// Whether the content identifier in the file name of `path` is written
/// without upper-case letters.
pub open spec fn path_in_lower_case(path: Seq<char>) -> bool {
    in_lower_case(components(path).last())
}

/// A path has at least one component.
pub proof fn lemma_components_some(path: Seq<char>)
    ensures
        components(path).len() >= 1,
    decreases path.len(),
{
    let i = first_index(path, '/');
    if 0 <= i < path.len() {
        lemma_components_some(path.skip(i + 1));
    }
}

/// A path is the path that holds what is read from it, where the content
/// identifier in its file name is written without upper-case letters.
pub proof fn lemma_path_round_trip(path: Seq<char>)
    requires
        entry_at(path) is Ok,
        path_in_lower_case(path),
    ensures
        rendered_path(entry_at(path)->Ok_0) == path,
    decreases path.len(),
{
    reveal(entry_at);
    let parts = components(path);
    let entry = entry_at(path)->Ok_0;
    let i = first_index(path, '/');
    lemma_first_index(path, '/');
    if 0 <= i < path.len() {
        let head = path.take(i);
        let tail = path.skip(i + 1);
        let later = components(tail);
        lemma_components_some(tail);
        assert(parts.last() == later.last());
        assert(parts.drop_last() =~= seq![head] + later.drop_last());
        assert((seq![head] + later.drop_last()).drop_first() =~= later.drop_last());
        let segment = segment_of(head)->0;
        let inner = entry_at(tail)->Ok_0;
        assert(entry.segments =~= seq![segment] + inner.segments);
        assert(entry.segments.drop_first() =~= inner.segments);
        lemma_path_round_trip(tail);
        lemma_first_index(head, '=');
        reveal_strlit("=");
        reveal_strlit("/");
        assert(head =~= segment.0 + "="@ + segment.1);
        assert(path =~= head + "/"@ + tail);
        assert(rendered_path(entry) =~= path);
    } else {
        assert(parts.drop_last() =~= Seq::<Seq<char>>::empty());
        assert(entry.segments =~= Seq::<Segment>::empty());
        lemma_parsed_round_trip(path);
        assert(rendered_path(entry) =~= path);
    }
}

/// Whether each of `entries` begins with the segments `lead`.
pub open spec fn shares(entries: Seq<PathEntry>, lead: Seq<Segment>) -> bool {
    forall|i: int|
        0 <= i < entries.len() ==> lead.len() <= (#[trigger] entries[i]).segments.len()
            && entries[i].segments.take(lead.len() as int) == lead
}


/// The paths of a run have the value of the run.
pub proof fn lemma_run_values(entries: Seq<PathEntry>, level: nat, value: Seq<char>)
    ensures
        run_length(entries, level, value) <= entries.len(),
        forall|i: int|
            0 <= i < run_length(entries, level, value) ==> (#[trigger] entries[i]).segments[level as int].1
                == value,
        run_length(entries, level, value) < entries.len() ==> entries[run_length(
            entries,
            level,
            value,
        ) as int].segments[level as int].1 != value,
    decreases entries.len(),
{
    if entries.len() == 0 || entries[0].segments[level as int].1 != value {
    } else {
        lemma_run_values(entries.drop_first(), level, value);
        let n = run_length(entries, level, value);
        assert forall|i: int| 0 <= i < n implies (#[trigger] entries[i]).segments[level as int].1
            == value by {
            if i > 0 {
                assert(entries[i] == entries.drop_first()[i - 1]);
            }
        }
        if n < entries.len() {
            assert(entries[n as int] == entries.drop_first()[n - 1]);
        }
    }
}

/// A group whose tree is grown from the first segment down has one schema,
/// and each of its paths begins with no segments.
pub proof fn lemma_ranked_schema(entries: Seq<PathEntry>)
    requires
        subtree(entries, 0, depth_of(entries)) is Ok,
    ensures
        uniform(entries, 0, depth_of(entries)),
        shares(entries, Seq::empty()),
{
    lemma_no_mismatch(entries, 0, depth_of(entries), 0);
    assert forall|i: int| 0 <= i < entries.len() implies (#[trigger] entries[i]).segments.take(0)
        == Seq::<Segment>::empty() by {
        assert(entries[i].segments.take(0) =~= Seq::<Segment>::empty());
    }
}

/// A run of a group of one schema, and what is left of the group after it,
/// are groups of one schema; the run also one level further down.
pub proof fn lemma_uniform_parts(entries: Seq<PathEntry>, level: nat, depth: nat, n: int)
    requires
        uniform(entries, level, depth),
        level < depth,
        0 <= n <= entries.len(),
    ensures
        uniform(entries.take(n), level + 1, depth),
        uniform(entries.skip(n), level, depth),
        forall|i: int|
            0 <= i < entries.len() ==> (#[trigger] entries[i]).segments[level as int].0
                == entries[0].segments[level as int].0,
{
    let run = entries.take(n);
    let later = entries.skip(n);
    assert forall|i: int| 0 <= i < entries.len() implies (#[trigger] entries[i]).segments[level as int].0
        == entries[0].segments[level as int].0 by {
        assert(entries[i].segments[level as int].0 == entries[0].segments[level as int].0);
    }
    assert forall|i: int| 0 <= i < run.len() implies (#[trigger] run[i]).segments.len() == depth
        && forall|d: int|
        level + 1 <= d < depth ==> (#[trigger] run[i].segments[d]).0 == run[0].segments[d].0 by {
        assert(run[i] == entries[i] && run[0] == entries[0]);
        assert(entries[i].segments.len() == depth);
    }
    assert forall|i: int| 0 <= i < later.len() implies (#[trigger] later[i]).segments.len() == depth
        && forall|d: int|
        level <= d < depth ==> (#[trigger] later[i].segments[d]).0 == later[0].segments[d].0 by {
        assert(later[i] == entries[i + n] && later[0] == entries[n]);
        assert(entries[i + n].segments.len() == depth);
        assert(entries[n].segments.len() == depth);
        assert forall|d: int| level <= d < depth implies (#[trigger] later[i].segments[d]).0
            == later[0].segments[d].0 by {
            assert(entries[i + n].segments[d].0 == entries[0].segments[d].0);
            assert(entries[n].segments[d].0 == entries[0].segments[d].0);
        }
    }
}

/// A run and what is left after it begin with the segments that the group
/// begins with, the run with one more.
pub proof fn lemma_shares_parts(
    entries: Seq<PathEntry>,
    level: nat,
    depth: nat,
    lead: Seq<Segment>,
    n: int,
)
    requires
        uniform(entries, level, depth),
        level < depth,
        lead.len() == level,
        shares(entries, lead),
        entries.len() > 0,
        n == run_length(entries, level, entries[0].segments[level as int].1),
    ensures
        1 <= n <= entries.len(),
        shares(entries.take(n), lead.push(entries[0].segments[level as int])),
        shares(entries.skip(n), lead),
{
    let value = entries[0].segments[level as int].1;
    let run = entries.take(n);
    let later = entries.skip(n);
    let longer = lead.push(entries[0].segments[level as int]);
    lemma_run_values(entries, level, value);
    lemma_uniform_parts(entries, level, depth, n);
    assert forall|i: int| 0 <= i < run.len() implies longer.len() <= (#[trigger] run[i]).segments.len()
        && run[i].segments.take(longer.len() as int) == longer by {
        assert(run[i] == entries[i]);
        assert(entries[i].segments.len() == depth);
        assert(entries[i].segments.take(lead.len() as int) == lead);
        assert(entries[i].segments[level as int].0 == entries[0].segments[level as int].0);
        assert(entries[i].segments[level as int].1 == value);
        assert(entries[i].segments[level as int] == entries[0].segments[level as int]);
        assert(entries[i].segments.take(longer.len() as int) =~= entries[i].segments.take(
            lead.len() as int,
        ).push(entries[i].segments[level as int]));
    }
    assert forall|i: int| 0 <= i < later.len() implies lead.len() <= (#[trigger] later[i]).segments.len()
        && later[i].segments.take(lead.len() as int) == lead by {
        assert(later[i] == entries[i + n]);
    }
}

/// Flattening the tree of a group gives the paths of the group, in the
/// group's order, whether or not the group is ranked.
pub proof fn lemma_shape_paths(entries: Seq<PathEntry>, level: nat, depth: nat, lead: Seq<Segment>)
    requires
        uniform(entries, level, depth),
        level <= depth,
        lead.len() == level,
        shares(entries, lead),
    ensures
        shape_of(entries, level, depth).paths(directory(lead)) == paths_of(entries),
    decreases depth - level, entries.len(), 1nat,
{
    let shape = shape_of(entries, level, depth);
    let prefix = directory(lead);
    if entries.len() == 0 || level >= depth {
        assert forall|i: int| 0 <= i < entries.len() implies file_paths(files_of(entries), prefix)[i]
            == paths_of(entries)[i] by {
            assert(entries[i].segments.len() == depth);
            assert(entries[i].segments.take(level as int) =~= entries[i].segments);
        }
        assert(shape.paths(prefix) =~= paths_of(entries));
    } else {
        lemma_branches_paths(entries, level, depth, lead);
    }
}

/// Flattening the branches of a group gives the paths of the group, in the
/// group's order.
pub proof fn lemma_branches_paths(
    entries: Seq<PathEntry>,
    level: nat,
    depth: nat,
    lead: Seq<Segment>,
)
    requires
        uniform(entries, level, depth),
        level < depth,
        lead.len() == level,
        shares(entries, lead),
    ensures
        entries.len() > 0 ==> branch_paths(
            entries[0].segments[level as int].0,
            branches(entries, level, depth),
            directory(lead),
        ) == paths_of(entries),
    decreases depth - level, entries.len(), 0nat,
{
    if entries.len() > 0 {
        let prefix = directory(lead);
        let name = entries[0].segments[level as int].0;
        let value = entries[0].segments[level as int].1;
        let n = run_length(entries, level, value);
        let run = entries.take(n as int);
        let later = entries.skip(n as int);
        let child = shape_of(run, level + 1, depth);
        let rest = branches(later, level, depth);
        let values = branches(entries, level, depth);
        let longer = lead.push(entries[0].segments[level as int]);
        lemma_shares_parts(entries, level, depth, lead, n as int);
        lemma_uniform_parts(entries, level, depth, n as int);
        lemma_shape_paths(run, level + 1, depth, longer);
        lemma_branches_paths(later, level, depth, lead);
        lemma_directory_push(lead, entries[0].segments[level as int]);
        assert(directory(longer) =~= branch_prefix(prefix, name, value));
        assert(values =~= seq![(value, child)] + rest);
        assert(values.drop_first() =~= rest);
        if later.len() > 0 {
            assert(later[0] == entries[n as int]);
            assert(later[0].segments[level as int].0 == name);
        } else {
            assert(rest =~= Seq::<(Seq<char>, Shape)>::empty());
            assert(branch_paths(name, rest, prefix) =~= Seq::<Seq<char>>::empty());
        }
        assert(paths_of(entries) =~= paths_of(run) + paths_of(later));
    }
}

/// Sequences that hold the same items, each as often, still do so after one
/// function is applied to each item.
pub proof fn lemma_map_permutation<A, B>(a: Seq<A>, b: Seq<A>, f: spec_fn(A) -> B)
    requires
        a.to_multiset() == b.to_multiset(),
    ensures
        a.map_values(f).to_multiset() == b.map_values(f).to_multiset(),
    decreases a.len(),
{
    broadcast use vstd::multiset::group_multiset_axioms;

    a.to_multiset_ensures();
    b.to_multiset_ensures();
    if a.len() == 0 {
        assert(b.len() == 0);
        assert(a.map_values(f) =~= b.map_values(f));
    } else {
        let last = a.len() - 1;
        let x = a[last];
        assert(a.contains(x));
        assert(a.to_multiset().count(x) > 0);
        assert(b.to_multiset().count(x) > 0);
        assert(b.contains(x));
        let j = choose|j: int| 0 <= j < b.len() && b[j] == x;
        let shorter_a = a.remove(last);
        let shorter_b = b.remove(j);
        lemma_map_permutation(shorter_a, shorter_b, f);
        let mapped_a = a.map_values(f);
        let mapped_b = b.map_values(f);
        mapped_a.to_multiset_ensures();
        mapped_b.to_multiset_ensures();
        assert(mapped_a.remove(last) =~= shorter_a.map_values(f));
        assert(mapped_b.remove(j) =~= shorter_b.map_values(f));
        assert(mapped_a[last] == f(x) && mapped_b[j] == f(x));
        assert(mapped_a.contains(f(x)));
        assert(mapped_b.contains(f(x)));
        assert(mapped_a.to_multiset() =~= mapped_a.to_multiset().remove(f(x)).insert(f(x)));
        assert(mapped_b.to_multiset() =~= mapped_b.to_multiset().remove(f(x)).insert(f(x)));
    }
}

/// The paths of a manifest are read one by one: reading succeeds where each
/// text is a path, and then gives what each holds, in their order.
pub proof fn lemma_entries_from(paths: Seq<Seq<char>>)
    ensures
        entries_from(paths) is Ok <==> forall|i: int|
            0 <= i < paths.len() ==> entry_at(#[trigger] paths[i]) is Ok,
        entries_from(paths) is Ok ==> entries_from(paths)->Ok_0 == paths.map_values(
            |path: Seq<char>| entry_at(path)->Ok_0,
        ),
    decreases paths.len(),
{
    let read = |path: Seq<char>| entry_at(path)->Ok_0;
    if paths.len() == 0 {
        assert(entries_from(paths)->Ok_0 =~= paths.map_values(read));
    } else {
        let later = paths.drop_first();
        lemma_entries_from(later);
        if entries_from(paths) is Ok {
            assert forall|i: int| 0 <= i < paths.len() implies entry_at(#[trigger] paths[i])
                is Ok by {
                if i > 0 {
                    assert(paths[i] == later[i - 1]);
                }
            }
            assert(later.map_values(read) == later.map_values(
                |path: Seq<char>| entry_at(path)->Ok_0,
            ));
            assert(entries_from(paths)->Ok_0 =~= paths.map_values(read));
        }
        if forall|i: int| 0 <= i < paths.len() ==> entry_at(#[trigger] paths[i]) is Ok {
            assert(entry_at(paths[0]) is Ok);
            assert forall|i: int| 0 <= i < later.len() implies entry_at(#[trigger] later[i])
                is Ok by {
                assert(later[i] == paths[i + 1]);
            }
        }
    }
}

/// Flattening the tree of a manifest gives the paths of the manifest, each as
/// often as the manifest holds it, where the content identifiers in the file
/// names are written without upper-case letters.
pub proof fn lemma_tree_round_trip(paths: Seq<Seq<char>>)
    requires
        grown(paths) is Ok,
        forall|i: int| 0 <= i < paths.len() ==> path_in_lower_case(#[trigger] paths[i]),
    ensures
        grown(paths)->Ok_0.paths(Seq::empty()).to_multiset() == paths.to_multiset(),
{
    let entries = entries_from(paths)->Ok_0;
    let sorted = ranked(entries);
    let shape = grown(paths)->Ok_0;
    lemma_entries_from(paths);
    lemma_entry_total();
    entries.lemma_sort_by_ensures(entry_order());
    lemma_ranked_schema(sorted);
    lemma_shape_paths(sorted, 0, depth_of(sorted), Seq::empty());
    assert(directory(Seq::<Segment>::empty()) =~= Seq::<char>::empty());
    assert(shape.paths(Seq::empty()) == paths_of(sorted));
    lemma_map_permutation(sorted, entries, |entry: PathEntry| rendered_path(entry));
    assert(paths_of(sorted).to_multiset() == paths_of(entries).to_multiset());
    assert(paths_of(entries) =~= paths) by {
        assert forall|i: int| 0 <= i < paths.len() implies paths_of(entries)[i] == paths[i] by {
            lemma_path_round_trip(paths[i]);
        }
    }
}

/// The tree of a manifest does not depend on the order of its paths: two
/// manifests of paths that hold the same paths, each as often, have the same
/// tree, or fail with the same mismatch.
pub proof fn lemma_order_independent(paths: Seq<Seq<char>>, shuffled: Seq<Seq<char>>)
    requires
        entries_from(paths) is Ok,
        paths.to_multiset() == shuffled.to_multiset(),
    ensures
        grown(shuffled) == grown(paths),
{
    let read = |path: Seq<char>| entry_at(path)->Ok_0;
    lemma_entries_from(paths);
    lemma_entries_from(shuffled);
    paths.to_multiset_ensures();
    shuffled.to_multiset_ensures();
    assert forall|i: int| 0 <= i < shuffled.len() implies entry_at(#[trigger] shuffled[i])
        is Ok by {
        assert(shuffled.contains(shuffled[i]));
        assert(shuffled.to_multiset().count(shuffled[i]) > 0);
        assert(paths.to_multiset().count(shuffled[i]) > 0);
        assert(paths.contains(shuffled[i]));
        let j = choose|j: int| 0 <= j < paths.len() && paths[j] == shuffled[i];
        assert(entry_at(paths[j]) is Ok);
    }
    let entries = entries_from(paths)->Ok_0;
    let others = entries_from(shuffled)->Ok_0;
    assert(entries == paths.map_values(read));
    assert(others == shuffled.map_values(read));
    lemma_map_permutation(paths, shuffled, read);
    lemma_entry_total();
    entries.lemma_sort_by_ensures(entry_order());
    others.lemma_sort_by_ensures(entry_order());
    lemma_sorted_unique(ranked(entries), ranked(others), entry_order());
}

/// The leaves of the tree of a group lie as deep below its root as the
/// paths of the group have segments left.
pub proof fn lemma_shape_depth(entries: Seq<PathEntry>, level: nat, depth: nat)
    requires
        level <= depth,
        entries.len() > 0 || level == depth,
    ensures
        shape_of(entries, level, depth).leaves_at((depth - level) as nat),
    decreases depth - level, entries.len(), 1nat,
{
    if entries.len() > 0 && level < depth {
        lemma_branches_depth(entries, level, depth);
        let values = branches(entries, level, depth);
        assert(shape_of(entries, level, depth)->Partition_values == values);
        assert forall|i: int| 0 <= i < values.len() implies (#[trigger] values[i]).1.leaves_at(
            ((depth - level) as nat - 1) as nat,
        ) by {
            assert(branches(entries, level, depth)[i].1.leaves_at((depth - level - 1) as nat));
        }
    }
}

/// The leaves under each branch of a group lie one node less deep than the
/// leaves of the group's tree.
pub proof fn lemma_branches_depth(entries: Seq<PathEntry>, level: nat, depth: nat)
    requires
        level < depth,
    ensures
        forall|k: int|
            0 <= k < branches(entries, level, depth).len() ==> (#[trigger] branches(
                entries,
                level,
                depth,
            )[k]).1.leaves_at((depth - level - 1) as nat),
    decreases depth - level, entries.len(), 0nat,
{
    if entries.len() > 0 {
        let value = entries[0].segments[level as int].1;
        let n = run_length(entries, level, value);
        lemma_run_length_bound(entries, level, value);
        let run = entries.take(n as int);
        let later = entries.skip(n as int);
        let rest = branches(later, level, depth);
        let values = branches(entries, level, depth);
        assert(n >= 1);
        lemma_shape_depth(run, level + 1, depth);
        lemma_branches_depth(later, level, depth);
        assert forall|k: int| 0 <= k < values.len() implies (#[trigger] values[k]).1.leaves_at(
            (depth - level - 1) as nat,
        ) by {
            if k > 0 {
                assert(values[k] == rest[k - 1]);
            }
        }
    }
}

/// The tree of a group of one schema has the keys of the group's first path
/// as its schema.
pub proof fn lemma_shape_follows(
    entries: Seq<PathEntry>,
    level: nat,
    depth: nat,
    keys: Seq<Seq<char>>,
)
    requires
        level <= depth,
        entries.len() > 0 || level == depth,
        uniform(entries, level, depth),
        keys.len() == depth - level,
        entries.len() > 0 ==> forall|d: int|
            level <= d < depth ==> (#[trigger] entries[0].segments[d]).0 == keys[d - level],
    ensures
        shape_of(entries, level, depth).follows(keys),
    decreases depth - level, entries.len(), 1nat,
{
    if entries.len() > 0 && level < depth {
        assert(entries[0].segments[level as int].0 == keys[0]);
        lemma_branches_follow(entries, level, depth, keys);
        let values = branches(entries, level, depth);
        assert(shape_of(entries, level, depth)->Partition_values == values);
        assert forall|i: int| 0 <= i < values.len() implies (#[trigger] values[i]).1.follows(
            keys.drop_first(),
        ) by {
            assert(branches(entries, level, depth)[i].1.follows(keys.drop_first()));
        }
    }
}

/// The tree under each branch of a group of one schema has the keys after
/// the first as its schema.
pub proof fn lemma_branches_follow(
    entries: Seq<PathEntry>,
    level: nat,
    depth: nat,
    keys: Seq<Seq<char>>,
)
    requires
        level < depth,
        uniform(entries, level, depth),
        keys.len() == depth - level,
        entries.len() > 0 ==> forall|d: int|
            level <= d < depth ==> (#[trigger] entries[0].segments[d]).0 == keys[d - level],
    ensures
        forall|k: int|
            0 <= k < branches(entries, level, depth).len() ==> (#[trigger] branches(
                entries,
                level,
                depth,
            )[k]).1.follows(keys.drop_first()),
    decreases depth - level, entries.len(), 0nat,
{
    if entries.len() > 0 {
        let value = entries[0].segments[level as int].1;
        let n = run_length(entries, level, value);
        lemma_run_length_bound(entries, level, value);
        let run = entries.take(n as int);
        let later = entries.skip(n as int);
        let rest = branches(later, level, depth);
        let values = branches(entries, level, depth);
        let deeper = keys.drop_first();
        assert(n >= 1);
        lemma_uniform_parts(entries, level, depth, n as int);
        assert forall|d: int| level + 1 <= d < depth implies (#[trigger] run[0].segments[d]).0
            == deeper[d - (level + 1)] by {
            assert(run[0] == entries[0]);
            assert(entries[0].segments[d].0 == keys[d - level]);
        }
        lemma_shape_follows(run, level + 1, depth, deeper);
        if later.len() > 0 {
            assert forall|d: int| level <= d < depth implies (#[trigger] later[0].segments[d]).0
                == keys[d - level] by {
                assert(later[0] == entries[n as int]);
                assert(entries[n as int].segments[d].0 == entries[0].segments[d].0);
                assert(entries[0].segments[d].0 == keys[d - level]);
            }
        }
        lemma_branches_follow(later, level, depth, keys);
        assert forall|k: int| 0 <= k < values.len() implies (#[trigger] values[k]).1.follows(
            deeper,
        ) by {
            if k > 0 {
                assert(values[k] == rest[k - 1]);
            }
        }
    }
}

/// The number of segments of `path`.
pub open spec fn segment_count(path: Seq<char>) -> nat {
    entry_at(path)->Ok_0.segments.len()
}

/// The number of segments of the first of `paths`; 0 where there is none.
pub open spec fn manifest_depth(paths: Seq<Seq<char>>) -> nat {
    if paths.len() == 0 {
        0
    } else {
        segment_count(paths[0])
    }
}

/// The key of `path` at `depth`.
pub open spec fn key_at(path: Seq<char>, depth: int) -> Seq<char> {
    entry_at(path)->Ok_0.segments[depth].0
}

/// The keys of the first of `paths`, in their order; none where there is no
/// path.
pub open spec fn manifest_keys(paths: Seq<Seq<char>>) -> Seq<Seq<char>> {
    Seq::new(manifest_depth(paths), |d: int| key_at(paths[0], d))
}

/// Each path of a manifest stands among the ranked paths.
pub proof fn lemma_ranked_holds(paths: Seq<Seq<char>>, i: int) -> (j: int)
    requires
        entries_from(paths) is Ok,
        0 <= i < paths.len(),
    ensures
        0 <= j < ranked(entries_from(paths)->Ok_0).len(),
        ranked(entries_from(paths)->Ok_0)[j] == entry_at(paths[i])->Ok_0,
{
    let entries = entries_from(paths)->Ok_0;
    let sorted = ranked(entries);
    lemma_entries_from(paths);
    lemma_entry_total();
    entries.lemma_sort_by_ensures(entry_order());
    entries.to_multiset_ensures();
    sorted.to_multiset_ensures();
    assert(entries[i] == entry_at(paths[i])->Ok_0);
    assert(entries.contains(entries[i]));
    assert(entries.to_multiset().count(entries[i]) > 0);
    assert(sorted.to_multiset().count(entries[i]) > 0);
    assert(sorted.contains(entries[i]));
    choose|j: int| 0 <= j < sorted.len() && sorted[j] == entries[i]
}

/// The paths of a manifest that has a tree have one schema: as many
/// segments each, and at each depth one key.
pub proof fn lemma_uniform_schema(paths: Seq<Seq<char>>)
    requires
        grown(paths) is Ok,
    ensures
        forall|i: int|
            0 <= i < paths.len() ==> segment_count(#[trigger] paths[i]) == manifest_depth(paths),
        forall|i: int, d: int|
            0 <= i < paths.len() && 0 <= d < manifest_depth(paths) ==> #[trigger] key_at(
                paths[i],
                d,
            ) == key_at(paths[0], d),
{
    let entries = entries_from(paths)->Ok_0;
    let sorted = ranked(entries);
    let depth = depth_of(sorted);
    if paths.len() > 0 {
        lemma_ranked_schema(sorted);
        let first = lemma_ranked_holds(paths, 0);
        assert(sorted[first].segments.len() == depth);
        assert forall|i: int| 0 <= i < paths.len() implies segment_count(#[trigger] paths[i])
            == manifest_depth(paths) by {
            let j = lemma_ranked_holds(paths, i);
            assert(sorted[j].segments.len() == depth);
        }
        assert forall|i: int, d: int|
            0 <= i < paths.len() && 0 <= d < manifest_depth(paths) implies #[trigger] key_at(
            paths[i],
            d,
        ) == key_at(paths[0], d) by {
            let j = lemma_ranked_holds(paths, i);
            assert(sorted[j].segments[d].0 == sorted[0].segments[d].0);
            assert(sorted[first].segments[d].0 == sorted[0].segments[d].0);
        }
    }
}

/// In the tree of a manifest every leaf lies at one depth, which is the
/// number of segments that each of the paths has, and the partition nodes at
/// each depth bear the key that each of the paths has there.
pub proof fn lemma_uniform_depth(paths: Seq<Seq<char>>)
    requires
        grown(paths) is Ok,
    ensures
        grown(paths)->Ok_0.leaves_at(manifest_depth(paths)),
        grown(paths)->Ok_0.follows(manifest_keys(paths)),
        forall|i: int|
            0 <= i < paths.len() ==> segment_count(#[trigger] paths[i]) == manifest_depth(paths),
{
    let entries = entries_from(paths)->Ok_0;
    let sorted = ranked(entries);
    let depth = depth_of(sorted);
    lemma_uniform_schema(paths);
    lemma_ranked_schema(sorted);
    lemma_entries_from(paths);
    lemma_entry_total();
    entries.lemma_sort_by_ensures(entry_order());
    entries.to_multiset_ensures();
    sorted.to_multiset_ensures();
    if paths.len() == 0 {
        assert(sorted.len() == 0);
        lemma_shape_depth(sorted, 0, 0);
        lemma_shape_follows(sorted, 0, 0, manifest_keys(paths));
    } else {
        let first = lemma_ranked_holds(paths, 0);
        assert(sorted[first].segments.len() == depth);
        assert(sorted.len() > 0);
        lemma_shape_depth(sorted, 0, depth);
        assert forall|d: int| 0 <= d < depth implies (#[trigger] sorted[0].segments[d]).0
            == manifest_keys(paths)[d - 0] by {
            assert(sorted[first].segments[d].0 == sorted[0].segments[d].0);
        }
        lemma_shape_follows(sorted, 0, depth, manifest_keys(paths));
    }
}

/// What a path is found to fail with against the first of its group is a
/// mismatch between paths.
pub proof fn lemma_key_mismatch_kind(first: PathEntry, entry: PathEntry, level: nat, depth: nat)
    requires
        key_mismatch(first, entry, level, depth) is Some,
    ensures
        key_mismatch(first, entry, level, depth)->0.is_schema_mismatch(),
    decreases depth - level,
{
    if level < depth && entry.segments[level as int].0 == first.segments[level as int].0 {
        lemma_key_mismatch_kind(first, entry, (level + 1) as nat, depth);
    }
}

/// What a group is found to fail with is a mismatch between its paths.
pub proof fn lemma_mismatch_kind(entries: Seq<PathEntry>, level: nat, depth: nat, from: nat)
    requires
        first_mismatch(entries, level, depth, from) is Some,
    ensures
        first_mismatch(entries, level, depth, from)->0.is_schema_mismatch(),
    decreases entries.len() - from,
{
    if from < entries.len() {
        if mismatch(entries[0], entries[from as int], level, depth) is None {
            lemma_mismatch_kind(entries, level, depth, from + 1);
        } else if entries[from as int].segments.len() == depth {
            lemma_key_mismatch_kind(entries[0], entries[from as int], level, depth);
        }
    }
}

/// A manifest of paths fails only with a mismatch between its paths.
pub proof fn lemma_schema_failure(paths: Seq<Seq<char>>)
    requires
        entries_from(paths) is Ok,
        grown(paths) is Err,
    ensures
        grown(paths)->Err_0.is_schema_mismatch(),
{
    let sorted = ranked(entries_from(paths)->Ok_0);
    lemma_mismatch_kind(sorted, 0, depth_of(sorted), 0);
}

/// Two paths with different numbers of segments in one manifest fail it with
/// a mismatch.
pub proof fn lemma_differing_depths(paths: Seq<Seq<char>>, i: int, j: int)
    requires
        entries_from(paths) is Ok,
        0 <= i < paths.len(),
        0 <= j < paths.len(),
        segment_count(paths[i]) != segment_count(paths[j]),
    ensures
        grown(paths) is Err,
        grown(paths)->Err_0.is_schema_mismatch(),
{
    if grown(paths) is Ok {
        lemma_uniform_schema(paths);
    } else {
        lemma_schema_failure(paths);
    }
}

/// Two paths that name different partition columns at one depth fail their
/// manifest with a mismatch, wherever in the manifest they stand.
pub proof fn lemma_differing_keys(paths: Seq<Seq<char>>, i: int, j: int, d: int)
    requires
        entries_from(paths) is Ok,
        0 <= i < paths.len(),
        0 <= j < paths.len(),
        0 <= d < segment_count(paths[i]),
        d < segment_count(paths[j]),
        key_at(paths[i], d) != key_at(paths[j], d),
    ensures
        grown(paths) is Err,
        grown(paths)->Err_0.is_schema_mismatch(),
{
    if grown(paths) is Ok {
        lemma_uniform_schema(paths);
        assert(key_at(paths[i], d) == key_at(paths[0], d));
        assert(key_at(paths[j], d) == key_at(paths[0], d));
    } else {
        lemma_schema_failure(paths);
    }
}

/// In a ranked group of one schema whose paths agree on the segments above
/// `level`, the values at `level` ascend.
pub proof fn lemma_values_ascend(
    entries: Seq<PathEntry>,
    level: nat,
    depth: nat,
    lead: Seq<Segment>,
    i: int,
    j: int,
)
    requires
        sorted_by(entries, entry_order()),
        level < depth,
        lead.len() == level,
        shares(entries, lead),
        uniform(entries, level, depth),
        0 <= i < j < entries.len(),
    ensures
        text_le(entries[i].segments[level as int].1, entries[j].segments[level as int].1),
{
    let a = entries[i].segments;
    let b = entries[j].segments;
    assert(entry_order()(entries[i], entries[j]));
    assert(entry_le(entries[i], entries[j]));
    assert(a[level as int].0 == entries[0].segments[level as int].0);
    assert(b[level as int].0 == entries[0].segments[level as int].0);
    lemma_text_le(a[level as int].1, b[level as int].1, a[level as int].1);
    if a != b {
        assert(segments_le(a, b));
        assert(a.take(level as int) == b.take(level as int));
        lemma_lex_at_prefix(segment_order(), a, b, level as int);
    }
}

/// A part of a ranked group is ranked.
pub proof fn lemma_ranked_parts(entries: Seq<PathEntry>, n: int)
    requires
        sorted_by(entries, entry_order()),
        0 <= n <= entries.len(),
    ensures
        sorted_by(entries.take(n), entry_order()),
        sorted_by(entries.skip(n), entry_order()),
{
    let run = entries.take(n);
    let later = entries.skip(n);
    assert forall|i: int, j: int| 0 <= i < j < run.len() implies #[trigger] entry_order()(
        run[i],
        run[j],
    ) by {
        assert(entry_order()(entries[i], entries[j]));
    }
    assert forall|i: int, j: int| 0 <= i < j < later.len() implies #[trigger] entry_order()(
        later[i],
        later[j],
    ) by {
        assert(entry_order()(entries[i + n], entries[j + n]));
    }
}

/// The tree of a ranked group of one schema is well formed.
pub proof fn lemma_shape_well_formed(
    entries: Seq<PathEntry>,
    level: nat,
    depth: nat,
    lead: Seq<Segment>,
)
    requires
        sorted_by(entries, entry_order()),
        uniform(entries, level, depth),
        level <= depth,
        lead.len() == level,
        shares(entries, lead),
    ensures
        shape_of(entries, level, depth).well_formed(),
    decreases depth - level, entries.len(), 1nat,
{
    if entries.len() == 0 || level >= depth {
        let files = files_of(entries);
        assert forall|i: int, j: int| 0 <= i < j < files.len() implies file_le(
            #[trigger] files[i],
            #[trigger] files[j],
        ) by {
            assert(entries[i].segments.len() == depth && entries[j].segments.len() == depth);
            assert(entries[i].segments.take(level as int) =~= entries[i].segments);
            assert(entries[j].segments.take(level as int) =~= entries[j].segments);
            assert(entry_order()(entries[i], entries[j]));
        }
    } else {
        lemma_branches_well_formed(entries, level, depth, lead);
    }
}

/// The branches of a ranked group of one schema stand in ascending order of
/// their values, none of which comes before the value of the group's first
/// path, and the tree under each is well formed.
pub proof fn lemma_branches_well_formed(
    entries: Seq<PathEntry>,
    level: nat,
    depth: nat,
    lead: Seq<Segment>,
)
    requires
        sorted_by(entries, entry_order()),
        uniform(entries, level, depth),
        level < depth,
        lead.len() == level,
        shares(entries, lead),
    ensures
        entries.len() > 0 ==> branches(entries, level, depth).len() > 0,
        forall|k: int|
            0 <= k < branches(entries, level, depth).len() ==> {
                &&& (#[trigger] branches(entries, level, depth)[k]).1.well_formed()
                &&& text_le(entries[0].segments[level as int].1, branches(entries, level, depth)[k].0)
            },
        forall|a: int, b: int|
            0 <= a < b < branches(entries, level, depth).len() ==> text_lt(
                (#[trigger] branches(entries, level, depth)[a]).0,
                (#[trigger] branches(entries, level, depth)[b]).0,
            ),
    decreases depth - level, entries.len(), 0nat,
{
    if entries.len() > 0 {
        let value = entries[0].segments[level as int].1;
        let n = run_length(entries, level, value);
        lemma_run_values(entries, level, value);
        let run = entries.take(n as int);
        let later = entries.skip(n as int);
        let child = shape_of(run, level + 1, depth);
        let rest = branches(later, level, depth);
        let values = branches(entries, level, depth);
        let longer = lead.push(entries[0].segments[level as int]);
        assert(values =~= seq![(value, child)] + rest);
        lemma_shares_parts(entries, level, depth, lead, n as int);
        lemma_uniform_parts(entries, level, depth, n as int);
        lemma_ranked_parts(entries, n as int);
        lemma_shape_well_formed(run, level + 1, depth, longer);
        lemma_branches_well_formed(later, level, depth, lead);
        lemma_text_le(value, value, value);
        if later.len() > 0 {
            let next = later[0].segments[level as int].1;
            assert(later[0] == entries[n as int]);
            lemma_values_ascend(entries, level, depth, lead, 0, n as int);
            assert(text_lt(value, next));
            assert forall|k: int| 0 <= k < rest.len() implies text_lt(value, (#[trigger] rest[k]).0) by {
                lemma_text_le(value, next, rest[k].0);
                lemma_text_le(next, rest[k].0, value);
            }
        }
        assert forall|k: int| 0 <= k < values.len() implies {
            &&& (#[trigger] values[k]).1.well_formed()
            &&& text_le(value, values[k].0)
        } by {
            if k > 0 {
                assert(values[k] == rest[k - 1]);
            }
        }
        assert forall|a: int, b: int| 0 <= a < b < values.len() implies text_lt(
            (#[trigger] values[a]).0,
            (#[trigger] values[b]).0,
        ) by {
            assert(values[b] == rest[b - 1]);
            if a > 0 {
                assert(values[a] == rest[a - 1]);
            }
        }
    }
}

/// The tree of a manifest is well formed.
pub proof fn lemma_grown_well_formed(paths: Seq<Seq<char>>)
    requires
        grown(paths) is Ok,
    ensures
        grown(paths)->Ok_0.well_formed(),
{
    let entries = entries_from(paths)->Ok_0;
    let sorted = ranked(entries);
    lemma_entry_total();
    entries.lemma_sort_by_ensures(entry_order());
    lemma_ranked_schema(sorted);
    lemma_shape_well_formed(sorted, 0, depth_of(sorted), Seq::empty());
}

/// The tree of no paths is a leaf without files, and flattening it gives no
/// path.
pub proof fn lemma_empty_manifest(prefix: Seq<char>)
    ensures
        grown(Seq::empty()) == Ok::<Shape, Failure>(Shape::FileEntries { files: Seq::empty() }),
        (Shape::FileEntries { files: Seq::empty() }).paths(prefix) == Seq::<Seq<char>>::empty(),
{
    let none = Seq::<PathEntry>::empty();
    lemma_entry_total();
    none.lemma_sort_by_ensures(entry_order());
    none.to_multiset_ensures();
    ranked(none).to_multiset_ensures();
    assert(ranked(none).len() == 0);
    assert(files_of(ranked(none)) =~= Seq::<ParquetDeltaFile>::empty());
    assert((Shape::FileEntries { files: Seq::empty() }).paths(prefix) =~= Seq::<Seq<char>>::empty());
}

} // verus!
