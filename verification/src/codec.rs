//! The canonical data-file name and the descriptor that stands for it.

use vstd::prelude::*;
use crate::error::{Failure, TreeError};
use crate::numeral::{
    all_digits, decimal_text, decimal_value, hex_text, hex_value, is_digit, is_hex,
    lemma_decimal_value_bound, parse_decimal, pow10, push_decimal, read_decimal,
};
use crate::order::{rank_text, Rank};
use crate::text::{chars_of, holds_at};

verus! {

/// The compression codec named in a data file's name.
///
/// The variants are declared in the order in which descriptors are ranked.
#[derive(Debug, PartialEq, Eq, Structural, PartialOrd, Ord, Clone, Copy)]
pub enum CompressionType {
    SNAPPY,
    GZIP,
    NONE,
}

/// A single data file, held as the four variable parts of its name.
#[derive(Debug, PartialEq, Eq, Structural, PartialOrd, Ord, Clone, Copy)]
pub struct ParquetDeltaFile {
    /// The index of the writing task, five digits in the name.
    pub partition: u32,
    /// The content identifier, 32 hex digits in the name.
    pub uuid: u128,
    /// The cluster counter, three digits in the name.
    pub cluster: u8,
    /// The compression codec.
    pub compression: CompressionType,
}

/// The four variable parts of a file name, as they stand in it.
#[derive(Debug, PartialEq, Eq, Clone, Copy)]
pub struct NameFields<'a> {
    /// The five digits of the partition index.
    pub part: &'a str,
    /// The content identifier: 32 hex digits with hyphens after the 8th,
    /// 12th, 16th and 20th.
    pub uuid: &'a str,
    /// The three digits of the cluster counter.
    pub c: &'a str,
    /// The codec's name.
    pub compression: &'a str,
}

/// The four variable parts of a file name as sequences of characters.
pub ghost struct Fields {
    pub part: Seq<char>,
    pub uuid: Seq<char>,
    pub cluster: Seq<char>,
    pub codec: Seq<char>,
}

impl<'a> View for NameFields<'a> {
    type V = Fields;

    open spec fn view(&self) -> Fields {
        Fields { part: self.part@, uuid: self.uuid@, cluster: self.c@, codec: self.compression@ }
    }
}

/// The name of a codec in a file name.
pub open spec fn token(codec: CompressionType) -> Seq<char> {
    match codec {
        CompressionType::SNAPPY => "snappy"@,
        CompressionType::GZIP => "gzip"@,
        CompressionType::NONE => "none"@,
    }
}

/// The codec that `name` names, if it names one.
pub open spec fn codec_named(name: Seq<char>) -> Option<CompressionType> {
    if name == "snappy"@ {
        Some(CompressionType::SNAPPY)
    } else if name == "gzip"@ {
        Some(CompressionType::GZIP)
    } else if name == "none"@ {
        Some(CompressionType::NONE)
    } else {
        None
    }
}

/// Whether `text` is a content identifier in hyphenated form: 36 characters,
/// hyphens at 8, 13, 18 and 23, hex digits elsewhere.
pub open spec fn is_hyphenated(text: Seq<char>) -> bool {
    &&& text.len() == 36
    &&& forall|i: int|
        0 <= i < 36 ==> if i == 8 || i == 13 || i == 18 || i == 23 {
            text[i] == '-'
        } else {
            is_hex(#[trigger] text[i])
        }
}

/// The 32 hex digits of a hyphenated identifier.
pub open spec fn hyphen_free(text: Seq<char>) -> Seq<char> {
    text.subrange(0, 8) + text.subrange(9, 13) + text.subrange(14, 18) + text.subrange(19, 23)
        + text.subrange(24, 36)
}

/// The number that a hyphenated identifier spells: its 32 hex digits read as
/// one number, the first digit counting most.
pub open spec fn hyphenated_value(text: Seq<char>) -> nat {
    hex_value(hyphen_free(text))
}

/// The hyphenated form of `value`: its 32 lower-case hex digits in groups of
/// 8, 4, 4, 4 and 12.
pub open spec fn hyphenated_text(value: u128) -> Seq<char> {
    let digits = hex_text(value as nat, 32);
    digits.subrange(0, 8) + seq!['-'] + digits.subrange(8, 12) + seq!['-'] + digits.subrange(12, 16)
        + seq!['-'] + digits.subrange(16, 20) + seq!['-'] + digits.subrange(20, 32)
}

/// The file name with the given parts.
pub open spec fn assembled(fields: Fields) -> Seq<char> {
    "part-"@ + fields.part + "-"@ + fields.uuid + ".c"@ + fields.cluster + "."@ + fields.codec
        + ".parquet"@
}

/// The parts of `name` by their places in it.
pub open spec fn fields_at(name: Seq<char>) -> Fields {
    Fields {
        part: name.subrange(5, 10),
        uuid: name.subrange(11, 47),
        cluster: name.subrange(49, 52),
        codec: name.subrange(53, name.len() - 8),
    }
}

/// Whether each part has the form that the grammar gives it: five digits, a
/// hyphenated identifier, three digits, the name of a codec.
pub open spec fn well_formed(fields: Fields) -> bool {
    &&& fields.part.len() == 5
    &&& all_digits(fields.part)
    &&& is_hyphenated(fields.uuid)
    &&& fields.cluster.len() == 3
    &&& all_digits(fields.cluster)
    &&& codec_named(fields.codec) is Some
}

/// Whether `name` is a canonical file name:
/// `part-DDDDD-HHHHHHHH-HHHH-HHHH-HHHH-HHHHHHHHHHHH.cDDD.CODEC.parquet`, from
/// its first character to its last.
pub open spec fn is_canonical(name: Seq<char>) -> bool {
    &&& name.len() >= 61
    &&& well_formed(fields_at(name))
    &&& name == assembled(fields_at(name))
}

/// The partition index that five digits give. A number too large for 32 bits
/// is not refused: it is read as the largest index. Five decimal digits
/// never spell such a number, so the grammar keeps this from happening.
pub open spec fn partition_index(digits: Seq<char>) -> u32 {
    match read_decimal(digits) {
        Some(index) => index,
        None => u32::MAX,
    }
}

/// The descriptor of the file named `name`, if `name` is canonical and its
/// cluster counter fits in 8 bits.
pub open spec fn parsed(name: Seq<char>) -> Option<ParquetDeltaFile> {
    let fields = fields_at(name);
    if is_canonical(name) && decimal_value(fields.cluster) <= u8::MAX {
        Some(
            ParquetDeltaFile {
                partition: partition_index(fields.part),
                uuid: hyphenated_value(fields.uuid) as u128,
                cluster: decimal_value(fields.cluster) as u8,
                compression: codec_named(fields.codec)->0,
            },
        )
    } else {
        None
    }
}

/// The name of the file that `file` describes.
pub open spec fn rendered(file: ParquetDeltaFile) -> Seq<char> {
    assembled(
        Fields {
            part: decimal_text(file.partition as nat, 5),
            uuid: hyphenated_text(file.uuid),
            cluster: decimal_text(file.cluster as nat, 3),
            codec: token(file.compression),
        },
    )
}

/// Reads a content identifier with `uuid::Uuid::parse_str` and takes its
/// number with `uuid::Uuid::as_u128`. Believed of them: a text in hyphenated
/// form is accepted, and the number is the one that its 32 hex digits spell,
/// upper-case and lower-case digits counting the same.
#[verifier::external_body]
pub(crate) fn uuid_number(text: &str) -> (r: Option<u128>)
    requires
        is_hyphenated(text@),
    ensures
        r is Some,
        r->0 == hyphenated_value(text@),
{
    match uuid::Uuid::parse_str(text) {
        Ok(id) => Some(id.as_u128()),
        Err(_) => None,
    }
}

/// Writes a content identifier with `uuid::Uuid::from_u128` and the
/// `to_string` of `uuid::fmt::Hyphenated`. Believed of them: the text is the
/// number's 32 hex digits, lower-case, the first counting most, with hyphens
/// after the 8th, 12th, 16th and 20th.
#[verifier::external_body]
pub(crate) fn uuid_text(number: u128) -> (r: String)
    ensures
        r@ == hyphenated_text(number),
{
    uuid::Uuid::from_u128(number).hyphenated().to_string()
}

impl CompressionType {
    /// The codec that `s` names.
    pub fn from_str(s: &str) -> (r: Option<CompressionType>)
        ensures
            r == codec_named(s@),
    {
        if rank_text(s, "snappy") == Rank::Same {
            Some(CompressionType::SNAPPY)
        } else if rank_text(s, "gzip") == Rank::Same {
            Some(CompressionType::GZIP)
        } else if rank_text(s, "none") == Rank::Same {
            Some(CompressionType::NONE)
        } else {
            None
        }
    }

    /// The codec's name.
    pub fn to_string(&self) -> (r: &'static str)
        ensures
            r@ == token(*self),
    {
        match self {
            CompressionType::GZIP => "gzip",
            CompressionType::SNAPPY => "snappy",
            CompressionType::NONE => "none",
        }
    }
}

/// Whether the characters of `chars` from `from` up to `to` are decimal
/// digits.
pub fn digits_in(chars: &Vec<char>, from: usize, to: usize) -> (r: bool)
    requires
        from <= to <= chars@.len(),
    ensures
        r == all_digits(chars@.subrange(from as int, to as int)),
{
    let ghost part = chars@.subrange(from as int, to as int);
    let mut i: usize = from;
    while i < to
        invariant
            from <= i <= to <= chars@.len(),
            part == chars@.subrange(from as int, to as int),
            forall|k: int| 0 <= k < i - from ==> is_digit(#[trigger] part[k]),
        decreases to - i,
    {
        let c = chars[i];
        if !('0' <= c && c <= '9') {
            assert(!is_digit(part[i - from]));
            return false;
        }
        i += 1;
    }
    true
}

/// Whether the 36 characters of `chars` from `from` on are a content
/// identifier in hyphenated form.
pub fn hyphenated_in(chars: &Vec<char>, from: usize) -> (r: bool)
    requires
        from + 36 <= chars@.len(),
    ensures
        r == is_hyphenated(chars@.subrange(from as int, from + 36)),
{
    let ghost part = chars@.subrange(from as int, from + 36);
    let mut i: usize = 0;
    while i < 36
        invariant
            i <= 36,
            from + 36 <= chars.len(),
            part == chars@.subrange(from as int, from + 36),
            forall|k: int|
                0 <= k < i ==> if k == 8 || k == 13 || k == 18 || k == 23 {
                    part[k] == '-'
                } else {
                    is_hex(#[trigger] part[k])
                },
        decreases 36 - i,
    {
        let c = chars[from + i];
        assert(c == part[i as int]);
        if i == 8 || i == 13 || i == 18 || i == 23 {
            if c != '-' {
                return false;
            }
        } else if !(('0' <= c && c <= '9') || ('a' <= c && c <= 'f') || ('A' <= c && c <= 'F')) {
            assert(!is_hex(part[i as int]));
            return false;
        }
        i += 1;
    }
    true
}

/// Takes a file name apart. It has to be canonical from its first character
/// to its last.
pub fn name_fields<'a>(name: &'a str) -> (r: Option<NameFields<'a>>)
    ensures
        is_canonical(name@) ==> r is Some && r->0@ == fields_at(name@),
        !is_canonical(name@) ==> r is None,
{
    let chars = chars_of(name);
    let n = chars.len();
    if n < 61 {
        return None;
    }
    proof {
        reveal_strlit("part-");
        reveal_strlit("-");
        reveal_strlit(".c");
        reveal_strlit(".");
        reveal_strlit(".parquet");
        reveal_strlit("snappy");
        reveal_strlit("gzip");
        reveal_strlit("none");
    }
    let ghost fields = fields_at(name@);
    let ghost whole = assembled(fields);
    let tail = n - 8;
    let framed = holds_at(&chars, 0, "part-") && holds_at(&chars, 10, "-") && holds_at(
        &chars,
        47,
        ".c",
    ) && holds_at(&chars, 52, ".") && holds_at(&chars, tail, ".parquet");
    if !framed {
        proof {
            if name@ == whole && codec_named(fields.codec) is Some {
                assert(name@.subrange(0, 5) =~= "part-"@);
                assert(name@.subrange(10, 11) =~= "-"@);
                assert(name@.subrange(47, 49) =~= ".c"@);
                assert(name@.subrange(52, 53) =~= "."@);
                assert(name@.subrange(tail as int, tail + 8) =~= ".parquet"@);
            }
        }
        return None;
    }
    if !(digits_in(&chars, 5, 10) && hyphenated_in(&chars, 11) && digits_in(&chars, 49, 52)) {
        return None;
    }
    let compression = name.substring_char(53, tail);
    if CompressionType::from_str(compression).is_none() {
        return None;
    }
    assert(name@ =~= whole);
    Some(
        NameFields {
            part: name.substring_char(5, 10),
            uuid: name.substring_char(11, 47),
            c: name.substring_char(49, 52),
            compression,
        },
    )
}

impl ParquetDeltaFile {
    /// Reads the descriptor of a file from its name. A name that is not
    /// canonical, or whose cluster counter is above 255, is refused.
    pub fn from_string(name: &str) -> (r: Result<ParquetDeltaFile, TreeError>)
        ensures
            match r {
                Ok(file) => parsed(name@) == Some(file),
                Err(error) => parsed(name@) is None && error@ == (Failure::Format { text: name@ }),
            },
    {
        let fields = match name_fields(name) {
            Some(fields) => fields,
            None => {
                return Err(TreeError::Format { text: name.to_owned() });
            },
        };
        proof {
            lemma_decimal_value_bound(fields.c@);
            reveal_with_fuel(pow10, 4);
        }
        let partition = match parse_decimal(fields.part) {
            Some(index) => index,
            None => u32::MAX,
        };
        let uuid = match uuid_number(fields.uuid) {
            Some(number) => number,
            None => {
                return Err(TreeError::Format { text: name.to_owned() });
            },
        };
        let cluster = match parse_decimal(fields.c) {
            Some(counter) => counter,
            None => {
                return Err(TreeError::Format { text: name.to_owned() });
            },
        };
        if cluster > 255 {
            return Err(TreeError::Format { text: name.to_owned() });
        }
        let compression = match CompressionType::from_str(fields.compression) {
            Some(codec) => codec,
            None => {
                return Err(TreeError::Format { text: name.to_owned() });
            },
        };
        Ok(ParquetDeltaFile { partition, uuid, cluster: cluster as u8, compression })
    }

    /// The name of the file.
    pub fn name(&self) -> (r: String)
        ensures
            r@ == rendered(*self),
    {
        let mut out = String::new();
        out.append("part-");
        push_decimal(&mut out, self.partition, 5);
        out.append("-");
        let uuid = uuid_text(self.uuid);
        out.append(uuid.as_str());
        out.append(".c");
        push_decimal(&mut out, self.cluster as u32, 3);
        out.append(".");
        out.append(self.compression.to_string());
        out.append(".parquet");
        assert(out@ =~= rendered(*self));
        out
    }
}

} // verus!
