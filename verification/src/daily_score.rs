//! A journal entry and its line codec.
//!
//! One entry is one line of text with four fields separated by `" | "`:
//!
//! ```text
//! <timestamp> | <score> | <tags> | <comment>
//! ```
//!
//! The timestamp is `YYYY-MM-DD HH:MM:SS +HHMM` (fixed offset, seconds
//! precision), the score a signed decimal that must fit `i8`, the tags a
//! `,`-joined list (serialized in sorted order), and the comment the verbatim
//! remainder of the line.  Decoding splits on the first three occurrences of
//! the separator only, so a comment may itself contain `" | "`.
use vstd::prelude::*;

use crate::civil::CivilDateTime;
use crate::text::all_digits;
use crate::text::dedup;
use crate::text::dedup_exec;
use crate::text::digits_val;
use crate::text::is_digit;
use crate::text::is_trimmed;
use crate::text::join_tags;
use crate::text::join_tags_exec;
use crate::text::lemma_dedup_nodup;
use crate::text::lemma_digits_val_nonneg;
use crate::text::lemma_splitn_sep_len;
use crate::text::sort_tags;
use crate::text::sort_tags_exec;
use crate::text::split_commas;
use crate::text::split_commas_exec;
use crate::text::splitn_sep;
use crate::text::splitn_sep_exec;
use crate::text::trim_exec;
use crate::text::trimmed;
use vstd::string::StringSliceAdditionalSpecFns;

verus! {

/// One decoded journal line: a dated, scored entry with optional tags and
/// comment.  Tags are a set: well-formed entries carry no duplicates, and
/// their order is irrelevant everywhere but in the serialized form.
#[derive(Debug, Clone, PartialEq)]
pub struct DailyScore {
    pub score: i8,
    pub tags: Vec<Vec<u8>>,
    pub comment: Option<Vec<u8>>,
    pub datetime: CivilDateTime,
}

/// Why a line failed to decode.
#[derive(Debug, Clone, PartialEq)]
pub enum ParseError {
    MissingDateTime,
    InvalidDateTime(Vec<u8>),
    MissingScore,
    InvalidScore(Vec<u8>),
}

impl ParseError {
    pub open spec fn spec_message(self) -> Seq<u8> {
        match self {
            ParseError::MissingDateTime => "datetime is missing".spec_bytes(),
            ParseError::InvalidDateTime(t) => "'".spec_bytes() + t@
                + "' is not a valid datetime".spec_bytes(),
            ParseError::MissingScore => "missing score".spec_bytes(),
            ParseError::InvalidScore(t) => "'".spec_bytes() + t@
                + "' is not a valid score".spec_bytes(),
        }
    }

    /// Human-readable description of the failure, as UTF-8 bytes.
    pub fn message(&self) -> (r: Vec<u8>)
        ensures
            r@ == self.spec_message(),
    {
        match self {
            ParseError::MissingDateTime => vstd::slice::slice_to_vec(
                "datetime is missing".as_bytes(),
            ),
            ParseError::InvalidDateTime(t) => {
                let mut out = vstd::slice::slice_to_vec("'".as_bytes());
                out.extend_from_slice(t.as_slice());
                out.extend_from_slice("' is not a valid datetime".as_bytes());
                out
            },
            ParseError::MissingScore => vstd::slice::slice_to_vec("missing score".as_bytes()),
            ParseError::InvalidScore(t) => {
                let mut out = vstd::slice::slice_to_vec("'".as_bytes());
                out.extend_from_slice(t.as_slice());
                out.extend_from_slice("' is not a valid score".as_bytes());
                out
            },
        }
    }
}

/// The timestamp field: exactly `YYYY-MM-DD HH:MM:SS +HHMM` with in-range
/// calendar components.
pub open spec fn valid_datetime_field(s: Seq<u8>) -> bool {
    &&& s.len() == 25
    &&& is_digit(s[0]) && is_digit(s[1]) && is_digit(s[2]) && is_digit(s[3])
    &&& s[4] == 45u8
    &&& is_digit(s[5]) && is_digit(s[6])
    &&& s[7] == 45u8
    &&& is_digit(s[8]) && is_digit(s[9])
    &&& s[10] == 32u8
    &&& is_digit(s[11]) && is_digit(s[12])
    &&& s[13] == 58u8
    &&& is_digit(s[14]) && is_digit(s[15])
    &&& s[16] == 58u8
    &&& is_digit(s[17]) && is_digit(s[18])
    &&& s[19] == 32u8
    &&& (s[20] == 43u8 || s[20] == 45u8)
    &&& is_digit(s[21]) && is_digit(s[22]) && is_digit(s[23]) && is_digit(s[24])
    &&& datetime_of_field(s).valid()
}

/// Offset seconds encoded by the `±HHMM` tail of a timestamp field.
pub open spec fn field_offset_seconds(s: Seq<u8>) -> int {
    let magnitude = ((s[21] - 48) * 10 + (s[22] - 48)) * 3600 + ((s[23] - 48) * 10 + (s[24] - 48))
        * 60;
    if s[20] == 45u8 {
        -magnitude
    } else {
        magnitude
    }
}

/// The civil value spelled by a (structurally well-formed) timestamp field.
pub open spec fn datetime_of_field(s: Seq<u8>) -> CivilDateTime {
    CivilDateTime {
        year: ((s[0] - 48) * 1000 + (s[1] - 48) * 100 + (s[2] - 48) * 10 + (s[3] - 48)) as u16,
        month: ((s[5] - 48) * 10 + (s[6] - 48)) as u8,
        day: ((s[8] - 48) * 10 + (s[9] - 48)) as u8,
        hour: ((s[11] - 48) * 10 + (s[12] - 48)) as u8,
        minute: ((s[14] - 48) * 10 + (s[15] - 48)) as u8,
        second: ((s[17] - 48) * 10 + (s[18] - 48)) as u8,
        offset_seconds: field_offset_seconds(s) as i32,
    }
}

/// Parse the timestamp field; `None` exactly when it is not a valid field.
fn parse_datetime_field(s: &[u8]) -> (r: Option<CivilDateTime>)
    ensures
        valid_datetime_field(s@) ==> r == Some(datetime_of_field(s@)),
        !valid_datetime_field(s@) ==> r is None,
{
    if s.len() != 25 {
        return None;
    }
    let mut i: usize = 0;
    let digit_positions: [usize; 17] = [0, 1, 2, 3, 5, 6, 8, 9, 11, 12, 14, 15, 17, 18, 21, 22, 23];
    while i < 17
        invariant
            0 <= i <= 17,
            s@.len() == 25,
            digit_positions@ == seq![
                0usize,
                1usize,
                2usize,
                3usize,
                5usize,
                6usize,
                8usize,
                9usize,
                11usize,
                12usize,
                14usize,
                15usize,
                17usize,
                18usize,
                21usize,
                22usize,
                23usize,
            ],
            forall|j: int| 0 <= j < i ==> is_digit(s@[digit_positions@[j] as int]),
        decreases 17 - i,
    {
        let p = digit_positions[i];
        let b = s[p];
        if !(48 <= b && b <= 57) {
            proof {
                assert(!is_digit(s@[digit_positions@[i as int] as int]));
            }
            return None;
        }
        i = i + 1;
    }
    let b24 = s[24];
    if !(48 <= b24 && b24 <= 57) {
        return None;
    }
    if s[4] != 45 || s[7] != 45 || s[10] != 32 || s[13] != 58 || s[16] != 58 || s[19] != 32 {
        return None;
    }
    let sign = s[20];
    if sign != 43 && sign != 45 {
        return None;
    }
    proof {
        assert(is_digit(s@[0]) && is_digit(s@[1]) && is_digit(s@[2]) && is_digit(s@[3]));
        assert(is_digit(s@[5]) && is_digit(s@[6]) && is_digit(s@[8]) && is_digit(s@[9]));
        assert(is_digit(s@[11]) && is_digit(s@[12]) && is_digit(s@[14]) && is_digit(s@[15]));
        assert(is_digit(s@[17]) && is_digit(s@[18]) && is_digit(s@[21]) && is_digit(s@[22]));
        assert(is_digit(s@[23]));
    }
    let year: u16 = (s[0] - 48) as u16 * 1000 + (s[1] - 48) as u16 * 100 + (s[2] - 48) as u16 * 10
        + (s[3] - 48) as u16;
    let month: u8 = (s[5] - 48) * 10 + (s[6] - 48);
    let day: u8 = (s[8] - 48) * 10 + (s[9] - 48);
    let hour: u8 = (s[11] - 48) * 10 + (s[12] - 48);
    let minute: u8 = (s[14] - 48) * 10 + (s[15] - 48);
    let second: u8 = (s[17] - 48) * 10 + (s[18] - 48);
    let magnitude: i32 = ((s[21] - 48) as i32 * 10 + (s[22] - 48) as i32) * 3600 + ((s[23]
        - 48) as i32 * 10 + (s[24] - 48) as i32) * 60;
    let offset_seconds: i32 = if sign == 45 {
        -magnitude
    } else {
        magnitude
    };
    proof {
        assert(offset_seconds as int == field_offset_seconds(s@));
    }
    CivilDateTime::new(year, month, day, hour, minute, second, offset_seconds)
}

/// The digits of a score field, past any single leading sign.
pub open spec fn int_field_digits(s: Seq<u8>) -> Seq<u8> {
    if s.len() > 0 && (s[0] == 43u8 || s[0] == 45u8) {
        s.subrange(1, s.len() as int)
    } else {
        s
    }
}

/// The score field: an optional sign, one or more digits, value within `i8`.
pub open spec fn valid_i8_field(s: Seq<u8>) -> bool {
    let d = int_field_digits(s);
    d.len() > 0 && all_digits(d) && -128 <= i8_field_val(s) <= 127
}

/// Signed value spelled by a score field.
pub open spec fn i8_field_val(s: Seq<u8>) -> int {
    if s.len() > 0 && s[0] == 45u8 {
        -digits_val(int_field_digits(s))
    } else {
        digits_val(int_field_digits(s))
    }
}

/// Parse the score field; `None` exactly when it is not a valid field.
pub fn parse_i8_field(s: &[u8]) -> (r: Option<i8>)
    ensures
        valid_i8_field(s@) ==> (r matches Some(v) && v as int == i8_field_val(s@)),
        !valid_i8_field(s@) ==> r is None,
{
    let slen = s.len();
    let negative = slen > 0 && s[0] == 45;
    let signed = slen > 0 && (s[0] == 43 || s[0] == 45);
    let start: usize = if signed {
        1
    } else {
        0
    };
    let ghost d = int_field_digits(s@);
    proof {
        if signed {
            assert(d =~= s@.subrange(1, s@.len() as int));
        } else {
            assert(d =~= s@);
        }
    }
    if slen == start {
        return None;
    }
    let mut acc: u32 = 0;
    let mut over: bool = false;
    let mut i: usize = start;
    while i < slen
        invariant
            start <= i <= slen,
            slen == s@.len(),
            start + d.len() == slen,
            d == int_field_digits(s@),
            forall|j: int| 0 <= j < i - start ==> is_digit(#[trigger] d[j]),
            !over ==> acc as int == digits_val(d.subrange(0, i - start)) && acc <= 128,
            over ==> digits_val(d.subrange(0, i - start)) > 128,
        decreases slen - i,
    {
        let b = s[i];
        proof {
            assert(d[i - start] == s@[i as int]);
        }
        if !(48 <= b && b <= 57) {
            proof {
                assert(!is_digit(d[i - start]));
            }
            return None;
        }
        proof {
            let pre = d.subrange(0, i - start);
            let cur = d.subrange(0, i + 1 - start);
            assert(cur.drop_last() =~= pre);
            assert(cur.last() == d[i - start]);
            assert(digits_val(cur) == digits_val(pre) * 10 + (b - 48));
        }
        if !over {
            let next = acc * 10 + (b - 48) as u32;
            if next > 128 {
                over = true;
            } else {
                acc = next;
            }
        } else {
            proof {
                let pre = d.subrange(0, i - start);
                lemma_digits_val_nonneg(pre);
            }
        }
        i = i + 1;
    }
    proof {
        assert(d.subrange(0, d.len() as int) =~= d);
        assert(all_digits(d));
    }
    if over {
        proof {
            assert(digits_val(d) > 128);
        }
        return None;
    }
    if negative {
        proof {
            assert(i8_field_val(s@) == -(acc as int));
        }
        if acc == 128 {
            Some(i8::MIN)
        } else {
            Some(-(acc as i8))
        }
    } else {
        proof {
            assert(i8_field_val(s@) == acc as int);
        }
        if acc <= 127 {
            Some(acc as i8)
        } else {
            None
        }
    }
}

/// The tag sequence decoded from a (trimmed) tags field: an empty field means
/// no tags; otherwise split on `','`, keeping the first occurrence of each
/// tag.
pub open spec fn tags_of_field(t: Seq<u8>) -> Seq<Seq<u8>> {
    if t.len() == 0 {
        Seq::empty()
    } else {
        dedup(split_commas(t))
    }
}

/// The line decodes successfully: its first field is a well-formed
/// timestamp and its second a well-formed score.
pub open spec fn line_parse_ok(line: Seq<u8>) -> bool {
    let parts = splitn_sep(line, 4);
    &&& valid_datetime_field(trimmed(parts[0]))
    &&& parts.len() >= 2
    &&& valid_i8_field(trimmed(parts[1]))
}

/// The error a failing line decodes to: the first failing field, left to
/// right, with the offending (trimmed) field text.
pub open spec fn line_parse_err(line: Seq<u8>, e: ParseError) -> bool {
    let parts = splitn_sep(line, 4);
    let f0 = trimmed(parts[0]);
    if !valid_datetime_field(f0) {
        match e {
            ParseError::InvalidDateTime(t) => t@ == f0,
            _ => false,
        }
    } else if parts.len() < 2 {
        e == ParseError::MissingScore
    } else {
        match e {
            ParseError::InvalidScore(t) => t@ == trimmed(parts[1]),
            _ => false,
        }
    }
}

/// The entry a successful line decodes to: timestamp and score from their
/// fields, tags split from the (possibly missing) third field with
/// duplicates collapsed, and the comment the trimmed fourth field when one
/// is present.
pub open spec fn line_parsed_entry(line: Seq<u8>, d: DailyScore) -> bool {
    let parts = splitn_sep(line, 4);
    let f0 = trimmed(parts[0]);
    let f1 = trimmed(parts[1]);
    let f2 = if parts.len() >= 3 {
        trimmed(parts[2])
    } else {
        Seq::<u8>::empty()
    };
    &&& d.wf()
    &&& d.datetime == datetime_of_field(f0)
    &&& d.score as int == i8_field_val(f1)
    &&& d.tags.deep_view() == tags_of_field(f2)
    &&& if parts.len() >= 4 {
        match d.comment {
            Some(c) => c@ == trimmed(parts[3]),
            None => false,
        }
    } else {
        d.comment is None
    }
}

impl DailyScore {
    /// A well-formed entry: real calendar fields and duplicate-free tags.
    pub open spec fn wf(self) -> bool {
        &&& self.datetime.valid()
        &&& self.tags.deep_view().no_duplicates()
    }

    /// Set of tags, the model that every aggregate and the codec speak of.
    pub open spec fn spec_tag_set(self) -> Set<Seq<u8>> {
        self.tags.deep_view().to_set()
    }

    /// A fresh entry at the given instant: score 0, no tags, no comment.
    pub fn new(datetime: CivilDateTime) -> (r: DailyScore)
        ensures
            r.score == 0,
            r.tags@.len() == 0,
            r.comment is None,
            r.datetime == datetime,
            datetime.valid() ==> r.wf(),
    {
        DailyScore { score: 0, tags: Vec::new(), comment: None, datetime }
    }

    /// A fresh entry with the given score, no tags, no comment.
    pub fn with_score(score: i8, datetime: CivilDateTime) -> (r: DailyScore)
        ensures
            r.score == score,
            r.tags@.len() == 0,
            r.comment is None,
            r.datetime == datetime,
            datetime.valid() ==> r.wf(),
    {
        DailyScore { score, tags: Vec::new(), comment: None, datetime }
    }

    /// Decode one journal line.
    ///
    /// The line is split on the first three occurrences of `" |"` and each
    /// field is trimmed.  The first failing field aborts the decode with the
    /// corresponding error; a missing tags field means no tags, and a missing
    /// fourth field means no comment (while a present-but-empty fourth field
    /// is an empty comment).
    pub fn parse(daily_score_string: &[u8]) -> (r: Result<DailyScore, ParseError>)
        ensures
            line_parse_ok(daily_score_string@) ==> (r matches Ok(d) && line_parsed_entry(
                daily_score_string@,
                d,
            )),
            !line_parse_ok(daily_score_string@) ==> (r matches Err(e) && line_parse_err(
                daily_score_string@,
                e,
            )),
    {
        proof {
            lemma_splitn_sep_len(daily_score_string@, 4);
        }
        let parts = splitn_sep_exec(daily_score_string, 4);
        proof {
            assert(parts@.len() == parts.deep_view().len());
            assert(parts.deep_view()[0] == parts@[0]@);
        }
        let f0 = trim_exec(parts[0].as_slice());
        let datetime = match parse_datetime_field(f0) {
            None => {
                return Err(ParseError::InvalidDateTime(vstd::slice::slice_to_vec(f0)));
            },
            Some(d) => d,
        };
        if parts.len() < 2 {
            return Err(ParseError::MissingScore);
        }
        proof {
            assert(parts.deep_view()[1] == parts@[1]@);
        }
        let f1 = trim_exec(parts[1].as_slice());
        let score = match parse_i8_field(f1) {
            None => {
                return Err(ParseError::InvalidScore(vstd::slice::slice_to_vec(f1)));
            },
            Some(v) => v,
        };
        let tags: Vec<Vec<u8>> = if parts.len() >= 3 {
            proof {
                assert(parts.deep_view()[2] == parts@[2]@);
            }
            let f2 = trim_exec(parts[2].as_slice());
            if f2.len() == 0 {
                Vec::new()
            } else {
                let pieces = split_commas_exec(f2);
                dedup_exec(&pieces)
            }
        } else {
            Vec::new()
        };
        let comment: Option<Vec<u8>> = if parts.len() >= 4 {
            proof {
                assert(parts.deep_view()[3] == parts@[3]@);
            }
            Some(vstd::slice::slice_to_vec(trim_exec(parts[3].as_slice())))
        } else {
            None
        };
        proof {
            lemma_dedup_nodup(split_commas(trimmed(splitn_sep(daily_score_string@, 4)[2])));
            assert(tags.deep_view().no_duplicates());
            assert(tags.deep_view() == tags_of_field(
                if splitn_sep(daily_score_string@, 4).len() >= 3 {
                    trimmed(splitn_sep(daily_score_string@, 4)[2])
                } else {
                    Seq::empty()
                },
            ));
        }
        Ok(DailyScore { score, tags, comment, datetime })
    }
}


/// A value 0..=99 rendered as two zero-padded decimal digits.
pub open spec fn two_digits(v: int) -> Seq<u8> {
    seq![(48 + v / 10) as u8, (48 + v % 10) as u8]
}

/// A value 0..=9999 rendered as four zero-padded decimal digits.
pub open spec fn four_digits(v: int) -> Seq<u8> {
    seq![
        (48 + v / 1000) as u8,
        (48 + (v / 100) % 10) as u8,
        (48 + (v / 10) % 10) as u8,
        (48 + v % 10) as u8,
    ]
}

/// A non-negative value in plain decimal, no padding.
pub open spec fn dec_digits(v: int) -> Seq<u8>
    decreases v,
{
    if v < 10 {
        seq![(48 + v) as u8]
    } else {
        dec_digits(v / 10).push((48 + v % 10) as u8)
    }
}

/// A score in decimal with a `-` sign when negative.
pub open spec fn score_bytes(v: int) -> Seq<u8> {
    if v < 0 {
        seq![45u8] + dec_digits(-v)
    } else {
        dec_digits(v)
    }
}

/// The timestamp field an entry serializes to: `YYYY-MM-DD HH:MM:SS +HHMM`.
pub open spec fn datetime_bytes(dt: CivilDateTime) -> Seq<u8> {
    let magnitude = if dt.offset_seconds < 0 {
        -(dt.offset_seconds as int)
    } else {
        dt.offset_seconds as int
    };
    let sign: u8 = if dt.offset_seconds < 0 {
        45u8
    } else {
        43u8
    };
    four_digits(dt.year as int) + seq![45u8] + two_digits(dt.month as int) + seq![45u8]
        + two_digits(dt.day as int) + seq![32u8] + two_digits(dt.hour as int) + seq![58u8]
        + two_digits(dt.minute as int) + seq![58u8] + two_digits(dt.second as int) + seq![32u8]
        + seq![sign] + two_digits(magnitude / 3600) + two_digits((magnitude / 60) % 60)
}

/// The serialized tags field: tags in sorted order, joined with `','`.
pub open spec fn encoded_tags(e: DailyScore) -> Seq<u8> {
    join_tags(sort_tags(e.tags.deep_view()))
}

/// The full line an entry serializes to.
pub open spec fn encoded_line(e: DailyScore) -> Seq<u8> {
    datetime_bytes(e.datetime) + seq![32u8, 124u8, 32u8] + score_bytes(e.score as int) + seq![
        32u8,
        124u8,
        32u8,
    ] + encoded_tags(e) + seq![32u8, 124u8] + (match e.comment {
        Some(c) => seq![32u8] + c@,
        None => Seq::<u8>::empty(),
    })
}

/// Append two zero-padded digits of `v` to `out`.
fn push_two_digits(out: &mut Vec<u8>, v: u32)
    requires
        v <= 99,
    ensures
        final(out)@ == old(out)@ + two_digits(v as int),
{
    out.push((48 + v / 10) as u8);
    out.push((48 + v % 10) as u8);
    proof {
        assert(final(out)@ =~= old(out)@ + two_digits(v as int));
    }
}

/// Append four zero-padded digits of `v` to `out`.
fn push_four_digits(out: &mut Vec<u8>, v: u32)
    requires
        v <= 9999,
    ensures
        final(out)@ == old(out)@ + four_digits(v as int),
{
    out.push((48 + v / 1000) as u8);
    out.push((48 + (v / 100) % 10) as u8);
    out.push((48 + (v / 10) % 10) as u8);
    out.push((48 + v % 10) as u8);
    proof {
        assert(final(out)@ =~= old(out)@ + four_digits(v as int));
    }
}

/// Append the plain decimal digits of `v` to `out`.
fn push_dec_digits(out: &mut Vec<u8>, v: u32)
    requires
        v <= 999,
    ensures
        final(out)@ == old(out)@ + dec_digits(v as int),
{
    if v < 10 {
        out.push((48 + v) as u8);
        proof {
            assert(final(out)@ =~= old(out)@ + dec_digits(v as int));
        }
    } else if v < 100 {
        out.push((48 + v / 10) as u8);
        out.push((48 + v % 10) as u8);
        proof {
            assert(dec_digits(v as int / 10) == seq![(48 + v as int / 10) as u8]);
            assert(final(out)@ =~= old(out)@ + dec_digits(v as int));
        }
    } else {
        out.push((48 + v / 100) as u8);
        out.push((48 + (v / 10) % 10) as u8);
        out.push((48 + v % 10) as u8);
        proof {
            let h = v as int / 10;
            assert(dec_digits(h / 10) == seq![(48 + h / 10) as u8]);
            assert(dec_digits(h) == dec_digits(h / 10).push((48 + h % 10) as u8));
            assert(v as int / 100 == h / 10) by {
                vstd::arithmetic::div_mod::lemma_div_denominator(v as int, 10, 10);
            }
            assert(final(out)@ =~= old(out)@ + dec_digits(v as int));
        }
    }
}

impl DailyScore {
    /// The serialized tags field: sorted, `','`-joined.
    pub fn tags_string(&self) -> (r: Vec<u8>)
        ensures
            r@ == encoded_tags(*self),
    {
        let sorted = sort_tags_exec(&self.tags);
        join_tags_exec(&sorted)
    }

    /// Encode this entry as one journal line.
    #[verifier::rlimit(80)]
    pub fn to_s(&self) -> (r: Vec<u8>)
        requires
            self.datetime.valid(),
        ensures
            r@ == encoded_line(*self),
    {
        let dt = self.datetime;
        let mut out: Vec<u8> = Vec::new();
        push_four_digits(&mut out, dt.year as u32);
        out.push(45);
        push_two_digits(&mut out, dt.month as u32);
        out.push(45);
        push_two_digits(&mut out, dt.day as u32);
        out.push(32);
        push_two_digits(&mut out, dt.hour as u32);
        out.push(58);
        push_two_digits(&mut out, dt.minute as u32);
        out.push(58);
        push_two_digits(&mut out, dt.second as u32);
        out.push(32);
        let magnitude: u32 = if dt.offset_seconds < 0 {
            out.push(45);
            (-(dt.offset_seconds as i64)) as u32
        } else {
            out.push(43);
            dt.offset_seconds as u32
        };
        push_two_digits(&mut out, magnitude / 3600);
        push_two_digits(&mut out, (magnitude / 60) % 60);
        proof {
            assert(out@ =~= datetime_bytes(dt));
        }
        out.push(32);
        out.push(124);
        out.push(32);
        if self.score < 0 {
            out.push(45);
            push_dec_digits(&mut out, (-(self.score as i32)) as u32);
        } else {
            push_dec_digits(&mut out, self.score as u32);
        }
        proof {
            assert(out@ =~= datetime_bytes(dt) + seq![32u8, 124u8, 32u8] + score_bytes(
                self.score as int,
            ));
        }
        out.push(32);
        out.push(124);
        out.push(32);
        let mut tags_field = self.tags_string();
        out.append(&mut tags_field);
        proof {
            assert(out@ =~= datetime_bytes(dt) + seq![32u8, 124u8, 32u8] + score_bytes(
                self.score as int,
            ) + seq![32u8, 124u8, 32u8] + encoded_tags(*self));
        }
        out.push(32);
        out.push(124);
        match &self.comment {
            Some(c) => {
                out.push(32);
                out.extend_from_slice(c.as_slice());
            },
            None => {},
        }
        proof {
            assert(out@ =~= encoded_line(*self));
        }
        out
    }
}


/// A tag the codec can carry through a round trip: non-empty, no tag or
/// field separator characters, and no whitespace at either end.
pub open spec fn encodable_tag(t: Seq<u8>) -> bool {
    &&& t.len() > 0
    &&& !crate::text::is_space(t[0])
    &&& !crate::text::is_space(t.last())
    &&& forall|i: int| 0 <= i < t.len() ==> #[trigger] t[i] != 44u8 && t[i] != 124u8
}

/// An entry the codec can carry through a round trip: valid calendar
/// fields, duplicate-free serialisable tags, and a trimmed comment.
pub open spec fn encodable(e: DailyScore) -> bool {
    &&& e.datetime.valid()
    &&& e.tags.deep_view().no_duplicates()
    &&& forall|k: int|
        0 <= k < e.tags.deep_view().len() ==> encodable_tag(#[trigger] e.tags.deep_view()[k])
    &&& match e.comment {
        Some(c) => is_trimmed(c@),
        None => true,
    }
}

/// The fourth (comment) segment of an encoded line.
pub open spec fn comment_tail(e: DailyScore) -> Seq<u8> {
    match e.comment {
        Some(c) => seq![32u8] + c@,
        None => Seq::<u8>::empty(),
    }
}

/// Plain decimal rendering really is a digit string spelling its input.
pub proof fn lemma_dec_digits(n: int)
    requires
        0 <= n,
    ensures
        all_digits(dec_digits(n)),
        digits_val(dec_digits(n)) == n,
        dec_digits(n).len() >= 1,
    decreases n,
{
    if n < 10 {
        let d = dec_digits(n);
        assert(d == seq![(48 + n) as u8]);
        assert(d.drop_last() =~= Seq::<u8>::empty());
        assert(digits_val(Seq::<u8>::empty()) == 0);
        assert(digits_val(d) == n);
    } else {
        lemma_dec_digits(n / 10);
        let d = dec_digits(n);
        let h = dec_digits(n / 10);
        assert(d == h.push((48 + n % 10) as u8));
        assert(d.drop_last() =~= h);
        assert(digits_val(d) == digits_val(h) * 10 + (n % 10));
        vstd::arithmetic::div_mod::lemma_fundamental_div_mod(n, 10);
        assert(forall|i: int| 0 <= i < d.len() - 1 ==> d[i] == h[i]);
    }
}

/// The serialized score field parses back to the same value.
pub proof fn lemma_score_field_round_trip(v: int)
    requires
        -128 <= v <= 127,
    ensures
        valid_i8_field(score_bytes(v)),
        i8_field_val(score_bytes(v)) == v,
        score_bytes(v).len() >= 1,
        is_trimmed(score_bytes(v)),
        forall|i: int| 0 <= i < score_bytes(v).len() ==> #[trigger] score_bytes(v)[i] != 124u8,
{
    let s = score_bytes(v);
    if v < 0 {
        lemma_dec_digits(-v);
        let d = dec_digits(-v);
        assert(s == seq![45u8] + d);
        assert(s[0] == 45u8);
        assert(int_field_digits(s) =~= d);
        assert(i8_field_val(s) == -digits_val(d));
        assert(s.last() == d.last());
        assert(is_digit(d[d.len() - 1]));
        assert forall|i: int| 0 <= i < s.len() implies #[trigger] s[i] != 124u8 by {
            if i >= 1 {
                assert(s[i] == d[i - 1]);
                assert(is_digit(d[i - 1]));
            }
        }
    } else {
        lemma_dec_digits(v);
        let d = dec_digits(v);
        assert(s == d);
        assert(is_digit(s[0]));
        assert(int_field_digits(s) == s);
        assert(is_digit(s[s.len() - 1]));
        assert forall|i: int| 0 <= i < s.len() implies #[trigger] s[i] != 124u8 by {
            assert(is_digit(s[i]));
        }
    }
}

/// The serialized timestamp field parses back to the same civil value.
#[verifier::rlimit(100)]
pub proof fn lemma_datetime_field_round_trip(dt: CivilDateTime)
    requires
        dt.valid(),
    ensures
        valid_datetime_field(datetime_bytes(dt)),
        datetime_of_field(datetime_bytes(dt)) == dt,
        is_trimmed(datetime_bytes(dt)),
        forall|i: int|
            0 <= i < datetime_bytes(dt).len() ==> #[trigger] datetime_bytes(dt)[i] != 124u8,
{
    let f = datetime_bytes(dt);
    let y = dt.year as int;
    let mo = dt.month as int;
    let d = dt.day as int;
    let h = dt.hour as int;
    let mi = dt.minute as int;
    let sec = dt.second as int;
    let off = dt.offset_seconds as int;
    let mag = if off < 0 {
        -off
    } else {
        off
    };
    let sign: u8 = if off < 0 {
        45u8
    } else {
        43u8
    };
    let oh = mag / 3600;
    let om = (mag / 60) % 60;
    assert(f =~= seq![
        (48 + y / 1000) as u8,
        (48 + (y / 100) % 10) as u8,
        (48 + (y / 10) % 10) as u8,
        (48 + y % 10) as u8,
        45u8,
        (48 + mo / 10) as u8,
        (48 + mo % 10) as u8,
        45u8,
        (48 + d / 10) as u8,
        (48 + d % 10) as u8,
        32u8,
        (48 + h / 10) as u8,
        (48 + h % 10) as u8,
        58u8,
        (48 + mi / 10) as u8,
        (48 + mi % 10) as u8,
        58u8,
        (48 + sec / 10) as u8,
        (48 + sec % 10) as u8,
        32u8,
        sign,
        (48 + oh / 10) as u8,
        (48 + oh % 10) as u8,
        (48 + om / 10) as u8,
        (48 + om % 10) as u8,
    ]);
    // Every digit position holds a digit byte.
    assert(0 <= y / 1000 <= 9 && 0 <= (y / 100) % 10 <= 9 && 0 <= (y / 10) % 10 <= 9 && 0 <= y % 10
        <= 9);
    assert(0 <= mag <= 86340);
    assert(0 <= oh <= 23 && 0 <= om <= 59);
    // The spelled digits reassemble into the original component values.
    assert(((f[0] - 48) * 1000 + (f[1] - 48) * 100 + (f[2] - 48) * 10 + (f[3] - 48)) == y) by {
        vstd::arithmetic::div_mod::lemma_fundamental_div_mod(y, 10);
        vstd::arithmetic::div_mod::lemma_fundamental_div_mod(y / 10, 10);
        vstd::arithmetic::div_mod::lemma_div_denominator(y, 10, 10);
        vstd::arithmetic::div_mod::lemma_fundamental_div_mod(y / 100, 10);
        vstd::arithmetic::div_mod::lemma_div_denominator(y, 100, 10);
    }
    assert(((f[5] - 48) * 10 + (f[6] - 48)) == mo) by {
        vstd::arithmetic::div_mod::lemma_fundamental_div_mod(mo, 10);
    }
    assert(((f[8] - 48) * 10 + (f[9] - 48)) == d) by {
        vstd::arithmetic::div_mod::lemma_fundamental_div_mod(d, 10);
    }
    assert(((f[11] - 48) * 10 + (f[12] - 48)) == h) by {
        vstd::arithmetic::div_mod::lemma_fundamental_div_mod(h, 10);
    }
    assert(((f[14] - 48) * 10 + (f[15] - 48)) == mi) by {
        vstd::arithmetic::div_mod::lemma_fundamental_div_mod(mi, 10);
    }
    assert(((f[17] - 48) * 10 + (f[18] - 48)) == sec) by {
        vstd::arithmetic::div_mod::lemma_fundamental_div_mod(sec, 10);
    }
    assert(((f[21] - 48) * 10 + (f[22] - 48)) == oh) by {
        vstd::arithmetic::div_mod::lemma_fundamental_div_mod(oh, 10);
    }
    assert(((f[23] - 48) * 10 + (f[24] - 48)) == om) by {
        vstd::arithmetic::div_mod::lemma_fundamental_div_mod(om, 10);
    }
    assert(oh * 3600 + om * 60 == mag) by {
        assert(mag % 60 == 0) by {
            if off < 0 {
                vstd::arithmetic::div_mod::lemma_fundamental_div_mod(off, 60);
                assert(mag == (-(off / 60)) * 60);
                vstd::arithmetic::div_mod::lemma_mod_multiples_basic(-(off / 60), 60);
            }
        }
        vstd::arithmetic::div_mod::lemma_fundamental_div_mod(mag, 60);
        vstd::arithmetic::div_mod::lemma_fundamental_div_mod(mag / 60, 60);
        vstd::arithmetic::div_mod::lemma_div_denominator(mag, 60, 60);
    }
    assert(field_offset_seconds(f) == off);
    assert(datetime_of_field(f) == dt);
    assert forall|i: int| 0 <= i < f.len() implies #[trigger] f[i] != 124u8 by {}
}

/// How an encoded line splits back into its four fields.
#[verifier::rlimit(100)]
proof fn lemma_encoded_line_parts(e: DailyScore)
    requires
        encodable(e),
    ensures
        splitn_sep(encoded_line(e), 4) == seq![
            datetime_bytes(e.datetime),
            seq![32u8] + score_bytes(e.score as int),
            seq![32u8] + encoded_tags(e),
            comment_tail(e),
        ],
{
    let line = encoded_line(e);
    let f0 = datetime_bytes(e.datetime);
    let sc = score_bytes(e.score as int);
    let tg = encoded_tags(e);
    let ct = comment_tail(e);
    let lf = f0.len() as int;
    let ls = sc.len() as int;
    let lt = tg.len() as int;
    lemma_datetime_field_round_trip(e.datetime);
    lemma_score_field_round_trip(e.score as int);
    let sorted = sort_tags(e.tags.deep_view());
    assert forall|k: int| 0 <= k < sorted.len() implies encodable_tag(#[trigger] sorted[k]) by {
        crate::text::lemma_sort_tags_contains(e.tags.deep_view(), sorted[k]);
        assert(sorted.contains(sorted[k]));
        let j = choose|j: int|
            0 <= j < e.tags.deep_view().len() && e.tags.deep_view()[j] == sorted[k];
    }
    assert forall|i: int| 0 <= i < lt implies #[trigger] tg[i] != 124u8 by {
        crate::text::lemma_sort_tags_contains(e.tags.deep_view(), Seq::<u8>::empty());
        if sorted.len() > 0 {
            crate::text::lemma_join_tags_props(sorted);
        }
    }
    assert(lf == 25);
    // First separator: right after the timestamp field.
    assert(line[lf] == 32u8 && line[lf + 1] == 124u8);
    assert forall|j: int| 0 <= j <= lf implies #[trigger] line[j] != 124u8 by {
        if j < lf {
            assert(line[j] == f0[j]);
        }
    }
    crate::text::lemma_find_sep_clean_prefix(line, lf);
    assert(line.subrange(0, lf) =~= f0);
    let rest1 = line.subrange(lf + 2, line.len() as int);
    assert(rest1 =~= seq![32u8] + sc + seq![32u8, 124u8, 32u8] + tg + seq![32u8, 124u8] + ct);
    // Second separator: right after the score field.
    assert(rest1[1 + ls] == 32u8 && rest1[1 + ls + 1] == 124u8);
    assert forall|j: int| 0 <= j <= 1 + ls implies #[trigger] rest1[j] != 124u8 by {
        if 1 <= j < 1 + ls {
            assert(rest1[j] == sc[j - 1]);
        }
    }
    crate::text::lemma_find_sep_clean_prefix(rest1, 1 + ls);
    assert(rest1.subrange(0, 1 + ls) =~= seq![32u8] + sc);
    let rest2 = rest1.subrange(1 + ls + 2, rest1.len() as int);
    assert(rest2 =~= seq![32u8] + tg + seq![32u8, 124u8] + ct);
    // Third separator: right after the tags field.
    assert(rest2[1 + lt] == 32u8 && rest2[1 + lt + 1] == 124u8);
    assert forall|j: int| 0 <= j <= 1 + lt implies #[trigger] rest2[j] != 124u8 by {
        if 1 <= j < 1 + lt {
            assert(rest2[j] == tg[j - 1]);
        }
    }
    crate::text::lemma_find_sep_clean_prefix(rest2, 1 + lt);
    assert(rest2.subrange(0, 1 + lt) =~= seq![32u8] + tg);
    let rest3 = rest2.subrange(1 + lt + 2, rest2.len() as int);
    assert(rest3 =~= ct);
    assert(splitn_sep(rest3, 1) == seq![ct]);
    assert(splitn_sep(rest2, 2) =~= seq![seq![32u8] + tg, ct]);
    assert(splitn_sep(rest1, 3) =~= seq![seq![32u8] + sc, seq![32u8] + tg, ct]);
    assert(splitn_sep(line, 4) =~= seq![f0, seq![32u8] + sc, seq![32u8] + tg, ct]);
}

/// Round trip: decoding an encoded entry recovers the entry.
///
/// Splitting and trimming the encoded line yields fields that parse back to
/// the same score and the same timestamp (offset included), and to the same
/// tags as a set (in sorted order).  The comment field is recovered exactly
/// when a comment is present; an entry without a comment encodes to a line
/// whose comment field is present and empty.
pub proof fn lemma_encode_parse_round_trip(e: DailyScore)
    requires
        encodable(e),
    ensures
        ({
            let parts = splitn_sep(encoded_line(e), 4);
            &&& parts.len() == 4
            &&& valid_datetime_field(trimmed(parts[0]))
            &&& datetime_of_field(trimmed(parts[0])) == e.datetime
            &&& valid_i8_field(trimmed(parts[1]))
            &&& i8_field_val(trimmed(parts[1])) == e.score as int
            &&& tags_of_field(trimmed(parts[2])) == sort_tags(e.tags.deep_view())
            &&& tags_of_field(trimmed(parts[2])).to_set() == e.tags.deep_view().to_set()
            &&& trimmed(parts[3]) == (match e.comment {
                Some(c) => c@,
                None => Seq::<u8>::empty(),
            })
        }),
{
    lemma_encoded_line_parts(e);
    let parts = splitn_sep(encoded_line(e), 4);
    let f0 = datetime_bytes(e.datetime);
    let sc = score_bytes(e.score as int);
    let tg = encoded_tags(e);
    lemma_datetime_field_round_trip(e.datetime);
    crate::text::lemma_trimmed_of_trimmed(f0);
    lemma_score_field_round_trip(e.score as int);
    crate::text::lemma_trimmed_space_prefix(sc);
    let tags = e.tags.deep_view();
    let sorted = sort_tags(tags);
    assert forall|k: int| 0 <= k < sorted.len() implies encodable_tag(#[trigger] sorted[k]) by {
        crate::text::lemma_sort_tags_contains(tags, sorted[k]);
        assert(sorted.contains(sorted[k]));
        let j = choose|j: int| 0 <= j < tags.len() && tags[j] == sorted[k];
    }
    if sorted.len() == 0 {
        assert(tg == Seq::<u8>::empty());
        assert(trimmed(seq![32u8] + tg) == Seq::<u8>::empty()) by {
            crate::text::lemma_trimmed_space_prefix(Seq::<u8>::empty());
            assert(seq![32u8] + Seq::<u8>::empty() =~= seq![32u8] + tg);
        }
        assert(tags_of_field(trimmed(parts[2])) == sorted);
        crate::text::lemma_sort_tags_contains(tags, Seq::<u8>::empty());
        assert(tags =~= Seq::<Seq<u8>>::empty());
        assert(tags_of_field(trimmed(parts[2])).to_set() =~= tags.to_set());
    } else {
        crate::text::lemma_join_tags_props(sorted);
        assert(is_trimmed(tg));
        crate::text::lemma_trimmed_space_prefix(tg);
        assert(trimmed(parts[2]) == tg);
        assert(tg.len() > 0);
        crate::text::lemma_split_join_tags(sorted);
        crate::text::lemma_sort_tags_nodup(tags);
        crate::text::lemma_dedup_of_nodup(sorted);
        assert(tags_of_field(tg) == sorted);
        assert(tags_of_field(tg).to_set() =~= tags.to_set()) by {
            assert forall|y: Seq<u8>| sorted.contains(y) == tags.contains(y) by {
                crate::text::lemma_sort_tags_contains(tags, y);
            }
        }
    }
    match e.comment {
        Some(c) => {
            crate::text::lemma_trimmed_space_prefix(c@);
            assert(trimmed(parts[3]) == c@);
        },
        None => {
            assert(parts[3] == Seq::<u8>::empty());
            assert(trimmed(parts[3]) == Seq::<u8>::empty());
        },
    }
}

} // verus!
