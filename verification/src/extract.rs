//! The extraction engine: applying a position list to one line or record,
//! in character, byte, or field mode, and the run-level mode selection.

use vstd::prelude::*;

use crate::errors::{CutError, ErrModel};
use crate::position::{parse_pos, parse_spec, PositionList, Span};
use vstd::utf8::{decode_utf8, encode_utf8, valid_utf8};

verus! {

/// The units one span selects from `units`: the in-bounds indices, ascending;
/// indices beyond the end are silently skipped.
pub open spec fn sel_span<T>(units: Seq<T>, sp: Span) -> Seq<T> {
    let lo = if sp.start <= units.len() {
        sp.start as int
    } else {
        units.len() as int
    };
    let hi = if sp.end <= units.len() {
        sp.end as int
    } else {
        units.len() as int
    };
    if lo <= hi {
        units.subrange(lo, hi)
    } else {
        Seq::empty()
    }
}

/// Everything a span list selects, concatenated in list order; a span listed
/// twice selects twice.
pub open spec fn sel<T>(units: Seq<T>, spans: Seq<Span>) -> Seq<T>
    decreases spans.len(),
{
    if spans.len() == 0 {
        Seq::empty()
    } else {
        sel(units, spans.drop_last()) + sel_span(units, spans.last())
    }
}

/// Which of the three sibling extraction functions governs a run.
#[derive(Debug)]
pub enum Extract {
    Fields(PositionList),
    Bytes(PositionList),
    Chars(PositionList),
}

/// Selects from `line` by character position.
pub fn extract_chars(line: &str, char_pos: &PositionList) -> (r: String)
    ensures
        r@ == sel(line@, char_pos@),
{
    let n = line.unicode_len();
    let mut out = String::new();
    let mut i: usize = 0;
    proof {
        assert(char_pos@.take(0) =~= Seq::<Span>::empty());
    }
    while i < char_pos.len()
        invariant
            i <= char_pos@.len(),
            n == line@.len(),
            out@ == sel(line@, char_pos@.take(i as int)),
        decreases char_pos@.len() - i,
    {
        let sp = char_pos[i];
        let lo = if sp.start < n {
            sp.start
        } else {
            n
        };
        let hi = if sp.end < n {
            sp.end
        } else {
            n
        };
        if lo < hi {
            out.append(line.substring_char(lo, hi));
        }
        proof {
            assert(char_pos@.take(i + 1).drop_last() =~= char_pos@.take(i as int));
            assert(char_pos@.take(i + 1).last() == char_pos@[i as int]);
            assert(out@ =~= sel(line@, char_pos@.take(i + 1)));
        }
        i += 1;
    }
    proof {
        assert(char_pos@.take(char_pos@.len() as int) =~= char_pos@);
    }
    out
}

/// What `String::from_utf8_lossy` decodes a byte sequence to.
pub uninterp spec fn lossy_of(bytes: Seq<u8>) -> Seq<char>;

/// Relies on `String::from_utf8_lossy`: the result is a function of the
/// bytes alone, and on valid UTF-8 it is exactly the UTF-8 decoding
/// (invalid sequences are replaced, never reported).
#[verifier::external_body]
fn from_utf8_lossy(bytes: &Vec<u8>) -> (r: String)
    ensures
        r@ == lossy_of(bytes@),
        valid_utf8(bytes@) ==> r@ == decode_utf8(bytes@),
{
    String::from_utf8_lossy(bytes.as_slice()).into_owned()
}

/// Selects from `line` by byte position, then decodes the selected bytes
/// lossily: a selection that splits a multi-byte character yields the
/// replacement character, by design.
pub fn extract_bytes(line: &str, byte_pos: &PositionList) -> (r: String)
    ensures
        r@ == lossy_of(sel(encode_utf8(line@), byte_pos@)),
        valid_utf8(sel(encode_utf8(line@), byte_pos@)) ==> r@ == decode_utf8(
            sel(encode_utf8(line@), byte_pos@),
        ),
{
    let bytes = line.as_bytes_vec();
    let n = bytes.len();
    let mut selected: Vec<u8> = Vec::new();
    let mut i: usize = 0;
    proof {
        assert(byte_pos@.take(0) =~= Seq::<Span>::empty());
    }
    while i < byte_pos.len()
        invariant
            i <= byte_pos@.len(),
            n == bytes@.len(),
            bytes@ == encode_utf8(line@),
            selected@ == sel(bytes@, byte_pos@.take(i as int)),
        decreases byte_pos@.len() - i,
    {
        let sp = byte_pos[i];
        let lo = if sp.start < n {
            sp.start
        } else {
            n
        };
        let hi = if sp.end < n {
            sp.end
        } else {
            n
        };
        let mut k = lo;
        while k < hi
            invariant
                lo <= k <= n,
                hi <= n,
                lo > hi ==> k == lo,
                lo <= hi ==> k <= hi,
                n == bytes@.len(),
                i < byte_pos@.len(),
                bytes@ == encode_utf8(line@),
                selected@ == sel(bytes@, byte_pos@.take(i as int)) + bytes@.subrange(
                    lo as int,
                    k as int,
                ),
            decreases hi - k,
        {
            selected.push(bytes[k]);
            proof {
                assert(selected@ =~= sel(bytes@, byte_pos@.take(i as int)) + bytes@.subrange(
                    lo as int,
                    k + 1,
                ));
            }
            k += 1;
        }
        proof {
            assert(byte_pos@.take(i + 1).drop_last() =~= byte_pos@.take(i as int));
            assert(byte_pos@.take(i + 1).last() == byte_pos@[i as int]);
            assert(selected@ =~= sel(bytes@, byte_pos@.take(i + 1)));
        }
        i += 1;
    }
    proof {
        assert(byte_pos@.take(byte_pos@.len() as int) =~= byte_pos@);
    }
    from_utf8_lossy(&selected)
}

/// Selects fields from a pre-split record, in range-list order; out-of-range
/// indices are silently skipped.
pub fn extract_fields(record: &Vec<String>, field_pos: &PositionList) -> (r: Vec<String>)
    ensures
        r@ == sel(record@, field_pos@),
{
    let n = record.len();
    let mut out: Vec<String> = Vec::new();
    let mut i: usize = 0;
    proof {
        assert(field_pos@.take(0) =~= Seq::<Span>::empty());
    }
    while i < field_pos.len()
        invariant
            i <= field_pos@.len(),
            n == record@.len(),
            out@ == sel(record@, field_pos@.take(i as int)),
        decreases field_pos@.len() - i,
    {
        let sp = field_pos[i];
        let lo = if sp.start < n {
            sp.start
        } else {
            n
        };
        let hi = if sp.end < n {
            sp.end
        } else {
            n
        };
        let mut k = lo;
        while k < hi
            invariant
                lo <= k <= n,
                hi <= n,
                lo > hi ==> k == lo,
                lo <= hi ==> k <= hi,
                n == record@.len(),
                i < field_pos@.len(),
                out@ == sel(record@, field_pos@.take(i as int)) + record@.subrange(
                    lo as int,
                    k as int,
                ),
            decreases hi - k,
        {
            out.push(record[k].clone());
            proof {
                assert(out@ =~= sel(record@, field_pos@.take(i as int)) + record@.subrange(
                    lo as int,
                    k + 1,
                ));
            }
            k += 1;
        }
        proof {
            assert(field_pos@.take(i + 1).drop_last() =~= field_pos@.take(i as int));
            assert(field_pos@.take(i + 1).last() == field_pos@[i as int]);
            assert(out@ =~= sel(record@, field_pos@.take(i + 1)));
        }
        i += 1;
    }
    proof {
        assert(field_pos@.take(field_pos@.len() as int) =~= field_pos@);
    }
    out
}

/// Decides the run's extraction mode: exactly one of the three selectors
/// must be supplied, and its spec string must parse.
pub fn select_mode(fields: Option<String>, bytes: Option<String>, chars: Option<String>) -> (r:
    Result<Extract, CutError>)
    ensures
        match (fields, bytes, chars) {
            (Some(f), None, None) => match r {
                Ok(Extract::Fields(v)) => parse_spec(f@) == Ok::<Seq<Span>, ErrModel>(v@),
                Err(e) => parse_spec(f@) == Err::<Seq<Span>, ErrModel>(e@),
                _ => false,
            },
            (None, Some(b), None) => match r {
                Ok(Extract::Bytes(v)) => parse_spec(b@) == Ok::<Seq<Span>, ErrModel>(v@),
                Err(e) => parse_spec(b@) == Err::<Seq<Span>, ErrModel>(e@),
                _ => false,
            },
            (None, None, Some(c)) => match r {
                Ok(Extract::Chars(v)) => parse_spec(c@) == Ok::<Seq<Span>, ErrModel>(v@),
                Err(e) => parse_spec(c@) == Err::<Seq<Span>, ErrModel>(e@),
                _ => false,
            },
            (None, None, None) => r matches Err(e) && e@ == ErrModel::NoMode,
            _ => r matches Err(e) && e@ == ErrModel::MultipleModes,
        },
{
    let given: u8 = (if fields.is_some() {
        1u8
    } else {
        0u8
    }) + (if bytes.is_some() {
        1u8
    } else {
        0u8
    }) + (if chars.is_some() {
        1u8
    } else {
        0u8
    });
    if given == 0 {
        return Err(CutError::NoMode);
    }
    if given > 1 {
        return Err(CutError::MultipleModes);
    }
    if let Some(f) = fields {
        match parse_pos(f) {
            Ok(v) => Ok(Extract::Fields(v)),
            Err(e) => Err(e),
        }
    } else if let Some(b) = bytes {
        match parse_pos(b) {
            Ok(v) => Ok(Extract::Bytes(v)),
            Err(e) => Err(e),
        }
    } else if let Some(c) = chars {
        match parse_pos(c) {
            Ok(v) => Ok(Extract::Chars(v)),
            Err(e) => Err(e),
        }
    } else {
        Err(CutError::NoMode)
    }
}

/// Checks the field delimiter: its UTF-8 encoding must be exactly one byte,
/// and that byte is the delimiter of the run.
pub fn parse_delimiter(delimiter: &str) -> (r: Result<u8, CutError>)
    ensures
        match r {
            Ok(b) => encode_utf8(delimiter@).len() == 1 && b == encode_utf8(delimiter@)[0],
            Err(e) => encode_utf8(delimiter@).len() != 1 && e@ == ErrModel::BadDelimiter(
                delimiter@,
            ),
        },
{
    let bytes = delimiter.as_bytes_vec();
    if bytes.len() == 1 {
        Ok(bytes[0])
    } else {
        Err(CutError::BadDelimiter(delimiter.to_owned()))
    }
}

} // verus!
