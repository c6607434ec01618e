//! Application of a parsed position list to one line of input.
//!
//! Every range of the list is replayed in the order the user wrote it,
//! expanding to its constituent 0-based indices; indices beyond the end
//! of the line (or record) are silently skipped.  Extraction never fails:
//! a short line only yields a shorter result.

use vstd::prelude::*;

verus! {

use core::ops::Range;
use vstd::string::StringSliceAdditionalSpecFns;
use vstd::utf8::decode_utf8;
use vstd::utf8::valid_utf8;
use crate::selection::PositionList;

/// Which extraction mode the host resolved, with the position list for
/// it: delimiter-separated fields, raw bytes, or Unicode characters.
#[derive(Debug)]
pub enum Extract {
    Fields(PositionList),
    Bytes(PositionList),
    Chars(PositionList),
}

/// The immutable configuration the host resolves once at startup and
/// then replays, read-only, over every line of every input.
#[derive(Debug)]
pub struct Config {
    /// The inputs to read, in order; `-` names standard input.
    pub paths: Vec<String>,
    /// The single-byte field delimiter (the host validates its width).
    pub delimiter: u8,
    /// The extraction mode and its parsed position list.
    pub extract: Extract,
}

/// The elements of `s` selected by the single range `[start, end)`:
/// the in-bounds part of the range, in order, and nothing at all when
/// the range starts at or beyond the end of `s`.
pub open spec fn range_sel<T>(s: Seq<T>, start: int, end: int) -> Seq<T> {
    if start < end && start < s.len() {
        s.subrange(
            start,
            if end <= s.len() {
                end
            } else {
                s.len() as int
            },
        )
    } else {
        Seq::empty()
    }
}

/// The elements of `s` selected by the whole position list, one range
/// after the other in list order, out-of-bounds indices skipped.
pub open spec fn sel<T>(s: Seq<T>, pos: Seq<Range<usize>>) -> Seq<T>
    decreases pos.len(),
{
    if pos.len() == 0 {
        Seq::empty()
    } else {
        sel(s, pos.drop_last()) + range_sel(s, pos.last().start as int, pos.last().end as int)
    }
}

/// Select characters: the line is read as a sequence of Unicode scalar
/// values, and each flattened in-bounds index contributes its character,
/// in flattened order.
pub fn extract_chars(line: &str, char_pos: &[Range<usize>]) -> (r: String)
    ensures
        r@ == sel(line@, char_pos@),
{
    let n = line.unicode_len();
    let mut out = String::new();
    let mut k: usize = 0;
    proof {
        assert(char_pos@.take(0) =~= Seq::<Range<usize>>::empty());
    }
    while k < char_pos.len()
        invariant
            k <= char_pos@.len(),
            n == line@.len(),
            out@ == sel(line@, char_pos@.take(k as int)),
        decreases char_pos@.len() - k,
    {
        let rg = &char_pos[k];
        let start = rg.start;
        let hi = if rg.end <= n {
            rg.end
        } else {
            n
        };
        if start < hi {
            let sub = line.substring_char(start, hi);
            out.append(sub);
        }
        proof {
            assert(char_pos@.take(k + 1).drop_last() =~= char_pos@.take(k as int));
            assert(char_pos@.take(k + 1).last() == char_pos@[k as int]);
        }
        k += 1;
    }
    proof {
        assert(char_pos@.take(char_pos@.len() as int) =~= char_pos@);
    }
    out
}

/// What [`String::from_utf8_lossy`] decodes a byte sequence to.  The
/// decoding is a function of the bytes alone; on valid UTF-8 it is the
/// exact UTF-8 decoding, and elsewhere invalid sequences come out as
/// replacement characters.
pub uninterp spec fn lossy_utf8(bytes: Seq<u8>) -> Seq<char>;

/// Relies on `String::from_utf8_lossy`: the result depends on the bytes
/// alone, and a valid UTF-8 input decodes exactly.
#[verifier::external_body]
fn utf8_lossy(bytes: &Vec<u8>) -> (r: String)
    ensures
        r@ == lossy_utf8(bytes@),
        valid_utf8(bytes@) ==> r@ == decode_utf8(bytes@),
{
    String::from_utf8_lossy(bytes.as_slice()).into_owned()
}

/// Select bytes: the line is read as its UTF-8 bytes, each flattened
/// in-bounds index contributes its byte, and the picked bytes are decoded
/// lossily — a selection that slices through a multi-byte character shows
/// a replacement character rather than failing.
pub fn extract_bytes(line: &str, byte_pos: &[Range<usize>]) -> (r: String)
    ensures
        r@ == lossy_utf8(sel(line.spec_bytes(), byte_pos@)),
        valid_utf8(sel(line.spec_bytes(), byte_pos@)) ==> r@ == decode_utf8(
            sel(line.spec_bytes(), byte_pos@),
        ),
{
    let bytes = line.as_bytes_vec();
    let n = bytes.len();
    let mut picked: Vec<u8> = Vec::new();
    let mut k: usize = 0;
    proof {
        assert(byte_pos@.take(0) =~= Seq::<Range<usize>>::empty());
    }
    while k < byte_pos.len()
        invariant
            k <= byte_pos@.len(),
            n == bytes@.len(),
            bytes@ == line.spec_bytes(),
            picked@ == sel(bytes@, byte_pos@.take(k as int)),
        decreases byte_pos@.len() - k,
    {
        let rg = &byte_pos[k];
        let start = rg.start;
        let hi = if rg.end <= n {
            rg.end
        } else {
            n
        };
        if start < hi {
            proof {
                assert(bytes@.subrange(start as int, start as int) =~= Seq::<u8>::empty());
            }
            let mut i: usize = start;
            while i < hi
                invariant
                    start <= i <= hi,
                    hi <= n,
                    n == bytes@.len(),
                    bytes@ == line.spec_bytes(),
                    picked@ == sel(bytes@, byte_pos@.take(k as int)) + bytes@.subrange(
                        start as int,
                        i as int,
                    ),
                decreases hi - i,
            {
                picked.push(bytes[i]);
                proof {
                    assert(bytes@.subrange(start as int, i + 1) =~= bytes@.subrange(
                        start as int,
                        i as int,
                    ).push(bytes@[i as int]));
                }
                i += 1;
            }
        }
        proof {
            assert(byte_pos@.take(k + 1).drop_last() =~= byte_pos@.take(k as int));
            assert(byte_pos@.take(k + 1).last() == byte_pos@[k as int]);
            if start < hi {
                assert(bytes@.subrange(start as int, hi as int) == range_sel(
                    bytes@,
                    byte_pos@[k as int].start as int,
                    byte_pos@[k as int].end as int,
                ));
            }
        }
        k += 1;
    }
    proof {
        assert(byte_pos@.take(byte_pos@.len() as int) =~= byte_pos@);
    }
    utf8_lossy(&picked)
}

#[verifier::external_type_specification]
#[verifier::external_body]
pub struct ExStringRecord(csv::StringRecord);

/// The fields a [`csv::StringRecord`] holds, in record order.
pub uninterp spec fn record_fields(rec: csv::StringRecord) -> Seq<Seq<char>>;

/// Relies on `csv::StringRecord::get`: it returns the field at the
/// index, or `None` exactly when the index is at or past the number of
/// fields.
#[verifier::external_body]
fn record_get(rec: &csv::StringRecord, i: usize) -> (r: Option<String>)
    ensures
        r is Some <==> i < record_fields(*rec).len(),
        r matches Some(f) ==> f@ == record_fields(*rec)[i as int],
{
    rec.get(i).map(|f| f.to_string())
}

/// Select fields: the record is a line already split at the configured
/// delimiter, each flattened in-bounds index contributes its field, and
/// the surviving fields come back in flattened order with skips removed
/// (the caller re-joins them).
pub fn extract_fields(record: &csv::StringRecord, field_pos: &[Range<usize>]) -> (r: Vec<String>)
    ensures
        r.deep_view() == sel(record_fields(*record), field_pos@),
{
    let ghost fields = record_fields(*record);
    let mut out: Vec<String> = Vec::new();
    let mut k: usize = 0;
    proof {
        assert(field_pos@.take(0) =~= Seq::<Range<usize>>::empty());
        assert(out.deep_view() =~= Seq::<Seq<char>>::empty());
    }
    while k < field_pos.len()
        invariant
            k <= field_pos@.len(),
            out.deep_view() == sel(fields, field_pos@.take(k as int)),
            fields == record_fields(*record),
        decreases field_pos@.len() - k,
    {
        let rg = &field_pos[k];
        let lo = rg.start;
        let hi = rg.end;
        let ghost start = lo as int;
        let ghost sel_prev = sel(fields, field_pos@.take(k as int));
        if lo < hi {
            let mut i: usize = lo;
            proof {
                assert(range_sel(fields, start, start) =~= Seq::<Seq<char>>::empty());
                assert(out.deep_view() =~= sel_prev + range_sel(fields, start, start));
            }
            while i < hi
                invariant
                    start == lo as int,
                    lo as int == field_pos@[k as int].start as int,
                    hi as int == field_pos@[k as int].end as int,
                    lo <= i <= hi,
                    fields == record_fields(*record),
                    out.deep_view() == sel_prev + range_sel(fields, start, i as int),
                    sel_prev == sel(fields, field_pos@.take(k as int)),
                    0 <= k < field_pos@.len(),
                ensures
                    out.deep_view() == sel_prev + range_sel(fields, start, hi as int),
                decreases hi - i,
            {
                match record_get(record, i) {
                    Some(f) => {
                        let ghost prev_dv = out.deep_view();
                        let ghost fv = f@;
                        out.push(f);
                        proof {
                            assert(out.deep_view() =~= prev_dv.push(fv));
                            assert(range_sel(fields, start, i + 1) =~= range_sel(
                                fields,
                                start,
                                i as int,
                            ).push(fields[i as int]));
                        }
                    },
                    None => {
                        proof {
                            assert(range_sel(fields, start, hi as int) =~= range_sel(
                                fields,
                                start,
                                i as int,
                            ));
                        }
                        break ;
                    },
                }
                i += 1;
            }
        }
        proof {
            assert(lo == field_pos@[k as int].start);
            assert(hi == field_pos@[k as int].end);
            if lo >= hi {
                assert(range_sel(fields, start, hi as int) =~= Seq::<Seq<char>>::empty());
                assert(out.deep_view() =~= sel_prev + range_sel(fields, start, hi as int));
            } else {
                assert(out.deep_view() == sel_prev + range_sel(fields, start, hi as int));
            }
            assert(field_pos@.take(k + 1).drop_last() =~= field_pos@.take(k as int));
            assert(field_pos@.take(k + 1).last() == field_pos@[k as int]);
            assert(sel(fields, field_pos@.take(k + 1)) == sel(fields, field_pos@.take(k as int))
                + range_sel(fields, start, hi as int));
            assert(out.deep_view() =~= sel(fields, field_pos@.take(k + 1)));
        }
        k += 1;
    }
    proof {
        assert(field_pos@.take(field_pos@.len() as int) =~= field_pos@);
    }
    out
}

} // verus!
