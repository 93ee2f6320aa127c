//! Applying a position list to one line: its bytes, its characters or the
//! fields of its record.

use crate::positions::positions_view;
use crate::text::{chars_of, string_of};
use std::ops::Range;
use vstd::prelude::*;
use vstd::string::StringSliceAdditionalSpecFns;
use vstd::utf8::{decode_utf8, is_continuation_byte, valid_utf8};

verus! {

/// `x`, or `n` where `x` lies past it.
pub open spec fn clamp(x: int, n: int) -> int {
    if x < n {
        x
    } else {
        n
    }
}

/// The items of `s` whose indices lie in the half-open range `r`; indices
/// past the end of `s` are skipped.
pub open spec fn piece<T>(s: Seq<T>, r: (int, int)) -> Seq<T> {
    let lo = clamp(r.0, s.len() as int);
    let hi = clamp(r.1, s.len() as int);
    if lo < hi {
        s.subrange(lo, hi)
    } else {
        seq![]
    }
}

/// The pieces of `s` that `ranges` select, joined in the order of `ranges`.
pub open spec fn select<T>(s: Seq<T>, ranges: Seq<(int, int)>) -> Seq<T>
    decreases ranges.len(),
{
    if ranges.len() == 0 {
        seq![]
    } else {
        select(s, ranges.drop_last()) + piece(s, ranges.last())
    }
}

/// The items of `items` that `ranges` select, in the order of `ranges`.
fn select_items<T: Copy>(items: &[T], ranges: &[Range<usize>]) -> (r: Vec<T>)
    ensures
        r@ == select(items@, positions_view(ranges@)),
{
    let n = items.len();
    let mut out: Vec<T> = Vec::new();
    proof {
        assert(positions_view(ranges@.take(0)) =~= Seq::<(int, int)>::empty());
    }
    for k in 0..ranges.len()
        invariant
            n == items@.len(),
            out@ == select(items@, positions_view(ranges@.take(k as int))),
    {
        let start = ranges[k].start;
        let end = ranges[k].end;
        let hi = if end < n {
            end
        } else {
            n
        };
        let ghost done = out@;
        let mut i = start;
        while i < hi
            invariant
                start <= i,
                start < hi ==> i <= hi,
                hi <= n,
                n == items@.len(),
                start < hi ==> out@ == done + items@.subrange(start as int, i as int),
                start >= hi ==> out@ == done,
            decreases hi - i,
        {
            out.push(items[i]);
            i = i + 1;
            proof {
                assert(out@ =~= done + items@.subrange(start as int, i as int));
            }
        }
        proof {
            let pv = positions_view(ranges@.take(k + 1));
            assert(pv.drop_last() =~= positions_view(ranges@.take(k as int)));
            assert(pv.last() == (start as int, end as int));
            if start < hi {
                assert(out@ =~= done + piece(items@, (start as int, end as int)));
            } else {
                assert(out@ =~= done);
            }
        }
    }
    proof {
        assert(ranges@.take(ranges@.len() as int) == ranges@);
    }
    out
}

/// The characters of `line` that `char_pos` selects, in the order of
/// `char_pos`; positions past the end of `line` are skipped.
pub fn extract_chars(line: &str, char_pos: &[Range<usize>]) -> (r: String)
    ensures
        r@ == select(line@, positions_view(char_pos@)),
{
    let chars = chars_of(line);
    let picked = select_items(chars.as_slice(), char_pos);
    string_of(picked.as_slice())
}

/// The bytes of `line` that `byte_pos` selects, in the order of `byte_pos`;
/// positions past the end of `line` are skipped.
pub fn select_bytes(line: &str, byte_pos: &[Range<usize>]) -> (r: Vec<u8>)
    ensures
        r@ == select(line.spec_bytes(), positions_view(byte_pos@)),
{
    select_items(line.as_bytes(), byte_pos)
}

/// The text that `b` decodes to as UTF-8 when each invalid sequence in it
/// becomes U+FFFD.
pub uninterp spec fn lossy_utf8(b: Seq<u8>) -> Seq<char>;

/// Relies on `String::from_utf8_lossy`: valid UTF-8 decodes as it is, and
/// each invalid sequence is replaced by U+FFFD REPLACEMENT CHARACTER.
#[verifier::external_body]
fn decode_lossy(b: &[u8]) -> (r: String)
    ensures
        r@ == lossy_utf8(b@),
        valid_utf8(b@) ==> r@ == decode_utf8(b@),
        !valid_utf8(b@) ==> r@.contains('\u{FFFD}'),
{
    String::from_utf8_lossy(b).into_owned()
}

/// The bytes of `line` that `byte_pos` selects, in the order of `byte_pos`,
/// decoded as UTF-8 with U+FFFD in place of each invalid sequence; positions
/// past the end of `line` are skipped.
pub fn extract_bytes(line: &str, byte_pos: &[Range<usize>]) -> (r: String)
    ensures
        r@ == lossy_utf8(select(line.spec_bytes(), positions_view(byte_pos@))),
        valid_utf8(select(line.spec_bytes(), positions_view(byte_pos@))) ==> r@ == decode_utf8(
            select(line.spec_bytes(), positions_view(byte_pos@)),
        ),
        !valid_utf8(select(line.spec_bytes(), positions_view(byte_pos@))) ==> r@.contains(
            '\u{FFFD}',
        ),
{
    let picked = select_bytes(line, byte_pos);
    decode_lossy(picked.as_slice())
}

/// The text of each string of `fields`.
pub open spec fn fields_view(fields: Seq<String>) -> Seq<Seq<char>> {
    fields.map_values(|f: String| f@)
}

/// The fields of `record` that `field_pos` selects, in the order of
/// `field_pos`; positions past the last field are skipped.
pub fn extract_fields(record: &[String], field_pos: &[Range<usize>]) -> (r: Vec<String>)
    ensures
        fields_view(r@) == select(fields_view(record@), positions_view(field_pos@)),
{
    let n = record.len();
    let ghost fv = fields_view(record@);
    let mut out: Vec<String> = Vec::new();
    proof {
        assert(positions_view(field_pos@.take(0)) =~= Seq::<(int, int)>::empty());
        assert(fields_view(out@) =~= Seq::<Seq<char>>::empty());
    }
    for k in 0..field_pos.len()
        invariant
            n == record@.len(),
            fv == fields_view(record@),
            fields_view(out@) == select(fv, positions_view(field_pos@.take(k as int))),
    {
        let start = field_pos[k].start;
        let end = field_pos[k].end;
        let hi = if end < n {
            end
        } else {
            n
        };
        let ghost done = fields_view(out@);
        let mut i = start;
        while i < hi
            invariant
                start <= i,
                start < hi ==> i <= hi,
                hi <= n,
                n == record@.len(),
                fv == fields_view(record@),
                start < hi ==> fields_view(out@) == done + fv.subrange(start as int, i as int),
                start >= hi ==> fields_view(out@) == done,
            decreases hi - i,
        {
            let ghost before = out@;
            out.push(record[i].clone());
            i = i + 1;
            proof {
                assert(fields_view(out@) =~= fields_view(before).push(fv[i - 1]));
                assert(fields_view(out@) =~= done + fv.subrange(start as int, i as int));
            }
        }
        proof {
            let pv = positions_view(field_pos@.take(k + 1));
            assert(pv.drop_last() =~= positions_view(field_pos@.take(k as int)));
            assert(pv.last() == (start as int, end as int));
            if start < hi {
                assert(fields_view(out@) =~= done + piece(fv, (start as int, end as int)));
            } else {
                assert(fields_view(out@) =~= done);
            }
        }
    }
    proof {
        assert(field_pos@.take(field_pos@.len() as int) == field_pos@);
    }
    out
}

proof fn lemma_select_push<T>(s: Seq<T>, rs: Seq<(int, int)>, r: (int, int))
    ensures
        select(s, rs.push(r)) == select(s, rs) + piece(s, r),
{
    assert(rs.push(r).drop_last() =~= rs);
}

proof fn lemma_select_one<T>(s: Seq<T>, r: (int, int))
    ensures
        select(s, seq![r]) == piece(s, r),
{
    lemma_select_push(s, Seq::empty(), r);
    assert(Seq::<(int, int)>::empty().push(r) =~= seq![r]);
    assert(Seq::<T>::empty() + piece(s, r) =~= piece(s, r));
}

proof fn lemma_select_two<T>(s: Seq<T>, r1: (int, int), r2: (int, int))
    ensures
        select(s, seq![r1, r2]) == piece(s, r1) + piece(s, r2),
{
    lemma_select_one(s, r1);
    lemma_select_push(s, seq![r1], r2);
    assert(seq![r1].push(r2) =~= seq![r1, r2]);
}

/// Two adjacent ranges given in ascending order select what the one range
/// that covers both selects.
pub proof fn lemma_adjacent_ranges_merge<T>(s: Seq<T>, a: int, b: int, c: int)
    requires
        0 <= a <= b <= c,
    ensures
        select(s, seq![(a, b), (b, c)]) == select(s, seq![(a, c)]),
{
    lemma_select_two(s, (a, b), (b, c));
    lemma_select_one(s, (a, c));
    let n = s.len() as int;
    if clamp(a, n) < clamp(b, n) && clamp(b, n) < clamp(c, n) {
        assert(s.subrange(clamp(a, n), clamp(b, n)) + s.subrange(clamp(b, n), clamp(c, n))
            =~= s.subrange(clamp(a, n), clamp(c, n)));
    }
    assert(piece(s, (a, b)) + piece(s, (b, c)) =~= piece(s, (a, c)));
}

/// The ranges select their pieces in the order given: swapping two ranges
/// swaps their pieces in the output.
pub proof fn lemma_ranges_keep_order<T>(s: Seq<T>, r1: (int, int), r2: (int, int))
    ensures
        select(s, seq![r1, r2]) == piece(s, r1) + piece(s, r2),
        select(s, seq![r2, r1]) == piece(s, r2) + piece(s, r1),
{
    lemma_select_two(s, r1, r2);
    lemma_select_two(s, r2, r1);
}

/// A range of bytes that starts inside a multi-byte character (on a
/// continuation byte), or that takes one byte of such a character, selects
/// bytes that are not valid UTF-8; `extract_bytes` then puts U+FFFD in its
/// output.
pub proof fn lemma_split_character_is_invalid(bytes: Seq<u8>, i: int, j: int)
    requires
        0 <= i < j,
        i < bytes.len(),
        is_continuation_byte(bytes[i]) || (j == i + 1 && bytes[i] >= 0x80),
    ensures
        !valid_utf8(select(bytes, seq![(i, j)])),
{
    lemma_select_one(bytes, (i, j));
    let sel = select(bytes, seq![(i, j)]);
    assert(sel.len() >= 1);
    assert(sel[0] == bytes[i]);
    if !is_continuation_byte(bytes[i]) {
        assert(sel.len() == 1);
    }
}

} // verus!
