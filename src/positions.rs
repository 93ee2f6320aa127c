//! Parsing of position lists such as `1,3-5,15` into half-open, 0-based
//! ranges.

use std::ops::Range;
use crate::text::{decimal, digit_char, push_decimal, string_of};
use vstd::prelude::*;

verus! {

/// Ranges of positions, in the order in which they were written.
pub type PositionList = Vec<Range<usize>>;

/// Pieces of `s` between occurrences of `sep`; `s` with no `sep` in it is a
/// single piece, and the empty text is a single empty piece.
pub open spec fn split_on(s: Seq<char>, sep: char) -> Seq<Seq<char>>
    decreases s.len(),
{
    if s.len() == 0 {
        seq![Seq::empty()]
    } else {
        let init = split_on(s.drop_last(), sep);
        if s.last() == sep {
            init.push(Seq::empty())
        } else {
            init.update(init.len() - 1, init.last().push(s.last()))
        }
    }
}

/// The text of each piece of `pieces`.
pub open spec fn pieces_view(pieces: Seq<Vec<char>>) -> Seq<Seq<char>> {
    pieces.map_values(|p: Vec<char>| p@)
}

pub proof fn lemma_split_on_nonempty(s: Seq<char>, sep: char)
    ensures
        split_on(s, sep).len() >= 1,
    decreases s.len(),
{
    if s.len() > 0 {
        lemma_split_on_nonempty(s.drop_last(), sep);
    }
}

/// The pieces of `v` between occurrences of `sep`.
pub fn split_chars(v: &[char], sep: char) -> (r: Vec<Vec<char>>)
    ensures
        pieces_view(r@) == split_on(v@, sep),
{
    let mut parts: Vec<Vec<char>> = Vec::new();
    let mut cur: Vec<char> = Vec::new();
    for i in 0..v.len()
        invariant
            pieces_view(parts@).push(cur@) == split_on(v@.take(i as int), sep),
    {
        let c = v[i];
        proof {
            let t = v@.take(i + 1);
            assert(t.drop_last() == v@.take(i as int));
            assert(t.last() == c);
        }
        let ghost before = pieces_view(parts@).push(cur@);
        if c == sep {
            parts.push(cur);
            cur = Vec::new();
            proof {
                assert(pieces_view(parts@) =~= before);
                assert(pieces_view(parts@).push(cur@) =~= split_on(v@.take(i + 1), sep));
            }
        } else {
            cur.push(c);
            proof {
                lemma_split_on_nonempty(v@.take(i as int), sep);
                assert(pieces_view(parts@).push(cur@) =~= split_on(v@.take(i + 1), sep));
            }
        }
    }
    proof {
        assert(v@.take(v@.len() as int) == v@);
    }
    parts.push(cur);
    proof {
        assert(pieces_view(parts@) =~= split_on(v@, sep));
    }
    parts
}

/// Why a position list was refused.
#[derive(Debug)]
pub enum ParseError {
    /// The list was the empty text.
    EmptyList,
    /// A part of the list, or the whole list, that is not a valid position or
    /// range; a position of zero is reported as `0`.
    IllegalValue(String),
    /// A range `L-U` whose first number is not below its second.
    InvertedRange(usize, usize),
}

/// The mathematical content of a [`ParseError`].
pub enum ParseFailure {
    EmptyList,
    IllegalValue(Seq<char>),
    InvertedRange(nat, nat),
}

impl View for ParseError {
    type V = ParseFailure;

    open spec fn view(&self) -> ParseFailure {
        match self {
            ParseError::EmptyList => ParseFailure::EmptyList,
            ParseError::IllegalValue(t) => ParseFailure::IllegalValue(t@),
            ParseError::InvertedRange(l, u) => ParseFailure::InvertedRange(*l as nat, *u as nat),
        }
    }
}

/// The message that reports `e` to a user.
pub open spec fn message(e: ParseFailure) -> Seq<char> {
    match e {
        ParseFailure::EmptyList => "position lists cannot be empty"@,
        ParseFailure::IllegalValue(t) => "illegal list value: \""@ + t + "\""@,
        ParseFailure::InvertedRange(l, u) => "First number in range ("@ + decimal(l)
            + ") must be lower than second number ("@ + decimal(u) + ")"@,
    }
}

impl ParseError {
    /// The message that reports this error to a user.
    pub fn to_string(&self) -> (r: String)
        ensures
            r@ == message(self@),
    {
        match self {
            ParseError::EmptyList => "position lists cannot be empty".to_owned(),
            ParseError::IllegalValue(t) => {
                let mut r = "illegal list value: \"".to_owned();
                r.append(t.as_str());
                r.append("\"");
                r
            },
            ParseError::InvertedRange(l, u) => {
                let mut r = "First number in range (".to_owned();
                push_decimal(&mut r, *l);
                r.append(") must be lower than second number (");
                push_decimal(&mut r, *u);
                r.append(")");
                r
            },
        }
    }
}

pub open spec fn is_digit(c: char) -> bool {
    '0' <= c <= '9'
}

pub open spec fn all_digits(s: Seq<char>) -> bool {
    forall|i: int| 0 <= i < s.len() ==> is_digit(#[trigger] s[i])
}

/// The number written in decimal by the digits `s` (leading zeros allowed).
pub open spec fn digits_value(s: Seq<char>) -> nat
    decreases s.len(),
{
    if s.len() == 0 {
        0
    } else {
        digits_value(s.drop_last()) * 10 + (s.last() as nat - '0' as nat) as nat
    }
}

/// The 1-based position written by `e`, an end of `part`.
pub open spec fn endpoint_spec(e: Seq<char>, part: Seq<char>) -> Result<nat, ParseFailure> {
    if e.len() == 0 || !all_digits(e) || digits_value(e) > usize::MAX {
        Err(ParseFailure::IllegalValue(part))
    } else if digits_value(e) == 0 {
        Err(ParseFailure::IllegalValue(seq!['0']))
    } else {
        Ok(digits_value(e))
    }
}

/// The range written by `part`, a part of the list `whole`: `N` stands for
/// `[N-1, N)` and `L-U` for `[L-1, U)`.
pub open spec fn part_spec(part: Seq<char>, whole: Seq<char>) -> Result<(int, int), ParseFailure> {
    let ends = split_on(part, '-');
    if part.len() == 0 {
        Err(ParseFailure::IllegalValue(whole))
    } else if ends.len() > 2 {
        Err(ParseFailure::IllegalValue(part))
    } else {
        match endpoint_spec(ends[0], part) {
            Err(e) => Err(e),
            Ok(lo) => if ends.len() == 1 {
                Ok((lo - 1, lo as int))
            } else {
                match endpoint_spec(ends[1], part) {
                    Err(e) => Err(e),
                    Ok(hi) => if lo >= hi {
                        Err(ParseFailure::InvertedRange(lo, hi))
                    } else {
                        Ok((lo - 1, hi as int))
                    },
                }
            },
        }
    }
}

proof fn lemma_digits_value_grows(s: Seq<char>, j: int)
    requires
        0 <= j <= s.len(),
        all_digits(s),
    ensures
        digits_value(s.take(j)) <= digits_value(s),
    decreases s.len() - j,
{
    if j < s.len() {
        lemma_digits_value_grows(s, j + 1);
        assert(s.take(j + 1).drop_last() == s.take(j));
        assert(is_digit(s[j]));
    } else {
        assert(s.take(j) == s);
    }
}

/// The 1-based position written by `e`, an end of `part`.
fn parse_endpoint(e: &[char], part: &[char]) -> (r: Result<usize, ParseError>)
    ensures
        match r {
            Ok(v) => endpoint_spec(e@, part@) == Ok::<nat, ParseFailure>(v as nat),
            Err(err) => endpoint_spec(e@, part@) == Err::<nat, ParseFailure>(err@),
        },
{
    if e.len() == 0 || e[0] == '+' {
        return Err(ParseError::IllegalValue(string_of(part)));
    }
    let mut v: usize = 0;
    for i in 0..e.len()
        invariant
            all_digits(e@.take(i as int)),
            v as nat == digits_value(e@.take(i as int)),
    {
        let c = e[i];
        proof {
            assert(e@.take(i + 1).drop_last() == e@.take(i as int));
        }
        if c < '0' || c > '9' {
            return Err(ParseError::IllegalValue(string_of(part)));
        }
        let d = (c as u32 - '0' as u32) as usize;
        let next = match v.checked_mul(10) {
            Some(m) => m.checked_add(d),
            None => None,
        };
        match next {
            Some(n) => {
                v = n;
            },
            None => {
                proof {
                    if all_digits(e@) {
                        lemma_digits_value_grows(e@, i + 1);
                    }
                }
                return Err(ParseError::IllegalValue(string_of(part)));
            },
        }
        proof {
            assert(all_digits(e@.take(i + 1)));
        }
    }
    proof {
        assert(e@.take(e@.len() as int) == e@);
    }
    if v == 0 {
        let zero = "0".to_owned();
        proof {
            reveal_strlit("0");
            assert(zero@ =~= seq!['0']);
        }
        return Err(ParseError::IllegalValue(zero));
    }
    Ok(v)
}

/// The ranges written by `parts`, the parts of the list `whole`, in order;
/// the first part that is not valid decides the error.
pub open spec fn parts_spec(parts: Seq<Seq<char>>, whole: Seq<char>) -> Result<
    Seq<(int, int)>,
    ParseFailure,
>
    decreases parts.len(),
{
    if parts.len() == 0 {
        Ok(seq![])
    } else {
        match parts_spec(parts.drop_last(), whole) {
            Err(e) => Err(e),
            Ok(rs) => match part_spec(parts.last(), whole) {
                Err(e) => Err(e),
                Ok(r) => Ok(rs.push(r)),
            },
        }
    }
}

/// What the position list `s` stands for: its comma-separated parts, each a
/// range, in the order written.
pub open spec fn parse_spec(s: Seq<char>) -> Result<Seq<(int, int)>, ParseFailure> {
    if s.len() == 0 {
        Err(ParseFailure::EmptyList)
    } else {
        parts_spec(split_on(s, ','), s)
    }
}

/// The ranges of `list` as pairs `(start, end)`.
pub open spec fn positions_view(list: Seq<Range<usize>>) -> Seq<(int, int)> {
    list.map_values(|r: Range<usize>| (r.start as int, r.end as int))
}

proof fn lemma_parts_error_stays(parts: Seq<Seq<char>>, whole: Seq<char>, i: int, e: ParseFailure)
    requires
        0 <= i <= parts.len(),
        parts_spec(parts.take(i), whole) == Err::<Seq<(int, int)>, ParseFailure>(e),
    ensures
        parts_spec(parts, whole) == Err::<Seq<(int, int)>, ParseFailure>(e),
    decreases parts.len() - i,
{
    if i < parts.len() {
        assert(parts.take(i + 1).drop_last() == parts.take(i));
        lemma_parts_error_stays(parts, whole, i + 1, e);
    } else {
        assert(parts.take(i) == parts);
    }
}

/// The range written by `part`, a part of the list `whole`.
fn parse_part(part: &[char], whole: &str) -> (r: Result<Range<usize>, ParseError>)
    ensures
        match r {
            Ok(x) => part_spec(part@, whole@) == Ok::<(int, int), ParseFailure>(
                (x.start as int, x.end as int),
            ),
            Err(e) => part_spec(part@, whole@) == Err::<(int, int), ParseFailure>(e@),
        },
{
    if part.len() == 0 {
        return Err(ParseError::IllegalValue(whole.to_owned()));
    }
    let ends = split_chars(part, '-');
    proof {
        lemma_split_on_nonempty(part@, '-');
        assert(ends@.len() == split_on(part@, '-').len());
    }
    if ends.len() > 2 {
        return Err(ParseError::IllegalValue(string_of(part)));
    }
    proof {
        assert(ends@[0]@ == split_on(part@, '-')[0]);
    }
    let lo = match parse_endpoint(ends[0].as_slice(), part) {
        Ok(v) => v,
        Err(e) => return Err(e),
    };
    if ends.len() == 1 {
        return Ok(Range { start: lo - 1, end: lo });
    }
    proof {
        assert(ends@[1]@ == split_on(part@, '-')[1]);
    }
    let hi = match parse_endpoint(ends[1].as_slice(), part) {
        Ok(v) => v,
        Err(e) => return Err(e),
    };
    if lo >= hi {
        return Err(ParseError::InvertedRange(lo, hi));
    }
    Ok(Range { start: lo - 1, end: hi })
}

/// Parses a position list such as `1,3-5,15`: comma-separated parts, each a
/// 1-based position `N` or a range `L-U` with `L < U`, into half-open 0-based
/// ranges (`N` gives `[N-1, N)`, `L-U` gives `[L-1, U)`), in the order
/// written. Leading zeros are allowed; a sign, an empty part, a position of
/// zero or a number past `usize::MAX` is refused, and the first faulty part
/// decides the error.
pub fn parse_pos(range: &str) -> (r: Result<PositionList, ParseError>)
    ensures
        match r {
            Ok(list) => parse_spec(range@) == Ok::<Seq<(int, int)>, ParseFailure>(
                positions_view(list@),
            ),
            Err(e) => parse_spec(range@) == Err::<Seq<(int, int)>, ParseFailure>(e@),
        },
{
    if range.is_empty() {
        return Err(ParseError::EmptyList);
    }
    let chars = crate::text::chars_of(range);
    let parts = split_chars(chars.as_slice(), ',');
    let ghost pv = split_on(range@, ',');
    let mut list: PositionList = Vec::new();
    proof {
        assert(pv.take(0) =~= Seq::<Seq<char>>::empty());
        assert(positions_view(list@) =~= Seq::<(int, int)>::empty());
    }
    for i in 0..parts.len()
        invariant
            pieces_view(parts@) == pv,
            pv == split_on(range@, ','),
            range@.len() > 0,
            parts_spec(pv.take(i as int), range@) == Ok::<Seq<(int, int)>, ParseFailure>(
                positions_view(list@),
            ),
    {
        proof {
            assert(pv.take(i + 1).drop_last() == pv.take(i as int));
            assert(pv.take(i + 1).last() == parts@[i as int]@);
        }
        match parse_part(parts[i].as_slice(), range) {
            Ok(x) => {
                let ghost before = list@;
                list.push(x);
                proof {
                    assert(positions_view(list@) =~= positions_view(before).push(
                        (x.start as int, x.end as int),
                    ));
                }
            },
            Err(e) => {
                proof {
                    lemma_parts_error_stays(pv, range@, i + 1, e@);
                }
                return Err(e);
            },
        }
    }
    proof {
        assert(pv.take(pv.len() as int) == pv);
    }
    Ok(list)
}

/// Whether `r` is a non-empty range of positions that fit in `usize`.
pub open spec fn well_formed_range(r: (int, int)) -> bool {
    0 <= r.0 < r.1 <= usize::MAX
}

proof fn lemma_part_well_formed(part: Seq<char>, whole: Seq<char>)
    requires
        part_spec(part, whole) is Ok,
    ensures
        well_formed_range(part_spec(part, whole)->Ok_0),
{
}

proof fn lemma_parts_well_formed(parts: Seq<Seq<char>>, whole: Seq<char>)
    requires
        parts_spec(parts, whole) is Ok,
    ensures
        parts_spec(parts, whole)->Ok_0.len() == parts.len(),
        forall|i: int|
            0 <= i < parts.len() ==> well_formed_range(
                #[trigger] parts_spec(parts, whole)->Ok_0[i],
            ),
    decreases parts.len(),
{
    if parts.len() > 0 {
        lemma_parts_well_formed(parts.drop_last(), whole);
        lemma_part_well_formed(parts.last(), whole);
    }
}

/// Each range of a successfully parsed list is non-empty and starts at 0 or
/// later, and the list has one range for each comma-separated part.
pub proof fn lemma_parsed_ranges_well_formed(s: Seq<char>)
    requires
        parse_spec(s) is Ok,
    ensures
        parse_spec(s)->Ok_0.len() == split_on(s, ',').len(),
        forall|i: int|
            0 <= i < parse_spec(s)->Ok_0.len() ==> #[trigger] parse_spec(s)->Ok_0[i].0 >= 0
                && parse_spec(s)->Ok_0[i].0 < parse_spec(s)->Ok_0[i].1,
{
    lemma_parts_well_formed(split_on(s, ','), s);
}

/// The 1-based notation of the range `r`: `N` for `[N-1, N)`, else `L-U`
/// for `[L-1, U)`.
pub open spec fn render_range(r: (int, int)) -> Seq<char> {
    if r.1 == r.0 + 1 {
        decimal(r.1 as nat)
    } else {
        decimal((r.0 + 1) as nat) + seq!['-'] + decimal(r.1 as nat)
    }
}

/// The 1-based notation of `list`: its ranges, each as `render_range`
/// writes it, separated by commas.
pub open spec fn render(list: Seq<(int, int)>) -> Seq<char>
    decreases list.len(),
{
    if list.len() == 0 {
        seq![]
    } else if list.len() == 1 {
        render_range(list[0])
    } else {
        render(list.drop_last()) + seq![','] + render_range(list.last())
    }
}

proof fn lemma_decimal_digits(n: nat)
    ensures
        decimal(n).len() >= 1,
        all_digits(decimal(n)),
        digits_value(decimal(n)) == n,
    decreases n,
{
    let d = decimal(n);
    assert(digit_char(n % 10) as nat == n % 10 + 48);
    if n < 10 {
        assert(n % 10 == n);
        assert(d.drop_last() =~= Seq::<char>::empty());
        assert(digits_value(d.drop_last()) == 0);
    } else {
        lemma_decimal_digits(n / 10);
        assert(d.drop_last() == decimal(n / 10));
        assert(n == (n / 10) * 10 + n % 10);
        assert forall|i: int| 0 <= i < d.len() implies is_digit(#[trigger] d[i]) by {
            if i < d.len() - 1 {
                assert(d[i] == decimal(n / 10)[i]);
            }
        }
    }
    assert(d.last() == digit_char(n % 10));
}

proof fn lemma_split_on_append(a: Seq<char>, b: Seq<char>, sep: char)
    requires
        forall|i: int| 0 <= i < b.len() ==> b[i] != sep,
    ensures
        split_on(a + b, sep) == split_on(a, sep).update(
            split_on(a, sep).len() - 1,
            split_on(a, sep).last() + b,
        ),
    decreases b.len(),
{
    lemma_split_on_nonempty(a, sep);
    let sa = split_on(a, sep);
    if b.len() == 0 {
        assert(a + b == a);
        assert(sa.last() + b == sa.last());
        assert(sa.update(sa.len() - 1, sa.last()) == sa);
    } else {
        let b0 = b.drop_last();
        lemma_split_on_append(a, b0, sep);
        assert((a + b).drop_last() == a + b0);
        assert((a + b).last() == b.last());
        assert(b.last() != sep);
        assert((sa.last() + b0).push(b.last()) == sa.last() + b);
        assert(split_on(a + b, sep) =~= sa.update(sa.len() - 1, sa.last() + b));
    }
}

proof fn lemma_split_on_joined(a: Seq<char>, b: Seq<char>, sep: char)
    requires
        forall|i: int| 0 <= i < b.len() ==> b[i] != sep,
    ensures
        split_on(a + seq![sep] + b, sep) == split_on(a, sep).push(b),
{
    let a1 = a + seq![sep];
    assert(a1.drop_last() == a);
    lemma_split_on_append(a1, b, sep);
    assert(Seq::<char>::empty() + b == b);
    assert(split_on(a1 + b, sep) =~= split_on(a, sep).push(b));
}

proof fn lemma_split_on_single(b: Seq<char>, sep: char)
    requires
        forall|i: int| 0 <= i < b.len() ==> b[i] != sep,
    ensures
        split_on(b, sep) == seq![b],
{
    lemma_split_on_append(Seq::empty(), b, sep);
    assert(Seq::<char>::empty() + b == b);
    assert(split_on(b, sep) =~= seq![b]);
}

proof fn lemma_render_range_parses(r: (int, int), whole: Seq<char>)
    requires
        well_formed_range(r),
    ensures
        forall|i: int| 0 <= i < render_range(r).len() ==> #[trigger] render_range(r)[i] != ',',
        part_spec(render_range(r), whole) == Ok::<(int, int), ParseFailure>(r),
{
    let p = render_range(r);
    let hi = r.1 as nat;
    let lo = (r.0 + 1) as nat;
    lemma_decimal_digits(hi);
    lemma_decimal_digits(lo);
    if r.1 == r.0 + 1 {
        assert forall|i: int| 0 <= i < p.len() implies #[trigger] p[i] != '-' && p[i] != ',' by {
            assert(is_digit(p[i]));
        }
        lemma_split_on_single(p, '-');
    } else {
        let dl = decimal(lo);
        let dh = decimal(hi);
        assert forall|i: int| 0 <= i < dh.len() implies #[trigger] dh[i] != '-' by {
            assert(is_digit(dh[i]));
        }
        assert forall|i: int| 0 <= i < dl.len() implies #[trigger] dl[i] != '-' by {
            assert(is_digit(dl[i]));
        }
        assert forall|i: int| 0 <= i < p.len() implies #[trigger] p[i] != ',' by {
            if i < dl.len() {
                assert(p[i] == dl[i]);
                assert(is_digit(dl[i]));
            } else if i > dl.len() {
                assert(p[i] == dh[i - dl.len() - 1]);
                assert(is_digit(dh[i - dl.len() - 1]));
            }
        }
        lemma_split_on_single(dl, '-');
        lemma_split_on_joined(dl, dh, '-');
    }
}

proof fn lemma_render_split(list: Seq<(int, int)>)
    requires
        list.len() >= 1,
        forall|i: int| 0 <= i < list.len() ==> well_formed_range(#[trigger] list[i]),
    ensures
        split_on(render(list), ',') == list.map_values(|r: (int, int)| render_range(r)),
    decreases list.len(),
{
    lemma_render_range_parses(list.last(), Seq::empty());
    if list.len() == 1 {
        lemma_render_range_parses(list[0], Seq::empty());
        lemma_split_on_single(render_range(list[0]), ',');
        assert(list.map_values(|r: (int, int)| render_range(r)) =~= seq![render_range(list[0])]);
    } else {
        let init = list.drop_last();
        assert forall|i: int| 0 <= i < init.len() implies well_formed_range(#[trigger] init[i]) by {
            assert(init[i] == list[i]);
        }
        lemma_render_split(init);
        lemma_split_on_joined(render(init), render_range(list.last()), ',');
        assert(list.map_values(|r: (int, int)| render_range(r)) =~= init.map_values(
            |r: (int, int)| render_range(r),
        ).push(render_range(list.last())));
    }
}

proof fn lemma_rendered_parts_parse(list: Seq<(int, int)>, whole: Seq<char>)
    requires
        forall|i: int| 0 <= i < list.len() ==> well_formed_range(#[trigger] list[i]),
    ensures
        parts_spec(list.map_values(|r: (int, int)| render_range(r)), whole) == Ok::<
            Seq<(int, int)>,
            ParseFailure,
        >(list),
    decreases list.len(),
{
    let parts = list.map_values(|r: (int, int)| render_range(r));
    if list.len() == 0 {
        assert(list == Seq::<(int, int)>::empty());
    } else {
        let init = list.drop_last();
        assert forall|i: int| 0 <= i < init.len() implies well_formed_range(#[trigger] init[i]) by {
            assert(init[i] == list[i]);
        }
        lemma_rendered_parts_parse(init, whole);
        assert(parts.drop_last() =~= init.map_values(|r: (int, int)| render_range(r)));
        lemma_render_range_parses(list.last(), whole);
        assert(init.push(list.last()) == list);
    }
}

/// Writing a successfully parsed list back in 1-based notation (`N` or
/// `L-U` for each range, separated by commas) and parsing that again gives
/// the same list, in the same order.
pub proof fn lemma_round_trip(s: Seq<char>)
    requires
        parse_spec(s) is Ok,
    ensures
        parse_spec(render(parse_spec(s)->Ok_0)) == parse_spec(s),
{
    let list = parse_spec(s)->Ok_0;
    lemma_parts_well_formed(split_on(s, ','), s);
    lemma_split_on_nonempty(s, ',');
    lemma_render_split(list);
    let t = render(list);
    lemma_render_range_parses(list[0], t);
    if t.len() == 0 {
        assert(split_on(t, ',') == seq![Seq::<char>::empty()]);
        assert(render_range(list[0]) == Seq::<char>::empty());
    }
    lemma_rendered_parts_parse(list, t);
}

} // verus!
