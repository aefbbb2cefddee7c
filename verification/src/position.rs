//! The position list: validated zero-based half-open spans, and the parser
//! that turns a comma-separated spec string into an ordered list of them.
//!
//! The spec-level model (`parse_spec`) reads the string exactly as the tool
//! does: split on commas, each part a single position or a dashed range,
//! order kept, duplicates and overlaps allowed.

use vstd::prelude::*;

use crate::digits::{
    all_digits, digits_val, is_digit_char, lemma_digits_val_nonneg, lemma_digits_val_prefix_le,
    lemma_digits_val_take_step, dec_of, lemma_dec_of_digits, lemma_dec_of_val,
    lemma_digit_not_punct, usize_to_decimal,
};
use crate::errors::{CutError, ErrModel};

verus! {

/// A validated zero-based half-open interval `[start, end)`.
#[derive(Debug, Clone, Copy, PartialEq, Eq, Structural)]
pub struct Span {
    pub start: usize,
    pub end: usize,
}

impl Span {
    /// Well-formedness: a span selects at least one position.
    pub open spec fn valid(self) -> bool {
        self.start < self.end
    }
}

/// An ordered list of spans; insertion order drives output order.
pub type PositionList = Vec<Span>;

/// Pairs an executable result with its spec-level reading.
pub open spec fn res_matches<T>(r: Result<T, CutError>, m: Result<T, ErrModel>) -> bool {
    match (r, m) {
        (Ok(a), Ok(b)) => a == b,
        (Err(e), Err(me)) => e@ == me,
        _ => false,
    }
}

/// Index of the first occurrence of `c` in `s`, or `s.len()` if absent.
pub open spec fn find_char(s: Seq<char>, c: char) -> nat
    decreases s.len(),
{
    if s.len() == 0 {
        0
    } else if s[0] == c {
        0
    } else {
        1 + find_char(s.drop_first(), c)
    }
}

/// `find_char` is pinned down by its characteristic properties.
pub(crate) proof fn lemma_find_char_is(s: Seq<char>, c: char, m: int)
    requires
        0 <= m <= s.len(),
        forall|k: int| 0 <= k < m ==> s[k] != c,
        m < s.len() ==> s[m] == c,
    ensures
        find_char(s, c) == m,
    decreases s.len(),
{
    if s.len() == 0 {
    } else if s[0] == c {
        assert(m == 0);
    } else {
        assert(m >= 1);
        let t = s.drop_first();
        assert(forall|k: int| 0 <= k < m - 1 ==> t[k] != c);
        lemma_find_char_is(t, c, m - 1);
    }
}

/// The comma-separated parts of a spec string, in order.
pub open spec fn parts_of(s: Seq<char>) -> Seq<Seq<char>>
    decreases s.len(),
{
    let j = find_char(s, ',') as int;
    if j >= s.len() {
        seq![s]
    } else {
        seq![s.take(j)] + parts_of(s.skip(j + 1))
    }
}

/// Reads one token (a whole single-position part, or one side of a range)
/// as a positive number; the token itself is quoted in the error message.
pub open spec fn side_val(t: Seq<char>) -> Result<usize, ErrModel> {
    if t.len() == 0 || !all_digits(t) {
        Err(ErrModel::IllegalListValue(t))
    } else if digits_val(t) > usize::MAX {
        Err(ErrModel::ValueTooLarge)
    } else if digits_val(t) == 0 {
        Err(ErrModel::IllegalListValue("0"@))
    } else {
        Ok(digits_val(t) as usize)
    }
}

/// Reads one comma-separated part: a single one-based position `n`,
/// mapped to `[n-1, n)`, or a range `a-b` with `a < b`, mapped to `[a-1, b)`.
pub open spec fn parse_part(part: Seq<char>) -> Result<Span, ErrModel> {
    let d = find_char(part, '-') as int;
    if d >= part.len() {
        match side_val(part) {
            Ok(n) => Ok(Span { start: (n - 1) as usize, end: n }),
            Err(e) => Err(e),
        }
    } else {
        let a = part.take(d);
        let b = part.skip(d + 1);
        if a.len() == 0 || b.len() == 0 {
            Err(ErrModel::RangeOrder(a, b))
        } else {
            match side_val(a) {
                Err(e) => Err(e),
                Ok(lo) => match side_val(b) {
                    Err(e) => Err(e),
                    Ok(hi) => if lo >= hi {
                        Err(ErrModel::RangeOrder(dec_of(lo as nat), dec_of(hi as nat)))
                    } else {
                        Ok(Span { start: (lo - 1) as usize, end: hi })
                    },
                },
            }
        }
    }
}

/// Parses a sequence of parts; the first failing part decides the error.
pub open spec fn parse_parts(ps: Seq<Seq<char>>) -> Result<Seq<Span>, ErrModel>
    decreases ps.len(),
{
    if ps.len() == 0 {
        Ok(Seq::empty())
    } else {
        match parse_part(ps[0]) {
            Err(e) => Err(e),
            Ok(sp) => match parse_parts(ps.drop_first()) {
                Err(e) => Err(e),
                Ok(rest) => Ok(seq![sp] + rest),
            },
        }
    }
}

/// The whole parse, as `parse_pos` performs it.
pub open spec fn parse_spec(s: Seq<char>) -> Result<Seq<Span>, ErrModel> {
    parse_parts(parts_of(s))
}

/// A part that parses yields a well-formed span.
pub(crate) proof fn lemma_parse_part_valid(part: Seq<char>)
    requires
        parse_part(part) is Ok,
    ensures
        parse_part(part)->Ok_0.valid(),
{
    let d = find_char(part, '-') as int;
    if d >= part.len() {
        let n = side_val(part)->Ok_0;
        lemma_digits_val_nonneg(part);
    } else {
        let a = part.take(d);
        lemma_digits_val_nonneg(a);
    }
}

/// Finds the first occurrence of `c` within `s[lo..hi]`.
fn find_char_in(s: &str, lo: usize, hi: usize, c: char) -> (j: usize)
    requires
        lo <= hi <= s@.len(),
    ensures
        lo <= j <= hi,
        forall|k: int| lo <= k < j ==> s@[k] != c,
        j < hi ==> s@[j as int] == c,
{
    let mut j = lo;
    while j < hi
        invariant
            lo <= j <= hi <= s@.len(),
            forall|k: int| lo <= k < j ==> s@[k] != c,
        decreases hi - j,
    {
        if s.get_char(j) == c {
            return j;
        }
        j += 1;
    }
    j
}

/// Reads `s[lo..hi]` as one position number, quoting it on failure.
fn parse_side(s: &str, lo: usize, hi: usize) -> (r: Result<usize, CutError>)
    requires
        lo <= hi <= s@.len(),
    ensures
        res_matches(r, side_val(s@.subrange(lo as int, hi as int))),
{
    let ghost t = s@.subrange(lo as int, hi as int);
    let mut k = lo;
    while k < hi
        invariant
            lo <= k <= hi <= s@.len(),
            t == s@.subrange(lo as int, hi as int),
            forall|i: int| lo <= i < k ==> is_digit_char(#[trigger] s@[i]),
        decreases hi - k,
    {
        let c = s.get_char(k);
        let u = c as u32;
        if u < 48 || u > 57 {
            proof {
                assert(t[k - lo] == s@[k as int]);
                assert(!all_digits(t));
            }
            return Err(CutError::IllegalListValue(s.substring_char(lo, hi).to_owned()));
        }
        k += 1;
    }
    if lo == hi {
        proof {
            assert(t.len() == 0);
        }
        return Err(CutError::IllegalListValue(s.substring_char(lo, hi).to_owned()));
    }
    proof {
        assert(forall|i: int| 0 <= i < t.len() ==> t[i] == s@[lo + i]);
        assert(all_digits(t));
    }
    let mut acc: usize = 0;
    let mut k = lo;
    while k < hi
        invariant
            lo <= k <= hi <= s@.len(),
            hi > lo,
            t == s@.subrange(lo as int, hi as int),
            all_digits(t),
            acc == digits_val(t.take(k - lo)),
        decreases hi - k,
    {
        let c = s.get_char(k);
        let u = c as u32;
        proof {
            assert(t[k - lo] == s@[k as int]);
            assert(is_digit_char(t[k - lo]));
            assert(48 <= u <= 57);
        }
        let d = (u - 48) as usize;
        proof {
            assert(d == crate::digits::digit_val(t[k - lo]));
            lemma_digits_val_take_step(t, k - lo);
            vstd::arithmetic::div_mod::lemma_fundamental_div_mod((usize::MAX - d) as int, 10);
        }
        if acc > (usize::MAX - d) / 10 {
            proof {
                assert(acc * 10 + d > usize::MAX);
                assert(digits_val(t.take(k - lo + 1)) > usize::MAX);
                lemma_digits_val_prefix_le(t, k - lo + 1);
                assert(digits_val(t) > usize::MAX);
            }
            return Err(CutError::ValueTooLarge);
        }
        proof {
            assert(acc * 10 + d <= usize::MAX);
        }
        acc = acc * 10 + d;
        k += 1;
    }
    proof {
        assert(t.take(hi - lo) =~= t);
        assert(acc == digits_val(t));
    }
    if acc == 0 {
        return Err(CutError::IllegalListValue(String::from_str("0")));
    }
    Ok(acc)
}

/// Parses one comma-separated part, `s[lo..hi]`.
fn parse_part_at(s: &str, lo: usize, hi: usize) -> (r: Result<Span, CutError>)
    requires
        lo <= hi <= s@.len(),
    ensures
        res_matches(r, parse_part(s@.subrange(lo as int, hi as int))),
{
    let ghost part = s@.subrange(lo as int, hi as int);
    let d = find_char_in(s, lo, hi, '-');
    proof {
        assert(forall|k: int| 0 <= k < d - lo ==> part[k] == s@[lo + k]);
        assert(d < hi ==> part[d - lo] == s@[d as int]);
        lemma_find_char_is(part, '-', d - lo);
    }
    if d == hi {
        match parse_side(s, lo, hi) {
            Ok(n) => {
                proof {
                    lemma_digits_val_nonneg(part);
                }
                Ok(Span { start: n - 1, end: n })
            },
            Err(e) => Err(e),
        }
    } else {
        proof {
            assert(part.take(d - lo) =~= s@.subrange(lo as int, d as int));
            assert(part.skip(d - lo + 1) =~= s@.subrange(d as int + 1, hi as int));
        }
        if d == lo || d + 1 == hi {
            return Err(CutError::RangeOrder(
                s.substring_char(lo, d).to_owned(),
                s.substring_char(d + 1, hi).to_owned(),
            ));
        }
        match parse_side(s, lo, d) {
            Err(e) => Err(e),
            Ok(first) => match parse_side(s, d + 1, hi) {
                Err(e) => Err(e),
                Ok(second) => {
                    proof {
                        lemma_digits_val_nonneg(part.take(d - lo));
                    }
                    if first >= second {
                        Err(CutError::RangeOrder(
                            crate::digits::usize_to_decimal(first),
                            crate::digits::usize_to_decimal(second),
                        ))
                    } else {
                        Ok(Span { start: first - 1, end: second })
                    }
                },
            },
        }
    }
}

/// The loop invariant of `parse_pos`: what is already parsed, joined with
/// whatever the rest yields, gives the whole parse.
spec fn parse_progress(whole: Seq<char>, done: Seq<Span>, rem: Seq<char>) -> bool {
    match parse_parts(parts_of(rem)) {
        Ok(rest) => parse_spec(whole) == Ok::<Seq<Span>, ErrModel>(done + rest),
        Err(e) => parse_spec(whole) == Err::<Seq<Span>, ErrModel>(e),
    }
}

/// Parses a comma-separated list of one-based positions and ranges into
/// an ordered list of zero-based half-open spans.
///
/// The list order equals the input order; nothing is sorted, merged or
/// deduplicated. Errors carry the exact message fields of the classic tool.
pub fn parse_pos(range: String) -> (r: Result<PositionList, CutError>)
    ensures
        match r {
            Ok(v) => parse_spec(range@) == Ok::<Seq<Span>, ErrModel>(v@) && (forall|i: int|
                0 <= i < v@.len() ==> (#[trigger] v@[i]).valid()),
            Err(e) => parse_spec(range@) == Err::<Seq<Span>, ErrModel>(e@),
        },
{
    let s = range.as_str();
    let n = s.unicode_len();
    let mut out: Vec<Span> = Vec::new();
    let mut i: usize = 0;
    proof {
        assert(s@.subrange(0, n as int) =~= s@);
        assert(out@ + parse_parts(parts_of(s@))->Ok_0 =~= parse_parts(parts_of(s@))->Ok_0);
    }
    loop
        invariant
            i <= n,
            n == s@.len(),
            s@ == range@,
            parse_progress(range@, out@, s@.subrange(i as int, n as int)),
            forall|k: int| 0 <= k < out@.len() ==> (#[trigger] out@[k]).valid(),
        decreases n - i,
    {
        let ghost rem = s@.subrange(i as int, n as int);
        let j = find_char_in(s, i, n, ',');
        proof {
            assert(forall|k: int| 0 <= k < j - i ==> rem[k] == s@[i + k]);
            assert(j < n ==> rem[j - i] == s@[j as int]);
            lemma_find_char_is(rem, ',', j - i);
            if j == n {
                assert(rem.take(j - i) =~= rem);
            } else {
                assert(parts_of(rem) == seq![rem.take(j - i)] + parts_of(rem.skip(j - i + 1)));
            }
            assert(rem.take(j - i) =~= s@.subrange(i as int, j as int));
        }
        match parse_part_at(s, i, j) {
            Err(e) => {
                proof {
                    if j == n {
                        assert(parts_of(rem) == seq![rem]);
                        assert(parts_of(rem)[0] == rem);
                        assert(rem == s@.subrange(i as int, j as int));
                    } else {
                        assert(parts_of(rem)[0] == rem.take(j - i));
                    }
                    assert(parse_part(parts_of(rem)[0]) == Err::<Span, ErrModel>(e@));
                    assert(parse_parts(parts_of(rem)) == Err::<Seq<Span>, ErrModel>(e@));
                }
                return Err(e);
            },
            Ok(sp) => {
                proof {
                    lemma_parse_part_valid(s@.subrange(i as int, j as int));
                }
                let ghost out0 = out@;
                out.push(sp);
                if j == n {
                    proof {
                        assert(parts_of(rem) == seq![rem]);
                        assert(parts_of(rem)[0] == rem);
                        assert(rem == s@.subrange(i as int, j as int));
                        assert(parse_part(rem) == Ok::<Span, ErrModel>(sp));
                        assert(parts_of(rem).drop_first() =~= Seq::<Seq<char>>::empty());
                        assert(parse_parts(Seq::<Seq<char>>::empty()) == Ok::<Seq<Span>, ErrModel>(
                            Seq::empty(),
                        ));
                        assert(parse_parts(parts_of(rem)) == Ok::<Seq<Span>, ErrModel>(
                            seq![sp] + Seq::<Span>::empty(),
                        ));
                        assert(out0 + (seq![sp] + Seq::<Span>::empty()) =~= out@);
                    }
                    return Ok(out);
                }
                let ghost i0 = i as int;
                i = j + 1;
                proof {
                    let ps = parts_of(rem);
                    let rem2 = s@.subrange(i as int, n as int);
                    assert(rem.skip(j - i0 + 1) =~= rem2);
                    assert(ps == seq![rem.take(j - i0)] + parts_of(rem2));
                    assert(ps[0] == rem.take(j - i0));
                    assert(parse_part(ps[0]) == Ok::<Span, ErrModel>(sp));
                    assert(ps.drop_first() =~= parts_of(rem2));
                    match parse_parts(parts_of(rem2)) {
                        Ok(rest) => {
                            assert(parse_parts(ps) == Ok::<Seq<Span>, ErrModel>(seq![sp] + rest));
                            assert(out0 + (seq![sp] + rest) =~= out@ + rest);
                        },
                        Err(e) => {
                            assert(parse_parts(ps) == Err::<Seq<Span>, ErrModel>(e));
                        },
                    }
                }
            },
        }
    }
}

proof fn lemma_parse_parts_all_ok(ps: Seq<Seq<char>>)
    requires
        forall|i: int| 0 <= i < ps.len() ==> parse_part(#[trigger] ps[i]) is Ok,
    ensures
        parse_parts(ps) is Ok,
        parse_parts(ps)->Ok_0.len() == ps.len(),
        forall|i: int| 0 <= i < ps.len() ==> parse_parts(ps)->Ok_0[i] == parse_part(
            #[trigger] ps[i],
        )->Ok_0,
    decreases ps.len(),
{
    if ps.len() > 0 {
        let t = ps.drop_first();
        assert(forall|i: int| 0 <= i < t.len() ==> t[i] == ps[i + 1]);
        lemma_parse_parts_all_ok(t);
        let v0 = parse_part(ps[0])->Ok_0;
        let rest = parse_parts(t)->Ok_0;
        assert(parse_parts(ps) == Ok::<Seq<Span>, ErrModel>(seq![v0] + rest));
        assert forall|i: int| 0 <= i < ps.len() implies parse_parts(ps)->Ok_0[i] == parse_part(
            ps[i],
        )->Ok_0 by {
            if i == 0 {
                assert((seq![v0] + rest)[0] == v0);
            } else {
                assert((seq![v0] + rest)[i] == rest[i - 1]);
                assert(t[i - 1] == ps[i]);
            }
        }
    }
}

/// A token that denotes a usable position: one or more digits whose value
/// is at least one and fits the machine word.
pub open spec fn token_ok(t: Seq<char>) -> bool {
    t.len() >= 1 && all_digits(t) && 1 <= digits_val(t) <= usize::MAX
}

/// A part is well-formed when it is a valid single position, or a valid
/// range whose first number is lower than its second.
pub open spec fn part_well_formed(part: Seq<char>) -> bool {
    let d = find_char(part, '-') as int;
    if d >= part.len() {
        token_ok(part)
    } else {
        token_ok(part.take(d)) && token_ok(part.skip(d + 1)) && digits_val(part.take(d))
            < digits_val(part.skip(d + 1))
    }
}

/// Well-formedness is exactly what the parser accepts: a part parses if and
/// only if it is a valid single position or a valid range.
pub proof fn lemma_part_well_formed_iff(part: Seq<char>)
    ensures
        part_well_formed(part) <==> parse_part(part) is Ok,
{
    let d = find_char(part, '-') as int;
    if d >= part.len() {
        if part.len() >= 1 && all_digits(part) {
            lemma_digits_val_nonneg(part);
        }
    } else {
        let a = part.take(d);
        let b = part.skip(d + 1);
        if a.len() >= 1 && all_digits(a) {
            lemma_digits_val_nonneg(a);
        }
        if b.len() >= 1 && all_digits(b) {
            lemma_digits_val_nonneg(b);
        }
    }
}

/// LAW: on a spec string composed only of valid single positions and ranges
/// (each value at least one and within the machine word, since the parser
/// rejects larger ones), the parse succeeds and returns exactly one span per
/// comma-separated part, in the order the parts appear — nothing is
/// reordered, merged or deduplicated.
pub proof fn lemma_parse_keeps_order(s: Seq<char>)
    requires
        forall|i: int| 0 <= i < parts_of(s).len() ==> part_well_formed(#[trigger] parts_of(s)[i]),
    ensures
        parse_spec(s) is Ok,
        parse_spec(s)->Ok_0.len() == parts_of(s).len(),
        forall|i: int| 0 <= i < parts_of(s).len() ==> parse_spec(s)->Ok_0[i] == parse_part(
            #[trigger] parts_of(s)[i],
        )->Ok_0,
{
    assert forall|i: int| 0 <= i < parts_of(s).len() implies parse_part(
        #[trigger] parts_of(s)[i],
    ) is Ok by {
        lemma_part_well_formed_iff(parts_of(s)[i]);
    }
    lemma_parse_parts_all_ok(parts_of(s));
}

/// The canonical text of one span: `n` for `[n-1, n)`, else `a-b` for `[a-1, b)`.
pub open spec fn span_text(sp: Span) -> Seq<char> {
    if sp.end == sp.start + 1 {
        dec_of((sp.start + 1) as nat)
    } else {
        dec_of((sp.start + 1) as nat) + seq!['-'] + dec_of(sp.end as nat)
    }
}

/// The canonical text of a whole position list, comma-joined.
pub open spec fn list_text(pl: Seq<Span>) -> Seq<char>
    decreases pl.len(),
{
    if pl.len() == 0 {
        Seq::empty()
    } else if pl.len() == 1 {
        span_text(pl[0])
    } else {
        span_text(pl[0]) + seq![','] + list_text(pl.drop_first())
    }
}

proof fn lemma_all_digits_no_punct(t: Seq<char>)
    requires
        all_digits(t),
    ensures
        forall|k: int| 0 <= k < t.len() ==> t[k] != '-' && t[k] != ',',
{
    assert forall|k: int| 0 <= k < t.len() implies t[k] != '-' && t[k] != ',' by {
        lemma_digit_not_punct(t[k]);
    }
}

proof fn lemma_span_text_no_comma(sp: Span)
    requires
        sp.valid(),
    ensures
        forall|k: int| 0 <= k < span_text(sp).len() ==> span_text(sp)[k] != ',',
{
    let da = dec_of((sp.start + 1) as nat);
    let db = dec_of(sp.end as nat);
    lemma_dec_of_digits((sp.start + 1) as nat);
    lemma_dec_of_digits(sp.end as nat);
    lemma_all_digits_no_punct(da);
    lemma_all_digits_no_punct(db);
    if sp.end == sp.start + 1 {
    } else {
        let t = span_text(sp);
        assert(',' as u32 == 44 && '-' as u32 == 45);
        assert forall|k: int| 0 <= k < t.len() implies t[k] != ',' by {
            if k < da.len() {
                assert(t[k] == da[k]);
            } else if k == da.len() {
                assert(t[k] == '-');
            } else {
                assert(t[k] == db[k - da.len() - 1]);
            }
        }
    }
}

/// The canonical text of a well-formed span parses back to that span.
proof fn lemma_parse_part_of_span(sp: Span)
    requires
        sp.valid(),
    ensures
        parse_part(span_text(sp)) == Ok::<Span, ErrModel>(sp),
{
    let n = (sp.start + 1) as nat;
    let da = dec_of(n);
    lemma_dec_of_digits(n);
    lemma_dec_of_val(n);
    lemma_all_digits_no_punct(da);
    if sp.end == sp.start + 1 {
        let part = da;
        lemma_find_char_is(part, '-', part.len() as int);
        assert(side_val(part) == Ok::<usize, ErrModel>((sp.start + 1) as usize));
        assert(parse_part(part) == Ok::<Span, ErrModel>(sp));
    } else {
        let db = dec_of(sp.end as nat);
        lemma_dec_of_digits(sp.end as nat);
        lemma_dec_of_val(sp.end as nat);
        lemma_all_digits_no_punct(db);
        let part = span_text(sp);
        assert(part.len() == da.len() + 1 + db.len());
        assert forall|k: int| 0 <= k < da.len() implies part[k] == da[k] by {}
        assert(part[da.len() as int] == '-');
        assert forall|k: int| da.len() < k < part.len() implies part[k] == db[
            k - da.len() - 1
        ] by {}
        lemma_find_char_is(part, '-', da.len() as int);
        let d = da.len() as int;
        assert(part.take(d) =~= da);
        assert(part.skip(d + 1) =~= db);
        assert(side_val(da) == Ok::<usize, ErrModel>((sp.start + 1) as usize));
        assert(side_val(db) == Ok::<usize, ErrModel>(sp.end));
        assert(sp.start + 1 < sp.end);
        assert(parse_part(part) == Ok::<Span, ErrModel>(sp));
    }
}

/// LAW: re-parsing the canonical string form of a well-formed, non-empty
/// position list yields an equal list.
pub proof fn lemma_canonical_roundtrip(pl: Seq<Span>)
    requires
        pl.len() >= 1,
        forall|i: int| 0 <= i < pl.len() ==> (#[trigger] pl[i]).valid(),
    ensures
        parse_spec(list_text(pl)) == Ok::<Seq<Span>, ErrModel>(pl),
    decreases pl.len(),
{
    let s = list_text(pl);
    lemma_span_text_no_comma(pl[0]);
    lemma_parse_part_of_span(pl[0]);
    let st = span_text(pl[0]);
    if pl.len() == 1 {
        lemma_find_char_is(s, ',', s.len() as int);
        assert(parts_of(s) == seq![s]);
        assert(parts_of(s)[0] == s);
        assert(parts_of(s).drop_first() =~= Seq::<Seq<char>>::empty());
        assert(parse_parts(Seq::<Seq<char>>::empty()) == Ok::<Seq<Span>, ErrModel>(Seq::empty()));
        assert(parse_parts(parts_of(s)) == Ok::<Seq<Span>, ErrModel>(
            seq![pl[0]] + Seq::<Span>::empty(),
        ));
        assert(seq![pl[0]] + Seq::<Span>::empty() =~= pl);
    } else {
        let rest_text = list_text(pl.drop_first());
        assert(s == st + seq![','] + rest_text);
        assert forall|k: int| 0 <= k < st.len() implies s[k] == st[k] by {}
        assert(s[st.len() as int] == ',');
        lemma_find_char_is(s, ',', st.len() as int);
        let j = st.len() as int;
        assert(parts_of(s) == seq![s.take(j)] + parts_of(s.skip(j + 1)));
        assert(s.take(j) =~= st);
        assert(s.skip(j + 1) =~= rest_text);
        assert(forall|i: int|
            0 <= i < pl.drop_first().len() ==> pl.drop_first()[i] == pl[i + 1]);
        lemma_canonical_roundtrip(pl.drop_first());
        let ps = parts_of(s);
        assert(ps[0] == s.take(j));
        assert(parse_part(ps[0]) == Ok::<Span, ErrModel>(pl[0]));
        assert(ps.drop_first() =~= parts_of(rest_text));
        assert(parse_parts(parts_of(rest_text)) == Ok::<Seq<Span>, ErrModel>(pl.drop_first()));
        assert(parse_parts(ps) == Ok::<Seq<Span>, ErrModel>(seq![pl[0]] + pl.drop_first()));
        assert(seq![pl[0]] + pl.drop_first() =~= pl);
    }
}

proof fn lemma_list_text_push(pl: Seq<Span>, sp: Span)
    requires
        pl.len() >= 1,
    ensures
        list_text(pl.push(sp)) == list_text(pl) + seq![','] + span_text(sp),
    decreases pl.len(),
{
    let q = pl.push(sp);
    assert(q[0] == pl[0]);
    if pl.len() == 1 {
        assert(q.drop_first() =~= seq![sp]);
        assert(list_text(q.drop_first()) == span_text(sp));
        assert(list_text(q) == span_text(pl[0]) + seq![','] + span_text(sp));
    } else {
        assert(q.drop_first() =~= pl.drop_first().push(sp));
        lemma_list_text_push(pl.drop_first(), sp);
        assert(list_text(q) == span_text(pl[0]) + seq![','] + (list_text(pl.drop_first())
            + seq![','] + span_text(sp)));
        assert(span_text(pl[0]) + seq![','] + (list_text(pl.drop_first()) + seq![','] + span_text(
            sp,
        )) =~= (span_text(pl[0]) + seq![','] + list_text(pl.drop_first())) + seq![','] + span_text(
            sp,
        ));
    }
}

/// Renders a position list back to its canonical comma-separated text,
/// each span as `n` or `a-b` in one-based positions.
pub fn materialize(pl: &PositionList) -> (r: String)
    requires
        forall|i: int| 0 <= i < pl@.len() ==> (#[trigger] pl@[i]).valid(),
    ensures
        r@ == list_text(pl@),
{
    let mut out = String::new();
    let mut i: usize = 0;
    proof {
        assert(pl@.take(0) =~= Seq::<Span>::empty());
    }
    while i < pl.len()
        invariant
            i <= pl@.len(),
            forall|k: int| 0 <= k < pl@.len() ==> (#[trigger] pl@[k]).valid(),
            out@ == list_text(pl@.take(i as int)),
        decreases pl@.len() - i,
    {
        let ghost out0 = out@;
        let sp = pl[i];
        proof {
            assert(pl@[i as int].valid());
        }
        if i > 0 {
            out.append(",");
        }
        let first = usize_to_decimal(sp.start + 1);
        out.append(first.as_str());
        if sp.end != sp.start + 1 {
            out.append("-");
            let second = usize_to_decimal(sp.end);
            out.append(second.as_str());
        }
        proof {
            reveal_strlit(",");
            reveal_strlit("-");
            assert(","@ =~= seq![',']);
            assert("-"@ =~= seq!['-']);
            let done = pl@.take(i as int);
            let done2 = pl@.take(i as int + 1);
            assert(done2 =~= done.push(sp));
            if i == 0 {
                assert(done2.len() == 1 && done2[0] == sp);
                assert(list_text(done2) == span_text(sp));
                assert(out@ =~= span_text(sp));
            } else {
                lemma_list_text_push(done, sp);
                assert(out@ =~= list_text(done) + seq![','] + span_text(sp));
            }
        }
        i += 1;
    }
    proof {
        assert(pl@.take(pl@.len() as int) =~= pl@);
    }
    out
}

} // verus!
