use vstd::prelude::*;
use core::ops::Range;

verus! {

/// The larger of two integers.
pub open spec fn max_int(a: int, b: int) -> int {
    if a >= b {
        a
    } else {
        b
    }
}

/// The ranges left after coalescing every run of touching or overlapping
/// neighbors, scanning left to right: a range that starts beyond the end of
/// the running range is emitted separately, any other extends it.
pub open spec fn spec_merge(s: Seq<Range<i64>>) -> Seq<Range<i64>>
    decreases s.len(),
{
    if s.len() == 0 {
        Seq::empty()
    } else if s.len() == 1 {
        s
    } else {
        let a = s[0];
        let b = s[1];
        if a.end < b.start {
            seq![a] + spec_merge(s.drop_first())
        } else {
            spec_merge(
                seq![Range { start: a.start, end: (max_int(a.end as int, b.end as int)) as i64 }]
                    + s.subrange(2, s.len() as int),
            )
        }
    }
}

/// The merged ranges, handed out one at a time in order.
pub struct MergedRanges {
    merged: Vec<Range<i64>>,
    pos: usize,
}

impl View for MergedRanges {
    type V = Seq<Range<i64>>;

    closed spec fn view(&self) -> Seq<Range<i64>> {
        if self.pos <= self.merged@.len() {
            self.merged@.subrange(self.pos as int, self.merged@.len() as int)
        } else {
            Seq::empty()
        }
    }
}

impl MergedRanges {
    /// The next merged range, or `None` when all have been handed out.
    pub fn next(&mut self) -> (r: Option<Range<i64>>)
        ensures
            old(self)@.len() == 0 ==> r is None && final(self)@ == old(self)@,
            old(self)@.len() > 0 ==> r == Some(old(self)@[0]) && (final(self)@) == old(self)@.drop_first(),
    {
        if self.pos < self.merged.len() {
            let r = Range { start: self.merged[self.pos].start, end: self.merged[self.pos].end };
            self.pos = self.pos + 1;
            proof {
                assert(self@ =~= old(self)@.drop_first());
            }
            Some(r)
        } else {
            None
        }
    }
}

/// Coalesces a left-to-right sequence of ranges: each range that overlaps or
/// touches the running range extends it, and each gap starts a new one.
pub fn merge_ranges(values: Vec<Range<i64>>) -> (r: MergedRanges)
    ensures
        r@ == spec_merge(values@),
{
    let n = values.len();
    let mut merged: Vec<Range<i64>> = Vec::new();
    if n == 0 {
        proof {
            assert(merged@ + spec_merge(values@) =~= spec_merge(values@));
            assert(merged@ =~= spec_merge(values@));
        }
        return MergedRanges { merged, pos: 0 };
    }
    let mut last = Range { start: values[0].start, end: values[0].end };
    proof {
        assert(last == values@[0]);
        assert(seq![last] + values@.subrange(1, n as int) =~= values@);
        assert(merged@ + spec_merge(values@) =~= spec_merge(values@));
    }
    let mut i: usize = 1;
    while i < n
        invariant
            n == values@.len(),
            1 <= i <= n,
            spec_merge(values@) == merged@ + spec_merge(
                seq![last] + values@.subrange(i as int, n as int),
            ),
        decreases n - i,
    {
        let ghost pre = seq![last] + values@.subrange(i as int, n as int);
        let next = Range { start: values[i].start, end: values[i].end };
        proof {
            assert(pre.len() >= 2);
            assert(pre[0] == last && pre[1] == next);
        }
        if last.end < next.start {
            proof {
                assert(pre.drop_first() =~= seq![next] + values@.subrange(i + 1, n as int));
                assert((merged@ + seq![last]) + spec_merge(pre.drop_first()) =~= merged@ + (
                seq![last] + spec_merge(pre.drop_first())));
            }
            merged.push(last);
            last = next;
        } else {
            let newend = if last.end >= next.end {
                last.end
            } else {
                next.end
            };
            proof {
                assert(seq![
                    Range {
                        start: pre[0].start,
                        end: (max_int(pre[0].end as int, pre[1].end as int)) as i64,
                    },
                ] + pre.subrange(2, pre.len() as int) =~= seq![
                    Range { start: last.start, end: newend },
                ] + values@.subrange(i + 1, n as int));
            }
            last = Range { start: last.start, end: newend };
        }
        i = i + 1;
    }
    proof {
        assert(seq![last] + values@.subrange(n as int, n as int) =~= seq![last]);
        assert(spec_merge(seq![last]) =~= seq![last]);
    }
    merged.push(last);
    proof {
        assert(merged@ =~= spec_merge(values@));
    }
    MergedRanges { merged, pos: 0 }
}

/// An inclusive range that can run in either direction: from `start` to
/// `end`, downward when `start` exceeds `end`.
#[derive(Clone, PartialEq, Eq, Hash)]
pub struct BidirRangeInclusive<T: Copy> {
    start: T,
    end: T,
    exhausted: bool,
}

impl<T: Copy> View for BidirRangeInclusive<T> {
    type V = (T, T, bool);

    closed spec fn view(&self) -> (T, T, bool) {
        (self.start, self.end, self.exhausted)
    }
}

/// Walks a [`BidirRangeInclusive`] from either end.
#[derive(Clone, PartialEq, Eq, Hash)]
pub struct BidirRangeInclIter<T: Copy>(BidirRangeInclusive<T>);

impl<T: Copy> View for BidirRangeInclIter<T> {
    type V = (T, T, bool);

    closed spec fn view(&self) -> (T, T, bool) {
        self.0@
    }
}

impl<T: Copy> BidirRangeInclusive<T> {
    pub fn new(start: T, end: T) -> (r: Self)
        ensures
            r@ == (start, end, false),
    {
        BidirRangeInclusive { start, end, exhausted: false }
    }

    pub fn iter(&self) -> (r: BidirRangeInclIter<T>)
        ensures
            r@ == self@,
    {
        BidirRangeInclIter(BidirRangeInclusive { start: self.start, end: self.end, exhausted: self.exhausted })
    }
}

impl BidirRangeInclIter<i64> {
    /// The next value from the `start` side: `start` itself, with `start`
    /// stepped one place toward `end`; the shared final value exhausts the
    /// iterator.
    pub fn next(&mut self) -> (r: Option<i64>)
        ensures
            old(self)@.2 ==> r is None && final(self)@ == old(self)@,
            !old(self)@.2 && old(self)@.0 > old(self)@.1 ==> r == Some(old(self)@.0) && (final(self)@) == (((old(self)@.0 - 1) as i64), old(self)@.1, false),
            !old(self)@.2 && old(self)@.0 < old(self)@.1 ==> r == Some(old(self)@.0) && (final(self)@) == (((old(self)@.0 + 1) as i64), old(self)@.1, false),
            !old(self)@.2 && old(self)@.0 == old(self)@.1 ==> r == Some(old(self)@.1) && (final(self)@) == (old(self)@.0, old(self)@.1, true),
    {
        if self.0.exhausted {
            None
        } else if self.0.start > self.0.end {
            let v = self.0.start;
            self.0.start = self.0.start - 1;
            Some(v)
        } else if self.0.start < self.0.end {
            let v = self.0.start;
            self.0.start = self.0.start + 1;
            Some(v)
        } else {
            self.0.exhausted = true;
            Some(self.0.end)
        }
    }

    /// The next value from the `end` side: `end` itself, with `end` stepped
    /// one place toward `start`; the shared final value exhausts the
    /// iterator.
    pub fn next_back(&mut self) -> (r: Option<i64>)
        ensures
            old(self)@.2 ==> r is None && final(self)@ == old(self)@,
            !old(self)@.2 && old(self)@.0 > old(self)@.1 ==> r == Some(old(self)@.1) && (final(self)@) == (old(self)@.0, ((old(self)@.1 + 1) as i64), false),
            !old(self)@.2 && old(self)@.0 < old(self)@.1 ==> r == Some(old(self)@.1) && (final(self)@) == (old(self)@.0, ((old(self)@.1 - 1) as i64), false),
            !old(self)@.2 && old(self)@.0 == old(self)@.1 ==> r == Some(old(self)@.1) && (final(self)@) == (old(self)@.0, old(self)@.1, true),
    {
        if self.0.exhausted {
            None
        } else if self.0.start > self.0.end {
            let v = self.0.end;
            self.0.end = self.0.end + 1;
            Some(v)
        } else if self.0.start < self.0.end {
            let v = self.0.end;
            self.0.end = self.0.end - 1;
            Some(v)
        } else {
            self.0.exhausted = true;
            Some(self.0.end)
        }
    }
}

/// A decimal digit.
pub open spec fn is_digit(c: char) -> bool {
    '0' <= c && c <= '9'
}

/// The value of a string of decimal digits.
pub open spec fn digits_val(s: Seq<char>) -> int
    decreases s.len(),
{
    if s.len() == 0 {
        0
    } else {
        digits_val(s.drop_last()) * 10 + (s.last() as int - '0' as int)
    }
}

/// The text of an integer: an optional sign followed by at least one digit.
pub open spec fn is_int_text(s: Seq<char>) -> bool {
    ||| (s.len() >= 1 && forall|i: int| 0 <= i < s.len() ==> is_digit(#[trigger] s[i]))
    ||| (s.len() >= 2 && (s[0] == '-' || s[0] == '+') && forall|i: int|
        1 <= i < s.len() ==> is_digit(#[trigger] s[i]))
}

/// The value of an integer text.
pub open spec fn int_text_val(s: Seq<char>) -> int {
    if s.len() > 0 && s[0] == '-' {
        -digits_val(s.skip(1))
    } else if s.len() > 0 && s[0] == '+' {
        digits_val(s.skip(1))
    } else {
        digits_val(s)
    }
}

/// A digit string's value is never negative.
proof fn lemma_digits_val_nonneg(s: Seq<char>)
    requires
        forall|i: int| 0 <= i < s.len() ==> is_digit(#[trigger] s[i]),
    ensures
        digits_val(s) >= 0,
    decreases s.len(),
{
    if s.len() > 0 {
        lemma_digits_val_nonneg(s.drop_last());
        assert(digits_val(s.drop_last()) * 10 >= 0) by (nonlinear_arith)
            requires
                digits_val(s.drop_last()) >= 0,
        ;
    }
}

/// Extending a digit string only grows its value.
proof fn lemma_digits_val_prefix(s: Seq<char>, i: int)
    requires
        0 <= i <= s.len(),
        forall|k: int| 0 <= k < s.len() ==> is_digit(#[trigger] s[k]),
    ensures
        digits_val(s.take(i)) <= digits_val(s),
    decreases s.len() - i,
{
    if i < s.len() {
        lemma_digits_val_prefix(s, i + 1);
        assert(s.take(i + 1).drop_last() =~= s.take(i));
        assert(forall|k: int| 0 <= k < s.take(i + 1).len() ==> is_digit(#[trigger] s.take(i + 1)[k]));
        lemma_digits_val_nonneg(s.take(i));
        assert(digits_val(s.take(i)) * 10 >= digits_val(s.take(i))) by (nonlinear_arith)
            requires
                digits_val(s.take(i)) >= 0,
        ;
    } else {
        assert(s.take(i) =~= s);
    }
}

/// Parses a vector of characters as a decimal integer, with an optional
/// leading sign: `Some` exactly when the text is an integer text whose value
/// fits the type, carrying that value.
fn parse_i64(chars: &Vec<char>) -> (r: Option<i64>)
    ensures
        match r {
            Option::Some(v) => is_int_text(chars@) && v == int_text_val(chars@),
            Option::None => !(is_int_text(chars@) && i64::MIN <= int_text_val(chars@)
                <= i64::MAX),
        },
{
    let n = chars.len();
    if n == 0 {
        return None;
    }
    let c0 = chars[0];
    let neg = c0 == '-';
    let signed = c0 == '-' || c0 == '+';
    let first_digit: usize = if signed {
        1
    } else {
        0
    };
    if n == first_digit {
        proof {
            assert(!is_int_text(chars@)) by {
                if chars@.len() >= 1 && forall|i: int|
                    0 <= i < chars@.len() ==> is_digit(#[trigger] chars@[i]) {
                    assert(is_digit(chars@[0]));
                }
            }
        }
        return None;
    }
    let ghost digits = chars@.skip(first_digit as int);
    proof {
        if !signed {
            assert(digits =~= chars@);
        }
        assert(forall|k: int|
            0 <= k < digits.len() ==> #[trigger] digits[k] == chars@[k + first_digit]);
    }
    let cap: u64 = if neg {
        0x8000_0000_0000_0000
    } else {
        0x7FFF_FFFF_FFFF_FFFF
    };
    let mut acc: u64 = 0;
    let mut i: usize = first_digit;
    while i < n
        invariant
            n == chars@.len(),
            first_digit <= i <= n,
            first_digit == if signed {
                1int
            } else {
                0int
            },
            signed == (chars@[0] == '-' || chars@[0] == '+'),
            neg == (chars@[0] == '-'),
            digits == chars@.skip(first_digit as int),
            !signed ==> digits == chars@,
            cap == if neg {
                0x8000_0000_0000_0000u64
            } else {
                0x7FFF_FFFF_FFFF_FFFFu64
            },
            forall|k: int| 0 <= k < i - first_digit ==> is_digit(#[trigger] digits[k]),
            acc == digits_val(digits.take(i - first_digit as int)),
            acc <= cap,
        decreases n - i,
    {
        let c = chars[i];
        if !(c >= '0' && c <= '9') {
            proof {
                assert(!is_int_text(chars@)) by {
                    assert(!is_digit(chars@[i as int]));
                }
            }
            return None;
        }
        let d = (c as u32 - '0' as u32) as u64;
        proof {
            assert(d == c as int - '0' as int && d <= 9);
        }
        if acc > (cap - d) / 10 {
            proof {
                vstd::arithmetic::div_mod::lemma_fundamental_div_mod(
                    (cap - d) as int,
                    10,
                );
                assert(acc * 10 + d > cap) by (nonlinear_arith)
                    requires
                        acc > ((cap - d) as int) / 10,
                        cap - d == 10 * (((cap - d) as int) / 10) + ((cap - d) as int) % 10,
                        0 <= ((cap - d) as int) % 10 < 10,
                ;
                assert(digits.take(i - first_digit as int + 1).drop_last() =~= digits.take(
                    i - first_digit as int,
                ));
                assert(digits_val(digits.take(i - first_digit as int + 1)) == acc * 10 + d);
                if is_int_text(chars@) {
                    assert forall|k: int| 0 <= k < digits.len() implies is_digit(
                        #[trigger] digits[k],
                    ) by {
                        assert(digits[k] == chars@[k + first_digit]);
                    }
                    lemma_digits_val_prefix(digits, i - first_digit as int + 1);
                    assert(digits_val(digits) > cap);
                    assert(int_text_val(chars@) == if neg {
                        -digits_val(digits)
                    } else {
                        digits_val(digits)
                    });
                }
            }
            return None;
        }
        proof {
            assert(acc * 10 + d <= cap) by (nonlinear_arith)
                requires
                    acc <= ((cap - d) as int) / 10,
                    0 <= acc,
                    0 <= d <= 9,
                    cap - d >= 10 * (((cap - d) as int) / 10),
            ;
            assert(digits.take(i - first_digit as int + 1).drop_last() =~= digits.take(
                i - first_digit as int,
            ));
        }
        acc = acc * 10 + d;
        i = i + 1;
    }
    proof {
        assert(digits.take(n - first_digit as int) =~= digits);
        if signed {
            assert(chars@.len() >= 2);
            assert forall|k: int| 1 <= k < chars@.len() implies is_digit(
                #[trigger] chars@[k],
            ) by {
                assert(chars@[k] == digits[k - 1]);
            }
        } else {
            assert forall|k: int| 0 <= k < chars@.len() implies is_digit(
                #[trigger] chars@[k],
            ) by {
                assert(chars@[k] == digits[k]);
            }
        }
        assert(is_int_text(chars@));
    }
    if neg {
        if acc == 0x8000_0000_0000_0000 {
            proof {
                assert(int_text_val(chars@) == -0x8000_0000_0000_0000);
            }
            Some(i64::MIN)
        } else {
            proof {
                assert(int_text_val(chars@) == -(acc as int));
            }
            Some(-(acc as i64))
        }
    } else {
        proof {
            assert(int_text_val(chars@) == acc as int);
        }
        Some(acc as i64)
    }
}

/// The least index at or after `i` holding character `c`, or the length.
pub open spec fn first_char_at(s: Seq<char>, c: char, i: int) -> int
    decreases s.len() - i,
{
    if i < 0 || i >= s.len() {
        s.len() as int
    } else if s[i] == c {
        i
    } else {
        first_char_at(s, c, i + 1)
    }
}

/// The least index at or after `i` starting two consecutive dots, or the
/// length.
pub open spec fn first_dotdot_at(s: Seq<char>, i: int) -> int
    decreases s.len() - i,
{
    if i < 0 || i + 1 >= s.len() {
        s.len() as int
    } else if s[i] == '.' && s[i + 1] == '.' {
        i
    } else {
        first_dotdot_at(s, i + 1)
    }
}

/// `(a, b)` is what parsing `s` as a range yields: `s` splits at its first
/// `'-'` (or, when it has none, at its first `".."`) into two integer texts
/// that fit the type, `a` is the first value, and `b` is the second — one
/// more when `include_end` asks for an inclusive range, which must also fit.
pub open spec fn spec_is_range_text(s: Seq<char>, a: i64, b: i64, include_end: bool) -> bool {
    let d = first_char_at(s, '-', 0);
    let dd = first_dotdot_at(s, 0);
    if d < s.len() {
        let f = s.subrange(0, d);
        let d2 = first_char_at(s, '-', d + 1);
        let snd = s.subrange(d + 1, d2);
        range_halves_ok(f, snd, a, b, include_end)
    } else if dd < s.len() {
        let f = s.subrange(0, dd);
        let d2 = first_dotdot_at(s, dd + 2);
        let snd = s.subrange(dd + 2, d2);
        range_halves_ok(f, snd, a, b, include_end)
    } else {
        false
    }
}

/// The two halves of a range text parse to `a` and the end bound `b`.
pub open spec fn range_halves_ok(
    f: Seq<char>,
    snd: Seq<char>,
    a: i64,
    b: i64,
    include_end: bool,
) -> bool {
    &&& is_int_text(f)
    &&& i64::MIN <= int_text_val(f) <= i64::MAX
    &&& a == int_text_val(f)
    &&& is_int_text(snd)
    &&& i64::MIN <= int_text_val(snd) <= i64::MAX
    &&& (if include_end {
        int_text_val(snd) + 1 <= i64::MAX && b == int_text_val(snd) + 1
    } else {
        b == int_text_val(snd)
    })
}

/// The first index at or after `from` holding `c`, or the length.
fn find_char(chars: &Vec<char>, c: char, from: usize) -> (r: usize)
    requires
        from <= chars@.len(),
    ensures
        r == first_char_at(chars@, c, from as int),
        from <= r <= chars@.len(),
{
    let mut i = from;
    while i < chars.len()
        invariant
            from <= i <= chars@.len(),
            first_char_at(chars@, c, from as int) == first_char_at(chars@, c, i as int),
        decreases chars@.len() - i,
    {
        if chars[i] == c {
            return i;
        }
        i = i + 1;
    }
    i
}

/// The first index at or after `from` starting two consecutive dots, or the
/// length.
fn find_dotdot(chars: &Vec<char>, from: usize) -> (r: usize)
    requires
        from <= chars@.len(),
    ensures
        r == first_dotdot_at(chars@, from as int),
        from <= r <= chars@.len(),
        r < chars@.len() ==> r + 2 <= chars@.len(),
{
    let mut i = from;
    while i < chars.len() && i < chars.len() - 1
        invariant
            from <= i,
            i <= chars@.len(),
            first_dotdot_at(chars@, from as int) == first_dotdot_at(chars@, i as int),
        decreases chars@.len() - i,
    {
        let ca = chars[i];
        let cb = chars[i + 1];
        if ca == '.' && cb == '.' {
            return i;
        }
        i = i + 1;
    }
    proof {
        assert(first_dotdot_at(chars@, i as int) == chars@.len());
    }
    chars.len()
}

/// The characters of `chars` from `lo` (inclusive) to `hi` (exclusive).
fn subvec(chars: &Vec<char>, lo: usize, hi: usize) -> (r: Vec<char>)
    requires
        lo <= hi <= chars@.len(),
    ensures
        r@ == chars@.subrange(lo as int, hi as int),
{
    let mut r: Vec<char> = Vec::new();
    let mut i = lo;
    while i < hi
        invariant
            lo <= i <= hi <= chars@.len(),
            r@ == chars@.subrange(lo as int, i as int),
        decreases hi - i,
    {
        r.push(chars[i]);
        proof {
            assert(r@ =~= chars@.subrange(lo as int, i + 1));
        }
        i = i + 1;
    }
    r
}

/// Parses `s` as a range written "a-b" or "a..b": `Ok` exactly when the text
/// splits at its first separator into two integers that fit, the end widened
/// by one for an inclusive range; otherwise `Err` with the reason.
pub fn range_from_str(s: &str, include_end: bool) -> (r: Result<Range<i64>, String>)
    ensures
        r matches Ok(rg) ==> spec_is_range_text(s@, rg.start, rg.end, include_end),
        r is Err ==> forall|a: i64, b: i64| !spec_is_range_text(s@, a, b, include_end),
{
    let chars = crate::read::str_chars(s);
    let d = find_char(&chars, '-', 0);
    let (first, second) = if d < chars.len() {
        let d2 = find_char(&chars, '-', d + 1);
        (subvec(&chars, 0, d), subvec(&chars, d + 1, d2))
    } else {
        let dd = find_dotdot(&chars, 0);
        if dd < chars.len() {
            let d2 = find_dotdot(&chars, dd + 2);
            (subvec(&chars, 0, dd), subvec(&chars, dd + 2, d2))
        } else {
            return Err("no separator found".to_owned());
        }
    };
    let start = match parse_i64(&first) {
        Option::Some(v) => v,
        Option::None => {
            return Err("no value from split".to_owned());
        },
    };
    let end0 = match parse_i64(&second) {
        Option::Some(v) => v,
        Option::None => {
            return Err("no second value from split".to_owned());
        },
    };
    if include_end {
        if end0 == i64::MAX {
            return Err("no second value from split".to_owned());
        }
        Ok(start..end0 + 1)
    } else {
        Ok(start..end0)
    }
}

} // verus!
