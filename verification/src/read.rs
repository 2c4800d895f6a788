use vstd::prelude::*;
use crate::read2::{spec_parsed, spec_parsed_range, spec_lines, SkippableErr, lemma_parsed_prefix, lemma_parsed_range_prefix};

verus! {

broadcast use vstd::string::axiom_spec_iter;

/// Why a line failed to parse: a fatal error with its message, a warning
/// whose line is dropped, or a line the parser chose to skip.
#[derive(Clone)]
pub enum ParseErr {
    Fail(String),
    Warn(String),
    Skip,
}

impl SkippableErr for ParseErr {
    open spec fn spec_skipped(&self) -> bool {
        !(self is Fail)
    }

    fn is_skipped(&self) -> (r: bool)
        ensures
            r == self.spec_skipped(),
    {
        match self {
            ParseErr::Fail(_) => false,
            ParseErr::Warn(_) => true,
            ParseErr::Skip => true,
        }
    }
}

/// Relies on `String::push`: appends one character to the string.
#[verifier::external_body]
pub(crate) fn push_char(s: &mut String, c: char)
    ensures
        final(s)@ == old(s)@.push(c),
{
    s.push(c);
}

/// The characters of `s`, in order.
pub fn str_chars(s: &str) -> (v: Vec<char>)
    ensures
        v@ == s@,
{
    let mut v: Vec<char> = Vec::new();
    for c in it: s.chars()
        invariant
            v@.len() == it.index(),
            forall|j: int| 0 <= j < v@.len() ==> v@[j] == it.seq()[j],
            it.seq() == s@,
    {
        v.push(c);
    }
    proof {
        assert(v@ =~= s@);
    }
    v
}

/// The string spelling out the given characters.
pub fn chars_to_string(v: &Vec<char>) -> (s: String)
    ensures
        s@ == v@,
{
    let mut s = String::new();
    let mut i: usize = 0;
    while i < v.len()
        invariant
            i <= v@.len(),
            s@ == v@.subrange(0, i as int),
        decreases v@.len() - i,
    {
        push_char(&mut s, v[i]);
        proof {
            assert(s@ =~= v@.subrange(0, i + 1));
        }
        i = i + 1;
    }
    proof {
        assert(v@.subrange(0, v@.len() as int) =~= v@);
    }
    s
}

/// `s` with every trailing line-ending character (newline or carriage
/// return) removed.
pub open spec fn spec_trim_eol(s: Seq<char>) -> Seq<char>
    decreases s.len(),
{
    if s.len() > 0 && (s.last() == '\n' || s.last() == '\r') {
        spec_trim_eol(s.drop_last())
    } else {
        s
    }
}

/// Removes every trailing line-ending character from one line.
fn trim_eol(line: &String) -> (r: Vec<char>)
    ensures
        r@ == spec_trim_eol(line@),
{
    let chars = str_chars(line.as_str());
    let mut n = chars.len();
    proof {
        assert(chars@.subrange(0, n as int) =~= chars@);
    }
    while n > 0
        invariant
            n <= chars@.len(),
            chars@ == line@,
            spec_trim_eol(line@) == spec_trim_eol(chars@.subrange(0, n as int)),
        ensures
            n <= chars@.len(),
            spec_trim_eol(line@) == spec_trim_eol(chars@.subrange(0, n as int)),
            n == 0 || (chars@[n - 1] != '\n' && chars@[n - 1] != '\r'),
        decreases n,
    {
        let c = chars[n - 1];
        if c != '\n' && c != '\r' {
            break ;
        }
        proof {
            assert(chars@.subrange(0, n as int).drop_last() =~= chars@.subrange(0, n - 1));
        }
        n = n - 1;
    }
    let mut r: Vec<char> = Vec::new();
    let mut i: usize = 0;
    while i < n
        invariant
            i <= n <= chars@.len(),
            chars@ == line@,
            r@ == chars@.subrange(0, i as int),
        decreases n - i,
    {
        let c = chars[i];
        r.push(c);
        proof {
            assert(r@ =~= chars@.subrange(0, i + 1));
        }
        i = i + 1;
    }
    proof {
        assert(spec_trim_eol(chars@.subrange(0, n as int)) == chars@.subrange(0, n as int));
    }
    r
}

/// The parser admits `res` as an outcome for the line whose trimmed text is
/// `line`.
pub open spec fn line_admits_eol<T, E, F: Fn(&str) -> Result<T, E>>(
    parse: F,
    line: Seq<char>,
    res: Result<T, E>,
) -> bool {
    exists|s: &str|
        #![trigger call_ensures(parse, (s,), res)]
        s@ == spec_trim_eol(line) && call_ensures(parse, (s,), res)
}

/// The parser can be called on the trimmed text of every line in the index
/// range, and admits no fatal error for any of them.
pub open spec fn parser_fits_eol<T, E: SkippableErr, F: Fn(&str) -> Result<T, E>>(
    parse: F,
    lines: Seq<Seq<char>>,
    lo: int,
    hi: int,
) -> bool {
    &&& forall|s: &str, i: int|
        #![trigger call_requires(parse, (s,)), lines[i]]
        lo <= i < hi && 0 <= i < lines.len() && s@ == spec_trim_eol(lines[i]) ==> call_requires(
            parse,
            (s,),
        )
    &&& forall|s: &str, res: Result<T, E>, i: int|
        #![trigger call_ensures(parse, (s,), res), lines[i]]
        lo <= i < hi && 0 <= i < lines.len() && s@ == spec_trim_eol(lines[i]) && call_ensures(
            parse,
            (s,),
            res,
        ) ==> (res matches Result::Err(e) ==> e.spec_skipped())
}

/// Each parser outcome in `results` is admitted for the corresponding line
/// trimmed of trailing line endings, and none is fatal.
pub open spec fn results_admitted_eol<T, E: SkippableErr, F: Fn(&str) -> Result<T, E>>(
    parse: F,
    lines: Seq<Seq<char>>,
    results: Seq<Result<T, E>>,
) -> bool {
    &&& results.len() == lines.len()
    &&& forall|i: int|
        0 <= i < lines.len() ==> line_admits_eol(parse, lines[i], #[trigger] results[i])
    &&& forall|i: int|
        0 <= i < results.len() ==> ((#[trigger] results[i]) matches Result::Err(e)
            ==> e.spec_skipped())
}

/// Parses each line with `parse` after trimming the line ending, keeping the
/// successes in order; warned and skipped lines are dropped. A parser that
/// can fail outright is not accepted.
pub fn input_from_iter<T, E: SkippableErr, F: Fn(&str) -> Result<T, E>>(
    lines: &Vec<String>,
    parse: F,
) -> (r: Vec<T>)
    requires
        parser_fits_eol(parse, lines@.map_values(|l: String| l@), 0, lines@.len() as int),
    ensures
        exists|results: Seq<Result<T, E>>|
            #![trigger results.len()]
            {
                &&& results_admitted_eol(parse, lines@.map_values(|l: String| l@), results)
                &&& r@ == spec_parsed(
                    lines@.map_values(|l: String| l@),
                    results,
                    lines@.len() as int,
                )
            },
{
    let ghost linesv = lines@.map_values(|l: String| l@);
    let mut r: Vec<T> = Vec::new();
    let ghost mut results: Seq<Result<T, E>> = Seq::empty();
    let mut i: usize = 0;
    while i < lines.len()
        invariant
            parser_fits_eol(parse, linesv, 0, linesv.len() as int),
            linesv == lines@.map_values(|l: String| l@),
            i <= lines@.len(),
            results.len() == i,
            forall|j: int|
                0 <= j < i ==> line_admits_eol(parse, linesv[j], #[trigger] results[j]),
            forall|j: int|
                0 <= j < i ==> ((#[trigger] results[j]) matches Result::Err(e)
                    ==> e.spec_skipped()),
            r@ == spec_parsed(linesv, results, i as int),
        decreases lines@.len() - i,
    {
        let trimmed = trim_eol(&lines[i]);
        let s = chars_to_string(&trimmed);
        let ss = s.as_str();
        proof {
            assert(linesv[i as int] == lines@[i as int]@);
            assert(ss@ == spec_trim_eol(linesv[i as int]));
        }
        let res = parse(ss);
        proof {
            assert(linesv[i as int] == lines@[i as int]@);
            let results0 = results;
            results = results.push(res);
            lemma_parsed_prefix(linesv, results0, results, i as int);
            assert(ss@ == spec_trim_eol(linesv[i as int]));
            assert(call_ensures(parse, (ss,), results[i as int]));
            assert(line_admits_eol(parse, linesv[i as int], results[i as int]));
        }
        match res {
            Result::Ok(v) => {
                r.push(v);
            },
            Result::Err(_) => {},
        }
        proof {
            assert(spec_parsed(linesv, results, i + 1) == r@);
        }
        i = i + 1;
    }
    proof {
        assert(results_admitted_eol(parse, linesv, results));
    }
    r
}

/// Parses multi-line test input: the lines of `data`, handed to
/// `input_from_iter`.
pub fn test_input<T, E: SkippableErr, F: Fn(&str) -> Result<T, E>>(data: &str, parse: F) -> (r:
    Vec<T>)
    requires
        parser_fits_eol(parse, spec_lines(data@), 0, spec_lines(data@).len() as int),
    ensures
        exists|results: Seq<Result<T, E>>|
            #![trigger results.len()]
            {
                &&& results_admitted_eol(parse, spec_lines(data@), results)
                &&& r@ == spec_parsed(spec_lines(data@), results, spec_lines(data@).len() as int)
            },
{
    let lines = crate::read2::split_lines(data);
    input_from_iter(&lines, parse)
}

/// What grouping builds from the lines: values grouped into rows, a blank
/// line (after trimming the line ending) closing the current row. The pair
/// carries the finished rows and the open row.
pub open spec fn spec_grouped_eol<T, E>(
    lines: Seq<Seq<char>>,
    results: Seq<Result<T, E>>,
    i: int,
) -> (Seq<Seq<T>>, Seq<T>)
    decreases i,
{
    if i <= 0 {
        (Seq::empty(), Seq::empty())
    } else {
        let (rows, row) = spec_grouped_eol(lines, results, i - 1);
        if spec_trim_eol(lines[i - 1]).len() == 0 {
            (rows.push(row), Seq::empty())
        } else {
            match results[i - 1] {
                Result::Ok(v) => (rows, row.push(v)),
                Result::Err(_) => (rows, row),
            }
        }
    }
}

/// The grouping of the first `i` lines depends only on the first `i`
/// outcomes.
pub proof fn lemma_grouped_eol_prefix<T, E>(
    lines: Seq<Seq<char>>,
    r1: Seq<Result<T, E>>,
    r2: Seq<Result<T, E>>,
    i: int,
)
    requires
        forall|j: int| 0 <= j < i ==> r1[j] == r2[j],
    ensures
        spec_grouped_eol(lines, r1, i) == spec_grouped_eol(lines, r2, i),
    decreases i,
{
    if i > 0 {
        lemma_grouped_eol_prefix(lines, r1, r2, i - 1);
    }
}

/// Parses lines into groups: a blank line closes the current group, parsed
/// values join it, warned and skipped lines are dropped, and a non-empty
/// final group is kept.
pub fn grouped_input_from_iter<T, E: SkippableErr, F: Fn(&str) -> Result<T, E>>(
    lines: &Vec<String>,
    parse: F,
) -> (r: Vec<Vec<T>>)
    requires
        parser_fits_eol(parse, lines@.map_values(|l: String| l@), 0, lines@.len() as int),
    ensures
        exists|results: Seq<Result<T, E>>|
            #![trigger results.len()]
            {
                &&& results_admitted_eol(parse, lines@.map_values(|l: String| l@), results)
                &&& r@.map_values(|row: Vec<T>| row@) == {
                    let (rows, row) = spec_grouped_eol(
                        lines@.map_values(|l: String| l@),
                        results,
                        lines@.len() as int,
                    );
                    if row.len() > 0 {
                        rows.push(row)
                    } else {
                        rows
                    }
                }
            },
{
    let ghost linesv = lines@.map_values(|l: String| l@);
    let mut data: Vec<Vec<T>> = Vec::new();
    let mut row: Vec<T> = Vec::new();
    let ghost mut results: Seq<Result<T, E>> = Seq::empty();
    let mut i: usize = 0;
    while i < lines.len()
        invariant
            parser_fits_eol(parse, linesv, 0, linesv.len() as int),
            linesv == lines@.map_values(|l: String| l@),
            i <= lines@.len(),
            results.len() == i,
            forall|j: int|
                0 <= j < i ==> line_admits_eol(parse, linesv[j], #[trigger] results[j]),
            forall|j: int|
                0 <= j < i ==> ((#[trigger] results[j]) matches Result::Err(e)
                    ==> e.spec_skipped()),
            data@.map_values(|rw: Vec<T>| rw@) == spec_grouped_eol(linesv, results, i as int).0,
            row@ == spec_grouped_eol(linesv, results, i as int).1,
        decreases lines@.len() - i,
    {
        let trimmed = trim_eol(&lines[i]);
        let s = chars_to_string(&trimmed);
        let ss = s.as_str();
        proof {
            assert(linesv[i as int] == lines@[i as int]@);
            assert(ss@ == spec_trim_eol(linesv[i as int]));
        }
        let res = parse(ss);
        proof {
            let results0 = results;
            results = results.push(res);
            lemma_grouped_eol_prefix(linesv, results0, results, i as int);
            assert(ss@ == spec_trim_eol(linesv[i as int]));
            assert(call_ensures(parse, (ss,), results[i as int]));
            assert(line_admits_eol(parse, linesv[i as int], results[i as int]));
        }
        if trimmed.len() == 0 {
            let ghost dv = data@;
            let full_row = row;
            data.push(full_row);
            row = Vec::new();
            proof {
                assert(data@.map_values(|rw: Vec<T>| rw@) =~= dv.map_values(
                    |rw: Vec<T>| rw@,
                ).push(spec_grouped_eol(linesv, results, i as int).1));
            }
        } else {
            match res {
                Result::Ok(v) => {
                    row.push(v);
                },
                Result::Err(_) => {},
            }
        }
        i = i + 1;
    }
    if row.len() > 0 {
        let ghost dv = data@;
        data.push(row);
        proof {
            assert(data@.map_values(|rw: Vec<T>| rw@) =~= dv.map_values(|rw: Vec<T>| rw@).push(
                spec_grouped_eol(linesv, results, lines@.len() as int).1,
            ));
        }
    }
    proof {
        assert(results_admitted_eol(parse, linesv, results));
    }
    data
}

/// Parses grouped multi-line test input: the lines of `data`, handed to
/// `grouped_input_from_iter`.
pub fn grouped_test_input<T, E: SkippableErr, F: Fn(&str) -> Result<T, E>>(
    data: &str,
    parse: F,
) -> (r: Vec<Vec<T>>)
    requires
        parser_fits_eol(parse, spec_lines(data@), 0, spec_lines(data@).len() as int),
    ensures
        exists|results: Seq<Result<T, E>>|
            #![trigger results.len()]
            {
                &&& results_admitted_eol(parse, spec_lines(data@), results)
                &&& r@.map_values(|row: Vec<T>| row@) == {
                    let (rows, row) = spec_grouped_eol(
                        spec_lines(data@),
                        results,
                        spec_lines(data@).len() as int,
                    );
                    if row.len() > 0 {
                        rows.push(row)
                    } else {
                        rows
                    }
                }
            },
{
    let lines = crate::read2::split_lines(data);
    grouped_input_from_iter(&lines, parse)
}

/// The position of the first line that is blank after trimming its line
/// ending, scanning from `i`; the line count when none is.
pub open spec fn spec_first_blank_eol(lines: Seq<Seq<char>>, i: int) -> int
    decreases lines.len() - i,
{
    if i < 0 || i >= lines.len() {
        lines.len() as int
    } else if spec_trim_eol(lines[i]).len() == 0 {
        i
    } else {
        spec_first_blank_eol(lines, i + 1)
    }
}

/// The first blank line at or after `i` is no earlier than `i`.
proof fn lemma_first_blank_eol_ge(lines: Seq<Seq<char>>, i: int)
    requires
        0 <= i <= lines.len(),
    ensures
        spec_first_blank_eol(lines, i) >= i,
    decreases lines.len() - i,
{
    if 0 <= i < lines.len() && spec_trim_eol(lines[i]).len() > 0 {
        lemma_first_blank_eol_ge(lines, i + 1);
    }
}

/// Scanning for the first blank line can skip a known-nonblank prefix.
proof fn lemma_first_blank_eol_skip(lines: Seq<Seq<char>>, i: int)
    requires
        0 <= i <= lines.len(),
        forall|j: int| 0 <= j < i ==> spec_trim_eol(#[trigger] lines[j]).len() > 0,
    ensures
        spec_first_blank_eol(lines, 0) == spec_first_blank_eol(lines, i),
    decreases i,
{
    if i > 0 {
        lemma_first_blank_eol_skip(lines, i - 1);
    }
}

/// Splits the lines at the first blank line and parses the two sections with
/// their own parsers: values before the blank line go to the first vector,
/// everything after it (blank or not) is parsed into the second. Parsers
/// that can fail outright are not accepted.
pub fn sectioned_input_from_iter<
    T1,
    E1: SkippableErr,
    F1: Fn(&str) -> Result<T1, E1>,
    T2,
    E2: SkippableErr,
    F2: Fn(&str) -> Result<T2, E2>,
>(
    lines: &Vec<String>,
    parse1: F1,
    parse2: F2,
) -> (r: (Vec<T1>, Vec<T2>))
    requires
        parser_fits_eol(
            parse1,
            lines@.map_values(|l: String| l@),
            0,
            spec_first_blank_eol(lines@.map_values(|l: String| l@), 0),
        ),
        parser_fits_eol(
            parse2,
            lines@.map_values(|l: String| l@),
            spec_first_blank_eol(lines@.map_values(|l: String| l@), 0) + 1,
            lines@.len() as int,
        ),
    ensures
        exists|r1: Seq<Result<T1, E1>>, r2: Seq<Result<T2, E2>>|
            #![trigger r1.len(), r2.len()]
            {
                let linesv = lines@.map_values(|l: String| l@);
                let k = spec_first_blank_eol(linesv, 0);
                &&& r1.len() == k
                &&& r2.len() == linesv.len()
                &&& forall|i: int|
                    0 <= i < k ==> line_admits_eol(parse1, linesv[i], #[trigger] r1[i])
                &&& forall|i: int|
                    k < i < linesv.len() ==> line_admits_eol(parse2, linesv[i], #[trigger] r2[i])
                &&& r.0@ == spec_parsed_range(r1, 0, k)
                &&& r.1@ == spec_parsed_range(r2, k + 1, linesv.len() as int)
            },
{
    let ghost linesv = lines@.map_values(|l: String| l@);
    let mut data1: Vec<T1> = Vec::new();
    let mut data2: Vec<T2> = Vec::new();
    let mut in2 = false;
    let ghost mut r1: Seq<Result<T1, E1>> = Seq::empty();
    let ghost mut r2: Seq<Result<T2, E2>> = Seq::empty();
    let ghost dummy2: Result<T2, E2> = arbitrary();
    let mut i: usize = 0;
    while i < lines.len()
        invariant
            parser_fits_eol(parse1, linesv, 0, spec_first_blank_eol(linesv, 0)),
            parser_fits_eol(
                parse2,
                linesv,
                spec_first_blank_eol(linesv, 0) + 1,
                linesv.len() as int,
            ),
            linesv == lines@.map_values(|l: String| l@),
            i <= linesv.len(),
            r2.len() == i,
            !in2 ==> {
                &&& r1.len() == i
                &&& forall|j: int| 0 <= j < i ==> spec_trim_eol(#[trigger] linesv[j]).len() > 0
            },
            in2 ==> {
                &&& r1.len() == spec_first_blank_eol(linesv, 0)
                &&& r1.len() < i
                &&& forall|j: int|
                    r1.len() < j < i ==> line_admits_eol(parse2, linesv[j], #[trigger] r2[j])
                &&& data2@ == spec_parsed_range(r2, r1.len() as int + 1, i as int)
            },
            forall|j: int|
                0 <= j < r1.len() ==> line_admits_eol(parse1, linesv[j], #[trigger] r1[j]),
            data1@ == spec_parsed_range(r1, 0, r1.len() as int),
            !in2 ==> data2@.len() == 0,
        decreases linesv.len() - i,
    {
        let trimmed = trim_eol(&lines[i]);
        let s = chars_to_string(&trimmed);
        let ss = s.as_str();
        proof {
            assert(linesv[i as int] == lines@[i as int]@);
        }
        if !in2 {
            if trimmed.len() == 0 {
                in2 = true;
                proof {
                    lemma_first_blank_eol_skip(linesv, i as int);
                    assert(spec_first_blank_eol(linesv, i as int) == i);
                    r2 = r2.push(dummy2);
                }
            } else {
                proof {
                    lemma_first_blank_eol_ge(linesv, i + 1);
                    lemma_first_blank_eol_skip(linesv, i as int);
                    assert(spec_first_blank_eol(linesv, i as int) == spec_first_blank_eol(
                        linesv,
                        i + 1,
                    ));
                    assert((i as int) < spec_first_blank_eol(linesv, 0));
                }
                let res = parse1(ss);
                proof {
                    let r1p = r1;
                    r1 = r1.push(res);
                    lemma_parsed_range_prefix(r1p, r1, 0, r1p.len() as int);
                    assert(ss@ == spec_trim_eol(linesv[i as int]));
                    assert(call_ensures(parse1, (ss,), r1[i as int]));
                    assert(line_admits_eol(parse1, linesv[i as int], r1[i as int]));
                    r2 = r2.push(dummy2);
                }
                match res {
                    Result::Ok(v) => {
                        data1.push(v);
                    },
                    Result::Err(_) => {},
                }
                proof {
                    assert(data1@ == spec_parsed_range(r1, 0, r1.len() as int));
                }
            }
        } else {
            proof {
                assert(linesv[i as int] == lines@[i as int]@);
                assert(ss@ == spec_trim_eol(linesv[i as int]));
            }
            let res = parse2(ss);
            proof {
                let r2p = r2;
                r2 = r2.push(res);
                lemma_parsed_range_prefix(r2p, r2, r1.len() as int + 1, i as int);
                assert(ss@ == spec_trim_eol(linesv[i as int]));
                assert(call_ensures(parse2, (ss,), r2[i as int]));
                assert(line_admits_eol(parse2, linesv[i as int], r2[i as int]));
            }
            match res {
                Result::Ok(v) => {
                    data2.push(v);
                },
                Result::Err(_) => {},
            }
            proof {
                assert(data2@ == spec_parsed_range(r2, r1.len() as int + 1, i + 1));
            }
        }
        i = i + 1;
    }
    proof {
        if !in2 {
            lemma_first_blank_eol_skip(linesv, linesv.len() as int);
            assert(spec_first_blank_eol(linesv, linesv.len() as int) == linesv.len());
            assert(spec_parsed_range(r2, r1.len() as int + 1, linesv.len() as int) =~= data2@) by {
                assert(data2@.len() == 0);
            }
        }
    }
    (data1, data2)
}

/// Parses sectioned multi-line test input: the lines of `data`, handed to
/// `sectioned_input_from_iter`.
pub fn sectioned_test_input<
    T1,
    E1: SkippableErr,
    F1: Fn(&str) -> Result<T1, E1>,
    T2,
    E2: SkippableErr,
    F2: Fn(&str) -> Result<T2, E2>,
>(data: &str, parse1: F1, parse2: F2) -> (r: (Vec<T1>, Vec<T2>))
    requires
        parser_fits_eol(parse1, spec_lines(data@), 0, spec_first_blank_eol(spec_lines(data@), 0)),
        parser_fits_eol(
            parse2,
            spec_lines(data@),
            spec_first_blank_eol(spec_lines(data@), 0) + 1,
            spec_lines(data@).len() as int,
        ),
    ensures
        exists|r1: Seq<Result<T1, E1>>, r2: Seq<Result<T2, E2>>|
            #![trigger r1.len(), r2.len()]
            {
                let linesv = spec_lines(data@);
                let k = spec_first_blank_eol(linesv, 0);
                &&& r1.len() == k
                &&& r2.len() == linesv.len()
                &&& forall|i: int|
                    0 <= i < k ==> line_admits_eol(parse1, linesv[i], #[trigger] r1[i])
                &&& forall|i: int|
                    k < i < linesv.len() ==> line_admits_eol(parse2, linesv[i], #[trigger] r2[i])
                &&& r.0@ == spec_parsed_range(r1, 0, k)
                &&& r.1@ == spec_parsed_range(r2, k + 1, linesv.len() as int)
            },
{
    let lines = crate::read2::split_lines(data);
    sectioned_input_from_iter(&lines, parse1, parse2)
}

} // verus!
