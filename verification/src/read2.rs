use vstd::prelude::*;

verus! {

/// Why a line failed to parse: a real error, or a line the parser chose to
/// skip.
#[derive(Clone, Copy)]
pub enum ParseErr {
    Fail,
    Skip,
}

/// Parse errors that can mark themselves as harmless: skipped lines are
/// dropped, anything else stops the program.
pub trait SkippableErr {
    spec fn spec_skipped(&self) -> bool;

    fn is_skipped(&self) -> (r: bool)
        ensures
            r == self.spec_skipped(),
    ;
}

impl SkippableErr for ParseErr {
    open spec fn spec_skipped(&self) -> bool {
        self is Skip
    }

    fn is_skipped(&self) -> (r: bool)
        ensures
            r == self.spec_skipped(),
    {
        match self {
            ParseErr::Skip => true,
            ParseErr::Fail => false,
        }
    }
}

/// `s` with every trailing newline character removed.
pub open spec fn spec_trim_newlines(s: Seq<char>) -> Seq<char>
    decreases s.len(),
{
    if s.len() > 0 && s.last() == '\n' {
        spec_trim_newlines(s.drop_last())
    } else {
        s
    }
}

/// The lines of `s`: split at `'\n'`, one `'\r'` stripped from the end of
/// each split segment, and nothing after a final line break. The pair carries
/// the finished lines and the unfinished tail.
pub open spec fn spec_lines_upto(s: Seq<char>, i: int) -> (Seq<Seq<char>>, Seq<char>)
    decreases i,
{
    if i <= 0 {
        (Seq::empty(), Seq::empty())
    } else {
        let (done, cur) = spec_lines_upto(s, i - 1);
        if s[i - 1] == '\n' {
            let line = if cur.len() > 0 && cur.last() == '\r' {
                cur.drop_last()
            } else {
                cur
            };
            (done.push(line), Seq::empty())
        } else {
            (done, cur.push(s[i - 1]))
        }
    }
}

/// The lines of `s`, as `str::lines` yields them.
pub open spec fn spec_lines(s: Seq<char>) -> Seq<Seq<char>> {
    let (done, cur) = spec_lines_upto(s, s.len() as int);
    if cur.len() > 0 {
        done.push(cur)
    } else {
        done
    }
}

/// What `input_from_iter` builds from the lines, given the outcome the parser
/// produced for each: the values of the lines that parsed, in order.
pub open spec fn spec_parsed<T, E>(lines: Seq<Seq<char>>, results: Seq<Result<T, E>>, i: int) -> Seq<
    T,
>
    decreases i,
{
    if i <= 0 {
        Seq::empty()
    } else {
        let prev = spec_parsed(lines, results, i - 1);
        match results[i - 1] {
            Result::Ok(v) => prev.push(v),
            Result::Err(_) => prev,
        }
    }
}

/// What `grouped_input_from_iter` builds: values grouped into rows, a blank
/// line closing the current row. The pair carries the finished rows and the
/// open row.
pub open spec fn spec_grouped<T, E>(
    lines: Seq<Seq<char>>,
    results: Seq<Result<T, E>>,
    i: int,
) -> (Seq<Seq<T>>, Seq<T>)
    decreases i,
{
    if i <= 0 {
        (Seq::empty(), Seq::empty())
    } else {
        let (rows, row) = spec_grouped(lines, results, i - 1);
        if spec_trim_newlines(lines[i - 1]).len() == 0 {
            (rows.push(row), Seq::empty())
        } else {
            match results[i - 1] {
                Result::Ok(v) => (rows, row.push(v)),
                Result::Err(_) => (rows, row),
            }
        }
    }
}

/// The parsed values of the first `i` lines depend only on the first `i`
/// outcomes.
pub proof fn lemma_parsed_prefix<T, E>(
    lines: Seq<Seq<char>>,
    r1: Seq<Result<T, E>>,
    r2: Seq<Result<T, E>>,
    i: int,
)
    requires
        forall|j: int| 0 <= j < i ==> r1[j] == r2[j],
    ensures
        spec_parsed(lines, r1, i) == spec_parsed(lines, r2, i),
    decreases i,
{
    if i > 0 {
        lemma_parsed_prefix(lines, r1, r2, i - 1);
    }
}

/// The grouping of the first `i` lines depends only on the first `i`
/// outcomes.
pub proof fn lemma_grouped_prefix<T, E>(
    lines: Seq<Seq<char>>,
    r1: Seq<Result<T, E>>,
    r2: Seq<Result<T, E>>,
    i: int,
)
    requires
        forall|j: int| 0 <= j < i ==> r1[j] == r2[j],
    ensures
        spec_grouped(lines, r1, i) == spec_grouped(lines, r2, i),
    decreases i,
{
    if i > 0 {
        lemma_grouped_prefix(lines, r1, r2, i - 1);
    }
}

/// The parser admits `res` as an outcome for the line whose trimmed text is
/// `line`.
pub open spec fn line_admits<T, E, F: Fn(&str) -> Result<T, E>>(
    parse: F,
    line: Seq<char>,
    res: Result<T, E>,
) -> bool {
    exists|s: &str|
        #![trigger call_ensures(parse, (s,), res)]
        s@ == spec_trim_newlines(line) && call_ensures(parse, (s,), res)
}

/// The parser can be called on the trimmed text of every line in the index
/// range, and admits no fatal error for any of them.
pub open spec fn parser_fits<T, E: SkippableErr, F: Fn(&str) -> Result<T, E>>(
    parse: F,
    lines: Seq<Seq<char>>,
    lo: int,
    hi: int,
) -> bool {
    &&& forall|s: &str, i: int|
        #![trigger call_requires(parse, (s,)), lines[i]]
        lo <= i < hi && 0 <= i < lines.len() && s@ == spec_trim_newlines(lines[i])
            ==> call_requires(parse, (s,))
    &&& forall|s: &str, res: Result<T, E>, i: int|
        #![trigger call_ensures(parse, (s,), res), lines[i]]
        lo <= i < hi && 0 <= i < lines.len() && s@ == spec_trim_newlines(lines[i]) && call_ensures(
            parse,
            (s,),
            res,
        ) ==> (res matches Result::Err(e) ==> e.spec_skipped())
}

/// Each parser outcome in `results` is one the parser admits for the trimmed
/// text of the matching line, and none of its errors is fatal.
pub open spec fn results_admitted<T, E: SkippableErr, F: Fn(&str) -> Result<T, E>>(
    parse: F,
    lines: Seq<Seq<char>>,
    results: Seq<Result<T, E>>,
) -> bool {
    &&& results.len() == lines.len()
    &&& forall|i: int| 0 <= i < lines.len() ==> line_admits(parse, lines[i], #[trigger] results[i])
    &&& forall|i: int|
        0 <= i < results.len() ==> ((#[trigger] results[i]) matches Result::Err(e)
            ==> e.spec_skipped())
}

/// Removes every trailing newline character from one line.
fn trim_newlines(line: &String) -> (r: Vec<char>)
    ensures
        r@ == spec_trim_newlines(line@),
{
    let chars = crate::read::str_chars(line.as_str());
    let mut n = chars.len();
    proof {
        assert(chars@.subrange(0, n as int) =~= chars@);
    }
    while n > 0
        invariant
            n <= chars@.len(),
            chars@ == line@,
            spec_trim_newlines(line@) == spec_trim_newlines(chars@.subrange(0, n as int)),
        ensures
            n <= chars@.len(),
            spec_trim_newlines(line@) == spec_trim_newlines(chars@.subrange(0, n as int)),
            n == 0 || chars@[n - 1] != '\n',
        decreases n,
    {
        let c = chars[n - 1];
        if c != '\n' {
            break ;
        }
        proof {
            assert(chars@.subrange(0, n as int).drop_last() =~= chars@.subrange(0, n - 1));
        }
        n = n - 1;
    }
    let mut r: Vec<char> = Vec::new();
    let mut i: usize = 0;
    while i < n
        invariant
            i <= n <= chars@.len(),
            chars@ == line@,
            r@ == chars@.subrange(0, i as int),
        decreases n - i,
    {
        let c = chars[i];
        r.push(c);
        proof {
            assert(r@ =~= chars@.subrange(0, i + 1));
        }
        i = i + 1;
    }
    proof {
        assert(spec_trim_newlines(chars@.subrange(0, n as int)) == chars@.subrange(0, n as int));
    }
    r
}

/// Parses each line with `parse` after trimming trailing newlines, keeping
/// the successes in order; lines whose parse is skipped are dropped. A parser
/// that can fail outright is not accepted.
pub fn input_from_iter<T, E: SkippableErr, F: Fn(&str) -> Result<T, E>>(
    lines: &Vec<String>,
    parse: F,
) -> (r: Vec<T>)
    requires
        parser_fits(parse, lines@.map_values(|l: String| l@), 0, lines@.len() as int),
    ensures
        exists|results: Seq<Result<T, E>>|
            #![trigger results.len()]
            {
                &&& results_admitted(parse, lines@.map_values(|l: String| l@), results)
                &&& r@ == spec_parsed(
                    lines@.map_values(|l: String| l@),
                    results,
                    lines@.len() as int,
                )
            },
{
    let ghost linesv = lines@.map_values(|l: String| l@);
    let mut r: Vec<T> = Vec::new();
    let ghost mut results: Seq<Result<T, E>> = Seq::empty();
    let mut i: usize = 0;
    while i < lines.len()
        invariant
            parser_fits(parse, linesv, 0, linesv.len() as int),
            linesv == lines@.map_values(|l: String| l@),
            i <= lines@.len(),
            results.len() == i,
            forall|j: int|
                0 <= j < i ==> line_admits(parse, linesv[j], #[trigger] results[j]),
            forall|j: int|
                0 <= j < i ==> ((#[trigger] results[j]) matches Result::Err(e)
                    ==> e.spec_skipped()),
            r@ == spec_parsed(linesv, results, i as int),
        decreases lines@.len() - i,
    {
        let trimmed = trim_newlines(&lines[i]);
        let s = crate::read::chars_to_string(&trimmed);
        let ss = s.as_str();
        proof {
            assert(linesv[i as int] == lines@[i as int]@);
            assert(ss@ == spec_trim_newlines(linesv[i as int]));
        }
        let res = parse(ss);
        proof {
            assert(linesv[i as int] == lines@[i as int]@);
            let results0 = results;
            results = results.push(res);
            lemma_parsed_prefix(linesv, results0, results, i as int);
            assert(ss@ == spec_trim_newlines(linesv[i as int]));
            assert(call_ensures(parse, (ss,), results[i as int]));
            assert(line_admits(parse, linesv[i as int], results[i as int]));
        }
        match res {
            Result::Ok(v) => {
                r.push(v);
            },
            Result::Err(_) => {},
        }
        proof {
            assert(spec_parsed(linesv, results, i + 1) == r@);
        }
        i = i + 1;
    }
    proof {
        assert(results_admitted(parse, linesv, results));
    }
    r
}

/// Splits `data` into its lines, as `str::lines` does.
pub fn split_lines(data: &str) -> (r: Vec<String>)
    ensures
        r@.map_values(|l: String| l@) == spec_lines(data@),
{
    let chars = crate::read::str_chars(data);
    let n = chars.len();
    let mut r: Vec<String> = Vec::new();
    let mut cur: Vec<char> = Vec::new();
    let mut i: usize = 0;
    proof {
        assert(r@.map_values(|l: String| l@) =~= spec_lines_upto(data@, 0).0);
    }
    while i < n
        invariant
            chars@ == data@,
            n == data@.len(),
            i <= n,
            r@.map_values(|l: String| l@) == spec_lines_upto(data@, i as int).0,
            cur@ == spec_lines_upto(data@, i as int).1,
        decreases n - i,
    {
        let c = chars[i];
        if c == '\n' {
            let line = if cur.len() > 0 && {
                let lastc = cur[cur.len() - 1];
                lastc == '\r'
            } {
                let ghost cv = cur@;
                let mut line = cur;
                line.pop();
                proof {
                    assert(line@ =~= cv.drop_last());
                }
                line
            } else {
                cur
            };
            let s = crate::read::chars_to_string(&line);
            let ghost rv = r@;
            r.push(s);
            proof {
                assert(r@.map_values(|l: String| l@) =~= rv.map_values(|l: String| l@).push(
                    line@,
                ));
            }
            cur = Vec::new();
        } else {
            cur.push(c);
        }
        i = i + 1;
    }
    if cur.len() > 0 {
        let s = crate::read::chars_to_string(&cur);
        let ghost rv = r@;
        r.push(s);
        proof {
            assert(r@.map_values(|l: String| l@) =~= rv.map_values(|l: String| l@).push(cur@));
        }
    }
    r
}

/// Parses multi-line test input: the lines of `data`, handed to
/// `input_from_iter`.
pub fn test_input<T, E: SkippableErr, F: Fn(&str) -> Result<T, E>>(data: &str, parse: F) -> (r:
    Vec<T>)
    requires
        parser_fits(parse, spec_lines(data@), 0, spec_lines(data@).len() as int),
    ensures
        exists|results: Seq<Result<T, E>>|
            #![trigger results.len()]
            {
                &&& results_admitted(parse, spec_lines(data@), results)
                &&& r@ == spec_parsed(spec_lines(data@), results, spec_lines(data@).len() as int)
            },
{
    let lines = split_lines(data);
    input_from_iter(&lines, parse)
}

/// Parses lines into groups: a blank line closes the current group, parsed
/// values join it, skipped lines are dropped, and a non-empty final group is
/// kept.
pub fn grouped_input_from_iter<T, E: SkippableErr, F: Fn(&str) -> Result<T, E>>(
    lines: &Vec<String>,
    parse: F,
) -> (r: Vec<Vec<T>>)
    requires
        parser_fits(parse, lines@.map_values(|l: String| l@), 0, lines@.len() as int),
    ensures
        exists|results: Seq<Result<T, E>>|
            #![trigger results.len()]
            {
                &&& results_admitted(parse, lines@.map_values(|l: String| l@), results)
                &&& r@.map_values(|row: Vec<T>| row@) == {
                    let (rows, row) = spec_grouped(
                        lines@.map_values(|l: String| l@),
                        results,
                        lines@.len() as int,
                    );
                    if row.len() > 0 {
                        rows.push(row)
                    } else {
                        rows
                    }
                }
            },
{
    let ghost linesv = lines@.map_values(|l: String| l@);
    let mut data: Vec<Vec<T>> = Vec::new();
    let mut row: Vec<T> = Vec::new();
    let ghost mut results: Seq<Result<T, E>> = Seq::empty();
    let mut i: usize = 0;
    while i < lines.len()
        invariant
            parser_fits(parse, linesv, 0, linesv.len() as int),
            linesv == lines@.map_values(|l: String| l@),
            i <= lines@.len(),
            results.len() == i,
            forall|j: int|
                0 <= j < i ==> line_admits(parse, linesv[j], #[trigger] results[j]),
            forall|j: int|
                0 <= j < i ==> ((#[trigger] results[j]) matches Result::Err(e)
                    ==> e.spec_skipped()),
            data@.map_values(|rw: Vec<T>| rw@) == spec_grouped(linesv, results, i as int).0,
            row@ == spec_grouped(linesv, results, i as int).1,
        decreases lines@.len() - i,
    {
        let trimmed = trim_newlines(&lines[i]);
        let s = crate::read::chars_to_string(&trimmed);
        let ss = s.as_str();
        proof {
            assert(linesv[i as int] == lines@[i as int]@);
            assert(ss@ == spec_trim_newlines(linesv[i as int]));
        }
        let res = parse(ss);
        proof {
            let results0 = results;
            results = results.push(res);
            lemma_grouped_prefix(linesv, results0, results, i as int);
            assert(ss@ == spec_trim_newlines(linesv[i as int]));
            assert(call_ensures(parse, (ss,), results[i as int]));
            assert(line_admits(parse, linesv[i as int], results[i as int]));
        }
        if trimmed.len() == 0 {
            let ghost dv = data@;
            let full_row = row;
            data.push(full_row);
            row = Vec::new();
            proof {
                assert(data@.map_values(|rw: Vec<T>| rw@) =~= dv.map_values(
                    |rw: Vec<T>| rw@,
                ).push(spec_grouped(linesv, results, i as int).1));
            }
        } else {
            match res {
                Result::Ok(v) => {
                    row.push(v);
                },
                Result::Err(_) => {},
            }
        }
        i = i + 1;
    }
    if row.len() > 0 {
        let ghost dv = data@;
        data.push(row);
        proof {
            assert(data@.map_values(|rw: Vec<T>| rw@) =~= dv.map_values(|rw: Vec<T>| rw@).push(
                spec_grouped(linesv, results, lines@.len() as int).1,
            ));
        }
    }
    proof {
        assert(results_admitted(parse, linesv, results));
    }
    data
}

/// Parses grouped multi-line test input: the lines of `data`, handed to
/// `grouped_input_from_iter`.
pub fn grouped_test_input<T, E: SkippableErr, F: Fn(&str) -> Result<T, E>>(
    data: &str,
    parse: F,
) -> (r: Vec<Vec<T>>)
    requires
        parser_fits(parse, spec_lines(data@), 0, spec_lines(data@).len() as int),
    ensures
        exists|results: Seq<Result<T, E>>|
            #![trigger results.len()]
            {
                &&& results_admitted(parse, spec_lines(data@), results)
                &&& r@.map_values(|row: Vec<T>| row@) == {
                    let (rows, row) = spec_grouped(
                        spec_lines(data@),
                        results,
                        spec_lines(data@).len() as int,
                    );
                    if row.len() > 0 {
                        rows.push(row)
                    } else {
                        rows
                    }
                }
            },
{
    let lines = split_lines(data);
    grouped_input_from_iter(&lines, parse)
}

/// The values of the outcomes at positions `lo..hi`, in order, errors
/// dropped.
pub open spec fn spec_parsed_range<T, E>(results: Seq<Result<T, E>>, lo: int, hi: int) -> Seq<T>
    decreases hi - lo,
{
    if hi <= lo {
        Seq::empty()
    } else {
        let prev = spec_parsed_range(results, lo, hi - 1);
        match results[hi - 1] {
            Result::Ok(v) => prev.push(v),
            Result::Err(_) => prev,
        }
    }
}

/// The values at `lo..hi` depend only on the outcomes at `lo..hi`.
pub proof fn lemma_parsed_range_prefix<T, E>(
    r1: Seq<Result<T, E>>,
    r2: Seq<Result<T, E>>,
    lo: int,
    hi: int,
)
    requires
        forall|j: int| lo <= j < hi ==> r1[j] == r2[j],
    ensures
        spec_parsed_range(r1, lo, hi) == spec_parsed_range(r2, lo, hi),
    decreases hi - lo,
{
    if hi > lo {
        lemma_parsed_range_prefix(r1, r2, lo, hi - 1);
    }
}

/// The position of the first line that is blank after trimming, scanning
/// from `i`; the line count when none is.
pub open spec fn spec_first_blank(lines: Seq<Seq<char>>, i: int) -> int
    decreases lines.len() - i,
{
    if i < 0 || i >= lines.len() {
        lines.len() as int
    } else if spec_trim_newlines(lines[i]).len() == 0 {
        i
    } else {
        spec_first_blank(lines, i + 1)
    }
}

/// The first blank line at or after `i` is no earlier than `i`.
proof fn lemma_first_blank_ge(lines: Seq<Seq<char>>, i: int)
    requires
        0 <= i <= lines.len(),
    ensures
        spec_first_blank(lines, i) >= i,
    decreases lines.len() - i,
{
    if 0 <= i < lines.len() && spec_trim_newlines(lines[i]).len() > 0 {
        lemma_first_blank_ge(lines, i + 1);
    }
}

/// Scanning for the first blank line can skip a known-nonblank prefix.
proof fn lemma_first_blank_skip(lines: Seq<Seq<char>>, i: int)
    requires
        0 <= i <= lines.len(),
        forall|j: int| 0 <= j < i ==> spec_trim_newlines(#[trigger] lines[j]).len() > 0,
    ensures
        spec_first_blank(lines, 0) == spec_first_blank(lines, i),
    decreases i,
{
    if i > 0 {
        lemma_first_blank_skip(lines, i - 1);
    }
}

/// Splits the lines at the first blank line and parses the two sections with
/// their own parsers: values before the blank line go to the first vector,
/// everything after it (blank or not) is parsed into the second. Parsers
/// that can fail outright are not accepted.
pub fn sectioned_input_from_iter<
    T1,
    E1: SkippableErr,
    F1: Fn(&str) -> Result<T1, E1>,
    T2,
    E2: SkippableErr,
    F2: Fn(&str) -> Result<T2, E2>,
>(
    lines: &Vec<String>,
    parse1: F1,
    parse2: F2,
) -> (r: (Vec<T1>, Vec<T2>))
    requires
        parser_fits(
            parse1,
            lines@.map_values(|l: String| l@),
            0,
            spec_first_blank(lines@.map_values(|l: String| l@), 0),
        ),
        parser_fits(
            parse2,
            lines@.map_values(|l: String| l@),
            spec_first_blank(lines@.map_values(|l: String| l@), 0) + 1,
            lines@.len() as int,
        ),
    ensures
        exists|r1: Seq<Result<T1, E1>>, r2: Seq<Result<T2, E2>>|
            #![trigger r1.len(), r2.len()]
            {
                let linesv = lines@.map_values(|l: String| l@);
                let k = spec_first_blank(linesv, 0);
                &&& r1.len() == k
                &&& r2.len() == linesv.len()
                &&& forall|i: int| 0 <= i < k ==> line_admits(parse1, linesv[i], #[trigger] r1[i])
                &&& forall|i: int|
                    k < i < linesv.len() ==> line_admits(parse2, linesv[i], #[trigger] r2[i])
                &&& r.0@ == spec_parsed_range(r1, 0, k)
                &&& r.1@ == spec_parsed_range(r2, k + 1, linesv.len() as int)
            },
{
    let ghost linesv = lines@.map_values(|l: String| l@);
    let mut data1: Vec<T1> = Vec::new();
    let mut data2: Vec<T2> = Vec::new();
    let mut in2 = false;
    let ghost mut r1: Seq<Result<T1, E1>> = Seq::empty();
    let ghost mut r2: Seq<Result<T2, E2>> = Seq::empty();
    let ghost dummy2: Result<T2, E2> = arbitrary();
    let mut i: usize = 0;
    while i < lines.len()
        invariant
            parser_fits(parse1, linesv, 0, spec_first_blank(linesv, 0)),
            parser_fits(parse2, linesv, spec_first_blank(linesv, 0) + 1, linesv.len() as int),
            linesv == lines@.map_values(|l: String| l@),
            i <= linesv.len(),
            r2.len() == i,
            !in2 ==> {
                &&& r1.len() == i
                &&& forall|j: int|
                    0 <= j < i ==> spec_trim_newlines(#[trigger] linesv[j]).len() > 0
            },
            in2 ==> {
                &&& r1.len() == spec_first_blank(linesv, 0)
                &&& r1.len() < i
                &&& forall|j: int|
                    r1.len() < j < i ==> line_admits(parse2, linesv[j], #[trigger] r2[j])
                &&& data2@ == spec_parsed_range(r2, r1.len() as int + 1, i as int)
            },
            forall|j: int| 0 <= j < r1.len() ==> line_admits(parse1, linesv[j], #[trigger] r1[j]),
            data1@ == spec_parsed_range(r1, 0, r1.len() as int),
            !in2 ==> data2@.len() == 0,
        decreases linesv.len() - i,
    {
        let trimmed = trim_newlines(&lines[i]);
        let s = crate::read::chars_to_string(&trimmed);
        let ss = s.as_str();
        proof {
            assert(linesv[i as int] == lines@[i as int]@);
        }
        if !in2 {
            if trimmed.len() == 0 {
                in2 = true;
                proof {
                    lemma_first_blank_skip(linesv, i as int);
                    assert(spec_first_blank(linesv, i as int) == i);
                    r2 = r2.push(dummy2);
                }
            } else {
                proof {
                    lemma_first_blank_ge(linesv, i + 1);
                    lemma_first_blank_skip(linesv, i as int);
                    assert(spec_first_blank(linesv, i as int) == spec_first_blank(linesv, i + 1));
                    assert((i as int) < spec_first_blank(linesv, 0));
                }
                let res = parse1(ss);
                proof {
                    let r1p = r1;
                    r1 = r1.push(res);
                    lemma_parsed_range_prefix(r1p, r1, 0, r1p.len() as int);
                    assert(ss@ == spec_trim_newlines(linesv[i as int]));
                    assert(call_ensures(parse1, (ss,), r1[i as int]));
                    assert(line_admits(parse1, linesv[i as int], r1[i as int]));
                    r2 = r2.push(dummy2);
                }
                match res {
                    Result::Ok(v) => {
                        data1.push(v);
                    },
                    Result::Err(_) => {},
                }
                proof {
                    assert(data1@ == spec_parsed_range(r1, 0, r1.len() as int));
                }
            }
        } else {
            proof {
                assert(linesv[i as int] == lines@[i as int]@);
                assert(ss@ == spec_trim_newlines(linesv[i as int]));
            }
            let res = parse2(ss);
            proof {
                let r2p = r2;
                r2 = r2.push(res);
                lemma_parsed_range_prefix(r2p, r2, r1.len() as int + 1, i as int);
                assert(ss@ == spec_trim_newlines(linesv[i as int]));
                assert(call_ensures(parse2, (ss,), r2[i as int]));
                assert(line_admits(parse2, linesv[i as int], r2[i as int]));
            }
            match res {
                Result::Ok(v) => {
                    data2.push(v);
                },
                Result::Err(_) => {},
            }
            proof {
                assert(data2@ == spec_parsed_range(r2, r1.len() as int + 1, i + 1));
            }
        }
        i = i + 1;
    }
    proof {
        if !in2 {
            lemma_first_blank_skip(linesv, linesv.len() as int);
            assert(spec_first_blank(linesv, linesv.len() as int) == linesv.len());
            assert(spec_parsed_range(r2, r1.len() as int + 1, linesv.len() as int) =~= data2@) by {
                assert(data2@.len() == 0);
            }
        }
    }
    (data1, data2)
}

/// Parses sectioned multi-line test input: the lines of `data`, handed to
/// `sectioned_input_from_iter`.
pub fn sectioned_test_input<
    T1,
    E1: SkippableErr,
    F1: Fn(&str) -> Result<T1, E1>,
    T2,
    E2: SkippableErr,
    F2: Fn(&str) -> Result<T2, E2>,
>(data: &str, parse1: F1, parse2: F2) -> (r: (Vec<T1>, Vec<T2>))
    requires
        parser_fits(parse1, spec_lines(data@), 0, spec_first_blank(spec_lines(data@), 0)),
        parser_fits(
            parse2,
            spec_lines(data@),
            spec_first_blank(spec_lines(data@), 0) + 1,
            spec_lines(data@).len() as int,
        ),
    ensures
        exists|r1: Seq<Result<T1, E1>>, r2: Seq<Result<T2, E2>>|
            #![trigger r1.len(), r2.len()]
            {
                let linesv = spec_lines(data@);
                let k = spec_first_blank(linesv, 0);
                &&& r1.len() == k
                &&& r2.len() == linesv.len()
                &&& forall|i: int| 0 <= i < k ==> line_admits(parse1, linesv[i], #[trigger] r1[i])
                &&& forall|i: int|
                    k < i < linesv.len() ==> line_admits(parse2, linesv[i], #[trigger] r2[i])
                &&& r.0@ == spec_parsed_range(r1, 0, k)
                &&& r.1@ == spec_parsed_range(r2, k + 1, linesv.len() as int)
            },
{
    let lines = split_lines(data);
    sectioned_input_from_iter(&lines, parse1, parse2)
}

} // verus!
