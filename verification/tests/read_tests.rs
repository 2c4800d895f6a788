use ya_advent_lib::read;
use ya_advent_lib::read2;

fn parse_u32(s: &str) -> Result<u32, read2::ParseErr> {
    s.parse::<u32>().map_err(|_| read2::ParseErr::Skip)
}

fn parse_u32_eol(s: &str) -> Result<u32, read::ParseErr> {
    s.parse::<u32>().map_err(|_| read::ParseErr::Skip)
}

#[test]
fn lines_parse_and_skip() {
    let lines: Vec<String> = vec!["1".into(), "x".into(), "23".into()];
    let parsed = read2::input_from_iter(&lines, parse_u32);
    assert_eq!(parsed, vec![1, 23]);
    let parsed = read::input_from_iter(&lines, parse_u32_eol);
    assert_eq!(parsed, vec![1, 23]);
}

#[test]
fn test_input_splits_lines() {
    let parsed = read2::test_input("4\n5\n6\n", parse_u32);
    assert_eq!(parsed, vec![4, 5, 6]);
    let parsed = read::test_input("4\r\n5\r\n6", parse_u32_eol);
    assert_eq!(parsed, vec![4, 5, 6]);
    let empty = read2::test_input("", parse_u32);
    assert_eq!(empty, Vec::<u32>::new());
}

#[test]
fn blank_lines_split_groups() {
    let parsed = read2::grouped_test_input("1\n2\n\n3\n\n\n4", parse_u32);
    assert_eq!(parsed, vec![vec![1, 2], vec![3], vec![], vec![4]]);
    let parsed = read::grouped_test_input("1\n2\n\n3", parse_u32_eol);
    assert_eq!(parsed, vec![vec![1, 2], vec![3]]);
}

#[test]
fn trailing_newlines_are_trimmed() {
    let lines: Vec<String> = vec!["7\n".into(), "8\n\n".into()];
    let parsed = read2::input_from_iter(&lines, parse_u32);
    assert_eq!(parsed, vec![7, 8]);
    let lines: Vec<String> = vec!["7\r\n".into()];
    let parsed = read::input_from_iter(&lines, parse_u32_eol);
    assert_eq!(parsed, vec![7]);
}

#[test]
fn split_lines_matches_str_lines() {
    let data = "a\nbc\r\n\nd";
    let ours = read2::split_lines(data);
    let std_lines: Vec<String> = data.lines().map(|l| l.to_string()).collect();
    assert_eq!(ours, std_lines);
}

#[test]
fn sections_split_at_first_blank_line() {
    let (a, b) = read2::sectioned_test_input("1\n2\n\n30\n40", parse_u32, parse_u32);
    assert_eq!(a, vec![1, 2]);
    assert_eq!(b, vec![30, 40]);
    let (a, b) = read::sectioned_test_input("1\n2", parse_u32_eol, parse_u32_eol);
    assert_eq!(a, vec![1, 2]);
    assert_eq!(b, Vec::<u32>::new());
}
