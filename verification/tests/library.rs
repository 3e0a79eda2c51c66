use zsh_z::clock::timestamp_from_secs;
use zsh_z::command::{
    cd_command, completion_word, direct_target, final_action, internal_request, list_mode,
    match_query, parse_options, removal_target, Action, Internal, Method, Outcome,
};
use zsh_z::datafile::{
    datafile_path, forget_path, format_row, home_from, keep_rows, nonempty, pick_setting,
    split_lines, split_row, visit_path, Row,
};
use zsh_z::matching::select_matches;
use zsh_z::record::should_record;
use zsh_z::text::{chars_of, is_white_space, join_words, parse_i64, parse_usize, trim};
use zsh_z::{glob_match, make_pattern, now, shquote};

fn strings(words: &[&str]) -> Vec<String> {
    words.iter().map(|w| w.to_string()).collect()
}

/// A datafile line read with its rank as a floating-point number.
fn parse_line(line: &str) -> Option<(String, f64, i64)> {
    let row = split_row(line)?;
    let rank: f64 = row.rank_text.parse().ok()?;
    Some((row.path, rank, row.time))
}

#[test]
fn parse_line_valid_and_trims() {
    let e = parse_line("/home/u/proj|12|1700000000").unwrap();
    assert_eq!(e.0, "/home/u/proj");
    assert_eq!(e.1, 12.0);
    assert_eq!(e.2, 1_700_000_000);
    let e2 = parse_line("/a| 3.5 | 42 ").unwrap();
    assert_eq!(e2.1, 3.5);
    assert_eq!(e2.2, 42);
}

#[test]
fn parse_line_rejects_malformed() {
    assert!(parse_line("no-pipes").is_none());
    assert!(parse_line("/only|onepipe").is_none());
    assert!(parse_line("/a|notnum|100").is_none());
    assert!(parse_line("/a|5|notnum").is_none());
    assert!(parse_line("").is_none());
}

#[test]
fn glob_match_star_qmark_backtrack() {
    assert!(glob_match(b"*foo*", b"a/foo/b"));
    assert!(glob_match(b"?oo", b"foo"));
    assert!(glob_match(b"*", b"anything"));
    assert!(glob_match(b"foo*", b"foobar"));
    assert!(glob_match(b"*bar", b"foobar"));
    assert!(!glob_match(b"abc", b"abd"));
    assert!(!glob_match(b"?", b"ab"));
    assert!(!glob_match(b"*x", b"xy"));
}

#[test]
fn make_pattern_wrap_and_space_runs() {
    assert_eq!(make_pattern("foo", false), "*foo*");
    assert_eq!(make_pattern("foo", true), "foo*");
    assert_eq!(make_pattern("foo bar", false), "*foo*bar*");
    assert_eq!(make_pattern("foo   bar", false), "*foo*bar*");
}

#[test]
fn shquote_escapes() {
    assert_eq!(shquote("plain"), "'plain'");
    assert_eq!(shquote("it's"), r"'it'\''s'");
}

#[test]
fn glob_star_in_text_is_matched_by_star() {
    assert!(glob_match(b"*a", b"*ba"));
    assert!(glob_match(b"a*c", b"a*c"));
    assert!(glob_match(b"", b""));
    assert!(!glob_match(b"", b"a"));
    assert!(glob_match(b"**", b""));
    assert!(glob_match(b"*a*b*c*", b"xxaxxbxxc"));
    assert!(!glob_match(b"*a*b*c*", b"xxcxxbxxa"));
}

#[test]
fn glob_laws_on_examples() {
    assert!(glob_match(b"*", b""));
    assert!(glob_match(b"*", b"/a/b/c"));
    assert!(glob_match(b"?", b"/"));
    assert!(!glob_match(b"?", b""));
    assert!(glob_match(b"abc", b"abc"));
    assert!(!glob_match(b"abc", b"abcd"));
    assert!(glob_match(b"*proj*", b"/home/u/proj/src"));
    assert!(!glob_match(b"*proj*", b"/home/u/prj"));
    assert!(glob_match(b"/home*", b"/home/u"));
    assert!(!glob_match(b"/home*", b"/x/home"));
}

#[test]
fn make_pattern_edges() {
    assert_eq!(make_pattern("", false), "**");
    assert_eq!(make_pattern("", true), "*");
    assert_eq!(make_pattern(" a ", false), "**a**");
    assert_eq!(make_pattern("a\tb", true), "a*b*");
}

#[test]
fn shquote_edges() {
    assert_eq!(shquote(""), "''");
    assert_eq!(shquote("'"), r"''\'''");
    assert_eq!(shquote("/a b/c"), "'/a b/c'");
}

#[test]
fn timestamp_from_secs_cases() {
    assert_eq!(timestamp_from_secs(Some(42)), 42);
    assert_eq!(timestamp_from_secs(None), 0);
    assert_eq!(timestamp_from_secs(Some(u64::MAX)), -1);
    assert!(now() > 1_600_000_000);
}

#[test]
fn split_row_fields() {
    let r = split_row("/x|y|z|7").unwrap();
    assert_eq!(r.path, "/x");
    assert_eq!(r.rank_text, "y|z");
    assert_eq!(r.time, 7);
    let r = split_row("/x| 1.5 |  -3 ").unwrap();
    assert_eq!(r.rank_text, "1.5");
    assert_eq!(r.time, -3);
    assert!(split_row("/x|1|+").is_none());
    assert!(split_row("/x|1|99999999999999999999").is_none());
    assert_eq!(split_row("/x|1|+5").unwrap().time, 5);
}

#[test]
fn trim_cases() {
    assert_eq!(trim("  a b \n"), "a b");
    assert_eq!(trim("   "), "");
    assert_eq!(trim(""), "");
}

#[test]
fn datafile_location_choices() {
    let s = |v: &str| Some(v.to_string());
    assert_eq!(datafile_path(s("/d1"), s("/d2"), s("/h"), s("/e")), "/d1");
    assert_eq!(datafile_path(s(""), s("/d2"), s("/h"), s("/e")), "/d2");
    assert_eq!(datafile_path(None, s(""), s("/h"), s("/e")), "/h/.z");
    assert_eq!(datafile_path(None, None, s(""), s("/e")), "/e/.z");
    assert_eq!(datafile_path(None, None, None, None), "/.z");
    assert_eq!(nonempty(s("")), None);
    assert_eq!(nonempty(s("x")), s("x"));
    assert_eq!(pick_setting(None, s("b")), s("b"));
    assert_eq!(pick_setting(s("a"), s("b")), s("a"));
    assert_eq!(home_from(s(""), s("")), s(""));
    assert_eq!(home_from(None, None), None);
}

#[test]
fn should_record_cases() {
    let s = |v: &str| Some(v.to_string());
    assert!(!should_record("", None, None));
    assert!(!should_record("/home/u", s("/home/u"), None));
    assert!(should_record("/home/u/p", s("/home/u"), None));
    assert!(!should_record("/tmp/x", None, s("/var  /tmp")));
    assert!(should_record("/tm", None, s("/var  /tmp")));
    assert!(should_record("/opt", None, s("   ")));
    assert!(!should_record("/opt/a", None, s("\t/opt")));
}

fn row(path: &str, rank: f64, time: i64) -> Row<f64> {
    Row { path: path.to_string(), rank, time }
}

#[test]
fn visit_forget_keep_rows() {
    let rows = vec![row("/a", 2.0, 1), row("/b", 5.0, 2), row("/a", 0.5, 3)];
    let out = visit_path(rows, "/a", 100, |r: f64| r + 1.0, 1.0);
    assert_eq!(out.len(), 3);
    assert_eq!((out[0].rank, out[0].time), (3.0, 100));
    assert_eq!((out[1].rank, out[1].time), (5.0, 2));
    assert_eq!((out[2].rank, out[2].time), (1.5, 100));
    let out = visit_path(out, "/c", 200, |r: f64| r + 1.0, 1.0);
    assert_eq!(out.len(), 4);
    assert_eq!((out[3].path.as_str(), out[3].rank, out[3].time), ("/c", 1.0, 200));

    let keep = vec![true, false, true, false];
    let kept = keep_rows(out, &keep, "/c");
    let paths: Vec<&str> = kept.iter().map(|r| r.path.as_str()).collect();
    assert_eq!(paths, vec!["/a", "/a", "/c"]);

    let (left, changed) = forget_path(kept, "/a");
    assert!(changed);
    assert_eq!(left.len(), 1);
    assert_eq!(left[0].path, "/c");
    let (left, changed) = forget_path(left, "/zzz");
    assert!(!changed);
    assert_eq!(left.len(), 1);
}

#[test]
fn select_matches_prefers_case_sensitive() {
    let paths = strings(&["/home/Proj", "/home/proj", "/srv/PROJ/x", "/other"]);
    assert_eq!(select_matches("*proj*", &paths), vec![1]);
    assert_eq!(select_matches("*PROJ*", &paths), vec![2]);
    assert_eq!(select_matches("*pRoJ*", &paths), vec![0, 1, 2]);
    assert_eq!(select_matches("*nothing*", &paths), Vec::<usize>::new());
}

#[test]
fn parse_options_cases() {
    let o = parse_options(&strings(&["-c", "-r", "foo", "bar"]));
    assert_eq!(o.outcome, Outcome::Run);
    assert_eq!(o.method, Method::Rank);
    assert!(o.restrict_cwd && !o.echo && !o.list && !o.remove);
    assert_eq!(o.words, strings(&["foo", "bar"]));

    let o = parse_options(&strings(&["-t", "-e", "-l", "-x", "-", "x"]));
    assert_eq!(o.method, Method::Time);
    assert!(o.echo && o.list && o.remove);
    assert_eq!(o.words, strings(&["-", "x"]));

    let o = parse_options(&strings(&["a", "--", "-c", "b"]));
    assert_eq!(o.outcome, Outcome::Run);
    assert!(!o.restrict_cwd);
    assert_eq!(o.words, strings(&["a", "-c", "b"]));

    assert_eq!(parse_options(&strings(&["-h", "-q"])).outcome, Outcome::Help);
    assert_eq!(parse_options(&strings(&["--help"])).outcome, Outcome::Help);
    assert_eq!(parse_options(&strings(&["a", "-q", "-h"])).outcome, Outcome::BadOption);
    assert_eq!(parse_options(&strings(&[])).method, Method::Frecency);
}

#[test]
fn internal_requests() {
    match internal_request(&strings(&["--add", "/a", "b"])) {
        Some(Internal::Add(p)) => assert_eq!(p, "/a b"),
        _ => panic!("expected --add"),
    }
    match internal_request(&strings(&["--complete", "pr", "x"])) {
        Some(Internal::Complete(q)) => assert_eq!(q, "pr"),
        _ => panic!("expected --complete"),
    }
    match internal_request(&strings(&["--complete"])) {
        Some(Internal::Complete(q)) => assert_eq!(q, ""),
        _ => panic!("expected --complete"),
    }
    assert!(internal_request(&strings(&["-l", "--add"])).is_none());
    assert!(internal_request(&strings(&[])).is_none());
}

#[test]
fn completion_and_command_choices() {
    assert_eq!(completion_word(&strings(&["2", "z", "pro"])), Some("pro".to_string()));
    assert_eq!(completion_word(&strings(&["3", "z", "pro"])), Some(String::new()));
    assert_eq!(completion_word(&strings(&["0", "z"])), Some(String::new()));
    assert_eq!(completion_word(&strings(&["x", "z"])), None);
    assert_eq!(completion_word(&strings(&[])), None);

    assert_eq!(removal_target("", Some("/pwd".to_string())), "/pwd");
    assert_eq!(removal_target("", None), "");
    assert_eq!(removal_target("/q", Some("/pwd".to_string())), "/q");

    let w = strings(&["a", "/abs"]);
    assert_eq!(direct_target(&w, false, false), Some("/abs".to_string()));
    assert_eq!(direct_target(&w, true, false), None);
    assert_eq!(direct_target(&strings(&["/abs", "rel"]), false, false), None);

    assert_eq!(match_query("src", true, Some("/home/u".to_string())), "/home/u src");
    assert_eq!(match_query("src", false, Some("/home/u".to_string())), "src");
    assert_eq!(match_query("src", true, None), " src");
    assert_eq!(make_pattern(&match_query("src", true, Some("/p".to_string())), true), "/p*src*");

    assert!(list_mode(false, ""));
    assert!(list_mode(true, "q"));
    assert!(!list_mode(false, "q"));

    assert_eq!(join_words(&strings(&["a", "b", "c"]), 1), "b c");
    assert_eq!(join_words(&strings(&["a"]), 1), "");
}

#[test]
fn white_space_agrees_with_std() {
    for code in 0u32..=0x10FFFF {
        if let Some(c) = char::from_u32(code) {
            assert_eq!(is_white_space(c), c.is_whitespace(), "at {code:#x}");
        }
    }
}

#[test]
fn number_parsing_agrees_with_std() {
    let cases = [
        "", "+", "-", "0", "-0", "+0", "42", "+42", "-42", "+-5", "-+5", "4 2", " 42", "42 ",
        "9223372036854775807", "9223372036854775808", "-9223372036854775808",
        "-9223372036854775809", "18446744073709551615", "18446744073709551616",
        "000000000000000000000000000001", "1a", "a1", "١٢", "99999999999999999999999999",
    ];
    for s in cases {
        assert_eq!(parse_i64(s), s.parse::<i64>().ok(), "i64 {s:?}");
        assert_eq!(parse_usize(s), s.parse::<usize>().ok(), "usize {s:?}");
    }
}

#[test]
fn format_row_writes_decimal_time() {
    assert_eq!(format_row("/a", "1.5", -42), "/a|1.5|-42");
    assert_eq!(format_row("/a b", "12", 1_700_000_000), "/a b|12|1700000000");
    for t in [0i64, 7, -7, 10, 99, 100, i64::MAX, i64::MIN, -1_000_000] {
        let line = format_row("/p", "3", t);
        assert_eq!(line, format!("/p|3|{t}"));
        let row = split_row(&line).unwrap();
        assert_eq!((row.path.as_str(), row.rank_text.as_str(), row.time), ("/p", "3", t));
    }
}

#[test]
fn split_lines_agrees_with_std() {
    let cases = [
        "", "a", "a\n", "a\nb", "a\r\nb\r\n", "a\rb", "\n\n", "x\r", "x\r\r\n", "\r\n", "é\nü",
    ];
    for s in cases {
        let got = split_lines(s);
        let want: Vec<String> = s.lines().map(|l| l.to_string()).collect();
        assert_eq!(got, want, "{s:?}");
    }
    assert_eq!(chars_of("aé"), vec!['a', 'é']);
}

#[test]
fn final_action_and_cd_command() {
    assert!(matches!(final_action(true, false, Some("/a".to_string()), 2), Action::List { status: 0 }));
    assert!(matches!(final_action(true, true, None, 0), Action::List { status: 1 }));
    match final_action(false, true, Some("/a".to_string()), 1) {
        Action::Echo(p) => assert_eq!(p, "/a"),
        _ => panic!("expected echo"),
    }
    match final_action(false, false, Some("/a".to_string()), 1) {
        Action::ChangeDir(p) => assert_eq!(p, "/a"),
        _ => panic!("expected cd"),
    }
    assert!(matches!(final_action(false, false, None, 0), Action::NoMatch));
    assert_eq!(cd_command("it's"), r"cd -- 'it'\''s'");
}
