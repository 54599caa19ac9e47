use evm_tools::state_roots::{
    compare_logs, parse_mismatch_line, read_mismatch_log, read_mismatch_report, MismatchEntry, MismatchLog,
};

fn root(c: char) -> String {
    std::iter::repeat(c).take(64).collect()
}

fn line(name: &str, got: char, want: char) -> String {
    format!("{}: post state root mismatch: got {}, want {}", name, root(got), root(want))
}

fn entry(name: &str, got: char, want: char) -> MismatchEntry {
    MismatchEntry { name: name.to_string(), got: root(got), want: root(want) }
}

fn log_of(entries: Vec<MismatchEntry>) -> MismatchLog {
    let mut log = MismatchLog::new();
    for e in entries {
        log.insert(e);
    }
    log
}

#[test]
fn a_mismatch_line_is_read() {
    let l = format!("INFO [01-01] {} trailing", line("stRandom/test_1.json", 'a', 'b'));
    let e = parse_mismatch_line(&l).unwrap();
    assert_eq!(e.name, "stRandom/test_1.json");
    assert_eq!(e.got, root('a'));
    assert_eq!(e.want, root('b'));
}

#[test]
fn other_lines_give_nothing() {
    assert!(parse_mismatch_line("all tests passed").is_none());
    let short = format!("t: post state root mismatch: got {}, want {}", "ab", root('b'));
    assert!(parse_mismatch_line(&short).is_none());
    let upper = format!("t: post state root mismatch: got {}, want {}", root('A'), root('b'));
    assert!(parse_mismatch_line(&upper).is_none());
}

#[test]
fn the_first_match_of_a_line_is_taken() {
    let l = format!("{} {}", line("one", '1', '2'), line("two", '3', '4'));
    let e = parse_mismatch_line(&l).unwrap();
    assert_eq!(e.name, "one");
    assert_eq!(e.got, root('1'));
}

#[test]
fn the_name_is_the_whole_run_before_the_marker() {
    let l = format!("x-{}", line("a.b/c_D9", 'e', 'f'));
    assert_eq!(parse_mismatch_line(&l).unwrap().name, "a.b/c_D9");
    let empty = format!("==> {}", line("", 'e', 'f'));
    assert_eq!(parse_mismatch_line(&empty).unwrap().name, "");
    let unicode = format!("é{}", line("n", '0', '9'));
    let e = parse_mismatch_line(&unicode).unwrap();
    assert_eq!(e.name, "n");
    assert_eq!(e.want, root('9'));
}

#[test]
fn roots_longer_than_64_digits_still_need_the_separator() {
    let long = format!("t: post state root mismatch: got {}0, want {}", root('a'), root('b'));
    assert!(parse_mismatch_line(&long).is_none());
    let long_want = format!("t: post state root mismatch: got {}, want {}00", root('a'), root('b'));
    assert_eq!(parse_mismatch_line(&long_want).unwrap().want, root('b'));
}

#[test]
fn a_later_entry_replaces_an_earlier_one() {
    let log = log_of(vec![entry("a", '1', '2'), entry("b", '3', '4'), entry("a", '5', '6')]);
    assert_eq!(log.len(), 2);
    let a = log.get(&"a".to_string()).unwrap();
    assert_eq!(a.got, root('5'));
    assert_eq!(a.want, root('6'));
    assert!(log.get(&"c".to_string()).is_none());
    let names: Vec<&String> = log.names();
    assert_eq!(names, vec![&"a".to_string(), &"b".to_string()]);
}

#[test]
fn comparison_of_two_logs() {
    let first = log_of(vec![
        entry("same", '1', '2'),
        entry("zfail", '1', '2'),
        entry("afail", '3', '2'),
        entry("wants", '1', '2'),
        entry("only1", '1', '2'),
    ]);
    let second = log_of(vec![
        entry("only2", '1', '2'),
        entry("wants", '1', '3'),
        entry("afail", '4', '2'),
        entry("zfail", '5', '2'),
        entry("same", '1', '2'),
    ]);
    let r = compare_logs(&first, &second);
    assert_eq!(r.ok_count, 1);
    assert_eq!(r.root_mismatch_count, 1);
    assert_eq!(r.only_first_count, 1);
    assert_eq!(r.only_second_count, 1);
    assert_eq!(r.failures.len(), 2);
    assert_eq!(r.failures[0].name, "afail");
    assert_eq!(r.failures[0].first_got, root('3'));
    assert_eq!(r.failures[0].second_got, root('4'));
    assert_eq!(r.failures[1].name, "zfail");
    assert_eq!(r.failures[1].second_got, root('5'));
    // every common test is counted once, every test of a log once
    assert_eq!(r.ok_count + r.failures.len() + r.root_mismatch_count, 4);
    assert_eq!(r.only_first_count + 4, first.len());
    assert_eq!(r.only_second_count + 4, second.len());
}

#[test]
fn comparison_of_a_log_with_itself() {
    let log = log_of(vec![entry("x", '1', '2'), entry("y", '3', '4')]);
    let r = compare_logs(&log, &log);
    assert_eq!(r.ok_count, 2);
    assert!(r.failures.is_empty());
    assert_eq!(r.root_mismatch_count, 0);
    assert_eq!(r.only_first_count, 0);
    assert_eq!(r.only_second_count, 0);
}

#[test]
fn comparison_with_an_empty_log() {
    let log = log_of(vec![entry("x", '1', '2')]);
    let empty = MismatchLog::new();
    let r = compare_logs(&log, &empty);
    assert_eq!(r.ok_count, 0);
    assert_eq!(r.only_first_count, 1);
    assert_eq!(r.only_second_count, 0);
}

#[test]
fn a_report_is_read_line_by_line() {
    let lines = vec![line("a", '1', '2'), line("b", '3', '4'), line("a", '5', '6')];
    let log = read_mismatch_log(&lines);
    assert_eq!(log.len(), 2);
    assert_eq!(log.get(&"a".to_string()).unwrap().got, root('5'));
    assert_eq!(log.get(&"b".to_string()).unwrap().want, root('4'));
}

#[test]
fn a_report_with_a_foreign_line_is_refused() {
    let lines = vec![line("a", '1', '2'), "PASS".to_string(), line("b", '3', '4')];
    assert!(read_mismatch_report(&lines).is_none());
    assert_eq!(read_mismatch_log(&[]).len(), 0);
    let good = vec![line("a", '1', '2')];
    assert_eq!(read_mismatch_report(&good).unwrap().len(), 1);
}
