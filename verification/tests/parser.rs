use covfuzz::fuzzer::parser::extract_hits_and_line_number;
use covfuzz::fuzzer::parser::get_cov;
use covfuzz::fuzzer::parser::get_hitted_lines;
use covfuzz::fuzzer::parser::get_reachable_lines;
use covfuzz::fuzzer::parser::parse_coverage;
use covfuzz::fuzzer::parser::Marker;
use std::collections::HashMap;
use std::collections::HashSet;

fn report(entries: &[(i32, Marker)]) -> HashMap<i32, Marker> {
    let mut map = HashMap::new();
    for (line, marker) in entries {
        map.insert(*line, *marker);
    }
    map
}

fn lines(numbers: &[i32]) -> HashSet<i32> {
    numbers.iter().copied().collect()
}

#[test]
fn a_hit_line_gives_its_count_and_number() {
    assert_eq!(extract_hits_and_line_number("    3:   42:"), Some((42, Marker::Hits(3))));
    assert_eq!(
        extract_hits_and_line_number("        1:   10:    int x = 0;"),
        Some((10, Marker::Hits(1)))
    );
    assert_eq!(extract_hits_and_line_number("7:8:"), Some((8, Marker::Hits(7))));
    assert_eq!(extract_hits_and_line_number("\t12:\t5:x"), Some((5, Marker::Hits(12))));
    assert_eq!(extract_hits_and_line_number("    0:    3:"), Some((3, Marker::Hits(0))));
}

#[test]
fn a_line_that_did_not_run_gives_not_executed() {
    assert_eq!(
        extract_hits_and_line_number("    #####:   12:    return 1;"),
        Some((12, Marker::NotExecuted))
    );
    assert_eq!(extract_hits_and_line_number("#:1:"), Some((1, Marker::NotExecuted)));
}

#[test]
fn a_line_without_a_statement_gives_not_instrumented() {
    assert_eq!(
        extract_hits_and_line_number("        -:    0:Source:cgi.c"),
        Some((0, Marker::NotInstrumented))
    );
    assert_eq!(
        extract_hits_and_line_number("        -:   11:}"),
        Some((11, Marker::NotInstrumented))
    );
}

#[test]
fn only_the_two_leading_fields_count() {
    assert_eq!(
        extract_hits_and_line_number("    2:   30:  a ? b : c; // 9: 9:"),
        Some((30, Marker::Hits(2)))
    );
}

#[test]
fn lines_of_another_shape_say_nothing() {
    assert_eq!(extract_hits_and_line_number(""), None);
    assert_eq!(extract_hits_and_line_number("no fields here"), None);
    assert_eq!(extract_hits_and_line_number("    3:   42"), None);
    assert_eq!(extract_hits_and_line_number("    3"), None);
    assert_eq!(extract_hits_and_line_number(":42:"), None);
    assert_eq!(extract_hits_and_line_number("3::"), None);
    assert_eq!(extract_hits_and_line_number("   :   :"), None);
    assert_eq!(extract_hits_and_line_number("    x:   42:"), None);
    assert_eq!(extract_hits_and_line_number("    3:   4x:"), None);
    assert_eq!(extract_hits_and_line_number("    3 :   42:"), None);
    assert_eq!(extract_hits_and_line_number("    3:   42 :"), None);
    assert_eq!(extract_hits_and_line_number("    3#:   42:"), None);
    assert_eq!(extract_hits_and_line_number("    #-:   42:"), None);
    assert_eq!(extract_hits_and_line_number("    =====:   42:"), None);
    assert_eq!(extract_hits_and_line_number("    3*:   42:"), None);
    assert_eq!(extract_hits_and_line_number("    3:   -:"), None);
    assert_eq!(extract_hits_and_line_number("    3:  -1:"), None);
}

#[test]
fn a_line_number_must_fit() {
    assert_eq!(
        extract_hits_and_line_number("1:2147483647:"),
        Some((2147483647, Marker::Hits(1)))
    );
    assert_eq!(extract_hits_and_line_number("1:2147483648:"), None);
    assert_eq!(extract_hits_and_line_number("1:99999999999999999999999:"), None);
    assert_eq!(extract_hits_and_line_number("1:0000000042:"), Some((42, Marker::Hits(1))));
}

#[test]
fn a_count_too_large_is_the_largest_count() {
    assert_eq!(
        extract_hits_and_line_number("18446744073709551615:1:"),
        Some((1, Marker::Hits(18446744073709551615)))
    );
    assert_eq!(
        extract_hits_and_line_number("18446744073709551616:1:"),
        Some((1, Marker::Hits(u64::MAX)))
    );
    assert_eq!(
        extract_hits_and_line_number("99999999999999999999999999:1:"),
        Some((1, Marker::Hits(u64::MAX)))
    );
    assert_eq!(
        extract_hits_and_line_number("18446744073709551614:1:"),
        Some((1, Marker::Hits(18446744073709551614)))
    );
}

#[test]
fn parse_coverage_reads_a_report() {
    let text = vec![
        "        -:    0:Source:cgi.c".to_owned(),
        "        -:    0:Graph:cgi.gcno".to_owned(),
        "        -:    1:#include <stdio.h>".to_owned(),
        "        1:    2:int main(int argc, char **argv) {".to_owned(),
        "        1:    3:    if (argc > 1) {".to_owned(),
        "    #####:    4:        puts(argv[1]);".to_owned(),
        "        -:    5:    }".to_owned(),
        "       12:    6:    return 0;".to_owned(),
        "this line is not part of the report".to_owned(),
        "        -:    7:}".to_owned(),
    ];
    let map = parse_coverage(&text);
    assert_eq!(
        map,
        report(&[
            (0, Marker::NotInstrumented),
            (1, Marker::NotInstrumented),
            (2, Marker::Hits(1)),
            (3, Marker::Hits(1)),
            (4, Marker::NotExecuted),
            (5, Marker::NotInstrumented),
            (6, Marker::Hits(12)),
            (7, Marker::NotInstrumented),
        ])
    );
}

#[test]
fn parse_coverage_of_nothing_is_empty() {
    assert!(parse_coverage(&Vec::new()).is_empty());
    assert!(parse_coverage(&vec!["".to_owned(), "junk".to_owned()]).is_empty());
}

#[test]
fn a_later_line_overrides_an_earlier_one() {
    let text = vec!["    #####:    4:".to_owned(), "        3:    4:".to_owned()];
    assert_eq!(parse_coverage(&text), report(&[(4, Marker::Hits(3))]));
    let text = vec!["        3:    4:".to_owned(), "    #####:    4:".to_owned()];
    assert_eq!(parse_coverage(&text), report(&[(4, Marker::NotExecuted)]));
}

#[test]
fn one_bad_line_does_not_spoil_the_rest() {
    let text = vec!["    1:    1:".to_owned(), "    ?:    2:".to_owned(), "    1:    3:".to_owned()];
    assert_eq!(parse_coverage(&text), report(&[(1, Marker::Hits(1)), (3, Marker::Hits(1))]));
}

#[test]
fn reachable_lines_leave_out_lines_without_a_statement() {
    let map = report(&[
        (10, Marker::Hits(1)),
        (11, Marker::NotInstrumented),
        (12, Marker::NotExecuted),
    ]);
    assert_eq!(
        get_reachable_lines(map),
        report(&[(10, Marker::Hits(1)), (12, Marker::NotExecuted)])
    );
}

#[test]
fn hitted_lines_are_those_with_a_count() {
    let map = report(&[
        (10, Marker::Hits(1)),
        (11, Marker::NotInstrumented),
        (12, Marker::NotExecuted),
        (13, Marker::Hits(0)),
        (14, Marker::Hits(250)),
    ]);
    let mut expected: HashMap<i32, u64> = HashMap::new();
    expected.insert(10, 1);
    expected.insert(13, 0);
    expected.insert(14, 250);
    assert_eq!(get_hitted_lines(map), expected);
}

#[test]
fn coverage_of_a_first_report() {
    let map = report(&[
        (10, Marker::Hits(1)),
        (11, Marker::NotInstrumented),
        (12, Marker::NotExecuted),
    ]);
    let mut seen = HashSet::new();
    let cov = get_cov(map, &seen);
    assert_eq!(cov.reachable_lines, 2);
    assert_eq!(cov.hitted_lines, 1);
    assert_eq!(cov.unique_hits(), 1);
    assert_eq!(cov.unique_lines, lines(&[10]));
    assert!(seen.is_empty());
    covfuzz::fuzzer::merge(&mut seen, &cov.unique_lines);
    assert_eq!(seen, lines(&[10]));
}

#[test]
fn coverage_counts_only_lines_not_seen_before() {
    let map = report(&[
        (1, Marker::Hits(4)),
        (2, Marker::Hits(1)),
        (3, Marker::NotExecuted),
        (4, Marker::Hits(9)),
        (5, Marker::NotInstrumented),
    ]);
    let seen = lines(&[1, 4, 77]);
    let cov = get_cov(map, &seen);
    assert_eq!(cov.reachable_lines, 4);
    assert_eq!(cov.hitted_lines, 3);
    assert_eq!(cov.unique_hits(), 1);
    assert_eq!(cov.unique_lines, lines(&[2]));
    assert_eq!(seen, lines(&[1, 4, 77]));
}

#[test]
fn coverage_of_an_empty_report_is_zero() {
    let cov = get_cov(HashMap::new(), &lines(&[1, 2]));
    assert_eq!(cov.reachable_lines, 0);
    assert_eq!(cov.hitted_lines, 0);
    assert_eq!(cov.unique_hits(), 0);
    assert!(cov.unique_lines.is_empty());
}

#[test]
fn a_report_seen_twice_has_nothing_new_the_second_time() {
    let map = report(&[(1, Marker::Hits(1)), (2, Marker::Hits(1))]);
    let mut seen = HashSet::new();
    let first = get_cov(map.clone(), &seen);
    assert_eq!(first.unique_hits(), 2);
    covfuzz::fuzzer::merge(&mut seen, &first.unique_lines);
    let second = get_cov(map, &seen);
    assert_eq!(second.unique_hits(), 0);
    assert_eq!(second.hitted_lines, 2);
}
