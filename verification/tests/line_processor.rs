use lib_dachshund::dachshund::error::CLQError;
use lib_dachshund::dachshund::line_processor::{
    check_blank, find_field_end, parse_number, parse_row, parse_rows,
};
use lib_dachshund::dachshund::simple_transformer::{GraphStatsTransformerBase, SimpleTransformer};
use lib_dachshund::dachshund::transformer_base::EdgeRow;

fn row(graph_id: i64, source_id: i64, target_id: i64) -> EdgeRow {
    EdgeRow {
        graph_id,
        source_id,
        target_id,
    }
}

fn number(text: &str) -> Option<i64> {
    parse_number(text.as_bytes(), 0, text.len())
}

fn is_parse_error<T>(r: Result<T, CLQError>) -> bool {
    matches!(r, Err(CLQError::ParseError(_)))
}

#[test]
fn a_field_ends_at_the_next_tab() {
    let line = b"12\t-7\t\t9";
    assert_eq!(find_field_end(line, 0), 2);
    assert_eq!(find_field_end(line, 2), 2);
    assert_eq!(find_field_end(line, 3), 5);
    assert_eq!(find_field_end(line, 6), 6);
    assert_eq!(find_field_end(line, 7), 8);
    assert_eq!(find_field_end(line, 8), 8);
}

#[test]
fn numbers_are_decimal_with_at_most_one_sign() {
    assert_eq!(number("0"), Some(0));
    assert_eq!(number("7"), Some(7));
    assert_eq!(number("-7"), Some(-7));
    assert_eq!(number("+7"), Some(7));
    assert_eq!(number("0042"), Some(42));
    assert_eq!(number("-0"), Some(0));
    assert_eq!(number("1234567890"), Some(1234567890));
    assert_eq!(number(""), None);
    assert_eq!(number("-"), None);
    assert_eq!(number("+"), None);
    assert_eq!(number("--1"), None);
    assert_eq!(number("+-1"), None);
    assert_eq!(number("1 "), None);
    assert_eq!(number(" 1"), None);
    assert_eq!(number("1.5"), None);
    assert_eq!(number("12a"), None);
    assert_eq!(number("a12"), None);
    assert_eq!(number("0x10"), None);
}

#[test]
fn numbers_agree_with_the_standard_reading() {
    let texts = [
        "0", "-1", "+15", "000", "99999", "-99999", "9223372036854775807",
        "9223372036854775808", "-9223372036854775808", "-9223372036854775809",
        "18446744073709551615", "18446744073709551616", "92233720368547758070",
        "00000000000000000000000000000012", "-00000000000000000000009223372036854775808",
        "123456789012345678901234567890", "", "-", "+", "1e3", "/", ":", "٣",
    ];
    for text in texts.iter() {
        assert_eq!(number(text), text.parse::<i64>().ok(), "{:?}", text);
    }
}

#[test]
fn numbers_at_the_edge_of_64_bits() {
    assert_eq!(number("9223372036854775807"), Some(i64::MAX));
    assert_eq!(number("9223372036854775808"), None);
    assert_eq!(number("-9223372036854775808"), Some(i64::MIN));
    assert_eq!(number("-9223372036854775809"), None);
    assert_eq!(number("99999999999999999999999999"), None);
}

#[test]
fn a_number_is_read_from_the_middle_of_a_line() {
    let line = b"ab-31cd";
    assert_eq!(parse_number(line, 2, 5), Some(-31));
    assert_eq!(parse_number(line, 3, 5), Some(31));
    assert_eq!(parse_number(line, 3, 4), Some(3));
    assert_eq!(parse_number(line, 3, 3), None);
    assert_eq!(parse_number(line, 2, 6), None);
    assert_eq!(parse_number(line, 1, 5), None);
}

#[test]
fn blank_lines_hold_nothing_to_read() {
    assert!(check_blank(b""));
    assert!(check_blank(b" "));
    assert!(check_blank(b"\t \r"));
    assert!(!check_blank(b"0"));
    assert!(!check_blank(b" \t."));
    assert_eq!(parse_row(b"").unwrap(), None);
    assert_eq!(parse_row(b"  \t\r").unwrap(), None);
}

#[test]
fn a_line_of_three_numbers_is_a_row() {
    assert_eq!(parse_row(b"0\t1\t2").unwrap(), Some(row(0, 1, 2)));
    assert_eq!(parse_row(b"-4\t+17\t-9").unwrap(), Some(row(-4, 17, -9)));
    assert_eq!(
        parse_row(b"9223372036854775807\t-9223372036854775808\t0").unwrap(),
        Some(row(i64::MAX, i64::MIN, 0))
    );
}

#[test]
fn fields_behind_the_third_are_passed_over() {
    assert_eq!(parse_row(b"3\t1\t2\t0.25").unwrap(), Some(row(3, 1, 2)));
    assert_eq!(parse_row(b"3\t1\t2\t0.25\tauthor\tarticle").unwrap(), Some(row(3, 1, 2)));
    assert_eq!(parse_row(b"3\t1\t2\t").unwrap(), Some(row(3, 1, 2)));
}

#[test]
fn a_line_with_a_missing_field_is_malformed() {
    assert!(is_parse_error(parse_row(b"3")));
    assert!(is_parse_error(parse_row(b"3\t1")));
    assert!(is_parse_error(parse_row(b"3\t1\t")));
    assert!(is_parse_error(parse_row(b"3\t\t2")));
    assert!(is_parse_error(parse_row(b"\t1\t2")));
    assert!(is_parse_error(parse_row(b"3 1 2")));
}

#[test]
fn a_line_with_a_field_that_is_no_integer_is_malformed() {
    assert!(is_parse_error(parse_row(b"a\t1\t2")));
    assert!(is_parse_error(parse_row(b"3\t1.0\t2")));
    assert!(is_parse_error(parse_row(b"3\t1\t2 ")));
    assert!(is_parse_error(parse_row(b"3\t1\t2\r")));
    assert!(is_parse_error(parse_row(b"3\t1\t9223372036854775808")));
    assert!(is_parse_error(parse_row(b"3\t 1\t2")));
}

#[test]
fn a_parse_error_carries_a_message() {
    match parse_row(b"3\t1") {
        Err(e) => assert!(!e.message().is_empty()),
        Ok(_) => panic!("a line with two fields was read"),
    }
}

fn lines(texts: &[&str]) -> Vec<Vec<u8>> {
    texts.iter().map(|t| t.as_bytes().to_vec()).collect()
}

#[test]
fn lines_are_read_in_order_and_blank_ones_left_out() {
    let input = lines(&["0\t1\t2", "", "0\t2\t3", "   ", "1\t5\t6"]);
    let expected = vec![row(0, 1, 2), row(0, 2, 3), row(1, 5, 6)];
    assert_eq!(parse_rows(&input, false).unwrap(), expected);
    assert_eq!(parse_rows(&input, true).unwrap(), expected);
    assert!(parse_rows(&Vec::new(), false).unwrap().is_empty());
}

#[test]
fn a_malformed_line_fails_the_run_unless_it_is_to_be_skipped() {
    let input = lines(&["0\t1\t2", "0\tx\t3", "1\t5\t6", "1\t5"]);
    assert!(is_parse_error(parse_rows(&input, false)));
    assert_eq!(parse_rows(&input, true).unwrap(), vec![row(0, 1, 2), row(1, 5, 6)]);
}

#[test]
fn each_graph_of_the_input_gets_one_result() {
    let input = lines(&[
        "0\t1\t2", "0\t2\t3", "0\t3\t1", "", "1\t1\t2", "2\t1\t2", "2\t2\t3", "2\t3\t1", "2\t3\t4",
    ]);
    let results = SimpleTransformer::process_lines(&input, false).unwrap();
    assert_eq!(results.len(), 3);
    assert_eq!(results[0].0, 0);
    assert_eq!(results[0].1.num_nodes, 3);
    assert_eq!(results[0].1.num_edges, 3);
    assert_eq!(results[0].1.connected_components, 1);
    assert_eq!(results[0].1.transitivity, Some((3, 3)));
    assert_eq!(results[0].1.k_cores, vec![2, 2, 2]);
    assert_eq!(results[0].1.k_trusses, vec![3]);
    assert_eq!(results[1].0, 1);
    assert_eq!(results[1].1.num_nodes, 2);
    assert_eq!(results[1].1.num_edges, 1);
    assert_eq!(results[1].1.transitivity, None);
    assert_eq!(results[1].1.clustering, vec![None, None]);
    assert_eq!(results[2].0, 2);
    assert_eq!(results[2].1.num_nodes, 4);
    assert_eq!(results[2].1.num_edges, 4);
    assert_eq!(results[2].1.k_cores, vec![2, 2, 2, 1]);
    assert_eq!(results[2].1.size_of_largest_cc, 4);
}

#[test]
fn no_lines_give_no_result() {
    assert!(SimpleTransformer::process_lines(&Vec::new(), false).unwrap().is_empty());
    assert!(SimpleTransformer::process_lines(&lines(&["", " "]), false).unwrap().is_empty());
}

#[test]
fn a_malformed_line_fails_the_whole_run() {
    let input = lines(&["0\t1\t2", "0\t2", "1\t1\t2"]);
    assert!(is_parse_error(SimpleTransformer::process_lines(&input, false)));
    let results = SimpleTransformer::process_lines(&input, true).unwrap();
    assert_eq!(results.len(), 2);
    assert_eq!(results[0].0, 0);
    assert_eq!(results[1].0, 1);
}

#[test]
fn one_batch_gives_the_statistics_of_its_graph() {
    let stats = SimpleTransformer::process_batch(&vec![(1, 2), (2, 3), (3, 1), (3, 4)]).unwrap();
    assert_eq!(stats.num_nodes, 4);
    assert_eq!(stats.num_edges, 4);
    assert_eq!(stats.connected_components, 1);
    assert_eq!(stats.k_peaks.len(), 4);
    let empty = SimpleTransformer::process_batch(&Vec::new()).unwrap();
    assert_eq!(empty.num_nodes, 0);
    assert_eq!(empty.num_edges, 0);
    assert_eq!(empty.connected_components, 0);
    assert_eq!(empty.transitivity, None);
}
