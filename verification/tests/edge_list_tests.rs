use graph_metrics::edge_list::{parse_line, read_edge_list, LineForm};
use graph_metrics::error::GraphError;
use graph_metrics::stat_util::sort_ascending;

fn form(line: &str) -> LineForm {
    parse_line(&line.chars().collect())
}

fn lines(text: &[&str]) -> Vec<String> {
    text.iter().map(|line| line.to_string()).collect()
}

#[test]
fn comments_start_with_a_hash_after_optional_white_space() {
    assert_eq!(form("#"), LineForm::Comment);
    assert_eq!(form("# Nodes: 403394 Edges: 3387388"), LineForm::Comment);
    assert_eq!(form("   # 1 2"), LineForm::Comment);
    assert_eq!(form("\t#1 2"), LineForm::Comment);
    assert_eq!(form("1 2 # trailing"), LineForm::Malformed);
    assert_eq!(form("1 #2"), LineForm::Malformed);
}

#[test]
fn edge_lines_hold_two_identifiers() {
    assert_eq!(form("1 2"), LineForm::Edge { from: 1, to: 2 });
    assert_eq!(form("0\t1"), LineForm::Edge { from: 0, to: 1 });
    assert_eq!(form("  12   \t 34  "), LineForm::Edge { from: 12, to: 34 });
    assert_eq!(form("7 7"), LineForm::Edge { from: 7, to: 7 });
    assert_eq!(form("403393 0"), LineForm::Edge { from: 403393, to: 0 });
    assert_eq!(form("1 2\r"), LineForm::Edge { from: 1, to: 2 });
}

#[test]
fn other_lines_are_malformed() {
    for line in ["", " ", "\t \t", "1", " 1 ", "1 2 3", "a b", "1 b", "a 2", "1,2", "1.0 2", "1 -2"] {
        assert_eq!(form(line), LineForm::Malformed, "{:?}", line);
    }
}

#[test]
fn identifiers_are_read_as_the_standard_library_reads_them() {
    let tokens = [
        "0", "7", "42", "007", "+5", "+0", "+", "-5", "-0", "++5", "+-5", "5+", "4294967295",
        "4294967296", "+4294967295", "04294967295", "42949672950", "99999999999999999999",
        "340282366920938463463374607431768211456", "1_000", "0x10", "1e3", "\u{ff11}", "\u{0661}",
        "12a", "a12", "1.5",
    ];
    for token in tokens {
        let expected = match token.parse::<u32>() {
            Ok(id) => LineForm::Edge { from: id, to: 3 },
            Err(_) => LineForm::Malformed,
        };
        assert_eq!(form(&format!("{} 3", token)), expected, "{:?}", token);
        let expected = match token.parse::<u32>() {
            Ok(id) => LineForm::Edge { from: 3, to: id },
            Err(_) => LineForm::Malformed,
        };
        assert_eq!(form(&format!("3 {}", token)), expected, "{:?}", token);
    }
}

#[test]
fn white_space_is_what_unicode_calls_white_space() {
    let mut code = 0u32;
    while code <= 0x10ffff {
        if let Some(c) = char::from_u32(code) {
            let separated = parse_line(&vec!['1', c, '2']);
            if c.is_whitespace() {
                assert_eq!(separated, LineForm::Edge { from: 1, to: 2 }, "U+{:04X}", code);
            } else {
                assert_eq!(separated, LineForm::Malformed, "U+{:04X}", code);
            }
        }
        code += 1;
    }
}

#[test]
fn reading_a_list_keeps_the_edge_lines_in_order() {
    let pairs = read_edge_list(&lines(&["# a", "3 4", "# b", "4 3", "3 4"])).unwrap();
    assert_eq!(pairs, vec![(3, 4), (4, 3), (3, 4)]);
    assert_eq!(read_edge_list(&Vec::new()), Ok(Vec::new()));
}

#[test]
fn reading_a_list_stops_at_the_first_malformed_line() {
    assert_eq!(
        read_edge_list(&lines(&["1 2", "oops", "3 4", "also bad"])),
        Err(GraphError::MalformedInput { line: 1 })
    );
    assert_eq!(
        read_edge_list(&lines(&["# only", ""])),
        Err(GraphError::MalformedInput { line: 1 })
    );
}

#[test]
fn sorting_gives_the_ascending_rearrangement() {
    assert_eq!(sort_ascending(&Vec::new()), Vec::<u32>::new());
    assert_eq!(sort_ascending(&vec![4]), vec![4]);
    assert_eq!(sort_ascending(&vec![2, 1]), vec![1, 2]);
    assert_eq!(sort_ascending(&vec![3, 1, 2, 3, 0, 1]), vec![0, 1, 1, 2, 3, 3]);
    let mut values: Vec<u32> = Vec::new();
    let mut state: u32 = 12345;
    for _ in 0..1000 {
        state = state.wrapping_mul(1664525).wrapping_add(1013904223);
        values.push(state >> 20);
    }
    let mut expected = values.clone();
    expected.sort();
    assert_eq!(sort_ascending(&values), expected);
}
