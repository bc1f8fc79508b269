use trg::gen::WirePattern;
use trg::mlu::LookupTable;
use trg::text::{line_string, line_tail_string};

const ZERO: &str = "0x0000 1 ................, 0 bits, 0 clusters";
const ONE: &str = "0x0001 1 ...............X, 1 bits, 1 clusters";
const ALL: &str = "0xffff 1 XXXXXXXXXXXXXXXX, 16 bits, 1 clusters";

fn table_of(bits: &[u16]) -> LookupTable {
    let patterns: Vec<WirePattern> = bits.iter().map(|b| WirePattern::from_bits(*b)).collect();
    LookupTable::from_iter(&patterns)
}

fn rejected(text: &str) -> (usize, usize) {
    let error = LookupTable::from_str(text).unwrap_err();
    assert_eq!(error.input(), text);
    (error.line_start(), error.position())
}

#[test]
fn parse_empty_text() {
    assert_eq!(LookupTable::from_str("").unwrap(), LookupTable::new());
    assert_eq!(LookupTable::from_str("\n").unwrap(), LookupTable::new());
}

#[test]
fn parse_lines_in_any_order() {
    let text = format!("{ALL}\n{ZERO}\n{ONE}\n{ZERO}");
    assert_eq!(
        LookupTable::from_str(&text).unwrap(),
        table_of(&[0, 1, 0xffff])
    );
}

#[test]
fn parse_one_newline_at_the_end() {
    let text = format!("{ZERO}\n{ONE}\n");
    assert_eq!(LookupTable::from_str(&text).unwrap(), table_of(&[0, 1]));
    let text = format!("{ZERO}\n{ONE}\n\n");
    assert_eq!(rejected(&text), (92, 92));
}

#[test]
fn parse_hexadecimal_digits_in_either_case_and_number() {
    let text = "0xFFFF 1 XXXXXXXXXXXXXXXX, 16 bits, 1 clusters\n\
                0x1 1 ...............X, 1 bits, 1 clusters\n\
                0x0A0 1 ........X.X....., 2 bits, 2 clusters\n\
                0xaB 1 ........X.X.X.XX, 5 bits, 4 clusters";
    assert_eq!(
        LookupTable::from_str(text).unwrap(),
        table_of(&[0xffff, 1, 0xa0, 0xab])
    );
}

#[test]
fn parse_rejects_too_many_or_no_digits() {
    assert_eq!(rejected("0x00000 1 ................, 0 bits, 0 clusters"), (0, 6));
    assert_eq!(rejected("0x 1 ................, 0 bits, 0 clusters"), (0, 2));
    assert_eq!(rejected("0xg"), (0, 2));
    assert_eq!(rejected("0x"), (0, 2));
    assert_eq!(rejected("0"), (0, 1));
    assert_eq!(rejected("1x0000"), (0, 0));
    assert_eq!(rejected("0X0000 1 ................, 0 bits, 0 clusters"), (0, 1));
}

#[test]
fn parse_rejects_line_that_does_not_fit_its_pattern() {
    // one bit of the pattern flipped
    assert_eq!(rejected("0x0001 1 ................, 0 bits, 0 clusters"), (0, 24));
    assert_eq!(rejected("0x8000 1 ................, 0 bits, 0 clusters"), (0, 9));
    // the diagram fits, the number of bits does not
    assert_eq!(rejected("0x0001 1 ...............X, 2 bits, 1 clusters"), (0, 27));
    // the number of clusters does not
    assert_eq!(rejected("0x0001 1 ...............X, 1 bits, 2 clusters"), (0, 35));
    // the line stops short
    assert_eq!(rejected("0x0001 1 ...............X, 1 bits, 1 cluster"), (0, 44));
    assert_eq!(rejected("0x0001"), (0, 6));
    // the digit after the pattern
    assert_eq!(rejected("0x0001 2 ...............X, 1 bits, 1 clusters"), (0, 7));
}

#[test]
fn parse_says_where_the_bad_line_starts() {
    let text = format!("{ZERO}\n{ALL}\nbad line\n{ONE}");
    assert_eq!(rejected(&text), (93, 93));
    let text = format!("{ZERO}\n0x0001 1 ................, 0 bits, 0 clusters\n");
    assert_eq!(rejected(&text), (46, 70));
    let text = format!("{ZERO}\n\n{ZERO}");
    assert_eq!(rejected(&text), (46, 46));
}

#[test]
fn parse_rejects_text_behind_a_line() {
    let text = format!("{ZERO}X");
    assert_eq!(rejected(&text), (45, 45));
    let text = format!("{ZERO}{ZERO}");
    assert_eq!(rejected(&text), (45, 45));
    let text = format!("{ZERO} \n{ONE}");
    assert_eq!(rejected(&text), (45, 45));
    let text = format!("{ZERO}\r\n{ONE}");
    assert_eq!(rejected(&text), (45, 45));
}

#[test]
fn parse_rejects_text_that_starts_with_empty_lines() {
    assert_eq!(rejected("\n\n"), (1, 1));
    let text = format!("\n{ZERO}");
    assert_eq!(rejected(&text), (1, 1));
}

#[test]
fn parse_rejects_text_that_is_not_ascii() {
    assert_eq!(rejected("\u{e9}t\u{e9}"), (0, 0));
    let text = format!("{ZERO}\n\u{1F600}");
    assert_eq!(rejected(&text), (46, 46));
    assert_eq!(rejected("0x\u{ff10}000 1 ................, 0 bits, 0 clusters"), (0, 2));
}

#[test]
fn parse_gives_no_table_when_a_late_line_is_bad() {
    let text = format!("{ZERO}\n{ONE}\n{ALL}\nbad");
    assert!(LookupTable::from_str(&text).is_err());
}

#[test]
fn parse_reads_what_to_string_writes() {
    for bits in [
        vec![],
        vec![0],
        vec![0xffff],
        vec![0x8e61],
        vec![1, 2, 4, 8, 0x10, 0x100, 0x1000, 0x8000],
        vec![0x00ff, 0xff00, 0x0f0f, 0xf0f0, 0xaaaa, 0x5555, 0x8001, 0x7ffe],
    ] {
        let table = table_of(&bits);
        let text = table.to_string();
        assert_eq!(LookupTable::from_str(&text).unwrap(), table);
        assert_eq!(LookupTable::from_str(&text).unwrap().to_string(), text);
    }
}

#[test]
fn parse_reads_the_text_of_the_full_table() {
    let mut table = LookupTable::new();
    for n in 0..=u16::MAX {
        table.insert(WirePattern::from_bits(n));
    }
    let text = table.to_string();
    assert_eq!(text.lines().count(), 65536);
    assert_eq!(LookupTable::from_str(&text).unwrap(), table);
}

#[test]
fn parse_error_report() {
    let error = LookupTable::from_str("bad").unwrap_err();
    assert_eq!(
        error.to_string(),
        "error: invalid line starting here\n  |\n1 | bad\n  | ^\n  |"
    );

    let text = format!("{ZERO}\nbad line\nmore");
    let error = LookupTable::from_str(&text).unwrap_err();
    assert_eq!(
        error.to_string(),
        "error: invalid line starting here\n  |\n2 | bad line\n  | ^\n  |"
    );

    let text = format!("{ZERO}X");
    let error = LookupTable::from_str(&text).unwrap_err();
    assert_eq!(
        error.to_string(),
        "error: invalid line starting here\n  |\n\
         1 | 0x0000 1 ................, 0 bits, 0 clustersX\n  \
         |                                              ^\n  |"
    );
}

#[test]
fn parse_error_report_marks_a_whole_character() {
    let text = format!("{ZERO}\n\u{1F600}");
    let error = LookupTable::from_str(&text).unwrap_err();
    assert_eq!(
        error.to_string(),
        "error: invalid line starting here\n  |\n2 | \u{1F600}\n  | ^^\n  |"
    );
    let error = LookupTable::from_str("\u{e9}t\u{e9}").unwrap_err();
    assert_eq!(
        error.to_string(),
        "error: invalid line starting here\n  |\n1 | \u{e9}t\u{e9}\n  | ^\n  |"
    );
}

#[test]
fn parse_error_report_on_an_empty_line() {
    let text = format!("{ZERO}\n\n{ZERO}");
    let error = LookupTable::from_str(&text).unwrap_err();
    assert_eq!(
        error.to_string(),
        "error: invalid line starting here\n  |\n2 |\n  | ^\n  |"
    );
}

#[test]
fn parse_through_from_str_trait() {
    let table: LookupTable = ALL.parse().unwrap();
    assert_eq!(table, table_of(&[0xffff]));
    let error: trg::mlu::ParseError = "bad".parse::<LookupTable>().unwrap_err();
    assert_eq!((error.line_start(), error.position()), (0, 0));
}

#[test]
fn parse_error_report_on_unusual_lines() {
    let long_line = "x".repeat(1000);
    let wide = "\u{4e2d}\u{6587}\u{200b}\u{0301}";
    for bad in [
        long_line.as_str(),
        "\tbad\tline",
        "\r\n",
        "\r",
        wide,
        "\u{0301}",
        " ",
        "\0",
        "0",
    ] {
        for text in [
            bad.to_string(),
            format!("{ZERO}{bad}"),
            format!("{ZERO}\n{bad}"),
            format!("{ZERO}\n{bad}\n{ZERO}"),
            format!("{ZERO}\n{ONE}\n{ALL}\n{bad}\n\n\n{ZERO}\n"),
        ] {
            let error = LookupTable::from_str(&text).unwrap_err();
            assert!(error.line_start() < text.len());
            assert!(error.line_start() <= error.position());
            assert!(error.position() <= text.len());
            assert!(text.is_char_boundary(error.line_start()));
            let report = error.to_string();
            assert!(report.starts_with("error: invalid line starting here\n"));
            assert!(report.contains('^'));
        }
    }
}

#[test]
fn parse_rejects_digits_that_do_not_fit_the_diagram() {
    let patterns = [0u16, 1, 2, 0x8000, 0x8e61, 0x168e, 0xfffe, 0xffff];
    for digits_of in patterns {
        for diagram_of in patterns {
            let text = format!("0x{digits_of:04x}{}", line_tail_string(diagram_of));
            let parsed = LookupTable::from_str(&text);
            if digits_of == diagram_of {
                assert_eq!(text, line_string(digits_of));
                assert_eq!(parsed.unwrap(), table_of(&[digits_of]));
            } else {
                let error = parsed.unwrap_err();
                assert_eq!(error.line_start(), 0);
                assert!(9 <= error.position() && error.position() < 25);
            }
        }
    }
}

#[test]
fn parse_rejects_every_single_flipped_bit() {
    for pattern in [0u16, 0x8e61, 0xffff, 0x0001, 0x5555] {
        for bit in 0..16 {
            let flipped = pattern ^ (1 << bit);
            let text = format!("0x{flipped:04x}{}", line_tail_string(pattern));
            let error = LookupTable::from_str(&text).unwrap_err();
            assert_eq!(error.position(), 9 + 15 - bit);
        }
    }
}

#[test]
fn parse_error_report_shows_the_start_of_a_long_line() {
    let letters = "a".repeat(200);
    let text = format!("{ZERO}{letters}{letters}");
    let error = LookupTable::from_str(&text).unwrap_err();
    assert_eq!(
        error.to_string(),
        format!(
            "error: invalid line starting here\n  |\n1 | {}\n  | {}^\n  |",
            &text[..100],
            " ".repeat(45)
        )
    );

    let wide = "\u{4e2d}".repeat(80);
    let error = LookupTable::from_str(&wide).unwrap_err();
    assert_eq!(
        error.to_string(),
        format!(
            "error: invalid line starting here\n  |\n1 | {}\n  | ^^\n  |",
            "\u{4e2d}".repeat(33)
        )
    );
}

#[test]
fn parse_error_report_numbers_the_line() {
    let many = format!("{ZERO}\n").repeat(1234);
    let text = format!("{many}bad");
    let error = LookupTable::from_str(&text).unwrap_err();
    assert_eq!(
        error.to_string(),
        "error: invalid line starting here\n     |\n1235 | bad\n     | ^\n     |"
    );
}

#[test]
fn parse_error_report_on_long_lines_with_white_space() {
    let letters = "a".repeat(200);
    for indent in [0, 1, 13, 14, 20, 26, 27, 30, 99, 100, 101, 120, 500] {
        for filler in [" ", "\t", "\u{3000}"] {
            let blank = filler.repeat(indent);
            for text in [
                format!("{blank}{letters}"),
                format!("{blank}{letters}\n{ZERO}"),
                format!("{ZERO}\n{blank}{letters}"),
                format!("{ZERO}\n\n{blank}{letters}"),
                format!("{ZERO}{blank}{letters}"),
                format!("{ZERO}\n{blank}{letters}\n{blank}{letters}\n"),
                format!("{blank}\n{blank}{letters}"),
                format!("{blank}"),
                format!("{letters}{blank}"),
            ] {
                if text.is_empty() {
                    continue;
                }
                let error = LookupTable::from_str(&text).unwrap_err();
                let report = error.to_string();
                assert!(report.starts_with("error: invalid line starting here\n"));
                assert!(report.contains('^'));
                assert!(report.lines().all(|line| line.chars().count() <= 140));
            }
        }
    }
}
