use can_tracetool::classify::{classify_line, CANFrame, LineClass};
use can_tracetool::scan::{finish_scan, parse_file, FileScan, LineCounts};

fn finite_flags(scan: &FileScan) -> Vec<bool> {
    scan.candidates
        .iter()
        .map(|f| f.timestamp.parse::<f64>().map(|v| v.is_finite()).unwrap_or(false))
        .collect()
}

fn run(contents: &str) -> (LineCounts, Vec<CANFrame>) {
    let scan = parse_file(contents);
    let flags = finite_flags(&scan);
    let mut frames = Vec::new();
    let counts = finish_scan(scan, &flags, &mut frames);
    (counts, frames)
}

#[test]
fn end_to_end_status() {
    let input = "# comment\n(0.001) can0 123#1122334455667788\n0.002 can0 1FFFFFFF#\nbad line here\n";
    let (counts, frames) = run(input);
    assert_eq!(counts.ignored, 1);
    assert_eq!(counts.valid, 2);
    assert_eq!(counts.invalid, 1);
    assert_eq!(frames.len(), 2);
    assert_eq!(frames[0].id, 0x123);
    assert_eq!(frames[0].data, vec![0x11, 0x22, 0x33, 0x44, 0x55, 0x66, 0x77, 0x88]);
    assert_eq!(frames[0].timestamp.as_str(), "0.001");
    assert_eq!(frames[0].iface.as_str(), "can0");
    assert_eq!(frames[0].raw.as_str(), "(0.001) can0 123#1122334455667788");
    assert_eq!(frames[0].line_no, 2);
    assert_eq!(frames[1].id, 0x1FFF_FFFF);
    assert!(frames[1].data.is_empty());
    assert_eq!(frames[1].line_no, 3);
}

#[test]
fn identifier_over_29_bits_is_invalid() {
    let (counts, frames) = run("0.5 can0 0x20000000#00\n");
    assert_eq!(counts.valid, 0);
    assert_eq!(counts.invalid, 1);
    assert!(frames.is_empty());
    assert!(matches!(classify_line("0.5 can0 0x20000000#00", 1), LineClass::Invalid));
}

#[test]
fn last_line_without_newline_counts() {
    let (counts, _) = run("# a\n\n1.0 can1 7FF#01");
    assert_eq!(counts.ignored, 2);
    assert_eq!(counts.valid, 1);
    assert_eq!(counts.invalid + counts.valid + counts.ignored, 3);
}

#[test]
fn crlf_lines_and_blank_tail() {
    let (counts, frames) = run("1.0 can1 7FF#01\r\n   \r\n\n");
    assert_eq!(counts.valid, 1);
    assert_eq!(counts.ignored, 2);
    assert_eq!(counts.invalid, 0);
    assert_eq!(frames[0].raw.as_str(), "1.0 can1 7FF#01");
}

#[test]
fn empty_file_has_no_lines() {
    let (counts, frames) = run("");
    assert_eq!(counts.valid + counts.invalid + counts.ignored, 0);
    assert!(frames.is_empty());
}

#[test]
fn non_finite_timestamps_are_invalid() {
    let (counts, frames) = run("NaN can0 1#\ninf can0 1#\n(abc) can0 1#\n1e400 can0 1#\n(2.5) can0 1#\n");
    assert_eq!(counts.invalid, 4);
    assert_eq!(counts.valid, 1);
    assert_eq!(frames[0].line_no, 5);
    assert_eq!(frames[0].timestamp.as_str(), "2.5");
}

#[test]
fn blank_and_comment_lines_are_ignored() {
    assert!(matches!(classify_line("", 1), LineClass::Ignored));
    assert!(matches!(classify_line(" \t ", 1), LineClass::Ignored));
    assert!(matches!(classify_line("  # 0.1 can0 1#00", 1), LineClass::Ignored));
    assert!(matches!(classify_line("#", 1), LineClass::Ignored));
}

#[test]
fn wrong_token_counts_are_invalid() {
    assert!(matches!(classify_line("0.1 can0", 1), LineClass::Invalid));
    assert!(matches!(classify_line("0.1 can0 1#00 extra", 1), LineClass::Invalid));
    assert!(matches!(classify_line("0.1", 1), LineClass::Invalid));
}

#[test]
fn missing_hash_is_invalid() {
    assert!(matches!(classify_line("0.1 can0 123", 1), LineClass::Invalid));
}

#[test]
fn bad_payload_is_invalid() {
    assert!(matches!(classify_line("0.1 can0 123#1", 1), LineClass::Invalid));
    assert!(matches!(classify_line("0.1 can0 123#1#", 1), LineClass::Invalid));
    assert!(matches!(classify_line("0.1 can0 123#zz", 1), LineClass::Invalid));
}

#[test]
fn candidate_line_keeps_its_fields() {
    match classify_line("  (12.5)\tvcan3   0x1A#DEAD  ", 7) {
        LineClass::Candidate(f) => {
            assert_eq!(f.timestamp.as_str(), "12.5");
            assert_eq!(f.iface.as_str(), "vcan3");
            assert_eq!(f.id, 0x1A);
            assert_eq!(f.data, vec![0xDE, 0xAD]);
            assert_eq!(f.raw.as_str(), "(12.5)\tvcan3   0x1A#DEAD");
            assert_eq!(f.line_no, 7);
        }
        _ => panic!("expected a frame"),
    }
}

#[test]
fn unicode_whitespace_separates_tokens() {
    assert!(matches!(classify_line("1.0\u{3000}can0\u{a0}1#", 1), LineClass::Candidate(_)));
}
