use mdsh::frozen::DiffLine;
use mdsh::frozen::decimal_bytes;
use mdsh::frozen::docs_equal;
use mdsh::frozen::frozen_report;
use mdsh::frozen::render_diff;
use mdsh::text::split_lines;
use mdsh::text::trail_nl;
use mdsh::text::trim_nl;
use mdsh::text::wrap_nl;

fn b(s: &str) -> Vec<u8> {
    s.as_bytes().to_vec()
}

fn doc(s: &str) -> Vec<Vec<u8>> {
    split_lines(&b(s))
}

#[test]
fn matching_documents_report_nothing() {
    let orig = doc("a\nb\n");
    let regen = doc("a\nb\n");
    assert!(docs_equal(&orig, &regen));
    assert!(frozen_report(&orig, &regen).is_none());
}

#[test]
fn changed_output_reports_a_line_diff() {
    // A command's output changed since the document was produced: frozen mode
    // reports the drift against the original's line numbers.
    let orig = doc("# t\n`$ cmd`\n```\nold\n```\n");
    let regen = doc("# t\n`$ cmd`\n```\nnew\n```\n");
    let report = frozen_report(&orig, &regen).expect("a drifted document must be reported");
    let rendered: Vec<String> =
        report.iter().map(|l| String::from_utf8(l.clone()).unwrap()).collect();
    assert_eq!(rendered, vec!["4- old".to_string(), "4+ new".to_string()]);
}

#[test]
fn added_lines_keep_the_original_counter() {
    let orig = doc("a\n");
    let regen = doc("a\nb\nc\n");
    let report = frozen_report(&orig, &regen).expect("report");
    let rendered: Vec<String> =
        report.iter().map(|l| String::from_utf8(l.clone()).unwrap()).collect();
    assert_eq!(rendered, vec!["1+ b".to_string(), "1+ c".to_string()]);
}

#[test]
fn removed_lines_count_in_the_original() {
    let orig = doc("a\nb\nc\n");
    let regen = doc("a\n");
    let report = frozen_report(&orig, &regen).expect("report");
    let rendered: Vec<String> =
        report.iter().map(|l| String::from_utf8(l.clone()).unwrap()).collect();
    assert_eq!(rendered, vec!["2- b".to_string(), "3- c".to_string()]);
}

#[test]
fn render_counts_shared_lines_silently() {
    let ds = vec![
        DiffLine::Both(b("x"), b("x")),
        DiffLine::Both(b("y"), b("y")),
        DiffLine::Left(b("gone")),
        DiffLine::Right(b("here")),
    ];
    let rendered: Vec<String> =
        render_diff(&ds).iter().map(|l| String::from_utf8(l.clone()).unwrap()).collect();
    assert_eq!(rendered, vec!["3- gone".to_string(), "3+ here".to_string()]);
}

#[test]
fn decimal_rendering_is_exact() {
    assert_eq!(decimal_bytes(0), b("0"));
    assert_eq!(decimal_bytes(7), b("7"));
    assert_eq!(decimal_bytes(10), b("10"));
    assert_eq!(decimal_bytes(12345), b("12345"));
    assert_eq!(decimal_bytes(u64::MAX), b("18446744073709551615"));
}

#[test]
fn trail_nl_adds_one_newline_only_when_missing() {
    assert_eq!(trail_nl(&b("")), b("\n"));
    assert_eq!(trail_nl(&b("x")), b("x\n"));
    assert_eq!(trail_nl(&b("x\n")), b("x\n"));
    assert_eq!(trail_nl(&b("x\n\n")), b("x\n\n"));
}

#[test]
fn wrap_nl_makes_text_start_and_end_with_newline() {
    assert_eq!(wrap_nl(&b("")), b("\n\n"));
    assert_eq!(wrap_nl(&b("x")), b("\nx\n"));
    assert_eq!(wrap_nl(&b("x\n")), b("\nx\n"));
    assert_eq!(wrap_nl(&b("\nx")), b("\nx\n"));
    assert_eq!(wrap_nl(&b("\nx\n")), b("\nx\n"));
}

#[test]
fn trim_nl_strips_edge_newlines_only() {
    assert_eq!(trim_nl(&b("\n\na\nb\n\n")), b("a\nb"));
    assert_eq!(trim_nl(&b("a")), b("a"));
    assert_eq!(trim_nl(&b("\n\n")), b(""));
    assert_eq!(trim_nl(&b("")), b(""));
}

#[test]
fn differing_length_documents_are_not_equal() {
    let a = doc("a\n");
    let c = doc("a\nb\n");
    assert!(!docs_equal(&a, &c));
    assert!(frozen_report(&a, &c).is_some());
}
