use mdsh::clean::clean_document;
use mdsh::clean::clean_pairs;
use mdsh::grammar::Kind;
use mdsh::grammar::Style;
use mdsh::regen::collect_payloads;
use mdsh::regen::fill_blocks;
use mdsh::regen::link_content;
use mdsh::regen::link_error_marker;
use mdsh::text::join_lines;
use mdsh::text::split_lines;

fn b(s: &str) -> Vec<u8> {
    s.as_bytes().to_vec()
}

fn doc(s: &str) -> Vec<Vec<u8>> {
    split_lines(&b(s))
}

fn text(lines: &Vec<Vec<u8>>) -> String {
    String::from_utf8(join_lines(lines)).unwrap()
}

#[test]
fn split_and_join_are_inverse() {
    for s in ["", "a", "a\n", "a\nb", "a\n\nb\n", "\n\n"] {
        assert_eq!(text(&doc(s)), s);
    }
    assert_eq!(doc("a\nb\n").len(), 3);
    assert_eq!(doc("a\nb\n")[2], b(""));
}

#[test]
fn command_payloads_are_extracted() {
    let d = doc("`$ echo hi`\nprose\n`$ date +%s`   \n`> md one`\n");
    let cf = collect_payloads(&d, Kind::Command, Style::Fence);
    assert_eq!(cf, vec![b("echo hi"), b("date +%s")]);
    let cm = collect_payloads(&d, Kind::Command, Style::Markdown);
    assert_eq!(cm, vec![b("md one")]);
}

#[test]
fn malformed_commands_are_not_directives() {
    let d = doc("`$ tail`junk\n`$ `\n`$ x\n ``$ indented`\n");
    let cf = collect_payloads(&d, Kind::Command, Style::Fence);
    assert_eq!(cf.len(), 0);
}

#[test]
fn link_payloads_are_extracted() {
    let d = doc("[$ ./file.md](desc)\n[> other.txt](why)  \n[$ broken]\n[$ ](x)\n");
    let lf = collect_payloads(&d, Kind::Link, Style::Fence);
    assert_eq!(lf, vec![b("./file.md")]);
    let lm = collect_payloads(&d, Kind::Link, Style::Markdown);
    assert_eq!(lm, vec![b("other.txt")]);
}

#[test]
fn clean_strips_fence_block_after_command() {
    let d = doc("# title\n`$ echo hi`\n```\nhi\n```\ntail\n");
    let c = clean_document(&d);
    assert_eq!(text(&c), "# title\n`$ echo hi`\ntail\n");
}

#[test]
fn clean_strips_markdown_block_after_markdown_directive() {
    let d = doc("`> cmd`\n<!-- BEGIN mdsh -->\nout\n<!-- END mdsh -->\n");
    let c = clean_document(&d);
    assert_eq!(text(&c), "`> cmd`\n");
}

#[test]
fn clean_tolerates_opposite_block_style() {
    // A fenced directive paired with a markdown-comment block is still
    // recognized and stripped, and the other way round.
    let d = doc("`$ echo hi`\n<!-- BEGIN mdsh -->\nhi\n<!-- END mdsh -->\n");
    let c = clean_document(&d);
    assert_eq!(text(&c), "`$ echo hi`\n");
    let d2 = doc("[> file](d)\n```\nold\n```\n");
    let c2 = clean_document(&d2);
    assert_eq!(text(&c2), "[> file](d)\n");
}

#[test]
fn clean_skips_blank_lines_before_block() {
    let d = doc("`$ x`\n\n  \n```\nout\n```\nrest\n");
    let c = clean_document(&d);
    assert_eq!(text(&c), "`$ x`\nrest\n");
}

#[test]
fn clean_leaves_bare_directive_and_free_blocks() {
    // A directive with no following block loses nothing, and a block that
    // follows no directive stays.
    let d = doc("`$ echo hi`\nprose\n```\nfree\n```\n");
    let c = clean_document(&d);
    assert_eq!(text(&c), "`$ echo hi`\nprose\n```\nfree\n```\n");
}

#[test]
fn clean_without_closing_delimiter_keeps_everything() {
    let d = doc("`$ x`\n```\nnever closed\n");
    let c = clean_document(&d);
    assert_eq!(text(&c), "`$ x`\n```\nnever closed\n");
}

#[test]
fn regeneration_inserts_fence_block_after_command() {
    // The scenario: `$ echo hi` with no block; cleaning leaves the line
    // untouched, regeneration inserts a fenced block holding hi.
    let d = doc("`$ echo hi`\n");
    let c = clean_document(&d);
    assert_eq!(text(&c), "`$ echo hi`\n");
    let payloads = collect_payloads(&c, Kind::Command, Style::Fence);
    assert_eq!(payloads, vec![b("echo hi")]);
    let filled = fill_blocks(&c, Kind::Command, Style::Fence, &vec![b("hi\n")]);
    assert_eq!(text(&filled), "`$ echo hi`\n```\nhi\n```\n");
}

#[test]
fn regeneration_uses_markdown_markers_for_markdown_directives() {
    let d = doc("`> cmd`\n");
    let filled = fill_blocks(&d, Kind::Command, Style::Markdown, &vec![b("out")]);
    assert_eq!(text(&filled), "`> cmd`\n<!-- BEGIN mdsh -->\nout\n<!-- END mdsh -->\n");
}

#[test]
fn output_newlines_are_normalized() {
    // Whatever the captured output's edges look like, the block content
    // begins and ends with exactly one newline; an empty output still leaves
    // one blank line between the delimiters.
    let cases = [
        ("", "`$ c`\n```\n\n```\n"),
        ("hi", "`$ c`\n```\nhi\n```\n"),
        ("hi\n", "`$ c`\n```\nhi\n```\n"),
        ("\n\nhi\n\n\n", "`$ c`\n```\nhi\n```\n"),
        ("a\n\nb", "`$ c`\n```\na\n\nb\n```\n"),
        ("\n", "`$ c`\n```\n\n```\n"),
    ];
    for (out, expect) in cases {
        let d = doc("`$ c`\n");
        let filled = fill_blocks(&d, Kind::Command, Style::Fence, &vec![b(out)]);
        assert_eq!(text(&filled), expect, "output {:?}", out);
    }
}

#[test]
fn link_failure_is_isolated() {
    // One valid and one unreadable link: the valid one embeds its content,
    // the broken one embeds the fixed error marker, and the run goes on.
    let d = doc("[$ good.md](a)\nprose\n[$ missing.md](b)\n");
    let payloads = collect_payloads(&d, Kind::Link, Style::Fence);
    assert_eq!(payloads, vec![b("good.md"), b("missing.md")]);
    let outs = vec![link_content(Some(b("good stuff\n"))), link_content(None)];
    let filled = fill_blocks(&d, Kind::Link, Style::Fence, &outs);
    assert_eq!(
        text(&filled),
        "[$ good.md](a)\n```\ngood stuff\n```\nprose\n[$ missing.md](b)\n```\n[mdsh error]: failed to read file\n```\n"
    );
}

#[test]
fn error_marker_text() {
    assert_eq!(link_error_marker(), b("[mdsh error]: failed to read file"));
}

fn run_all(d: &Vec<Vec<u8>>, outs: &[(&str, Kind, Style)]) -> Vec<Vec<u8>> {
    // One full regeneration with fixed outputs standing in for command runs
    // and file reads, matched to the directives pass by pass.
    let mut cur = clean_document(d);
    for (kind, style) in [
        (Kind::Command, Style::Fence),
        (Kind::Command, Style::Markdown),
        (Kind::Link, Style::Fence),
        (Kind::Link, Style::Markdown),
    ] {
        let payloads = collect_payloads(&cur, kind, style);
        let outputs: Vec<Vec<u8>> = outs
            .iter()
            .filter(|(_, k, s)| *k == kind && *s == style)
            .map(|(o, _, _)| b(o))
            .collect();
        assert_eq!(outputs.len(), payloads.len());
        cur = fill_blocks(&cur, kind, style, &outputs);
    }
    cur
}

#[test]
fn regeneration_is_idempotent() {
    let d = doc(
        "# doc\n`$ echo hi`\n```\nstale\n```\n\n`> version`\n[$ inc.md](inc)\nprose\n[> lic](l)\n",
    );
    let outs = [
        ("hi\n", Kind::Command, Style::Fence),
        ("4.2", Kind::Command, Style::Markdown),
        ("embedded text\n", Kind::Link, Style::Fence),
        ("license\n", Kind::Link, Style::Markdown),
    ];
    let once = run_all(&d, &outs);
    let twice = run_all(&once, &outs);
    assert_eq!(text(&once), text(&twice));
    // And cleaning the regenerated document restores the cleaned skeleton.
    assert_eq!(text(&clean_document(&once)), text(&clean_document(&d)));
}

#[test]
fn clean_then_regenerate_restores_fresh_document() {
    let d = doc("`$ cmd`\n```\ncurrent\n```\ntail\n");
    let outs = [("current\n", Kind::Command, Style::Fence)];
    let regenerated = run_all(&d, &outs);
    assert_eq!(text(&regenerated), "`$ cmd`\n```\ncurrent\n```\ntail\n");
}

#[test]
fn stale_content_is_refreshed() {
    let d = doc("`$ cmd`\n```\nstale old output\n```\n");
    let outs = [("fresh\n", Kind::Command, Style::Fence)];
    let regenerated = run_all(&d, &outs);
    assert_eq!(text(&regenerated), "`$ cmd`\n```\nfresh\n```\n");
}

#[test]
fn empty_document_stays_empty() {
    let d = doc("");
    assert_eq!(text(&clean_document(&d)), "");
    assert_eq!(collect_payloads(&d, Kind::Command, Style::Fence).len(), 0);
}

#[test]
fn directive_without_trailing_newline_gets_a_block() {
    let d = doc("`$ c`");
    let filled = fill_blocks(&d, Kind::Command, Style::Fence, &vec![b("hi\n")]);
    assert_eq!(text(&filled), "`$ c`\n```\nhi\n```");
}

#[test]
fn adjacent_pairs_are_never_merged() {
    // The block scan stops at the first closing delimiter, so two managed
    // pairs next to each other are cleaned one by one.
    let d = doc("`$ a`\n```\none\n```\n`$ b`\n```\ntwo\n```\n");
    let c = clean_document(&d);
    assert_eq!(text(&c), "`$ a`\n`$ b`\n");
}

#[test]
fn clean_pass_order_is_fence_then_markdown() {
    let d = doc("`$ a`\n```\nx\n```\n`> b`\n<!-- BEGIN mdsh -->\ny\n<!-- END mdsh -->\n");
    let f = clean_pairs(&d, Style::Fence);
    assert_eq!(
        text(&f),
        "`$ a`\n`> b`\n<!-- BEGIN mdsh -->\ny\n<!-- END mdsh -->\n"
    );
    let m = clean_pairs(&f, Style::Markdown);
    assert_eq!(text(&m), "`$ a`\n`> b`\n");
}
