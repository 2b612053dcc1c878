//! The directive and block-delimiter grammar. A directive is a single line in
//! one of four forms, combining a kind (run a command, or embed a linked
//! file) with a rendering style (fenced code block, or markdown comment
//! markers):
//!
//! - fenced command: `` `$ command` `` with optional trailing whitespace,
//! - markdown command: `` `> command` ``,
//! - fenced link: `[$ text](target)`,
//! - markdown link: `[> text](target)`.
//!
//! A generated block opens with a line starting with ``` (fence style) or
//! `<!-- BEGIN mdsh -->` (markdown style) and closes at the next line starting
//! with ``` or `<!-- END mdsh -->` respectively.
use vstd::prelude::*;

verus! {

/// The rendering style of a directive or of a generated block.
#[derive(Clone, Copy, PartialEq, Eq, Structural)]
pub enum Style {
    Fence,
    Markdown,
}

/// What a directive asks for: running a command, or embedding a file.
#[derive(Clone, Copy, PartialEq, Eq, Structural)]
pub enum Kind {
    Command,
    Link,
}

pub const BACKTICK: u8 = 0x60;

pub const DOLLAR: u8 = 0x24;

pub const GREATER: u8 = 0x3e;

pub const SPACE: u8 = 0x20;

pub const LBRACK: u8 = 0x5b;

pub const RBRACK: u8 = 0x5d;

pub const LPAREN: u8 = 0x28;

pub const RPAREN: u8 = 0x29;

/// The marker byte after the opening backtick or bracket: `$` for fenced
/// directives, `>` for markdown ones.
pub open spec fn style_tag(s: Style) -> u8 {
    match s {
        Style::Fence => DOLLAR,
        Style::Markdown => GREATER,
    }
}

/// Whitespace that may trail a directive on its line.
pub open spec fn is_ws(b: u8) -> bool {
    b == 0x20 || b == 0x09 || b == 0x0d || b == 0x0b || b == 0x0c
}

/// A line holding only whitespace (possibly none).
pub open spec fn is_blank_line(l: Seq<u8>) -> bool {
    forall|j: int| 0 <= j < l.len() ==> is_ws(l[j])
}

/// The first position at or after `i` holding byte `b`.
pub open spec fn spec_find_byte(s: Seq<u8>, b: u8, i: int) -> Option<int>
    decreases s.len() - i,
{
    if i < 0 || i >= s.len() {
        None
    } else if s[i] == b {
        Some(i)
    } else {
        spec_find_byte(s, b, i + 1)
    }
}

/// A found byte lies in range, matches, and is the first match.
pub proof fn lemma_find_byte_range(s: Seq<u8>, b: u8, i: int)
    ensures
        spec_find_byte(s, b, i) matches Some(j) ==> i <= j < s.len() && s[j] == b && (forall|k: int|
            i <= k < j ==> s[k] != b),
    decreases s.len() - i,
{
    if 0 <= i < s.len() && s[i] != b {
        lemma_find_byte_range(s, b, i + 1);
    }
}

/// All bytes at or after `i` are whitespace.
pub open spec fn all_ws_from(s: Seq<u8>, i: int) -> bool {
    forall|j: int| i <= j < s.len() ==> is_ws(s[j])
}

/// The payload of a command directive line: the text between `` `$ `` (or
/// `` `> ``) and the closing backtick, which must be nonempty and
/// backtick-free, with only whitespace after.
pub open spec fn spec_cmd_payload(l: Seq<u8>, tag: u8) -> Option<Seq<u8>> {
    if l.len() >= 3 && l[0] == BACKTICK && l[1] == tag && l[2] == SPACE {
        match spec_find_byte(l, BACKTICK, 3) {
            Some(j) => if j > 3 && all_ws_from(l, j + 1) {
                Some(l.subrange(3, j))
            } else {
                None
            },
            None => None,
        }
    } else {
        None
    }
}

/// The payload of a link directive line `[$ text](target)`: the bracketed
/// text names what is read, as the engine's grammar has it; the
/// parenthesized target must be present and nonempty, with only whitespace
/// after.
pub open spec fn spec_link_payload(l: Seq<u8>, tag: u8) -> Option<Seq<u8>> {
    if l.len() >= 3 && l[0] == LBRACK && l[1] == tag && l[2] == SPACE {
        match spec_find_byte(l, RBRACK, 3) {
            Some(j) => if j > 3 && j + 1 < l.len() && l[j + 1] == LPAREN {
                match spec_find_byte(l, RPAREN, j + 2) {
                    Some(m) => if m > j + 2 && all_ws_from(l, m + 1) {
                        Some(l.subrange(3, j))
                    } else {
                        None
                    },
                    None => None,
                }
            } else {
                None
            },
            None => None,
        }
    } else {
        None
    }
}

/// The payload of a directive line of the given kind and style, if the line
/// is one.
pub open spec fn spec_payload(l: Seq<u8>, k: Kind, s: Style) -> Option<Seq<u8>> {
    match k {
        Kind::Command => spec_cmd_payload(l, style_tag(s)),
        Kind::Link => spec_link_payload(l, style_tag(s)),
    }
}

pub open spec fn is_directive(l: Seq<u8>, k: Kind, s: Style) -> bool {
    spec_payload(l, k, s) is Some
}

/// A command or link directive of the given style.
pub open spec fn is_style_directive(l: Seq<u8>, s: Style) -> bool {
    is_directive(l, Kind::Command, s) || is_directive(l, Kind::Link, s)
}

pub open spec fn is_any_directive(l: Seq<u8>) -> bool {
    is_style_directive(l, Style::Fence) || is_style_directive(l, Style::Markdown)
}

/// The fence delimiter ```.
pub open spec fn fence_marker() -> Seq<u8> {
    seq![BACKTICK, BACKTICK, BACKTICK]
}

/// The opening comment marker `<!-- BEGIN mdsh -->`.
pub open spec fn md_open_marker() -> Seq<u8> {
    seq![0x3c, 0x21, 0x2d, 0x2d, 0x20, 0x42, 0x45, 0x47, 0x49, 0x4e, 0x20, 0x6d, 0x64, 0x73, 0x68,
        0x20, 0x2d, 0x2d, 0x3e]
}

/// The closing comment marker `<!-- END mdsh -->`.
pub open spec fn md_close_marker() -> Seq<u8> {
    seq![0x3c, 0x21, 0x2d, 0x2d, 0x20, 0x45, 0x4e, 0x44, 0x20, 0x6d, 0x64, 0x73, 0x68, 0x20, 0x2d,
        0x2d, 0x3e]
}

pub open spec fn open_marker(s: Style) -> Seq<u8> {
    match s {
        Style::Fence => fence_marker(),
        Style::Markdown => md_open_marker(),
    }
}

pub open spec fn close_marker(s: Style) -> Seq<u8> {
    match s {
        Style::Fence => fence_marker(),
        Style::Markdown => md_close_marker(),
    }
}

pub open spec fn starts_with(l: Seq<u8>, p: Seq<u8>) -> bool {
    l.len() >= p.len() && forall|i: int| 0 <= i < p.len() ==> l[i] == p[i]
}

/// A line that opens a generated block of the given style.
pub open spec fn is_open_line(l: Seq<u8>, s: Style) -> bool {
    starts_with(l, open_marker(s))
}

/// A line that closes a generated block of the given style.
pub open spec fn is_close_line(l: Seq<u8>, s: Style) -> bool {
    starts_with(l, close_marker(s))
}

/// The style of block the line opens, if it opens one. The two opening
/// markers start with different bytes, so at most one style fits.
pub open spec fn opens_block(l: Seq<u8>) -> Option<Style> {
    if is_open_line(l, Style::Fence) {
        Some(Style::Fence)
    } else if is_open_line(l, Style::Markdown) {
        Some(Style::Markdown)
    } else {
        None
    }
}

/// Directive lines never open or close a block, are never blank, and carry
/// exactly one kind and style.
pub proof fn lemma_directive_distinct(l: Seq<u8>)
    ensures
        is_any_directive(l) ==> opens_block(l) is None,
        is_any_directive(l) ==> !is_close_line(l, Style::Fence) && !is_close_line(
            l,
            Style::Markdown,
        ),
        is_any_directive(l) ==> !is_blank_line(l),
        forall|k: Kind, s: Style, k2: Kind, s2: Style|
            is_directive(l, k, s) && is_directive(l, k2, s2) ==> k == k2 && s == s2,
{
    if is_any_directive(l) {
        assert(l.len() >= 3);
        assert(l[0] == BACKTICK || l[0] == LBRACK);
        assert(l[1] == DOLLAR || l[1] == GREATER);
        assert(!is_ws(l[0]));
        assert(!starts_with(l, fence_marker()));
        assert(!starts_with(l, md_open_marker()));
        assert(!starts_with(l, md_close_marker()));
    }
}

/// Opening and closing marker lines are never directives and never blank,
/// and the opening markers of the two styles are distinct.
pub proof fn lemma_marker_distinct(l: Seq<u8>)
    ensures
        is_open_line(l, Style::Fence) || is_close_line(l, Style::Fence) || is_open_line(
            l,
            Style::Markdown,
        ) || is_close_line(l, Style::Markdown) ==> !is_any_directive(l) && !is_blank_line(l),
        is_open_line(l, Style::Fence) ==> !is_open_line(l, Style::Markdown),
        opens_block(open_marker(Style::Fence)) == Some(Style::Fence),
        opens_block(open_marker(Style::Markdown)) == Some(Style::Markdown),
{
    if is_open_line(l, Style::Fence) || is_close_line(l, Style::Fence) {
        assert(l[0] == BACKTICK && l[1] == BACKTICK);
        assert(!is_ws(l[0]));
    }
    if is_open_line(l, Style::Markdown) || is_close_line(l, Style::Markdown) {
        assert(l[0] == 0x3c);
        assert(!is_ws(l[0]));
    }
    assert(starts_with(open_marker(Style::Fence), fence_marker()));
    assert(starts_with(open_marker(Style::Markdown), md_open_marker()));
    assert(!starts_with(open_marker(Style::Fence), md_open_marker()));
    assert(!starts_with(open_marker(Style::Markdown), fence_marker()));
}

/// The first position at or after `start` holding byte `b`.
pub fn find_byte_from(l: &Vec<u8>, b: u8, start: usize) -> (r: Option<usize>)
    ensures
        match r {
            Some(j) => Some(j as int) == spec_find_byte(l@, b, start as int),
            None => spec_find_byte(l@, b, start as int) is None,
        },
{
    let mut i: usize = start;
    while i < l.len()
        invariant
            start <= i,
            spec_find_byte(l@, b, start as int) == spec_find_byte(l@, b, i as int),
        decreases l.len() - i,
    {
        if l[i] == b {
            return Some(i);
        }
        i = i + 1;
    }
    None
}

/// All bytes at or after `start` are whitespace.
pub fn ws_from(l: &Vec<u8>, start: usize) -> (r: bool)
    ensures
        r == all_ws_from(l@, start as int),
{
    let mut i: usize = start;
    while i < l.len()
        invariant
            start <= i,
            forall|j: int| start <= j < i ==> is_ws(l@[j]),
        decreases l.len() - i,
    {
        let b = l[i];
        if !(b == 0x20 || b == 0x09 || b == 0x0d || b == 0x0b || b == 0x0c) {
            assert(!is_ws(l@[i as int]));
            return false;
        }
        i = i + 1;
    }
    true
}

/// Whether the line holds only whitespace.
pub fn line_is_blank(l: &Vec<u8>) -> (r: bool)
    ensures
        r == is_blank_line(l@),
{
    ws_from(l, 0)
}

fn copy_range(l: &Vec<u8>, from: usize, to: usize) -> (r: Vec<u8>)
    requires
        from <= to <= l@.len(),
    ensures
        r@ == l@.subrange(from as int, to as int),
{
    let mut r: Vec<u8> = Vec::new();
    let mut k: usize = from;
    while k < to
        invariant
            from <= k <= to <= l@.len(),
            r@ == l@.subrange(from as int, k as int),
        decreases to - k,
    {
        r.push(l[k]);
        k = k + 1;
        assert(r@ =~= l@.subrange(from as int, k as int));
    }
    r
}

/// The payload of the line, if it is a directive of the given kind and style.
pub fn payload_of(l: &Vec<u8>, k: Kind, s: Style) -> (r: Option<Vec<u8>>)
    ensures
        match r {
            Some(p) => spec_payload(l@, k, s) == Some(p@),
            None => spec_payload(l@, k, s) is None,
        },
{
    let tag: u8 = match s {
        Style::Fence => DOLLAR,
        Style::Markdown => GREATER,
    };
    match k {
        Kind::Command => {
            if !(l.len() >= 3 && l[0] == BACKTICK && l[1] == tag && l[2] == SPACE) {
                return None;
            }
            match find_byte_from(l, BACKTICK, 3) {
                Some(j) => {
                    proof {
                        lemma_find_byte_range(l@, BACKTICK, 3);
                    }
                    if j > 3 && ws_from(l, j + 1) {
                        Some(copy_range(l, 3, j))
                    } else {
                        None
                    }
                },
                None => None,
            }
        },
        Kind::Link => {
            if !(l.len() >= 3 && l[0] == LBRACK && l[1] == tag && l[2] == SPACE) {
                return None;
            }
            match find_byte_from(l, RBRACK, 3) {
                Some(j) => {
                    proof {
                        lemma_find_byte_range(l@, RBRACK, 3);
                    }
                    if !(j > 3 && j + 1 < l.len() && l[j + 1] == LPAREN) {
                        return None;
                    }
                    match find_byte_from(l, RPAREN, j + 2) {
                        Some(m) => {
                            proof {
                                lemma_find_byte_range(l@, RPAREN, j as int + 2);
                            }
                            if m > j + 2 && ws_from(l, m + 1) {
                                Some(copy_range(l, 3, j))
                            } else {
                                None
                            }
                        },
                        None => None,
                    }
                },
                None => None,
            }
        },
    }
}

/// Whether the line is a directive of the given style, of either kind.
pub fn line_is_style_directive(l: &Vec<u8>, s: Style) -> (r: bool)
    ensures
        r == is_style_directive(l@, s),
{
    let c = payload_of(l, Kind::Command, s);
    if c.is_some() {
        return true;
    }
    let k = payload_of(l, Kind::Link, s);
    k.is_some()
}

fn line_starts_with(l: &Vec<u8>, p: &Vec<u8>) -> (r: bool)
    ensures
        r == starts_with(l@, p@),
{
    if l.len() < p.len() {
        return false;
    }
    let mut i: usize = 0;
    while i < p.len()
        invariant
            i <= p.len() <= l.len(),
            forall|j: int| 0 <= j < i ==> l@[j] == p@[j],
        decreases p.len() - i,
    {
        if l[i] != p[i] {
            return false;
        }
        i = i + 1;
    }
    true
}

/// The fence delimiter line ```.
pub fn fence_marker_line() -> (r: Vec<u8>)
    ensures
        r@ == fence_marker(),
{
    let mut r: Vec<u8> = Vec::new();
    r.push(BACKTICK);
    r.push(BACKTICK);
    r.push(BACKTICK);
    assert(r@ =~= fence_marker());
    r
}

fn push_md_frame(r: &mut Vec<u8>)
    ensures
        final(r)@ == old(r)@ + seq![0x3c, 0x21, 0x2d, 0x2d, 0x20],
{
    r.push(0x3c);
    r.push(0x21);
    r.push(0x2d);
    r.push(0x2d);
    r.push(0x20);
    assert(r@ =~= old(r)@ + seq![0x3c, 0x21, 0x2d, 0x2d, 0x20]);
}

fn push_mdsh_tail(r: &mut Vec<u8>)
    ensures
        final(r)@ == old(r)@ + seq![0x20, 0x6d, 0x64, 0x73, 0x68, 0x20, 0x2d, 0x2d, 0x3e],
{
    r.push(0x20);
    r.push(0x6d);
    r.push(0x64);
    r.push(0x73);
    r.push(0x68);
    r.push(0x20);
    r.push(0x2d);
    r.push(0x2d);
    r.push(0x3e);
    assert(r@ =~= old(r)@ + seq![0x20, 0x6d, 0x64, 0x73, 0x68, 0x20, 0x2d, 0x2d, 0x3e]);
}

/// The line `<!-- BEGIN mdsh -->`.
pub fn md_open_marker_line() -> (r: Vec<u8>)
    ensures
        r@ == md_open_marker(),
{
    let mut r: Vec<u8> = Vec::new();
    push_md_frame(&mut r);
    r.push(0x42);
    r.push(0x45);
    r.push(0x47);
    r.push(0x49);
    r.push(0x4e);
    push_mdsh_tail(&mut r);
    assert(r@ =~= md_open_marker());
    r
}

/// The line `<!-- END mdsh -->`.
pub fn md_close_marker_line() -> (r: Vec<u8>)
    ensures
        r@ == md_close_marker(),
{
    let mut r: Vec<u8> = Vec::new();
    push_md_frame(&mut r);
    r.push(0x45);
    r.push(0x4e);
    r.push(0x44);
    push_mdsh_tail(&mut r);
    assert(r@ =~= md_close_marker());
    r
}

/// The line that opens a generated block of the given style.
pub fn open_marker_line(s: Style) -> (r: Vec<u8>)
    ensures
        r@ == open_marker(s),
{
    match s {
        Style::Fence => fence_marker_line(),
        Style::Markdown => md_open_marker_line(),
    }
}

/// The line that closes a generated block of the given style.
pub fn close_marker_line(s: Style) -> (r: Vec<u8>)
    ensures
        r@ == close_marker(s),
{
    match s {
        Style::Fence => fence_marker_line(),
        Style::Markdown => md_close_marker_line(),
    }
}

/// Whether the line closes a block of the given style.
pub fn line_is_close(l: &Vec<u8>, s: Style) -> (r: bool)
    ensures
        r == is_close_line(l@, s),
{
    let p = close_marker_line(s);
    line_starts_with(l, &p)
}

/// The style of block the line opens, if any.
pub fn line_opens(l: &Vec<u8>) -> (r: Option<Style>)
    ensures
        r == opens_block(l@),
{
    let f = fence_marker_line();
    if line_starts_with(l, &f) {
        return Some(Style::Fence);
    }
    let m = md_open_marker_line();
    if line_starts_with(l, &m) {
        return Some(Style::Markdown);
    }
    None
}

} // verus!
