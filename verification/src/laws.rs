//! The engine's laws. The statements build up to two: regenerating an
//! already-regenerated document is a no-op, and cleaning a regenerated
//! document and regenerating it with unchanged outputs restores it. Both are
//! stated over the spec functions that the executable contracts use, for
//! outputs that do not themselves look like directives or closing delimiters
//! (an output holding such a line splits or extends a managed pair, and no
//! pass can keep that stable).
use vstd::prelude::*;
use crate::grammar::Kind;
use crate::grammar::Style;
use crate::grammar::close_marker;
use crate::grammar::is_any_directive;
use crate::grammar::is_blank_line;
use crate::grammar::is_close_line;
use crate::grammar::is_directive;
use crate::grammar::is_style_directive;
use crate::grammar::open_marker;
use crate::grammar::opens_block;
use crate::grammar::lemma_directive_distinct;
use crate::grammar::lemma_marker_distinct;
use crate::clean::count_blanks;
use crate::clean::spec_clean;
use crate::clean::spec_clean_all;
use crate::clean::spec_find_close;
use crate::clean::spec_pair_len;
use crate::regen::spec_block;
use crate::regen::spec_collect;
use crate::regen::spec_fill;
use crate::text::NL;
use crate::text::spec_join_nl;
use crate::text::spec_split_nl;
use crate::text::spec_trim_nl;
use crate::text::spec_wrap_nl;
use crate::text::lemma_join_concat;
use crate::text::lemma_join_split;
use crate::text::lemma_split_nonempty;
use crate::text::lemma_trim_no_edge_nl;

verus! {

/// A line an output may safely hold: it is no directive of any form, and does
/// not close a block of the style it will sit in.
pub open spec fn safe_line(l: Seq<u8>, s: Style) -> bool {
    !is_any_directive(l) && !is_close_line(l, s)
}

/// An output whose lines, as a block of style `s` will hold them, are all
/// safe.
pub open spec fn safe_output(out: Seq<u8>, s: Style) -> bool {
    forall|i: int|
        0 <= i < spec_split_nl(spec_trim_nl(out)).len() ==> safe_line(
            #[trigger] spec_split_nl(spec_trim_nl(out))[i],
            s,
        )
}

pub open spec fn safe_outputs(outs: Seq<Seq<u8>>, s: Style) -> bool {
    forall|i: int| 0 <= i < outs.len() ==> safe_output(#[trigger] outs[i], s)
}

/// Every line of a fresh block of style `s` for a safe output is no
/// directive, and only its last line closes a block of style `s`.
proof fn lemma_block_lines(s: Style, out: Seq<u8>)
    requires
        safe_output(out, s),
    ensures
        forall|i: int| 0 <= i < spec_block(s, out).len() ==> !is_any_directive(
            #[trigger] spec_block(s, out)[i],
        ),
        forall|i: int|
            1 <= i < spec_block(s, out).len() - 1 ==> !is_close_line(
                #[trigger] spec_block(s, out)[i],
                s,
            ),
{
    let content = spec_split_nl(spec_trim_nl(out));
    let blk = spec_block(s, out);
    lemma_marker_distinct(open_marker(s));
    lemma_marker_distinct(close_marker(s));
    assert(blk[0] == open_marker(s));
    assert(blk[blk.len() - 1] == close_marker(s));
    assert forall|i: int| 0 <= i < blk.len() implies !is_any_directive(#[trigger] blk[i]) by {
        if 1 <= i < blk.len() - 1 {
            assert(blk[i] == content[i - 1]);
        }
    }
    assert forall|i: int| 1 <= i < blk.len() - 1 implies !is_close_line(#[trigger] blk[i], s) by {
        assert(blk[i] == content[i - 1]);
    }
}

/// Searching for a closing line skips a prefix that holds none.
proof fn lemma_find_close_prefix(p: Seq<Seq<u8>>, t: Seq<Seq<u8>>, s: Style)
    requires
        forall|i: int| 0 <= i < p.len() ==> !is_close_line(#[trigger] p[i], s),
    ensures
        spec_find_close(p + t, s) == match spec_find_close(t, s) {
            Some(k) => Some(k + p.len()),
            None => None::<int>,
        },
    decreases p.len(),
{
    if p.len() == 0 {
        assert(p + t =~= t);
    } else {
        assert((p + t)[0] == p[0]);
        assert((p + t).skip(1) =~= p.skip(1) + t);
        assert(forall|i: int| 0 <= i < p.skip(1).len() ==> p.skip(1)[i] == p[i + 1]);
        lemma_find_close_prefix(p.skip(1), t, s);
    }
}

/// A fresh block for a safe output, wherever it stands, is one whole managed
/// block: the pair scan takes exactly its lines.
proof fn lemma_pair_len_of_block(s: Style, out: Seq<u8>, rest: Seq<Seq<u8>>)
    requires
        safe_output(out, s),
    ensures
        spec_pair_len(spec_block(s, out) + rest) == Some(spec_block(s, out).len() as int),
{
    let content = spec_split_nl(spec_trim_nl(out));
    let blk = spec_block(s, out);
    let t = blk + rest;
    lemma_marker_distinct(open_marker(s));
    assert(t[0] == open_marker(s));
    assert(!is_blank_line(t[0]));
    assert(count_blanks(t) == 0);
    assert(opens_block(t[0]) == Some(s));
    assert(t.skip(1) =~= content + (seq![close_marker(s)] + rest));
    lemma_block_lines(s, out);
    assert forall|i: int| 0 <= i < content.len() implies !is_close_line(#[trigger] content[i], s) by {
        assert(blk[i + 1] == content[i]);
    }
    lemma_find_close_prefix(content, seq![close_marker(s)] + rest, s);
    assert((seq![close_marker(s)] + rest)[0] == close_marker(s));
    assert(is_close_line(close_marker(s), s));
    assert(spec_find_close(seq![close_marker(s)] + rest, s) == Some(0int));
    assert(spec_find_close(t.skip(1), s) == Some(content.len() as int));
    assert(blk.len() == content.len() + 2);
}

/// Cleaning walks over a prefix of non-directive lines without touching it.
proof fn lemma_clean_nondir_prefix(p: Seq<Seq<u8>>, t: Seq<Seq<u8>>, s: Style)
    requires
        forall|i: int| 0 <= i < p.len() ==> !is_style_directive(#[trigger] p[i], s),
    ensures
        spec_clean(p + t, s) == p + spec_clean(t, s),
    decreases p.len(),
{
    if p.len() == 0 {
        assert(p + t =~= t);
        assert(p + spec_clean(t, s) =~= spec_clean(t, s));
    } else {
        assert((p + t)[0] == p[0]);
        assert((p + t).skip(1) =~= p.skip(1) + t);
        assert(forall|i: int| 0 <= i < p.skip(1).len() ==> p.skip(1)[i] == p[i + 1]);
        lemma_clean_nondir_prefix(p.skip(1), t, s);
        assert(spec_clean(p + t, s) == seq![p[0]] + (p.skip(1) + spec_clean(t, s)));
        assert(seq![p[0]] + (p.skip(1) + spec_clean(t, s)) =~= p + spec_clean(t, s));
    }
}

/// Filling walks over a prefix without directives of its kind and style
/// without touching it or using an output.
proof fn lemma_fill_nondir_prefix(
    p: Seq<Seq<u8>>,
    t: Seq<Seq<u8>>,
    k: Kind,
    s: Style,
    u: Seq<Seq<u8>>,
)
    requires
        forall|i: int| 0 <= i < p.len() ==> !is_directive(#[trigger] p[i], k, s),
    ensures
        spec_fill(p + t, k, s, u) == p + spec_fill(t, k, s, u),
    decreases p.len(),
{
    if p.len() == 0 {
        assert(p + t =~= t);
        assert(p + spec_fill(t, k, s, u) =~= spec_fill(t, k, s, u));
    } else {
        assert((p + t)[0] == p[0]);
        assert((p + t).skip(1) =~= p.skip(1) + t);
        assert(forall|i: int| 0 <= i < p.skip(1).len() ==> p.skip(1)[i] == p[i + 1]);
        lemma_fill_nondir_prefix(p.skip(1), t, k, s, u);
        assert(spec_fill(p + t, k, s, u) == seq![p[0]] + (p.skip(1) + spec_fill(t, k, s, u)));
        assert(seq![p[0]] + (p.skip(1) + spec_fill(t, k, s, u)) =~= p + spec_fill(t, k, s, u));
    }
}

/// Collecting payloads skips a prefix without directives of its kind and
/// style.
proof fn lemma_collect_nondir_prefix(p: Seq<Seq<u8>>, t: Seq<Seq<u8>>, k: Kind, s: Style)
    requires
        forall|i: int| 0 <= i < p.len() ==> !is_directive(#[trigger] p[i], k, s),
    ensures
        spec_collect(p + t, k, s) == spec_collect(t, k, s),
    decreases p.len(),
{
    if p.len() == 0 {
        assert(p + t =~= t);
    } else {
        assert((p + t)[0] == p[0]);
        assert((p + t).skip(1) =~= p.skip(1) + t);
        assert(forall|i: int| 0 <= i < p.skip(1).len() ==> p.skip(1)[i] == p[i + 1]);
        lemma_collect_nondir_prefix(p.skip(1), t, k, s);
    }
}

/// Pairing tolerance: a directive of one style, followed by a fresh block of
/// either delimiter style, is cleaned back to the directive line alone,
/// whatever comes after the block.
pub proof fn lemma_clean_pair_any_style(
    ld: Seq<u8>,
    s: Style,
    bs: Style,
    out: Seq<u8>,
    rest: Seq<Seq<u8>>,
)
    requires
        is_style_directive(ld, s),
        safe_output(out, bs),
    ensures
        spec_clean(seq![ld] + spec_block(bs, out) + rest, s) == seq![ld] + spec_clean(rest, s),
{
    let blk = spec_block(bs, out);
    let d = seq![ld] + blk + rest;
    assert(d[0] == ld);
    assert(d.skip(1) =~= blk + rest);
    lemma_pair_len_of_block(bs, out, rest);
    let n = blk.len() as int;
    assert(spec_pair_len(d.skip(1)) == Some(n));
    assert(d.len() > 0);
    assert(spec_clean(d, s) == seq![d[0]] + spec_clean(d.skip(1 + n), s));
    assert(d.skip(1 + n) =~= rest);
}

/// Newline normalization: the joined text of a fresh block is the opening
/// delimiter, the output wrapped to begin and end with exactly one newline,
/// and the closing delimiter; the wrapped content is one newline, the output
/// stripped of every leading and trailing newline, and one newline.
pub proof fn lemma_block_normalized(s: Style, out: Seq<u8>)
    ensures
        spec_join_nl(spec_block(s, out)) == open_marker(s) + spec_wrap_nl(spec_trim_nl(out))
            + close_marker(s),
        spec_wrap_nl(spec_trim_nl(out)) == seq![NL] + spec_trim_nl(out) + seq![NL],
        spec_trim_nl(out).len() == 0 || (spec_trim_nl(out)[0] != NL && spec_trim_nl(out)[
            spec_trim_nl(out).len() - 1] != NL),
{
    let trimmed = spec_trim_nl(out);
    let content = spec_split_nl(trimmed);
    lemma_trim_no_edge_nl(out);
    lemma_join_split(trimmed);
    lemma_split_nonempty(trimmed);
    let a = seq![open_marker(s)] + content;
    assert(a[0] == open_marker(s));
    assert(a.skip(1) =~= content);
    lemma_join_concat(seq![open_marker(s)], content);
    assert(spec_join_nl(seq![open_marker(s)]) == open_marker(s));
    assert(spec_join_nl(a) == open_marker(s) + seq![NL] + trimmed);
    lemma_join_concat(a, seq![close_marker(s)]);
    assert(spec_join_nl(seq![close_marker(s)]) == close_marker(s));
    assert(spec_block(s, out) =~= a + seq![close_marker(s)]);
    assert(spec_join_nl(spec_block(s, out)) == (open_marker(s) + seq![NL] + trimmed) + seq![NL]
        + close_marker(s));
    if trimmed.len() > 0 {
        assert(spec_wrap_nl(trimmed) =~= seq![NL] + trimmed + seq![NL]);
    } else {
        assert(spec_wrap_nl(trimmed) =~= seq![NL] + trimmed + seq![NL]);
    }
    assert((open_marker(s) + seq![NL] + trimmed) + seq![NL] + close_marker(s) =~= open_marker(s)
        + (seq![NL] + trimmed + seq![NL]) + close_marker(s));
}

/// The document with a fresh block after every directive, each of the four
/// directive classes drawing from its own output list in document order.
pub open spec fn spec_fill_all(
    d: Seq<Seq<u8>>,
    cf: Seq<Seq<u8>>,
    cm: Seq<Seq<u8>>,
    lf: Seq<Seq<u8>>,
    lm: Seq<Seq<u8>>,
) -> Seq<Seq<u8>>
    decreases d.len(),
{
    if d.len() == 0 {
        d
    } else {
        let l = d[0];
        if is_directive(l, Kind::Command, Style::Fence) && cf.len() > 0 {
            seq![l] + spec_block(Style::Fence, cf[0]) + spec_fill_all(
                d.skip(1),
                cf.skip(1),
                cm,
                lf,
                lm,
            )
        } else if is_directive(l, Kind::Command, Style::Markdown) && cm.len() > 0 {
            seq![l] + spec_block(Style::Markdown, cm[0]) + spec_fill_all(
                d.skip(1),
                cf,
                cm.skip(1),
                lf,
                lm,
            )
        } else if is_directive(l, Kind::Link, Style::Fence) && lf.len() > 0 {
            seq![l] + spec_block(Style::Fence, lf[0]) + spec_fill_all(
                d.skip(1),
                cf,
                cm,
                lf.skip(1),
                lm,
            )
        } else if is_directive(l, Kind::Link, Style::Markdown) && lm.len() > 0 {
            seq![l] + spec_block(Style::Markdown, lm[0]) + spec_fill_all(
                d.skip(1),
                cf,
                cm,
                lf,
                lm.skip(1),
            )
        } else {
            seq![l] + spec_fill_all(d.skip(1), cf, cm, lf, lm)
        }
    }
}

proof fn lemma_fill_all_empty(d: Seq<Seq<u8>>)
    ensures
        spec_fill_all(
            d,
            Seq::<Seq<u8>>::empty(),
            Seq::<Seq<u8>>::empty(),
            Seq::<Seq<u8>>::empty(),
            Seq::<Seq<u8>>::empty(),
        ) == d,
    decreases d.len(),
{
    if d.len() > 0 {
        lemma_fill_all_empty(d.skip(1));
        assert(seq![d[0]] + d.skip(1) =~= d);
    }
}

proof fn lemma_safe_skip(u: Seq<Seq<u8>>, s: Style)
    requires
        safe_outputs(u, s),
        u.len() > 0,
    ensures
        safe_outputs(u.skip(1), s),
{
    assert forall|i: int| 0 <= i < u.skip(1).len() implies safe_output(#[trigger] u.skip(1)[i], s) by {
        assert(u.skip(1)[i] == u[i + 1]);
    }
}

/// The slot for kind `k2` and style `s2`, replaced by `u` where it is the one
/// a filling pass is running for.
pub open spec fn upd(
    k: Kind,
    s: Style,
    k2: Kind,
    s2: Style,
    cur: Seq<Seq<u8>>,
    u: Seq<Seq<u8>>,
) -> Seq<Seq<u8>> {
    if k == k2 && s == s2 {
        u
    } else {
        cur
    }
}

/// Running one filling pass over a document whose other directive classes
/// already have fresh blocks gives blocks to this pass's directives and
/// leaves the rest alone.
proof fn lemma_fill_stage(
    d: Seq<Seq<u8>>,
    cf: Seq<Seq<u8>>,
    cm: Seq<Seq<u8>>,
    lf: Seq<Seq<u8>>,
    lm: Seq<Seq<u8>>,
    k: Kind,
    s: Style,
    u: Seq<Seq<u8>>,
)
    requires
        k == Kind::Command && s == Style::Fence ==> cf.len() == 0,
        k == Kind::Command && s == Style::Markdown ==> cm.len() == 0,
        k == Kind::Link && s == Style::Fence ==> lf.len() == 0,
        k == Kind::Link && s == Style::Markdown ==> lm.len() == 0,
        safe_outputs(cf, Style::Fence),
        safe_outputs(cm, Style::Markdown),
        safe_outputs(lf, Style::Fence),
        safe_outputs(lm, Style::Markdown),
    ensures
        spec_fill(spec_fill_all(d, cf, cm, lf, lm), k, s, u) == spec_fill_all(
            d,
            upd(k, s, Kind::Command, Style::Fence, cf, u),
            upd(k, s, Kind::Command, Style::Markdown, cm, u),
            upd(k, s, Kind::Link, Style::Fence, lf, u),
            upd(k, s, Kind::Link, Style::Markdown, lm, u),
        ),
    decreases d.len(),
{
    let x = spec_fill_all(d, cf, cm, lf, lm);
    if d.len() == 0 {
        assert(x.len() == 0);
    } else {
        let l = d[0];
        lemma_directive_distinct(l);
        if is_directive(l, Kind::Command, Style::Fence) && cf.len() > 0 {
            let blk = spec_block(Style::Fence, cf[0]);
            let xr = spec_fill_all(d.skip(1), cf.skip(1), cm, lf, lm);
            let p = seq![l] + blk;
            assert(x =~= p + xr);
            lemma_block_lines(Style::Fence, cf[0]);
            assert forall|i: int| 0 <= i < p.len() implies !is_directive(#[trigger] p[i], k, s) by {
                if i > 0 {
                    assert(p[i] == blk[i - 1]);
                }
            }
            lemma_fill_nondir_prefix(p, xr, k, s, u);
            lemma_safe_skip(cf, Style::Fence);
            lemma_fill_stage(d.skip(1), cf.skip(1), cm, lf, lm, k, s, u);
            assert(spec_fill(x, k, s, u) =~= seq![l] + blk + spec_fill_all(
                d.skip(1),
                upd(k, s, Kind::Command, Style::Fence, cf.skip(1), u),
                upd(k, s, Kind::Command, Style::Markdown, cm, u),
                upd(k, s, Kind::Link, Style::Fence, lf, u),
                upd(k, s, Kind::Link, Style::Markdown, lm, u),
            ));
        } else if is_directive(l, Kind::Command, Style::Markdown) && cm.len() > 0 {
            let blk = spec_block(Style::Markdown, cm[0]);
            let xr = spec_fill_all(d.skip(1), cf, cm.skip(1), lf, lm);
            let p = seq![l] + blk;
            assert(x =~= p + xr);
            lemma_block_lines(Style::Markdown, cm[0]);
            assert forall|i: int| 0 <= i < p.len() implies !is_directive(#[trigger] p[i], k, s) by {
                if i > 0 {
                    assert(p[i] == blk[i - 1]);
                }
            }
            lemma_fill_nondir_prefix(p, xr, k, s, u);
            lemma_safe_skip(cm, Style::Markdown);
            lemma_fill_stage(d.skip(1), cf, cm.skip(1), lf, lm, k, s, u);
            assert(spec_fill(x, k, s, u) =~= seq![l] + blk + spec_fill_all(
                d.skip(1),
                upd(k, s, Kind::Command, Style::Fence, cf, u),
                upd(k, s, Kind::Command, Style::Markdown, cm.skip(1), u),
                upd(k, s, Kind::Link, Style::Fence, lf, u),
                upd(k, s, Kind::Link, Style::Markdown, lm, u),
            ));
        } else if is_directive(l, Kind::Link, Style::Fence) && lf.len() > 0 {
            let blk = spec_block(Style::Fence, lf[0]);
            let xr = spec_fill_all(d.skip(1), cf, cm, lf.skip(1), lm);
            let p = seq![l] + blk;
            assert(x =~= p + xr);
            lemma_block_lines(Style::Fence, lf[0]);
            assert forall|i: int| 0 <= i < p.len() implies !is_directive(#[trigger] p[i], k, s) by {
                if i > 0 {
                    assert(p[i] == blk[i - 1]);
                }
            }
            lemma_fill_nondir_prefix(p, xr, k, s, u);
            lemma_safe_skip(lf, Style::Fence);
            lemma_fill_stage(d.skip(1), cf, cm, lf.skip(1), lm, k, s, u);
            assert(spec_fill(x, k, s, u) =~= seq![l] + blk + spec_fill_all(
                d.skip(1),
                upd(k, s, Kind::Command, Style::Fence, cf, u),
                upd(k, s, Kind::Command, Style::Markdown, cm, u),
                upd(k, s, Kind::Link, Style::Fence, lf.skip(1), u),
                upd(k, s, Kind::Link, Style::Markdown, lm, u),
            ));
        } else if is_directive(l, Kind::Link, Style::Markdown) && lm.len() > 0 {
            let blk = spec_block(Style::Markdown, lm[0]);
            let xr = spec_fill_all(d.skip(1), cf, cm, lf, lm.skip(1));
            let p = seq![l] + blk;
            assert(x =~= p + xr);
            lemma_block_lines(Style::Markdown, lm[0]);
            assert forall|i: int| 0 <= i < p.len() implies !is_directive(#[trigger] p[i], k, s) by {
                if i > 0 {
                    assert(p[i] == blk[i - 1]);
                }
            }
            lemma_fill_nondir_prefix(p, xr, k, s, u);
            lemma_safe_skip(lm, Style::Markdown);
            lemma_fill_stage(d.skip(1), cf, cm, lf, lm.skip(1), k, s, u);
            assert(spec_fill(x, k, s, u) =~= seq![l] + blk + spec_fill_all(
                d.skip(1),
                upd(k, s, Kind::Command, Style::Fence, cf, u),
                upd(k, s, Kind::Command, Style::Markdown, cm, u),
                upd(k, s, Kind::Link, Style::Fence, lf, u),
                upd(k, s, Kind::Link, Style::Markdown, lm.skip(1), u),
            ));
        } else if is_directive(l, k, s) {
            let xr = spec_fill_all(d.skip(1), cf, cm, lf, lm);
            assert(x =~= seq![l] + xr);
            assert(x[0] == l);
            assert(x.skip(1) =~= xr);
            if u.len() > 0 {
                lemma_fill_stage(d.skip(1), cf, cm, lf, lm, k, s, u.skip(1));
                assert(spec_fill(x, k, s, u) == seq![l] + spec_block(s, u[0]) + spec_fill(
                    xr,
                    k,
                    s,
                    u.skip(1),
                ));
            } else {
                lemma_fill_stage(d.skip(1), cf, cm, lf, lm, k, s, u);
                assert(spec_fill(x, k, s, u) == seq![l] + spec_fill(xr, k, s, u));
            }
        } else {
            let xr = spec_fill_all(d.skip(1), cf, cm, lf, lm);
            assert(x =~= seq![l] + xr);
            assert(x[0] == l);
            assert(x.skip(1) =~= xr);
            lemma_fill_stage(d.skip(1), cf, cm, lf, lm, k, s, u);
            assert(spec_fill(x, k, s, u) == seq![l] + spec_fill(xr, k, s, u));
        }
    }
}

/// The fence cleaning pass over a fully regenerated document strips exactly
/// the fence-directive blocks and leaves the markdown-directive blocks.
proof fn lemma_clean_fill_all_fence(
    d: Seq<Seq<u8>>,
    cf: Seq<Seq<u8>>,
    cm: Seq<Seq<u8>>,
    lf: Seq<Seq<u8>>,
    lm: Seq<Seq<u8>>,
)
    requires
        safe_outputs(cf, Style::Fence),
        safe_outputs(cm, Style::Markdown),
        safe_outputs(lf, Style::Fence),
        safe_outputs(lm, Style::Markdown),
        cf.len() == spec_collect(d, Kind::Command, Style::Fence).len(),
        lf.len() == spec_collect(d, Kind::Link, Style::Fence).len(),
    ensures
        spec_clean(spec_fill_all(d, cf, cm, lf, lm), Style::Fence) == spec_fill_all(
            d,
            Seq::<Seq<u8>>::empty(),
            cm,
            Seq::<Seq<u8>>::empty(),
            lm,
        ),
    decreases d.len(),
{
    let e = Seq::<Seq<u8>>::empty();
    let x = spec_fill_all(d, cf, cm, lf, lm);
    if d.len() == 0 {
    } else {
        let l = d[0];
        lemma_directive_distinct(l);
        assert(spec_collect(d, Kind::Command, Style::Fence).len() == (if is_directive(
            l,
            Kind::Command,
            Style::Fence,
        ) {
            1int
        } else {
            0int
        }) + spec_collect(d.skip(1), Kind::Command, Style::Fence).len());
        assert(spec_collect(d, Kind::Link, Style::Fence).len() == (if is_directive(
            l,
            Kind::Link,
            Style::Fence,
        ) {
            1int
        } else {
            0int
        }) + spec_collect(d.skip(1), Kind::Link, Style::Fence).len());
        if is_directive(l, Kind::Command, Style::Fence) {
            assert(cf.len() > 0);
            let blk = spec_block(Style::Fence, cf[0]);
            let xr = spec_fill_all(d.skip(1), cf.skip(1), cm, lf, lm);
            assert(x =~= seq![l] + blk + xr);
            assert(x[0] == l);
            assert(is_style_directive(l, Style::Fence));
            assert(x.skip(1) =~= blk + xr);
            lemma_pair_len_of_block(Style::Fence, cf[0], xr);
            let n = blk.len() as int;
            assert(spec_clean(x, Style::Fence) == seq![l] + spec_clean(
                x.skip(1 + n),
                Style::Fence,
            ));
            assert(x.skip(1 + n) =~= xr);
            lemma_safe_skip(cf, Style::Fence);
            lemma_clean_fill_all_fence(d.skip(1), cf.skip(1), cm, lf, lm);
        } else if is_directive(l, Kind::Link, Style::Fence) {
            assert(lf.len() > 0);
            let blk = spec_block(Style::Fence, lf[0]);
            let xr = spec_fill_all(d.skip(1), cf, cm, lf.skip(1), lm);
            assert(x =~= seq![l] + blk + xr);
            assert(x[0] == l);
            assert(is_style_directive(l, Style::Fence));
            assert(x.skip(1) =~= blk + xr);
            lemma_pair_len_of_block(Style::Fence, lf[0], xr);
            let n = blk.len() as int;
            assert(spec_clean(x, Style::Fence) == seq![l] + spec_clean(
                x.skip(1 + n),
                Style::Fence,
            ));
            assert(x.skip(1 + n) =~= xr);
            lemma_safe_skip(lf, Style::Fence);
            lemma_clean_fill_all_fence(d.skip(1), cf, cm, lf.skip(1), lm);
        } else if is_directive(l, Kind::Command, Style::Markdown) && cm.len() > 0 {
            let blk = spec_block(Style::Markdown, cm[0]);
            let xr = spec_fill_all(d.skip(1), cf, cm.skip(1), lf, lm);
            assert(x =~= (seq![l] + blk) + xr);
            lemma_block_lines(Style::Markdown, cm[0]);
            let p = seq![l] + blk;
            assert forall|i: int| 0 <= i < p.len() implies !is_style_directive(
                #[trigger] p[i],
                Style::Fence,
            ) by {
                if i > 0 {
                    assert(p[i] == blk[i - 1]);
                }
            }
            lemma_clean_nondir_prefix(p, xr, Style::Fence);
            lemma_safe_skip(cm, Style::Markdown);
            lemma_clean_fill_all_fence(d.skip(1), cf, cm.skip(1), lf, lm);
            assert(spec_clean(x, Style::Fence) =~= seq![l] + blk + spec_fill_all(
                d.skip(1),
                e,
                cm.skip(1),
                e,
                lm,
            ));
        } else if is_directive(l, Kind::Link, Style::Markdown) && lm.len() > 0 {
            let blk = spec_block(Style::Markdown, lm[0]);
            let xr = spec_fill_all(d.skip(1), cf, cm, lf, lm.skip(1));
            assert(x =~= (seq![l] + blk) + xr);
            lemma_block_lines(Style::Markdown, lm[0]);
            let p = seq![l] + blk;
            assert forall|i: int| 0 <= i < p.len() implies !is_style_directive(
                #[trigger] p[i],
                Style::Fence,
            ) by {
                if i > 0 {
                    assert(p[i] == blk[i - 1]);
                }
            }
            lemma_clean_nondir_prefix(p, xr, Style::Fence);
            lemma_safe_skip(lm, Style::Markdown);
            lemma_clean_fill_all_fence(d.skip(1), cf, cm, lf, lm.skip(1));
            assert(spec_clean(x, Style::Fence) =~= seq![l] + blk + spec_fill_all(
                d.skip(1),
                e,
                cm,
                e,
                lm.skip(1),
            ));
        } else {
            let xr = spec_fill_all(d.skip(1), cf, cm, lf, lm);
            assert(x =~= seq![l] + xr);
            assert(x[0] == l);
            assert(x.skip(1) =~= xr);
            assert(!is_style_directive(l, Style::Fence));
            assert(spec_clean(x, Style::Fence) == seq![l] + spec_clean(xr, Style::Fence));
            lemma_clean_fill_all_fence(d.skip(1), cf, cm, lf, lm);
        }
    }
}

/// The markdown cleaning pass over a document whose markdown directives have
/// fresh blocks and whose fence directives have none gives back the bare
/// document.
proof fn lemma_clean_fill_all_md(d: Seq<Seq<u8>>, cm: Seq<Seq<u8>>, lm: Seq<Seq<u8>>)
    requires
        safe_outputs(cm, Style::Markdown),
        safe_outputs(lm, Style::Markdown),
        cm.len() == spec_collect(d, Kind::Command, Style::Markdown).len(),
        lm.len() == spec_collect(d, Kind::Link, Style::Markdown).len(),
    ensures
        spec_clean(
            spec_fill_all(d, Seq::<Seq<u8>>::empty(), cm, Seq::<Seq<u8>>::empty(), lm),
            Style::Markdown,
        ) == d,
    decreases d.len(),
{
    let e = Seq::<Seq<u8>>::empty();
    let x = spec_fill_all(d, e, cm, e, lm);
    if d.len() == 0 {
    } else {
        let l = d[0];
        lemma_directive_distinct(l);
        assert(spec_collect(d, Kind::Command, Style::Markdown).len() == (if is_directive(
            l,
            Kind::Command,
            Style::Markdown,
        ) {
            1int
        } else {
            0int
        }) + spec_collect(d.skip(1), Kind::Command, Style::Markdown).len());
        assert(spec_collect(d, Kind::Link, Style::Markdown).len() == (if is_directive(
            l,
            Kind::Link,
            Style::Markdown,
        ) {
            1int
        } else {
            0int
        }) + spec_collect(d.skip(1), Kind::Link, Style::Markdown).len());
        if is_directive(l, Kind::Command, Style::Markdown) {
            assert(cm.len() > 0);
            let blk = spec_block(Style::Markdown, cm[0]);
            let xr = spec_fill_all(d.skip(1), e, cm.skip(1), e, lm);
            assert(x =~= seq![l] + blk + xr);
            assert(x[0] == l);
            assert(is_style_directive(l, Style::Markdown));
            assert(x.skip(1) =~= blk + xr);
            lemma_pair_len_of_block(Style::Markdown, cm[0], xr);
            let n = blk.len() as int;
            assert(spec_clean(x, Style::Markdown) == seq![l] + spec_clean(
                x.skip(1 + n),
                Style::Markdown,
            ));
            assert(x.skip(1 + n) =~= xr);
            lemma_safe_skip(cm, Style::Markdown);
            lemma_clean_fill_all_md(d.skip(1), cm.skip(1), lm);
            assert(seq![l] + d.skip(1) =~= d);
        } else if is_directive(l, Kind::Link, Style::Markdown) {
            assert(lm.len() > 0);
            let blk = spec_block(Style::Markdown, lm[0]);
            let xr = spec_fill_all(d.skip(1), e, cm, e, lm.skip(1));
            assert(x =~= seq![l] + blk + xr);
            assert(x[0] == l);
            assert(is_style_directive(l, Style::Markdown));
            assert(x.skip(1) =~= blk + xr);
            lemma_pair_len_of_block(Style::Markdown, lm[0], xr);
            let n = blk.len() as int;
            assert(spec_clean(x, Style::Markdown) == seq![l] + spec_clean(
                x.skip(1 + n),
                Style::Markdown,
            ));
            assert(x.skip(1 + n) =~= xr);
            lemma_safe_skip(lm, Style::Markdown);
            lemma_clean_fill_all_md(d.skip(1), cm, lm.skip(1));
            assert(seq![l] + d.skip(1) =~= d);
        } else {
            let xr = spec_fill_all(d.skip(1), e, cm, e, lm);
            assert(x =~= seq![l] + xr);
            assert(x[0] == l);
            assert(x.skip(1) =~= xr);
            assert(!is_style_directive(l, Style::Markdown));
            assert(spec_clean(x, Style::Markdown) == seq![l] + spec_clean(xr, Style::Markdown));
            lemma_clean_fill_all_md(d.skip(1), cm, lm);
            assert(seq![l] + d.skip(1) =~= d);
        }
    }
}

/// Filling never adds or removes a directive: collecting any class of
/// payloads after a full fill finds what the bare document held.
pub proof fn lemma_collect_fill_all(
    d: Seq<Seq<u8>>,
    cf: Seq<Seq<u8>>,
    cm: Seq<Seq<u8>>,
    lf: Seq<Seq<u8>>,
    lm: Seq<Seq<u8>>,
    k: Kind,
    s: Style,
)
    requires
        safe_outputs(cf, Style::Fence),
        safe_outputs(cm, Style::Markdown),
        safe_outputs(lf, Style::Fence),
        safe_outputs(lm, Style::Markdown),
    ensures
        spec_collect(spec_fill_all(d, cf, cm, lf, lm), k, s) == spec_collect(d, k, s),
    decreases d.len(),
{
    let x = spec_fill_all(d, cf, cm, lf, lm);
    if d.len() == 0 {
    } else {
        let l = d[0];
        lemma_directive_distinct(l);
        if is_directive(l, Kind::Command, Style::Fence) && cf.len() > 0 {
            let blk = spec_block(Style::Fence, cf[0]);
            let xr = spec_fill_all(d.skip(1), cf.skip(1), cm, lf, lm);
            assert(x =~= seq![l] + (blk + xr));
            assert(x[0] == l);
            assert(x.skip(1) =~= blk + xr);
            lemma_block_lines(Style::Fence, cf[0]);
            lemma_collect_nondir_prefix(blk, xr, k, s);
            lemma_safe_skip(cf, Style::Fence);
            lemma_collect_fill_all(d.skip(1), cf.skip(1), cm, lf, lm, k, s);
        } else if is_directive(l, Kind::Command, Style::Markdown) && cm.len() > 0 {
            let blk = spec_block(Style::Markdown, cm[0]);
            let xr = spec_fill_all(d.skip(1), cf, cm.skip(1), lf, lm);
            assert(x =~= seq![l] + (blk + xr));
            assert(x[0] == l);
            assert(x.skip(1) =~= blk + xr);
            lemma_block_lines(Style::Markdown, cm[0]);
            lemma_collect_nondir_prefix(blk, xr, k, s);
            lemma_safe_skip(cm, Style::Markdown);
            lemma_collect_fill_all(d.skip(1), cf, cm.skip(1), lf, lm, k, s);
        } else if is_directive(l, Kind::Link, Style::Fence) && lf.len() > 0 {
            let blk = spec_block(Style::Fence, lf[0]);
            let xr = spec_fill_all(d.skip(1), cf, cm, lf.skip(1), lm);
            assert(x =~= seq![l] + (blk + xr));
            assert(x[0] == l);
            assert(x.skip(1) =~= blk + xr);
            lemma_block_lines(Style::Fence, lf[0]);
            lemma_collect_nondir_prefix(blk, xr, k, s);
            lemma_safe_skip(lf, Style::Fence);
            lemma_collect_fill_all(d.skip(1), cf, cm, lf.skip(1), lm, k, s);
        } else if is_directive(l, Kind::Link, Style::Markdown) && lm.len() > 0 {
            let blk = spec_block(Style::Markdown, lm[0]);
            let xr = spec_fill_all(d.skip(1), cf, cm, lf, lm.skip(1));
            assert(x =~= seq![l] + (blk + xr));
            assert(x[0] == l);
            assert(x.skip(1) =~= blk + xr);
            lemma_block_lines(Style::Markdown, lm[0]);
            lemma_collect_nondir_prefix(blk, xr, k, s);
            lemma_safe_skip(lm, Style::Markdown);
            lemma_collect_fill_all(d.skip(1), cf, cm, lf, lm.skip(1), k, s);
        } else {
            let xr = spec_fill_all(d.skip(1), cf, cm, lf, lm);
            assert(x =~= seq![l] + xr);
            assert(x[0] == l);
            assert(x.skip(1) =~= xr);
            lemma_collect_fill_all(d.skip(1), cf, cm, lf, lm, k, s);
        }
    }
}

/// One full regeneration of a cleaned document: the four filling passes in
/// the order the engine runs them.
pub open spec fn spec_regenerate(
    c: Seq<Seq<u8>>,
    cf: Seq<Seq<u8>>,
    cm: Seq<Seq<u8>>,
    lf: Seq<Seq<u8>>,
    lm: Seq<Seq<u8>>,
) -> Seq<Seq<u8>> {
    spec_fill(
        spec_fill(
            spec_fill(spec_fill(c, Kind::Command, Style::Fence, cf), Kind::Command, Style::Markdown, cm),
            Kind::Link,
            Style::Fence,
            lf,
        ),
        Kind::Link,
        Style::Markdown,
        lm,
    )
}

/// One full run: clean both styles, then regenerate every directive class.
pub open spec fn spec_run(
    d: Seq<Seq<u8>>,
    cf: Seq<Seq<u8>>,
    cm: Seq<Seq<u8>>,
    lf: Seq<Seq<u8>>,
    lm: Seq<Seq<u8>>,
) -> Seq<Seq<u8>> {
    spec_regenerate(spec_clean_all(d), cf, cm, lf, lm)
}

/// The four sequential filling passes amount to the one combined walk.
pub proof fn lemma_regenerate_is_fill_all(
    c: Seq<Seq<u8>>,
    cf: Seq<Seq<u8>>,
    cm: Seq<Seq<u8>>,
    lf: Seq<Seq<u8>>,
    lm: Seq<Seq<u8>>,
)
    requires
        safe_outputs(cf, Style::Fence),
        safe_outputs(cm, Style::Markdown),
        safe_outputs(lf, Style::Fence),
        safe_outputs(lm, Style::Markdown),
    ensures
        spec_regenerate(c, cf, cm, lf, lm) == spec_fill_all(c, cf, cm, lf, lm),
{
    let e = Seq::<Seq<u8>>::empty();
    lemma_fill_all_empty(c);
    lemma_fill_stage(c, e, e, e, e, Kind::Command, Style::Fence, cf);
    lemma_fill_stage(c, cf, e, e, e, Kind::Command, Style::Markdown, cm);
    lemma_fill_stage(c, cf, cm, e, e, Kind::Link, Style::Fence, lf);
    lemma_fill_stage(c, cf, cm, lf, e, Kind::Link, Style::Markdown, lm);
}

/// Every pass sees the directives the cleaned document had: the earlier
/// filling passes add none and remove none, so one output per directive of
/// the cleaned document is one output per directive found by each pass.
pub proof fn lemma_passes_find_same_directives(
    c: Seq<Seq<u8>>,
    cf: Seq<Seq<u8>>,
    cm: Seq<Seq<u8>>,
    lf: Seq<Seq<u8>>,
    lm: Seq<Seq<u8>>,
    k: Kind,
    s: Style,
)
    requires
        safe_outputs(cf, Style::Fence),
        safe_outputs(cm, Style::Markdown),
        safe_outputs(lf, Style::Fence),
        safe_outputs(lm, Style::Markdown),
    ensures
        spec_collect(spec_fill(c, Kind::Command, Style::Fence, cf), k, s) == spec_collect(c, k, s),
        spec_collect(
            spec_fill(spec_fill(c, Kind::Command, Style::Fence, cf), Kind::Command, Style::Markdown, cm),
            k,
            s,
        ) == spec_collect(c, k, s),
        spec_collect(
            spec_fill(
                spec_fill(
                    spec_fill(c, Kind::Command, Style::Fence, cf),
                    Kind::Command,
                    Style::Markdown,
                    cm,
                ),
                Kind::Link,
                Style::Fence,
                lf,
            ),
            k,
            s,
        ) == spec_collect(c, k, s),
{
    let e = Seq::<Seq<u8>>::empty();
    lemma_fill_all_empty(c);
    lemma_fill_stage(c, e, e, e, e, Kind::Command, Style::Fence, cf);
    lemma_fill_stage(c, cf, e, e, e, Kind::Command, Style::Markdown, cm);
    lemma_fill_stage(c, cf, cm, e, e, Kind::Link, Style::Fence, lf);
    lemma_collect_fill_all(c, cf, e, e, e, k, s);
    lemma_collect_fill_all(c, cf, cm, e, e, k, s);
    lemma_collect_fill_all(c, cf, cm, lf, e, k, s);
}

/// Idempotence: once a document has been regenerated, cleaning it gives back
/// the same cleaned skeleton, and a second run with the same outputs leaves
/// it byte-identical. Each output list holds one entry per directive of its
/// class in the cleaned document, and no output holds a directive line or a
/// line closing its own block style.
pub proof fn lemma_regen_idempotent(
    d: Seq<Seq<u8>>,
    cf: Seq<Seq<u8>>,
    cm: Seq<Seq<u8>>,
    lf: Seq<Seq<u8>>,
    lm: Seq<Seq<u8>>,
)
    requires
        safe_outputs(cf, Style::Fence),
        safe_outputs(cm, Style::Markdown),
        safe_outputs(lf, Style::Fence),
        safe_outputs(lm, Style::Markdown),
        cf.len() == spec_collect(spec_clean_all(d), Kind::Command, Style::Fence).len(),
        cm.len() == spec_collect(spec_clean_all(d), Kind::Command, Style::Markdown).len(),
        lf.len() == spec_collect(spec_clean_all(d), Kind::Link, Style::Fence).len(),
        lm.len() == spec_collect(spec_clean_all(d), Kind::Link, Style::Markdown).len(),
    ensures
        spec_clean_all(spec_run(d, cf, cm, lf, lm)) == spec_clean_all(d),
        spec_run(spec_run(d, cf, cm, lf, lm), cf, cm, lf, lm) == spec_run(d, cf, cm, lf, lm),
{
    let c = spec_clean_all(d);
    lemma_regenerate_is_fill_all(c, cf, cm, lf, lm);
    lemma_clean_fill_all_fence(c, cf, cm, lf, lm);
    lemma_clean_fill_all_md(c, cm, lm);
}

/// Cleaning then regenerating restores a document whose blocks already match
/// the current outputs: for any document, one run reaches that state, and a
/// further clean-and-regenerate with unchanged outputs returns it exactly.
pub proof fn lemma_clean_then_regenerate(
    b: Seq<Seq<u8>>,
    cf: Seq<Seq<u8>>,
    cm: Seq<Seq<u8>>,
    lf: Seq<Seq<u8>>,
    lm: Seq<Seq<u8>>,
)
    requires
        safe_outputs(cf, Style::Fence),
        safe_outputs(cm, Style::Markdown),
        safe_outputs(lf, Style::Fence),
        safe_outputs(lm, Style::Markdown),
        cf.len() == spec_collect(spec_clean_all(b), Kind::Command, Style::Fence).len(),
        cm.len() == spec_collect(spec_clean_all(b), Kind::Command, Style::Markdown).len(),
        lf.len() == spec_collect(spec_clean_all(b), Kind::Link, Style::Fence).len(),
        lm.len() == spec_collect(spec_clean_all(b), Kind::Link, Style::Markdown).len(),
    ensures
        ({
            let a = spec_fill_all(spec_clean_all(b), cf, cm, lf, lm);
            spec_regenerate(spec_clean_all(a), cf, cm, lf, lm) == a
        }),
{
    let c = spec_clean_all(b);
    lemma_clean_fill_all_fence(c, cf, cm, lf, lm);
    lemma_clean_fill_all_md(c, cm, lm);
    lemma_regenerate_is_fill_all(c, cf, cm, lf, lm);
}

} // verus!
