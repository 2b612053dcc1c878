//! The regenerator. After a clean, each directive of a given kind and style
//! gets a fresh generated block right after its line: the style's opening
//! delimiter, the captured output normalized so it begins and ends with
//! exactly one newline, and the closing delimiter. `collect_payloads` lists,
//! in document order, what each pass must run or read; `fill_blocks` takes
//! the captured outputs in that same order and builds the document. A link
//! whose target could not be read contributes a fixed error marker instead of
//! content, so one broken link never stops the rest of the run.
use vstd::prelude::*;
use crate::grammar::Kind;
use crate::grammar::Style;
use crate::grammar::close_marker;
use crate::grammar::is_directive;
use crate::grammar::open_marker;
use crate::grammar::spec_payload;
use crate::grammar::close_marker_line;
use crate::grammar::open_marker_line;
use crate::grammar::payload_of;
use crate::text::copy_bytes;
use crate::text::lemma_deep_view;
use crate::text::spec_split_nl;
use crate::text::spec_trim_nl;
use crate::text::split_lines;
use crate::text::trim_nl;

verus! {

/// The payloads of the directives of one kind and style, in document order.
pub open spec fn spec_collect(d: Seq<Seq<u8>>, k: Kind, s: Style) -> Seq<Seq<u8>>
    decreases d.len(),
{
    if d.len() == 0 {
        Seq::empty()
    } else if is_directive(d[0], k, s) {
        seq![spec_payload(d[0], k, s).unwrap()] + spec_collect(d.skip(1), k, s)
    } else {
        spec_collect(d.skip(1), k, s)
    }
}

/// The lines of a fresh generated block of style `s` holding output `out`:
/// the opening delimiter, the output trimmed of leading and trailing newlines
/// and split into lines, and the closing delimiter.
pub open spec fn spec_block(s: Style, out: Seq<u8>) -> Seq<Seq<u8>> {
    seq![open_marker(s)] + spec_split_nl(spec_trim_nl(out)) + seq![close_marker(s)]
}

/// The document with a fresh block inserted after each directive of the given
/// kind and style, the i-th directive taking the i-th output.
pub open spec fn spec_fill(d: Seq<Seq<u8>>, k: Kind, s: Style, outs: Seq<Seq<u8>>) -> Seq<Seq<u8>>
    decreases d.len(),
{
    if d.len() == 0 {
        d
    } else if is_directive(d[0], k, s) && outs.len() > 0 {
        seq![d[0]] + spec_block(s, outs[0]) + spec_fill(d.skip(1), k, s, outs.skip(1))
    } else {
        seq![d[0]] + spec_fill(d.skip(1), k, s, outs)
    }
}

/// The payloads of every directive of the given kind and style, in order.
pub fn collect_payloads(d: &Vec<Vec<u8>>, k: Kind, s: Style) -> (r: Vec<Vec<u8>>)
    ensures
        r.deep_view() == spec_collect(d.deep_view(), k, s),
{
    let ghost dv = d.deep_view();
    proof {
        lemma_deep_view(*d);
        assert(dv.skip(0) =~= dv);
        assert(Seq::<Seq<u8>>::empty() + spec_collect(dv, k, s) =~= spec_collect(dv, k, s));
    }
    let mut r: Vec<Vec<u8>> = Vec::new();
    let mut i: usize = 0;
    proof {
        assert(r.deep_view() =~~= Seq::<Seq<u8>>::empty());
    }
    while i < d.len()
        invariant
            i <= d@.len(),
            dv == d.deep_view(),
            dv.len() == d@.len(),
            forall|j: int| 0 <= j < dv.len() ==> dv[j] == d@[j]@,
            spec_collect(dv, k, s) == r.deep_view() + spec_collect(dv.skip(i as int), k, s),
        decreases d.len() - i,
    {
        let ghost t = dv.skip(i as int);
        proof {
            assert(t[0] == dv[i as int]);
            assert(t.skip(1) =~= dv.skip(i as int + 1));
        }
        match payload_of(&d[i], k, s) {
            Some(p) => {
                let ghost old_r = r.deep_view();
                let ghost pv = p@;
                r.push(p);
                proof {
                    lemma_deep_view(r);
                    assert(r.deep_view() =~~= old_r.push(pv));
                    assert(old_r + (seq![pv] + spec_collect(dv.skip(i as int + 1), k, s))
                        =~= old_r.push(pv) + spec_collect(dv.skip(i as int + 1), k, s));
                }
            },
            None => {},
        }
        i = i + 1;
    }
    proof {
        assert(dv.skip(d@.len() as int) =~= Seq::<Seq<u8>>::empty());
        assert(r.deep_view() + Seq::<Seq<u8>>::empty() =~= r.deep_view());
    }
    r
}

/// The document with fresh blocks for one kind and style, the outputs given
/// in the order `collect_payloads` listed the directives.
pub fn fill_blocks(d: &Vec<Vec<u8>>, k: Kind, s: Style, outs: &Vec<Vec<u8>>) -> (r: Vec<Vec<u8>>)
    requires
        outs.deep_view().len() == spec_collect(d.deep_view(), k, s).len(),
    ensures
        r.deep_view() == spec_fill(d.deep_view(), k, s, outs.deep_view()),
{
    let ghost dv = d.deep_view();
    let ghost ov = outs.deep_view();
    proof {
        lemma_deep_view(*d);
        lemma_deep_view(*outs);
        assert(dv.skip(0) =~= dv);
        assert(ov.skip(0) =~= ov);
        assert(Seq::<Seq<u8>>::empty() + spec_fill(dv, k, s, ov) =~= spec_fill(dv, k, s, ov));
    }
    let mut r: Vec<Vec<u8>> = Vec::new();
    let mut i: usize = 0;
    let mut u: usize = 0;
    proof {
        assert(r.deep_view() =~~= Seq::<Seq<u8>>::empty());
    }
    while i < d.len()
        invariant
            i <= d@.len(),
            u <= outs@.len(),
            dv == d.deep_view(),
            ov == outs.deep_view(),
            dv.len() == d@.len(),
            ov.len() == outs@.len(),
            forall|j: int| 0 <= j < dv.len() ==> dv[j] == d@[j]@,
            forall|j: int| 0 <= j < ov.len() ==> ov[j] == outs@[j]@,
            spec_collect(dv.skip(i as int), k, s).len() == ov.len() - u,
            spec_fill(dv, k, s, ov) == r.deep_view() + spec_fill(
                dv.skip(i as int),
                k,
                s,
                ov.skip(u as int),
            ),
        decreases d.len() - i,
    {
        let ghost t = dv.skip(i as int);
        let ghost rem = ov.skip(u as int);
        proof {
            assert(t[0] == dv[i as int]);
            assert(t.skip(1) =~= dv.skip(i as int + 1));
        }
        let is_dir = payload_of(&d[i], k, s).is_some();
        let ghost old_r = r.deep_view();
        let line = copy_bytes(&d[i]);
        r.push(line);
        proof {
            lemma_deep_view(r);
            assert(r.deep_view() =~~= old_r.push(dv[i as int]));
            assert(old_r.push(dv[i as int]) =~= old_r + seq![dv[i as int]]);
        }
        if is_dir {
            let n_outs = outs.len();
            proof {
                assert(rem.len() > 0);
                assert(u < n_outs);
                assert(rem[0] == ov[u as int]);
                assert(rem.skip(1) =~= ov.skip(u as int + 1));
            }
            let openl = open_marker_line(s);
            let ghost before_block = r.deep_view();
            r.push(openl);
            proof {
                lemma_deep_view(r);
                assert(r.deep_view() =~~= before_block.push(open_marker(s)));
            }
            let trimmed = trim_nl(&outs[u]);
            let content = split_lines(&trimmed);
            let ghost cv = content.deep_view();
            let mut c: usize = 0;
            proof {
                lemma_deep_view(content);
                assert(r.deep_view() + cv.take(0) =~= r.deep_view());
            }
            let ghost mid = r.deep_view();
            while c < content.len()
                invariant
                    c <= content@.len(),
                    cv == content.deep_view(),
                    cv.len() == content@.len(),
                    forall|j: int| 0 <= j < cv.len() ==> cv[j] == content@[j]@,
                    r.deep_view() == mid + cv.take(c as int),
                decreases content.len() - c,
            {
                let ghost before = r.deep_view();
                let cl = copy_bytes(&content[c]);
                r.push(cl);
                proof {
                    lemma_deep_view(r);
                    assert(r.deep_view() =~~= before.push(cv[c as int]));
                    assert(mid + cv.take(c as int + 1) =~= (mid + cv.take(c as int)).push(
                        cv[c as int],
                    ));
                }
                c = c + 1;
            }
            proof {
                assert(cv.take(content@.len() as int) =~= cv);
            }
            let closel = close_marker_line(s);
            let ghost before_close = r.deep_view();
            r.push(closel);
            proof {
                lemma_deep_view(r);
                assert(r.deep_view() =~~= before_close.push(close_marker(s)));
                assert(spec_fill(t, k, s, rem) == seq![t[0]] + spec_block(s, rem[0]) + spec_fill(
                    t.skip(1),
                    k,
                    s,
                    rem.skip(1),
                ));
                assert(r.deep_view() =~= old_r + seq![dv[i as int]] + spec_block(s, ov[u as int]));
                assert(old_r + (seq![t[0]] + spec_block(s, rem[0]) + spec_fill(
                    dv.skip(i as int + 1),
                    k,
                    s,
                    ov.skip(u as int + 1),
                )) =~= (old_r + seq![dv[i as int]] + spec_block(s, ov[u as int])) + spec_fill(
                    dv.skip(i as int + 1),
                    k,
                    s,
                    ov.skip(u as int + 1),
                ));
            }
            u = u + 1;
        } else {
            proof {
                assert(spec_fill(t, k, s, rem) == seq![t[0]] + spec_fill(t.skip(1), k, s, rem));
                assert(old_r + (seq![dv[i as int]] + spec_fill(
                    dv.skip(i as int + 1),
                    k,
                    s,
                    ov.skip(u as int),
                )) =~= old_r.push(dv[i as int]) + spec_fill(
                    dv.skip(i as int + 1),
                    k,
                    s,
                    ov.skip(u as int),
                ));
            }
        }
        i = i + 1;
    }
    proof {
        assert(dv.skip(d@.len() as int) =~= Seq::<Seq<u8>>::empty());
        assert(r.deep_view() + spec_fill(Seq::<Seq<u8>>::empty(), k, s, ov.skip(u as int))
            =~= r.deep_view());
    }
    r
}

/// The marker embedded for a link whose target could not be read:
/// `[mdsh error]: failed to read file`.
pub open spec fn spec_error_marker() -> Seq<u8> {
    seq![0x5b, 0x6d, 0x64, 0x73, 0x68, 0x20, 0x65, 0x72, 0x72, 0x6f, 0x72, 0x5d, 0x3a, 0x20, 0x66,
        0x61, 0x69, 0x6c, 0x65, 0x64, 0x20, 0x74, 0x6f, 0x20, 0x72, 0x65, 0x61, 0x64, 0x20, 0x66,
        0x69, 0x6c, 0x65]
}

/// The fixed error marker line for an unreadable link target.
pub fn link_error_marker() -> (r: Vec<u8>)
    ensures
        r@ == spec_error_marker(),
{
    let mut r: Vec<u8> = Vec::new();
    r.push(0x5b);
    r.push(0x6d);
    r.push(0x64);
    r.push(0x73);
    r.push(0x68);
    r.push(0x20);
    r.push(0x65);
    r.push(0x72);
    r.push(0x72);
    r.push(0x6f);
    r.push(0x72);
    r.push(0x5d);
    r.push(0x3a);
    r.push(0x20);
    r.push(0x66);
    r.push(0x61);
    r.push(0x69);
    r.push(0x6c);
    r.push(0x65);
    r.push(0x64);
    r.push(0x20);
    r.push(0x74);
    r.push(0x6f);
    r.push(0x20);
    r.push(0x72);
    r.push(0x65);
    r.push(0x61);
    r.push(0x64);
    r.push(0x20);
    r.push(0x66);
    r.push(0x69);
    r.push(0x6c);
    r.push(0x65);
    assert(r@ =~= spec_error_marker());
    r
}

/// What a link directive embeds: the bytes read from its target, or, where
/// the read failed, the fixed error marker. A failed read is absorbed here,
/// per directive, and never stops the run.
pub fn link_content(read: Option<Vec<u8>>) -> (r: Vec<u8>)
    ensures
        match read {
            Some(c) => r@ == c@,
            None => r@ == spec_error_marker(),
        },
{
    match read {
        Some(c) => c,
        None => link_error_marker(),
    }
}

} // verus!
