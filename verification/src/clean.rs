//! The block cleaner. A managed pair is a directive line followed — across a
//! run of blank lines — by one generated block; the block may use either
//! delimiter style, whatever the directive's native style. Cleaning a style
//! replaces every managed pair whose directive has that style by the
//! directive line alone, and a full clean runs the fence pass and then the
//! markdown pass.
use vstd::prelude::*;
use crate::grammar::Style;
use crate::grammar::is_blank_line;
use crate::grammar::is_close_line;
use crate::grammar::is_style_directive;
use crate::grammar::opens_block;
use crate::grammar::line_is_blank;
use crate::grammar::line_is_close;
use crate::grammar::line_is_style_directive;
use crate::grammar::line_opens;
use crate::text::copy_bytes;
use crate::text::lemma_deep_view;

verus! {

/// How many lines of the document's front are blank.
pub open spec fn count_blanks(t: Seq<Seq<u8>>) -> int
    decreases t.len(),
{
    if t.len() == 0 {
        0
    } else if is_blank_line(t[0]) {
        1 + count_blanks(t.skip(1))
    } else {
        0
    }
}

pub proof fn lemma_count_blanks(t: Seq<Seq<u8>>)
    ensures
        0 <= count_blanks(t) <= t.len(),
        forall|j: int| 0 <= j < count_blanks(t) ==> is_blank_line(t[j]),
        count_blanks(t) < t.len() ==> !is_blank_line(t[count_blanks(t)]),
    decreases t.len(),
{
    if t.len() > 0 && is_blank_line(t[0]) {
        lemma_count_blanks(t.skip(1));
        assert forall|j: int| 0 <= j < count_blanks(t) implies is_blank_line(t[j]) by {
            if j > 0 {
                assert(t.skip(1)[j - 1] == t[j]);
            }
        }
        if count_blanks(t) < t.len() {
            assert(t.skip(1)[count_blanks(t) - 1] == t[count_blanks(t)]);
        }
    }
}

/// The position of the first line that closes a block of style `s`.
pub open spec fn spec_find_close(t: Seq<Seq<u8>>, s: Style) -> Option<int>
    decreases t.len(),
{
    if t.len() == 0 {
        None
    } else if is_close_line(t[0], s) {
        Some(0)
    } else {
        match spec_find_close(t.skip(1), s) {
            Some(k) => Some(k + 1),
            None => None,
        }
    }
}

pub proof fn lemma_find_close(t: Seq<Seq<u8>>, s: Style)
    ensures
        spec_find_close(t, s) matches Some(k) ==> 0 <= k < t.len() && is_close_line(t[k], s) && (
        forall|j: int| 0 <= j < k ==> !is_close_line(t[j], s)),
        spec_find_close(t, s) is None ==> forall|j: int| 0 <= j < t.len() ==> !is_close_line(
            t[j],
            s,
        ),
    decreases t.len(),
{
    if t.len() > 0 && !is_close_line(t[0], s) {
        lemma_find_close(t.skip(1), s);
        assert(forall|j: int| 1 <= j < t.len() ==> t.skip(1)[j - 1] == t[j]);
    }
}

/// Lines that follow a directive: `Some(n)` when the first `n` of them are a
/// blank run and then one whole generated block, in either style.
pub open spec fn spec_pair_len(t: Seq<Seq<u8>>) -> Option<int> {
    let b = count_blanks(t);
    if b < t.len() && opens_block(t[b]) is Some {
        let st = opens_block(t[b]).unwrap();
        match spec_find_close(t.skip(b + 1), st) {
            Some(k) => Some(b + 1 + k + 1),
            None => None,
        }
    } else {
        None
    }
}

pub proof fn lemma_pair_len(t: Seq<Seq<u8>>)
    ensures
        spec_pair_len(t) matches Some(n) ==> 2 <= n <= t.len(),
{
    lemma_count_blanks(t);
    let b = count_blanks(t);
    if b < t.len() && opens_block(t[b]) is Some {
        lemma_find_close(t.skip(b + 1), opens_block(t[b]).unwrap());
    }
}

/// One cleaning pass: every directive of style `s` whose line is followed by
/// a managed block loses the blank run and the block and keeps its line;
/// scanning continues after the block, and every other line is kept.
pub open spec fn spec_clean(d: Seq<Seq<u8>>, s: Style) -> Seq<Seq<u8>>
    decreases d.len(),
    via spec_clean_dec
{
    if d.len() == 0 {
        d
    } else if is_style_directive(d[0], s) && spec_pair_len(d.skip(1)) is Some {
        let n = spec_pair_len(d.skip(1)).unwrap();
        seq![d[0]] + spec_clean(d.skip(1 + n), s)
    } else {
        seq![d[0]] + spec_clean(d.skip(1), s)
    }
}

#[via_fn]
proof fn spec_clean_dec(d: Seq<Seq<u8>>, s: Style) {
    if d.len() > 0 {
        lemma_pair_len(d.skip(1));
    }
}

/// The full clean: the fence-style pass, then the markdown-style pass.
pub open spec fn spec_clean_all(d: Seq<Seq<u8>>) -> Seq<Seq<u8>> {
    spec_clean(spec_clean(d, Style::Fence), Style::Markdown)
}

/// The first non-blank position at or after `from`, or the document's end.
fn scan_blanks(d: &Vec<Vec<u8>>, from: usize) -> (r: usize)
    requires
        from <= d@.len(),
    ensures
        from <= r <= d@.len(),
        r - from == count_blanks(d.deep_view().skip(from as int)),
        r < d@.len() ==> !is_blank_line(d.deep_view()[r as int]),
{
    let ghost dv = d.deep_view();
    proof {
        lemma_deep_view(*d);
    }
    let mut i: usize = from;
    while i < d.len()
        invariant
            from <= i <= d@.len(),
            dv == d.deep_view(),
            dv.len() == d@.len(),
            forall|j: int| 0 <= j < dv.len() ==> dv[j] == d@[j]@,
            count_blanks(dv.skip(from as int)) == i - from + count_blanks(dv.skip(i as int)),
        decreases d.len() - i,
    {
        let ghost t = dv.skip(i as int);
        proof {
            assert(t[0] == dv[i as int]);
            assert(t.skip(1) =~= dv.skip(i as int + 1));
        }
        if !line_is_blank(&d[i]) {
            assert(count_blanks(t) == 0);
            return i;
        }
        proof {
            lemma_count_blanks(dv.skip(i as int + 1));
        }
        i = i + 1;
    }
    proof {
        assert(dv.skip(d@.len() as int) =~= Seq::<Seq<u8>>::empty());
    }
    i
}

/// The first line at or after `from` that closes a block of style `s`.
fn scan_close(d: &Vec<Vec<u8>>, from: usize, s: Style) -> (r: Option<usize>)
    requires
        from <= d@.len(),
    ensures
        match r {
            Some(j) => from <= j < d@.len() && Some(j - from as int) == spec_find_close(
                d.deep_view().skip(from as int),
                s,
            ),
            None => spec_find_close(d.deep_view().skip(from as int), s) is None,
        },
{
    let ghost dv = d.deep_view();
    proof {
        lemma_deep_view(*d);
    }
    let mut i: usize = from;
    while i < d.len()
        invariant
            from <= i <= d@.len(),
            dv == d.deep_view(),
            dv.len() == d@.len(),
            forall|j: int| 0 <= j < dv.len() ==> dv[j] == d@[j]@,
            spec_find_close(dv.skip(from as int), s) == match spec_find_close(
                dv.skip(i as int),
                s,
            ) {
                Some(k) => Some(k + i - from),
                None => None::<int>,
            },
        decreases d.len() - i,
    {
        let ghost t = dv.skip(i as int);
        proof {
            assert(t[0] == dv[i as int]);
            assert(t.skip(1) =~= dv.skip(i as int + 1));
        }
        if line_is_close(&d[i], s) {
            assert(spec_find_close(t, s) == Some(0int));
            return Some(i);
        }
        i = i + 1;
    }
    proof {
        assert(dv.skip(d@.len() as int) =~= Seq::<Seq<u8>>::empty());
    }
    None
}

/// The end of the managed block that follows position `from`, if the lines
/// from `from` on begin with a blank run and one whole block: `Some(e)` means
/// lines `from..e` are that run and block.
fn pair_end(d: &Vec<Vec<u8>>, from: usize) -> (r: Option<usize>)
    requires
        from <= d@.len(),
    ensures
        match r {
            Some(e) => from < e <= d@.len() && Some(e - from as int) == spec_pair_len(
                d.deep_view().skip(from as int),
            ),
            None => spec_pair_len(d.deep_view().skip(from as int)) is None,
        },
{
    let ghost dv = d.deep_view();
    let ghost t = dv.skip(from as int);
    proof {
        lemma_deep_view(*d);
    }
    let b = scan_blanks(d, from);
    proof {
        lemma_count_blanks(t);
        assert(count_blanks(t) == b - from);
        if b < d@.len() {
            assert(t[b - from as int] == dv[b as int]);
        }
    }
    if b == d.len() {
        return None;
    }
    match line_opens(&d[b]) {
        Some(st) => {
            proof {
                assert(opens_block(t[b - from as int]) == Some(st));
            }
            match scan_close(d, b + 1, st) {
                Some(j) => {
                    proof {
                        assert(t.skip(b - from as int + 1) =~= dv.skip(b as int + 1));
                        assert(spec_pair_len(t) == Some((b - from as int) + 1 + (j - b as int - 1)
                            + 1));
                    }
                    Some(j + 1)
                },
                None => {
                    proof {
                        assert(t.skip(b - from as int + 1) =~= dv.skip(b as int + 1));
                    }
                    None
                },
            }
        },
        None => None,
    }
}

/// One cleaning pass over the document for directives of style `s`.
pub fn clean_pairs(d: &Vec<Vec<u8>>, s: Style) -> (r: Vec<Vec<u8>>)
    ensures
        r.deep_view() == spec_clean(d.deep_view(), s),
{
    let ghost dv = d.deep_view();
    proof {
        lemma_deep_view(*d);
        assert(dv.skip(0) =~= dv);
    }
    let mut r: Vec<Vec<u8>> = Vec::new();
    let mut i: usize = 0;
    proof {
        assert(r.deep_view() =~~= Seq::<Seq<u8>>::empty());
        assert(Seq::<Seq<u8>>::empty() + spec_clean(dv, s) =~= spec_clean(dv, s));
    }
    while i < d.len()
        invariant
            i <= d@.len(),
            dv == d.deep_view(),
            dv.len() == d@.len(),
            forall|j: int| 0 <= j < dv.len() ==> dv[j] == d@[j]@,
            spec_clean(dv, s) == r.deep_view() + spec_clean(dv.skip(i as int), s),
        decreases d.len() - i,
    {
        let ghost t = dv.skip(i as int);
        proof {
            assert(t[0] == dv[i as int]);
            assert(t.skip(1) =~= dv.skip(i as int + 1));
        }
        let ghost old_r = r.deep_view();
        let line = copy_bytes(&d[i]);
        let is_dir = line_is_style_directive(&line, s);
        r.push(line);
        proof {
            lemma_deep_view(r);
            assert(r.deep_view() =~~= old_r.push(dv[i as int]));
        }
        if is_dir {
            match pair_end(d, i + 1) {
                Some(e) => {
                    proof {
                        assert(spec_pair_len(t.skip(1)) == Some(e - (i as int + 1)));
                        let n = e - (i as int + 1);
                        assert(spec_clean(t, s) == seq![t[0]] + spec_clean(t.skip(1 + n), s));
                        assert(t.skip(1 + n) =~= dv.skip(e as int));
                        assert(old_r + (seq![dv[i as int]] + spec_clean(dv.skip(e as int), s))
                            =~= old_r.push(dv[i as int]) + spec_clean(dv.skip(e as int), s));
                    }
                    i = e;
                },
                None => {
                    proof {
                        assert(spec_clean(t, s) == seq![t[0]] + spec_clean(t.skip(1), s));
                        assert(old_r + (seq![dv[i as int]] + spec_clean(dv.skip(i as int + 1), s))
                            =~= old_r.push(dv[i as int]) + spec_clean(dv.skip(i as int + 1), s));
                    }
                    i = i + 1;
                },
            }
        } else {
            proof {
                assert(spec_clean(t, s) == seq![t[0]] + spec_clean(t.skip(1), s));
                assert(old_r + (seq![dv[i as int]] + spec_clean(dv.skip(i as int + 1), s))
                    =~= old_r.push(dv[i as int]) + spec_clean(dv.skip(i as int + 1), s));
            }
            i = i + 1;
        }
    }
    proof {
        assert(dv.skip(d@.len() as int) =~= Seq::<Seq<u8>>::empty());
        assert(spec_clean(Seq::<Seq<u8>>::empty(), s) == Seq::<Seq<u8>>::empty());
        assert(r.deep_view() + Seq::<Seq<u8>>::empty() =~= r.deep_view());
    }
    r
}

/// The full clean of a document: strip every managed pair of both styles.
pub fn clean_document(d: &Vec<Vec<u8>>) -> (r: Vec<Vec<u8>>)
    ensures
        r.deep_view() == spec_clean_all(d.deep_view()),
{
    let f = clean_pairs(d, Style::Fence);
    clean_pairs(&f, Style::Markdown)
}

} // verus!
