//! The frozen consistency check. The regenerated document is held against the
//! original: when they are equal the run succeeds silently; when they differ
//! a line diff is rendered and the run must fail without writing. Each diff
//! entry is a line only in the original, a line only in the regenerated text,
//! or a line of both; a counter tracks the position in the original, and each
//! rendered line is `N- old line` or `N+ new line`.
use vstd::prelude::*;
use crate::text::lemma_deep_view;

verus! {

/// One entry of a line diff between the original (left) and the regenerated
/// document (right).
pub enum DiffLine {
    /// A line only the original holds.
    Left(Vec<u8>),
    /// A line both hold.
    Both(Vec<u8>, Vec<u8>),
    /// A line only the regenerated document holds.
    Right(Vec<u8>),
}

/// The lines of the original document that a diff accounts for, in order.
pub open spec fn left_proj(ds: Seq<DiffLine>) -> Seq<Seq<u8>>
    decreases ds.len(),
{
    if ds.len() == 0 {
        Seq::empty()
    } else {
        match ds[0] {
            DiffLine::Left(l) => seq![l@] + left_proj(ds.skip(1)),
            DiffLine::Both(a, b) => seq![a@] + left_proj(ds.skip(1)),
            DiffLine::Right(l) => left_proj(ds.skip(1)),
        }
    }
}

/// The lines of the regenerated document that a diff accounts for, in order.
pub open spec fn right_proj(ds: Seq<DiffLine>) -> Seq<Seq<u8>>
    decreases ds.len(),
{
    if ds.len() == 0 {
        Seq::empty()
    } else {
        match ds[0] {
            DiffLine::Left(l) => right_proj(ds.skip(1)),
            DiffLine::Both(a, b) => seq![b@] + right_proj(ds.skip(1)),
            DiffLine::Right(l) => seq![l@] + right_proj(ds.skip(1)),
        }
    }
}

/// Every shared entry of the diff holds one line twice.
pub open spec fn boths_equal(ds: Seq<DiffLine>) -> bool {
    forall|i: int|
        0 <= i < ds.len() ==> (#[trigger] ds[i] matches DiffLine::Both(a, b) ==> a@ == b@)
}

/// Relies on diff::slice, which computes a longest-common-subsequence line
/// diff: the entries marked only-left together with the shared entries give
/// back the left input in order, the only-right and shared entries give the
/// right input in order, and a shared entry pairs two equal lines. Its table
/// is sized by the product of the input lengths and counts matches in 32
/// bits, so inputs that large are excluded.
#[verifier::external_body]
fn diff_slices(a: &Vec<Vec<u8>>, b: &Vec<Vec<u8>>) -> (r: Vec<DiffLine>)
    requires
        a@.len() < u32::MAX,
        b@.len() < u32::MAX,
        (a@.len() + 1) * (b@.len() + 1) <= usize::MAX,
    ensures
        left_proj(r@) == a.deep_view(),
        right_proj(r@) == b.deep_view(),
        boths_equal(r@),
{
    diff::slice(a.as_slice(), b.as_slice())
        .into_iter()
        .map(|d| match d {
            diff::Result::Left(l) => DiffLine::Left(l.clone()),
            diff::Result::Both(l, r) => DiffLine::Both(l.clone(), r.clone()),
            diff::Result::Right(r) => DiffLine::Right(r.clone()),
        })
        .collect()
}

/// The decimal digits of `n`.
pub open spec fn spec_decimal(n: nat) -> Seq<u8>
    decreases n,
{
    if n < 10 {
        seq![(0x30 + n) as u8]
    } else {
        spec_decimal(n / 10) + seq![(0x30 + n % 10) as u8]
    }
}

/// The decimal digits of `n`.
pub fn decimal_bytes(n: u64) -> (r: Vec<u8>)
    ensures
        r@ == spec_decimal(n as nat),
    decreases n,
{
    if n < 10 {
        let mut r: Vec<u8> = Vec::new();
        r.push(0x30 + (n as u8));
        assert(r@ =~= spec_decimal(n as nat));
        r
    } else {
        let mut r = decimal_bytes(n / 10);
        r.push(0x30 + ((n % 10) as u8));
        assert(r@ =~= spec_decimal(n as nat));
        r
    }
}

/// The rendered diff report, with `line` lines of the original already
/// accounted for: lines only in the original are printed as `N- line` and
/// count, shared lines count silently, and lines only in the regenerated
/// document are printed as `N+ line` without counting, `N` being the position
/// in the original.
pub open spec fn spec_render(ds: Seq<DiffLine>, line: nat) -> Seq<Seq<u8>>
    decreases ds.len(),
{
    if ds.len() == 0 {
        Seq::empty()
    } else {
        match ds[0] {
            DiffLine::Left(l) => seq![spec_decimal(line + 1) + seq![0x2d, 0x20] + l@]
                + spec_render(ds.skip(1), line + 1),
            DiffLine::Both(a, b) => spec_render(ds.skip(1), line + 1),
            DiffLine::Right(l) => seq![spec_decimal(line) + seq![0x2b, 0x20] + l@] + spec_render(
                ds.skip(1),
                line,
            ),
        }
    }
}

fn render_one(line: u64, sign: u8, l: &Vec<u8>) -> (r: Vec<u8>)
    ensures
        r@ == spec_decimal(line as nat) + seq![sign, 0x20] + l@,
{
    let mut r = decimal_bytes(line);
    r.push(sign);
    r.push(0x20);
    let mut k: usize = 0;
    let ghost head = r@;
    while k < l.len()
        invariant
            k <= l@.len(),
            r@ == head + l@.take(k as int),
        decreases l.len() - k,
    {
        r.push(l[k]);
        k = k + 1;
        assert(r@ =~= head + l@.take(k as int));
    }
    assert(l@.take(l@.len() as int) =~= l@);
    assert(r@ =~= spec_decimal(line as nat) + seq![sign, 0x20] + l@);
    r
}

/// The rendered report lines of a diff.
pub fn render_diff(ds: &Vec<DiffLine>) -> (r: Vec<Vec<u8>>)
    ensures
        r.deep_view() == spec_render(ds@, 0),
{
    let mut r: Vec<Vec<u8>> = Vec::new();
    let mut line: u64 = 0;
    let mut i: usize = 0;
    proof {
        assert(ds@.skip(0) =~= ds@);
        assert(r.deep_view() =~~= Seq::<Seq<u8>>::empty());
        assert(Seq::<Seq<u8>>::empty() + spec_render(ds@, 0) =~= spec_render(ds@, 0));
    }
    while i < ds.len()
        invariant
            i <= ds@.len(),
            line <= i,
            spec_render(ds@, 0) == r.deep_view() + spec_render(ds@.skip(i as int), line as nat),
        decreases ds.len() - i,
    {
        let ghost t = ds@.skip(i as int);
        proof {
            assert(t[0] == ds@[i as int]);
            assert(t.skip(1) =~= ds@.skip(i as int + 1));
        }
        let ghost old_r = r.deep_view();
        match &ds[i] {
            DiffLine::Left(l) => {
                let out = render_one(line + 1, 0x2d, l);
                let ghost outv = out@;
                r.push(out);
                proof {
                    lemma_deep_view(r);
                    assert(r.deep_view() =~~= old_r.push(outv));
                    assert(old_r + (seq![outv] + spec_render(ds@.skip(i as int + 1), (line + 1) as nat))
                        =~= old_r.push(outv) + spec_render(ds@.skip(i as int + 1), (line + 1) as nat));
                }
                line = line + 1;
            },
            DiffLine::Both(a, b) => {
                line = line + 1;
            },
            DiffLine::Right(l) => {
                let out = render_one(line, 0x2b, l);
                let ghost outv = out@;
                r.push(out);
                proof {
                    lemma_deep_view(r);
                    assert(r.deep_view() =~~= old_r.push(outv));
                    assert(old_r + (seq![outv] + spec_render(ds@.skip(i as int + 1), line as nat))
                        =~= old_r.push(outv) + spec_render(ds@.skip(i as int + 1), line as nat));
                }
            },
        }
        i = i + 1;
    }
    proof {
        assert(ds@.skip(ds@.len() as int) =~= Seq::<DiffLine>::empty());
        assert(r.deep_view() + Seq::<Seq<u8>>::empty() =~= r.deep_view());
    }
    r
}

/// Whether two documents hold the same lines.
pub fn docs_equal(a: &Vec<Vec<u8>>, b: &Vec<Vec<u8>>) -> (r: bool)
    ensures
        r == (a.deep_view() == b.deep_view()),
{
    proof {
        lemma_deep_view(*a);
        lemma_deep_view(*b);
    }
    if a.len() != b.len() {
        proof {
            assert(a.deep_view().len() != b.deep_view().len());
        }
        return false;
    }
    let mut i: usize = 0;
    while i < a.len()
        invariant
            i <= a@.len(),
            a@.len() == b@.len(),
            a.deep_view().len() == a@.len(),
            b.deep_view().len() == b@.len(),
            forall|j: int| 0 <= j < a@.len() ==> a.deep_view()[j] == a@[j]@,
            forall|j: int| 0 <= j < b@.len() ==> b.deep_view()[j] == b@[j]@,
            forall|j: int| 0 <= j < i ==> a@[j]@ == b@[j]@,
        decreases a.len() - i,
    {
        if !crate::text::bytes_equal(&a[i], &b[i]) {
            proof {
                assert(a.deep_view()[i as int] != b.deep_view()[i as int]);
            }
            return false;
        }
        i = i + 1;
    }
    proof {
        assert(a.deep_view() =~= b.deep_view());
    }
    true
}

/// The frozen check: `None` when the regenerated document matches the
/// original, so the run may succeed silently; otherwise the rendered diff
/// report, and the caller must fail without writing.
pub fn frozen_report(orig: &Vec<Vec<u8>>, regen: &Vec<Vec<u8>>) -> (r: Option<Vec<Vec<u8>>>)
    requires
        orig@.len() < u32::MAX,
        regen@.len() < u32::MAX,
        (orig@.len() + 1) * (regen@.len() + 1) <= usize::MAX,
    ensures
        (r is None) == (orig.deep_view() == regen.deep_view()),
        r matches Some(report) ==> exists|ds: Seq<DiffLine>|
            #[trigger] left_proj(ds) == orig.deep_view() && right_proj(ds) == regen.deep_view()
                && boths_equal(ds) && report.deep_view() == spec_render(ds, 0),
{
    if docs_equal(orig, regen) {
        return None;
    }
    let ds = diff_slices(orig, regen);
    let report = render_diff(&ds);
    proof {
        assert(left_proj(ds@) == orig.deep_view() && right_proj(ds@) == regen.deep_view()
            && boths_equal(ds@) && report.deep_view() == spec_render(ds@, 0));
    }
    Some(report)
}

} // verus!
