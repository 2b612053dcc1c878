//! Bytes-and-lines groundwork: a document is a byte string; the engine works
//! on its lines. Splitting on newlines and joining with newlines are exact
//! inverses, which `lemma_join_split` states.
use vstd::prelude::*;

verus! {

/// The line separator.
pub const NL: u8 = 0x0a;

/// The lines of a byte string, split on `NL`. A document of `n` newlines has
/// `n + 1` lines; a trailing newline yields a final empty line.
pub open spec fn spec_split_nl(s: Seq<u8>) -> Seq<Seq<u8>>
    decreases s.len(),
{
    if s.len() == 0 {
        seq![Seq::<u8>::empty()]
    } else if s[0] == NL {
        seq![Seq::<u8>::empty()] + spec_split_nl(s.skip(1))
    } else {
        let rest = spec_split_nl(s.skip(1));
        seq![seq![s[0]] + rest[0]] + rest.skip(1)
    }
}

/// The byte string with the given lines, separated by `NL`.
pub open spec fn spec_join_nl(ls: Seq<Seq<u8>>) -> Seq<u8>
    decreases ls.len(),
{
    if ls.len() == 0 {
        Seq::<u8>::empty()
    } else if ls.len() == 1 {
        ls[0]
    } else {
        ls[0] + seq![NL] + spec_join_nl(ls.skip(1))
    }
}

/// The byte string with all leading and trailing newlines removed.
pub open spec fn spec_trim_nl(s: Seq<u8>) -> Seq<u8>
    decreases s.len(),
{
    if s.len() == 0 {
        s
    } else if s[0] == NL {
        spec_trim_nl(s.skip(1))
    } else if s[s.len() - 1] == NL {
        spec_trim_nl(s.take(s.len() - 1))
    } else {
        s
    }
}

/// The byte string, given one trailing newline if it had none.
pub open spec fn spec_trail_nl(s: Seq<u8>) -> Seq<u8> {
    if s.len() > 0 && s[s.len() - 1] == NL {
        s
    } else {
        s + seq![NL]
    }
}

/// The byte string, made to start and end with a newline: a leading newline is
/// added if none is there, and then a trailing one if none is there.
pub open spec fn spec_wrap_nl(s: Seq<u8>) -> Seq<u8> {
    if s.len() > 0 && s[0] == NL {
        spec_trail_nl(s)
    } else if s.len() > 0 && s[s.len() - 1] == NL {
        seq![NL] + s
    } else {
        seq![NL] + s + seq![NL]
    }
}

pub proof fn lemma_split_nonempty(s: Seq<u8>)
    ensures
        spec_split_nl(s).len() >= 1,
    decreases s.len(),
{
    if s.len() != 0 && s[0] != NL {
        lemma_split_nonempty(s.skip(1));
    }
}

/// No line produced by splitting contains a newline.
pub proof fn lemma_split_no_nl(s: Seq<u8>)
    ensures
        forall|i: int, j: int|
            0 <= i < spec_split_nl(s).len() && 0 <= j < spec_split_nl(s)[i].len()
                ==> spec_split_nl(s)[i][j] != NL,
    decreases s.len(),
{
    if s.len() == 0 {
    } else if s[0] == NL {
        lemma_split_no_nl(s.skip(1));
        let rest = spec_split_nl(s.skip(1));
        assert forall|i: int, j: int|
            0 <= i < spec_split_nl(s).len() && 0 <= j < spec_split_nl(s)[i].len() implies spec_split_nl(
            s,
        )[i][j] != NL by {
            if i > 0 {
                assert(spec_split_nl(s)[i] == rest[i - 1]);
                assert(rest[i - 1][j] != NL);
            }
        }
    } else {
        lemma_split_no_nl(s.skip(1));
        lemma_split_nonempty(s.skip(1));
        let rest = spec_split_nl(s.skip(1));
        assert forall|i: int, j: int|
            0 <= i < spec_split_nl(s).len() && 0 <= j < spec_split_nl(s)[i].len() implies spec_split_nl(
            s,
        )[i][j] != NL by {
            if i == 0 {
                if j == 0 {
                    assert(spec_split_nl(s)[0][0] == s[0]);
                } else {
                    assert(spec_split_nl(s)[0][j] == rest[0][j - 1]);
                    assert(rest[0][j - 1] != NL);
                }
            } else {
                assert(spec_split_nl(s)[i] == rest.skip(1)[i - 1]);
                assert(rest.skip(1)[i - 1] == rest[i]);
                assert(rest[i][j] != NL);
            }
        }
    }
}

/// Joining the lines of a byte string gives the byte string back.
pub proof fn lemma_join_split(s: Seq<u8>)
    ensures
        spec_join_nl(spec_split_nl(s)) == s,
    decreases s.len(),
{
    if s.len() == 0 {
        assert(spec_join_nl(spec_split_nl(s)) =~= s);
    } else if s[0] == NL {
        lemma_join_split(s.skip(1));
        lemma_split_nonempty(s.skip(1));
        let ls = seq![Seq::<u8>::empty()] + spec_split_nl(s.skip(1));
        assert(ls.skip(1) =~= spec_split_nl(s.skip(1)));
        assert(spec_join_nl(ls) =~= s);
    } else {
        lemma_join_split(s.skip(1));
        lemma_split_nonempty(s.skip(1));
        let rest = spec_split_nl(s.skip(1));
        let ls = seq![seq![s[0]] + rest[0]] + rest.skip(1);
        if rest.len() == 1 {
            assert(ls.len() == 1);
            assert(spec_join_nl(rest) == rest[0]);
            assert(spec_join_nl(ls) =~= s);
        } else {
            assert(ls.len() >= 2);
            assert(ls.skip(1) =~= rest.skip(1));
            assert(spec_join_nl(rest) == rest[0] + seq![NL] + spec_join_nl(rest.skip(1)));
            assert(spec_join_nl(ls) == ls[0] + seq![NL] + spec_join_nl(ls.skip(1)));
            assert(spec_join_nl(ls) =~= seq![s[0]] + spec_join_nl(rest));
            assert(seq![s[0]] + s.skip(1) =~= s);
        }
    }
}

/// Joining a document with one more line appends a separator and the line.
pub proof fn lemma_join_push(ls: Seq<Seq<u8>>, x: Seq<u8>)
    ensures
        spec_join_nl(ls.push(x)) == if ls.len() == 0 {
            x
        } else {
            spec_join_nl(ls) + seq![NL] + x
        },
    decreases ls.len(),
{
    if ls.len() == 0 {
        assert(ls.push(x).len() == 1);
        assert(ls.push(x)[0] == x);
    } else if ls.len() == 1 {
        assert(ls.push(x)[0] == ls[0]);
        assert(ls.push(x).skip(1) =~= seq![x]);
        assert(spec_join_nl(seq![x]) == x);
    } else {
        lemma_join_push(ls.skip(1), x);
        assert(ls.push(x).skip(1) =~= ls.skip(1).push(x));
        assert(spec_join_nl(ls.push(x)) == ls[0] + seq![NL] + spec_join_nl(ls.skip(1).push(x)));
        assert(spec_join_nl(ls) + seq![NL] + x =~= ls[0] + seq![NL] + (spec_join_nl(ls.skip(1))
            + seq![NL] + x));
    }
}

/// Joining two documents one after the other joins each and separates them.
pub proof fn lemma_join_concat(a: Seq<Seq<u8>>, b: Seq<Seq<u8>>)
    requires
        a.len() >= 1,
        b.len() >= 1,
    ensures
        spec_join_nl(a + b) == spec_join_nl(a) + seq![NL] + spec_join_nl(b),
    decreases a.len(),
{
    if a.len() == 1 {
        assert((a + b)[0] == a[0]);
        assert((a + b).skip(1) =~= b);
        if b.len() == 0 {
        } else {
            assert(spec_join_nl(a + b) == a[0] + seq![NL] + spec_join_nl(b));
        }
    } else {
        lemma_join_concat(a.skip(1), b);
        assert((a + b).skip(1) =~= a.skip(1) + b);
        assert(spec_join_nl(a + b) == (a + b)[0] + seq![NL] + spec_join_nl(a.skip(1) + b));
        assert((a + b)[0] == a[0]);
        assert(a[0] + seq![NL] + (spec_join_nl(a.skip(1)) + seq![NL] + spec_join_nl(b)) =~= (a[0]
            + seq![NL] + spec_join_nl(a.skip(1))) + seq![NL] + spec_join_nl(b));
    }
}

/// The trimmed string has no newline at either end.
pub proof fn lemma_trim_no_edge_nl(s: Seq<u8>)
    ensures
        spec_trim_nl(s).len() == 0 || (spec_trim_nl(s)[0] != NL && spec_trim_nl(s)[spec_trim_nl(
            s,
        ).len() - 1] != NL),
    decreases s.len(),
{
    if s.len() == 0 {
    } else if s[0] == NL {
        lemma_trim_no_edge_nl(s.skip(1));
    } else if s[s.len() - 1] == NL {
        lemma_trim_no_edge_nl(s.take(s.len() - 1));
    }
}

/// The deep view of a document indexes to the views of its lines.
pub proof fn lemma_deep_view(v: Vec<Vec<u8>>)
    ensures
        v.deep_view().len() == v@.len(),
        forall|i: int| 0 <= i < v@.len() ==> v.deep_view()[i] == v@[i]@,
{
    assert forall|i: int| 0 <= i < v@.len() implies v.deep_view()[i] == v@[i]@ by {
        assert(v@[i].deep_view() =~= v@[i]@);
    }
}

/// An exact copy of a line.
pub fn copy_bytes(s: &Vec<u8>) -> (r: Vec<u8>)
    ensures
        r@ == s@,
{
    let mut r: Vec<u8> = Vec::new();
    let mut i: usize = 0;
    while i < s.len()
        invariant
            i <= s.len(),
            r@ == s@.take(i as int),
        decreases s.len() - i,
    {
        r.push(s[i]);
        i = i + 1;
        assert(r@ =~= s@.take(i as int));
    }
    assert(s@.take(s.len() as int) =~= s@);
    r
}

/// Whether two byte strings hold the same bytes.
pub fn bytes_equal(a: &Vec<u8>, b: &Vec<u8>) -> (r: bool)
    ensures
        r == (a@ == b@),
{
    if a.len() != b.len() {
        return false;
    }
    let mut i: usize = 0;
    while i < a.len()
        invariant
            i <= a.len(),
            a.len() == b.len(),
            forall|j: int| 0 <= j < i ==> a@[j] == b@[j],
        decreases a.len() - i,
    {
        if a[i] != b[i] {
            return false;
        }
        i = i + 1;
    }
    proof {
        assert(a@ =~= b@);
    }
    true
}

/// The lines of a document.
pub fn split_lines(doc: &Vec<u8>) -> (r: Vec<Vec<u8>>)
    ensures
        r.deep_view() == spec_split_nl(doc@),
{
    let ghost whole = doc@;
    let mut r: Vec<Vec<u8>> = Vec::new();
    let mut cur: Vec<u8> = Vec::new();
    let mut i: usize = 0;
    proof {
        lemma_split_nonempty(whole);
        assert(whole.skip(0) =~= whole);
        assert(Seq::<u8>::empty() + spec_split_nl(whole)[0] =~= spec_split_nl(whole)[0]);
        assert(prepend_first(Seq::<u8>::empty(), spec_split_nl(whole)) =~= spec_split_nl(whole));
        assert(r.deep_view() =~~= Seq::<Seq<u8>>::empty());
        assert(Seq::<Seq<u8>>::empty() + spec_split_nl(whole) =~= spec_split_nl(whole));
    }
    while i < doc.len()
        invariant
            i <= doc.len(),
            whole == doc@,
            spec_split_nl(whole) == r.deep_view() + prepend_first(cur@, spec_split_nl(whole.skip(i as int))),
        decreases doc.len() - i,
    {
        let ghost pre = whole.skip(i as int);
        proof {
            assert(pre.len() > 0);
            assert(pre[0] == doc@[i as int]);
            assert(pre.skip(1) =~= whole.skip(i as int + 1));
            lemma_split_nonempty(pre.skip(1));
        }
        let b = doc[i];
        if b == NL {
            let ghost old_r = r.deep_view();
            let ghost old_cur = cur@;
            r.push(cur);
            cur = Vec::new();
            proof {
                lemma_deep_view(r);
                assert(r.deep_view() =~~= old_r.push(old_cur));
                let rest = spec_split_nl(whole.skip(i as int + 1));
                assert(spec_split_nl(pre) == seq![Seq::<u8>::empty()] + rest);
                assert((seq![Seq::<u8>::empty()] + rest).skip(1) =~= rest);
                assert(prepend_first(old_cur, spec_split_nl(pre)) =~= seq![old_cur] + rest);
                assert(prepend_first(Seq::<u8>::empty(), rest) =~= rest);
                assert(old_r + (seq![old_cur] + rest) =~= old_r.push(old_cur) + rest);
            }
        } else {
            let ghost old_cur = cur@;
            cur.push(b);
            proof {
                let rest = spec_split_nl(whole.skip(i as int + 1));
                assert(spec_split_nl(pre) == seq![seq![pre[0]] + rest[0]] + rest.skip(1));
                let ls = seq![seq![pre[0]] + rest[0]] + rest.skip(1);
                assert(ls.skip(1) =~= rest.skip(1));
                assert(old_cur + ls[0] =~= cur@ + rest[0]);
                assert(prepend_first(old_cur, spec_split_nl(pre)) =~= prepend_first(cur@, rest));
            }
        }
        i = i + 1;
    }
    proof {
        assert(whole.skip(doc.len() as int) =~= Seq::<u8>::empty());
        assert(spec_split_nl(whole.skip(doc.len() as int)) == seq![Seq::<u8>::empty()]);
        assert(cur@ + Seq::<u8>::empty() =~= cur@);
        assert(prepend_first(cur@, seq![Seq::<u8>::empty()]) =~= seq![cur@]);
    }
    let ghost old_r = r.deep_view();
    let ghost last = cur@;
    r.push(cur);
    proof {
        lemma_deep_view(r);
        assert(r.deep_view() =~~= old_r.push(last));
        assert(old_r + seq![last] =~= old_r.push(last));
    }
    r
}

/// The first line of a split, with `p` put in front of it.
pub open spec fn prepend_first(p: Seq<u8>, ls: Seq<Seq<u8>>) -> Seq<Seq<u8>> {
    seq![p + ls[0]] + ls.skip(1)
}

/// The document with the given lines.
pub fn join_lines(lines: &Vec<Vec<u8>>) -> (r: Vec<u8>)
    ensures
        r@ == spec_join_nl(lines.deep_view()),
{
    let ghost dv = lines.deep_view();
    let mut r: Vec<u8> = Vec::new();
    let mut i: usize = 0;
    while i < lines.len()
        invariant
            i <= lines.len(),
            dv == lines.deep_view(),
            dv.len() == lines.len(),
            r@ == spec_join_nl(dv.take(i as int)),
        decreases lines.len() - i,
    {
        let ghost old_r = r@;
        if i > 0 {
            r.push(NL);
        }
        proof {
            lemma_deep_view(*lines);
        }
        let line = &lines[i];
        let mut j: usize = 0;
        let ghost mid = r@;
        while j < line.len()
            invariant
                j <= line.len(),
                line@ == dv[i as int],
                i < dv.len(),
                r@ == mid + line@.take(j as int),
            decreases line.len() - j,
        {
            r.push(line[j]);
            j = j + 1;
            assert(r@ =~= mid + line@.take(j as int));
        }
        proof {
            assert(line@.take(line.len() as int) =~= line@);
            lemma_join_push(dv.take(i as int), dv[i as int]);
            assert(dv.take(i as int).push(dv[i as int]) =~= dv.take(i as int + 1));
            if i == 0 {
                assert(r@ =~= dv[0]);
            } else {
                assert(r@ =~= spec_join_nl(dv.take(i as int)) + seq![NL] + dv[i as int]);
            }
        }
        i = i + 1;
    }
    proof {
        assert(dv.take(lines.len() as int) =~= dv);
    }
    r
}

/// The output with leading and trailing newlines removed.
pub fn trim_nl(s: &Vec<u8>) -> (r: Vec<u8>)
    ensures
        r@ == spec_trim_nl(s@),
{
    let mut i: usize = 0;
    let mut j: usize = s.len();
    proof {
        assert(s@.subrange(0, s.len() as int) =~= s@);
    }
    while i < j && s[i] == NL
        invariant
            0 <= i <= j <= s.len(),
            spec_trim_nl(s@) == spec_trim_nl(s@.subrange(i as int, j as int)),
        decreases j - i,
    {
        proof {
            let t = s@.subrange(i as int, j as int);
            assert(t[0] == NL);
            assert(t.skip(1) =~= s@.subrange(i as int + 1, j as int));
        }
        i = i + 1;
    }
    while i < j && s[j - 1] == NL
        invariant
            0 <= i <= j <= s.len(),
            spec_trim_nl(s@) == spec_trim_nl(s@.subrange(i as int, j as int)),
            i < j ==> s@[i as int] != NL,
        decreases j - i,
    {
        proof {
            let t = s@.subrange(i as int, j as int);
            assert(t[0] != NL);
            assert(t[t.len() - 1] == NL);
            assert(t.take(t.len() - 1) =~= s@.subrange(i as int, j as int - 1));
        }
        j = j - 1;
    }
    proof {
        let t = s@.subrange(i as int, j as int);
        if t.len() > 0 {
            assert(t[0] != NL);
            assert(t[t.len() - 1] == s@[j as int - 1]);
        }
        assert(spec_trim_nl(t) == t);
    }
    let mut r: Vec<u8> = Vec::new();
    let mut k: usize = i;
    while k < j
        invariant
            i <= k <= j <= s.len(),
            r@ == s@.subrange(i as int, k as int),
        decreases j - k,
    {
        r.push(s[k]);
        k = k + 1;
        assert(r@ =~= s@.subrange(i as int, k as int));
    }
    r
}

/// The byte string, given one trailing newline if it had none.
pub fn trail_nl(s: &Vec<u8>) -> (r: Vec<u8>)
    ensures
        r@ == spec_trail_nl(s@),
{
    let mut r = copy_bytes(s);
    let n = r.len();
    if n == 0 || r[n - 1] != NL {
        r.push(NL);
        assert(r@ =~= s@ + seq![NL]);
    }
    r
}

/// The byte string, made to start and end with a newline.
pub fn wrap_nl(s: &Vec<u8>) -> (r: Vec<u8>)
    ensures
        r@ == spec_wrap_nl(s@),
{
    let n = s.len();
    if n > 0 && s[0] == NL {
        trail_nl(s)
    } else if n > 0 && s[n - 1] == NL {
        let mut r: Vec<u8> = Vec::new();
        r.push(NL);
        let mut k: usize = 0;
        while k < s.len()
            invariant
                k <= s.len(),
                r@ == seq![NL] + s@.take(k as int),
            decreases s.len() - k,
        {
            r.push(s[k]);
            k = k + 1;
            assert(r@ =~= seq![NL] + s@.take(k as int));
        }
        assert(s@.take(s.len() as int) =~= s@);
        r
    } else {
        let mut r: Vec<u8> = Vec::new();
        r.push(NL);
        let mut k: usize = 0;
        while k < s.len()
            invariant
                k <= s.len(),
                r@ == seq![NL] + s@.take(k as int),
            decreases s.len() - k,
        {
            r.push(s[k]);
            k = k + 1;
            assert(r@ =~= seq![NL] + s@.take(k as int));
        }
        r.push(NL);
        assert(s@.take(s.len() as int) =~= s@);
        assert(r@ =~= seq![NL] + s@ + seq![NL]);
        r
    }
}

} // verus!
