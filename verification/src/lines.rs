use vstd::prelude::*;
use crate::scan::B_NL;

verus! {

/// Splitting text into lines, accumulating the current unfinished line:
/// a newline ends the current line; a final unfinished line still counts,
/// but text ending in a newline gains no empty last line.
pub open spec fn lines_rec(d: Seq<u8>, cur: Seq<u8>) -> Seq<Seq<u8>>
    decreases d.len(),
{
    if d.len() == 0 {
        if cur.len() == 0 {
            Seq::empty()
        } else {
            seq![cur]
        }
    } else if d[0] == B_NL {
        seq![cur] + lines_rec(d.skip(1), Seq::empty())
    } else {
        lines_rec(d.skip(1), cur.push(d[0]))
    }
}

/// The lines of a text, in order, without their newline terminators.
pub open spec fn lines_spec(d: Seq<u8>) -> Seq<Seq<u8>> {
    lines_rec(d, Seq::empty())
}

/// Joining lines back into text, with a newline after every line.
pub open spec fn unlines_spec(ls: Seq<Seq<u8>>) -> Seq<u8>
    decreases ls.len(),
{
    if ls.len() == 0 {
        Seq::empty()
    } else {
        ls[0] + seq![B_NL] + unlines_spec(ls.skip(1))
    }
}

pub open spec fn nl_free(l: Seq<u8>) -> bool {
    forall|i: int| 0 <= i < l.len() ==> l[i] != B_NL
}

pub open spec fn all_nl_free(ls: Seq<Seq<u8>>) -> bool {
    forall|i: int| 0 <= i < ls.len() ==> nl_free(#[trigger] ls[i])
}

/// A newline-free prefix only feeds the accumulator.
pub proof fn lemma_lines_rec_prepend(l: Seq<u8>, d: Seq<u8>, cur: Seq<u8>)
    requires
        nl_free(l),
    ensures
        lines_rec(l + d, cur) == lines_rec(d, cur + l),
    decreases l.len(),
{
    if l.len() == 0 {
        assert(l + d =~= d);
        assert(cur + l =~= cur);
    } else {
        assert((l + d)[0] == l[0]);
        assert(l[0] != B_NL);
        assert((l + d).skip(1) =~= l.skip(1) + d);
        lemma_lines_rec_prepend(l.skip(1), d, cur.push(l[0]));
        assert(cur.push(l[0]) + l.skip(1) =~= cur + l);
    }
}

/// Every line produced by splitting is newline-free.
pub proof fn lemma_lines_rec_nl_free(d: Seq<u8>, cur: Seq<u8>)
    requires
        nl_free(cur),
    ensures
        all_nl_free(lines_rec(d, cur)),
    decreases d.len(),
{
    if d.len() == 0 {
    } else if d[0] == B_NL {
        lemma_lines_rec_nl_free(d.skip(1), Seq::empty());
        let r = seq![cur] + lines_rec(d.skip(1), Seq::empty());
        assert forall|i: int| 0 <= i < r.len() implies nl_free(#[trigger] r[i]) by {
            if i > 0 {
                assert(r[i] == lines_rec(d.skip(1), Seq::empty())[i - 1]);
            }
        }
    } else {
        assert(nl_free(cur.push(d[0]))) by {
            assert(forall|i: int|
                0 <= i < cur.len() ==> #[trigger] cur.push(d[0])[i] == cur[i]);
        }
        lemma_lines_rec_nl_free(d.skip(1), cur.push(d[0]));
    }
}

/// Splitting undoes joining, as long as no line holds a newline.
pub proof fn lemma_lines_unlines(ls: Seq<Seq<u8>>)
    requires
        all_nl_free(ls),
    ensures
        lines_spec(unlines_spec(ls)) == ls,
    decreases ls.len(),
{
    if ls.len() == 0 {
        assert(lines_spec(unlines_spec(ls)) =~= ls);
    } else {
        let rest = unlines_spec(ls.skip(1));
        assert(unlines_spec(ls) == ls[0] + seq![B_NL] + rest);
        assert(nl_free(ls[0]));
        assert(ls[0] + seq![B_NL] + rest =~= ls[0] + (seq![B_NL] + rest));
        lemma_lines_rec_prepend(ls[0], seq![B_NL] + rest, Seq::empty());
        assert(Seq::<u8>::empty() + ls[0] =~= ls[0]);
        assert(lines_rec(seq![B_NL] + rest, ls[0]) == seq![ls[0]] + lines_rec(rest, Seq::empty()))
            by {
            assert((seq![B_NL] + rest)[0] == B_NL);
            assert((seq![B_NL] + rest).skip(1) =~= rest);
        }
        assert(forall|i: int| 0 <= i < ls.skip(1).len() ==> ls.skip(1)[i] == ls[i + 1]);
        lemma_lines_unlines(ls.skip(1));
        assert(seq![ls[0]] + ls.skip(1) =~= ls);
    }
}

/// Splits a document into its lines.
pub fn split_lines(doc: &Vec<u8>) -> (r: Vec<Vec<u8>>)
    ensures
        r.deep_view() == lines_spec(doc@),
{
    let n = doc.len();
    let mut out: Vec<Vec<u8>> = Vec::new();
    let mut cur: Vec<u8> = Vec::new();
    let mut i: usize = 0;
    proof {
        assert(out.deep_view() =~~= Seq::<Seq<u8>>::empty());
        assert(doc@.skip(0) =~= doc@);
        assert(Seq::<Seq<u8>>::empty() + lines_rec(doc@, cur@) =~= lines_rec(doc@, cur@));
    }
    while i < n
        invariant
            0 <= i <= n,
            n == doc@.len(),
            out.deep_view() + lines_rec(doc@.skip(i as int), cur@) == lines_spec(doc@),
        decreases n - i,
    {
        let ghost rem = doc@.skip(i as int);
        let ghost pre_out = out.deep_view();
        let ghost pre_cur = cur@;
        proof {
            assert(rem[0] == doc@[i as int]);
            assert(rem.skip(1) =~= doc@.skip(i + 1));
        }
        if doc[i] == B_NL {
            out.push(cur);
            cur = Vec::new();
            proof {
                assert(out.deep_view() =~~= pre_out.push(pre_cur));
                assert(lines_rec(rem, pre_cur) == seq![pre_cur] + lines_rec(
                    doc@.skip(i + 1),
                    Seq::empty(),
                ));
                assert(pre_out.push(pre_cur) + lines_rec(doc@.skip(i + 1), cur@) =~= pre_out + (
                seq![pre_cur] + lines_rec(doc@.skip(i + 1), cur@)));
            }
        } else {
            cur.push(doc[i]);
            proof {
                assert(lines_rec(rem, pre_cur) == lines_rec(doc@.skip(i + 1), pre_cur.push(rem[0])));
                assert(cur@ == pre_cur.push(rem[0]));
            }
        }
        i = i + 1;
    }
    proof {
        assert(doc@.skip(n as int) =~= Seq::<u8>::empty());
    }
    let ghost pre_out = out.deep_view();
    let ghost pre_cur = cur@;
    if cur.len() > 0 {
        out.push(cur);
        proof {
            assert(out.deep_view() =~~= pre_out.push(pre_cur));
            assert(lines_rec(Seq::<u8>::empty(), pre_cur) == seq![pre_cur]);
            assert(pre_out.push(pre_cur) =~= pre_out + seq![pre_cur]);
        }
    } else {
        proof {
            assert(lines_rec(Seq::<u8>::empty(), pre_cur) =~= Seq::<Seq<u8>>::empty());
            assert(pre_out + Seq::<Seq<u8>>::empty() =~= pre_out);
        }
    }
    out
}

/// Appends one line and a newline terminator to a buffer.
pub fn push_line(out: &mut Vec<u8>, line: &Vec<u8>)
    ensures
        final(out)@ == old(out)@ + line@ + seq![B_NL],
{
    let ghost pre = out@;
    let m = line.len();
    let mut j: usize = 0;
    while j < m
        invariant
            0 <= j <= m,
            m == line@.len(),
            out@ == pre + line@.take(j as int),
        decreases m - j,
    {
        out.push(line[j]);
        proof {
            assert(line@.take(j + 1) =~= line@.take(j as int).push(line@[j as int]));
            assert(pre + line@.take(j + 1) =~= (pre + line@.take(j as int)).push(line@[j as int]));
        }
        j = j + 1;
    }
    proof {
        assert(line@.take(m as int) =~= line@);
    }
    out.push(B_NL);
    proof {
        assert(out@ =~= pre + line@ + seq![B_NL]);
    }
}

/// Appends raw bytes to a buffer.
pub fn push_bytes(out: &mut Vec<u8>, bytes: &Vec<u8>)
    ensures
        final(out)@ == old(out)@ + bytes@,
{
    let ghost pre = out@;
    let m = bytes.len();
    let mut j: usize = 0;
    while j < m
        invariant
            0 <= j <= m,
            m == bytes@.len(),
            out@ == pre + bytes@.take(j as int),
        decreases m - j,
    {
        out.push(bytes[j]);
        proof {
            assert(bytes@.take(j + 1) =~= bytes@.take(j as int).push(bytes@[j as int]));
            assert(pre + bytes@.take(j + 1) =~= (pre + bytes@.take(j as int)).push(
                bytes@[j as int],
            ));
        }
        j = j + 1;
    }
    proof {
        assert(bytes@.take(m as int) =~= bytes@);
    }
}

/// Joins lines into a document, a newline after each.
pub fn join_lines(ls: &Vec<Vec<u8>>) -> (r: Vec<u8>)
    ensures
        r@ == unlines_spec(ls.deep_view()),
{
    let mut out: Vec<u8> = Vec::new();
    let n = ls.len();
    let mut i: usize = 0;
    proof {
        assert(ls.deep_view().skip(0) =~= ls.deep_view());
        assert(out@ + unlines_spec(ls.deep_view()) =~= unlines_spec(ls.deep_view()));
    }
    while i < n
        invariant
            0 <= i <= n,
            n == ls@.len(),
            out@ + unlines_spec(ls.deep_view().skip(i as int)) == unlines_spec(ls.deep_view()),
        decreases n - i,
    {
        let ghost rem = ls.deep_view().skip(i as int);
        let ghost pre = out@;
        proof {
            assert(ls.deep_view().len() == ls@.len());
            assert(rem[0] == ls.deep_view()[i as int]);
            assert(rem.skip(1) =~= ls.deep_view().skip(i + 1));
        }
        let line = &ls[i];
        proof {
            assert(line@ =~= ls.deep_view()[i as int]);
        }
        let m = line.len();
        let mut j: usize = 0;
        while j < m
            invariant
                0 <= j <= m,
                m == line@.len(),
                out@ == pre + line@.take(j as int),
            decreases m - j,
        {
            out.push(line[j]);
            proof {
                assert(line@.take(j + 1) =~= line@.take(j as int).push(line@[j as int]));
                assert(pre + line@.take(j + 1) =~= (pre + line@.take(j as int)).push(
                    line@[j as int],
                ));
            }
            j = j + 1;
        }
        proof {
            assert(line@.take(m as int) =~= line@);
        }
        out.push(B_NL);
        i = i + 1;
        proof {
            assert(out@ =~= pre + line@ + seq![B_NL]);
            assert(unlines_spec(rem) == rem[0] + seq![B_NL] + unlines_spec(rem.skip(1)));
            assert((pre + line@ + seq![B_NL]) + unlines_spec(ls.deep_view().skip(i as int)) =~= pre
                + (rem[0] + seq![B_NL] + unlines_spec(rem.skip(1))));
        }
    }
    proof {
        assert(ls.deep_view().skip(n as int) =~= Seq::<Seq<u8>>::empty());
        assert(out@ + unlines_spec(Seq::<Seq<u8>>::empty()) =~= out@);
    }
    out
}

} // verus!
