use vstd::prelude::*;
use crate::scan::{
    ScanState, LineClass, class_spec, next_state_spec, keeps, strip_rec, strip_spec,
    close_fence_spec, command_spec, comment_spec, B_NL,
};
use crate::lines::{
    lines_spec, lines_rec, nl_free, all_nl_free, lemma_lines_rec_nl_free, lemma_lines_unlines,
    lemma_lines_rec_prepend,
};
use crate::refresh::{merge_rec, merge_spec, region_spec, cmd_count_rec, cmd_count_spec};

verus! {

/// The fence lines of a document, open and close, in the order the
/// classifier meets them.
pub open spec fn fences_rec(s: ScanState, ls: Seq<Seq<u8>>) -> Seq<Seq<u8>>
    decreases ls.len(),
{
    if ls.len() == 0 {
        Seq::empty()
    } else {
        let c = class_spec(s, ls[0]);
        let rest = fences_rec(next_state_spec(s, ls[0]), ls.skip(1));
        if c == LineClass::OpenFence || c == LineClass::CloseFence {
            seq![ls[0]] + rest
        } else {
            rest
        }
    }
}

pub open spec fn fences_spec(d: Seq<u8>) -> Seq<Seq<u8>> {
    fences_spec_lines(lines_spec(d))
}

pub open spec fn fences_spec_lines(ls: Seq<Seq<u8>>) -> Seq<Seq<u8>> {
    fences_rec(ScanState::OutOfBlock, ls)
}

/// Stripping never invents or reorders lines, so running the classifier
/// over a stripped line sequence classifies every kept line as before:
/// stripping twice keeps exactly what stripping once keeps.
pub proof fn lemma_strip_rec_idempotent(s: ScanState, ls: Seq<Seq<u8>>)
    ensures
        strip_rec(s, strip_rec(s, ls)) == strip_rec(s, ls),
    decreases ls.len(),
{
    if ls.len() == 0 {
    } else {
        let l = ls[0];
        let c = class_spec(s, l);
        let s2 = next_state_spec(s, l);
        let rest = strip_rec(s2, ls.skip(1));
        lemma_strip_rec_idempotent(s2, ls.skip(1));
        if keeps(c) {
            let w = seq![l] + rest;
            assert(w[0] == l);
            assert(w.skip(1) =~= rest);
            assert(strip_rec(s, w) == seq![l] + strip_rec(s2, rest));
        } else {
            // a dropped line is stale output: the scanner stays inside the
            // block, so the state is unchanged
            assert(s == ScanState::InsideBlock && s2 == ScanState::InsideBlock);
        }
    }
}

/// Stripped lines are drawn from the input lines, so they hold no newline.
pub proof fn lemma_strip_rec_nl_free(s: ScanState, ls: Seq<Seq<u8>>)
    requires
        all_nl_free(ls),
    ensures
        all_nl_free(strip_rec(s, ls)),
    decreases ls.len(),
{
    if ls.len() == 0 {
    } else {
        let l = ls[0];
        let s2 = next_state_spec(s, l);
        assert(forall|i: int| 0 <= i < ls.skip(1).len() ==> ls.skip(1)[i] == ls[i + 1]);
        lemma_strip_rec_nl_free(s2, ls.skip(1));
        if keeps(class_spec(s, l)) {
            let r = seq![l] + strip_rec(s2, ls.skip(1));
            assert forall|i: int| 0 <= i < r.len() implies nl_free(#[trigger] r[i]) by {
                if i > 0 {
                    assert(r[i] == strip_rec(s2, ls.skip(1))[i - 1]);
                }
            }
        }
    }
}

/// Stripping an already-stripped document changes nothing.
pub proof fn strip_idempotent(d: Seq<u8>)
    ensures
        strip_spec(strip_spec(d)) == strip_spec(d),
{
    let ls = lines_spec(d);
    lemma_lines_rec_nl_free(d, Seq::empty());
    let kept = strip_rec(ScanState::OutOfBlock, ls);
    lemma_strip_rec_nl_free(ScanState::OutOfBlock, ls);
    lemma_lines_unlines(kept);
    assert(lines_spec(strip_spec(d)) == kept);
    lemma_strip_rec_idempotent(ScanState::OutOfBlock, ls);
}

/// Dropping stale output lines drops no fence line and re-classifies none.
pub proof fn lemma_fences_strip(s: ScanState, ls: Seq<Seq<u8>>)
    ensures
        fences_rec(s, strip_rec(s, ls)) == fences_rec(s, ls),
    decreases ls.len(),
{
    if ls.len() == 0 {
    } else {
        let l = ls[0];
        let c = class_spec(s, l);
        let s2 = next_state_spec(s, l);
        let rest = strip_rec(s2, ls.skip(1));
        lemma_fences_strip(s2, ls.skip(1));
        if keeps(c) {
            let w = seq![l] + rest;
            assert(w[0] == l);
            assert(w.skip(1) =~= rest);
            assert(strip_rec(s, w) == seq![l] + strip_rec(s2, rest));
        } else {
            assert(s == ScanState::InsideBlock && s2 == ScanState::InsideBlock);
        }
    }
}

/// Every fence line of the input appears unchanged, in the same order,
/// in the stripped document.
pub proof fn fences_preserved_by_strip(d: Seq<u8>)
    ensures
        fences_spec(strip_spec(d)) == fences_spec(d),
{
    let ls = lines_spec(d);
    lemma_lines_rec_nl_free(d, Seq::empty());
    let kept = strip_rec(ScanState::OutOfBlock, ls);
    lemma_strip_rec_nl_free(ScanState::OutOfBlock, ls);
    lemma_lines_unlines(kept);
    assert(lines_spec(strip_spec(d)) == kept);
    lemma_fences_strip(ScanState::OutOfBlock, ls);
}

/// A line that, inside a console block, can only be stale output: it is
/// no close fence, no command line and no annotation line. Captured
/// output made of such lines survives no strip.
pub open spec fn plain_line(l: Seq<u8>) -> bool {
    !close_fence_spec(l) && !command_spec(l) && !comment_spec(l)
}

pub open spec fn all_plain(ls: Seq<Seq<u8>>) -> bool {
    forall|i: int| 0 <= i < ls.len() ==> plain_line(#[trigger] ls[i])
}

/// A newline-free line followed by a newline splits off as one line.
proof fn lemma_lines_line_prefix(l: Seq<u8>, x: Seq<u8>)
    requires
        nl_free(l),
    ensures
        lines_spec(l + seq![B_NL] + x) == seq![l] + lines_spec(x),
{
    assert(l + seq![B_NL] + x =~= l + (seq![B_NL] + x));
    lemma_lines_rec_prepend(l, seq![B_NL] + x, Seq::empty());
    assert(Seq::<u8>::empty() + l =~= l);
    assert((seq![B_NL] + x)[0] == B_NL);
    assert((seq![B_NL] + x).skip(1) =~= x);
}

/// Text that ends on a newline splits independently of what follows it.
proof fn lemma_lines_rec_concat(a: Seq<u8>, b: Seq<u8>, cur: Seq<u8>)
    requires
        a.len() > 0,
        a.last() == B_NL,
    ensures
        lines_rec(a + b, cur) == lines_rec(a, cur) + lines_rec(b, Seq::empty()),
    decreases a.len(),
{
    assert((a + b)[0] == a[0]);
    assert((a + b).skip(1) =~= a.skip(1) + b);
    if a.len() == 1 {
        assert(a[0] == B_NL);
        assert(a.skip(1) =~= Seq::<u8>::empty());
        assert((a + b).skip(1) =~= b);
        assert(lines_rec(a, cur) =~= seq![cur]);
        assert(seq![cur] + lines_rec(b, Seq::empty()) =~= lines_rec(a, cur) + lines_rec(
            b,
            Seq::empty(),
        ));
    } else {
        assert(a.skip(1).len() > 0);
        assert(a.skip(1).last() == a.last());
        if a[0] == B_NL {
            lemma_lines_rec_concat(a.skip(1), b, Seq::empty());
            assert(seq![cur] + (lines_rec(a.skip(1), Seq::empty()) + lines_rec(b, Seq::empty()))
                =~= (seq![cur] + lines_rec(a.skip(1), Seq::empty())) + lines_rec(
                b,
                Seq::empty(),
            ));
        } else {
            lemma_lines_rec_concat(a.skip(1), b, cur.push(a[0]));
        }
    }
}

/// Appending the one owed newline terminator adds no line.
proof fn lemma_lines_rec_push_nl(o: Seq<u8>, cur: Seq<u8>)
    requires
        o.len() > 0,
        o.last() != B_NL,
    ensures
        lines_rec(o + seq![B_NL], cur) == lines_rec(o, cur),
    decreases o.len(),
{
    assert((o + seq![B_NL])[0] == o[0]);
    assert((o + seq![B_NL]).skip(1) =~= o.skip(1) + seq![B_NL]);
    if o.len() == 1 {
        assert(o[0] != B_NL);
        assert(o.skip(1) =~= Seq::<u8>::empty());
        assert(o.skip(1) + seq![B_NL] =~= seq![B_NL]);
        assert(seq![B_NL][0] == B_NL);
        assert(seq![B_NL].skip(1) =~= Seq::<u8>::empty());
        assert(lines_rec(Seq::<u8>::empty(), Seq::<u8>::empty()) =~= Seq::<Seq<u8>>::empty());
        assert(lines_rec(seq![B_NL], cur.push(o[0])) =~= seq![cur.push(o[0])]
            + Seq::<Seq<u8>>::empty());
        assert(lines_rec(seq![B_NL], cur.push(o[0])) =~= seq![cur.push(o[0])]);
        assert(lines_rec(o, cur) == lines_rec(Seq::<u8>::empty(), cur.push(o[0])));
        assert(cur.push(o[0]).len() > 0);
        assert(lines_rec(o, cur) =~= seq![cur.push(o[0])]);
    } else {
        assert(o.skip(1).len() > 0);
        assert(o.skip(1).last() == o.last());
        if o[0] == B_NL {
            lemma_lines_rec_push_nl(o.skip(1), Seq::empty());
        } else {
            lemma_lines_rec_push_nl(o.skip(1), cur.push(o[0]));
        }
    }
}

/// An output region splits into the very lines of the raw output.
proof fn lemma_lines_region(o: Seq<u8>)
    ensures
        lines_spec(region_spec(o)) == lines_spec(o),
{
    if o.len() == 0 {
        assert(region_spec(o) =~= Seq::<u8>::empty());
    } else if o.last() == B_NL {
    } else {
        assert(region_spec(o) =~= o + seq![B_NL]);
        lemma_lines_rec_push_nl(o, Seq::empty());
    }
}

/// Inside a block, plain lines are all stale output: stripping drops
/// every one of them and stays inside the block.
proof fn lemma_plain_dropped(p: Seq<Seq<u8>>, q: Seq<Seq<u8>>)
    requires
        all_plain(p),
    ensures
        strip_rec(ScanState::InsideBlock, p + q) == strip_rec(ScanState::InsideBlock, q),
    decreases p.len(),
{
    if p.len() == 0 {
        assert(p + q =~= q);
    } else {
        assert((p + q)[0] == p[0]);
        assert(plain_line(p[0]));
        assert(class_spec(ScanState::InsideBlock, p[0]) == LineClass::OutputLine);
        assert(next_state_spec(ScanState::InsideBlock, p[0]) == ScanState::InsideBlock);
        assert((p + q).skip(1) =~= p.skip(1) + q);
        assert(forall|i: int| 0 <= i < p.skip(1).len() ==> p.skip(1)[i] == p[i + 1]);
        lemma_plain_dropped(p.skip(1), q);
    }
}

/// Stripping a rebuilt document drops exactly the freshly inserted
/// regions, as long as no output line mimics a fence, command or
/// annotation line: what remains is the stripped original.
pub proof fn lemma_strip_of_merge(s: ScanState, ls: Seq<Seq<u8>>, outs: Seq<Seq<u8>>)
    requires
        all_nl_free(ls),
        outs.len() == cmd_count_rec(s, ls),
        forall|i: int| 0 <= i < outs.len() ==> all_plain(lines_spec(#[trigger] outs[i])),
    ensures
        strip_rec(s, lines_spec(merge_rec(s, ls, outs))) == strip_rec(s, ls),
    decreases ls.len(),
{
    if ls.len() == 0 {
    } else {
        let l = ls[0];
        let c = class_spec(s, l);
        let s2 = next_state_spec(s, l);
        assert(nl_free(l));
        assert(forall|i: int| 0 <= i < ls.skip(1).len() ==> ls.skip(1)[i] == ls[i + 1]);
        if c == LineClass::CommandLine {
            let o0 = outs[0];
            let m = merge_rec(s2, ls.skip(1), outs.skip(1));
            assert(cmd_count_rec(s, ls) == 1 + cmd_count_rec(s2, ls.skip(1)));
            assert(outs.skip(1).len() == cmd_count_rec(s2, ls.skip(1)));
            assert(forall|i: int| 0 <= i < outs.skip(1).len() ==> outs.skip(1)[i] == outs[i + 1]);
            lemma_strip_of_merge(s2, ls.skip(1), outs.skip(1));
            assert(s == ScanState::InsideBlock && s2 == ScanState::InsideBlock);
            let merged = merge_rec(s, ls, outs);
            assert(merged == l + seq![B_NL] + region_spec(o0) + m);
            assert(merged =~= l + seq![B_NL] + (region_spec(o0) + m));
            lemma_lines_line_prefix(l, region_spec(o0) + m);
            if o0.len() == 0 {
                assert(region_spec(o0) + m =~= m);
                assert(lines_spec(merged) == seq![l] + lines_spec(m));
                let w = seq![l] + lines_spec(m);
                assert(w[0] == l);
                assert(w.skip(1) =~= lines_spec(m));
                assert(strip_rec(s, w) == seq![l] + strip_rec(s2, lines_spec(m)));
            } else {
                assert(region_spec(o0).len() > 0);
                assert(region_spec(o0).last() == B_NL);
                lemma_lines_rec_concat(region_spec(o0), m, Seq::empty());
                lemma_lines_region(o0);
                assert(lines_spec(region_spec(o0) + m) == lines_spec(o0) + lines_spec(m));
                assert(all_plain(lines_spec(o0)));
                lemma_plain_dropped(lines_spec(o0), lines_spec(m));
                let w = seq![l] + (lines_spec(o0) + lines_spec(m));
                assert(lines_spec(merged) == w);
                assert(w[0] == l);
                assert(w.skip(1) =~= lines_spec(o0) + lines_spec(m));
                assert(strip_rec(s, w) == seq![l] + strip_rec(s2, lines_spec(o0) + lines_spec(m)));
            }
        } else if keeps(c) {
            let m = merge_rec(s2, ls.skip(1), outs);
            assert(cmd_count_rec(s, ls) == cmd_count_rec(s2, ls.skip(1)));
            lemma_strip_of_merge(s2, ls.skip(1), outs);
            let merged = merge_rec(s, ls, outs);
            assert(merged == l + seq![B_NL] + m);
            assert(merged =~= l + seq![B_NL] + m);
            lemma_lines_line_prefix(l, m);
            let w = seq![l] + lines_spec(m);
            assert(lines_spec(merged) == w);
            assert(w[0] == l);
            assert(w.skip(1) =~= lines_spec(m));
            assert(strip_rec(s, w) == seq![l] + strip_rec(s2, lines_spec(m)));
        } else {
            assert(s == ScanState::InsideBlock && s2 == ScanState::InsideBlock);
            assert(cmd_count_rec(s, ls) == cmd_count_rec(s2, ls.skip(1)));
            lemma_strip_of_merge(s2, ls.skip(1), outs);
            assert(merge_rec(s, ls, outs) == merge_rec(s2, ls.skip(1), outs));
        }
    }
}

/// Refreshing never changes anything outside the output regions: the
/// rebuilt document strips back to the stripped original, whenever no
/// captured output line mimics a fence, command or annotation line.
pub proof fn refresh_preserves_stripped(d: Seq<u8>, outs: Seq<Seq<u8>>)
    requires
        outs.len() == cmd_count_spec(d),
        forall|i: int| 0 <= i < outs.len() ==> all_plain(lines_spec(#[trigger] outs[i])),
    ensures
        strip_spec(merge_spec(d, outs)) == strip_spec(d),
{
    lemma_lines_rec_nl_free(d, Seq::empty());
    lemma_strip_of_merge(ScanState::OutOfBlock, lines_spec(d), outs);
}

/// Every fence line of the input appears unchanged, in the same order,
/// in the rebuilt document, under the same proviso on captured output.
pub proof fn fences_preserved_by_refresh(d: Seq<u8>, outs: Seq<Seq<u8>>)
    requires
        outs.len() == cmd_count_spec(d),
        forall|i: int| 0 <= i < outs.len() ==> all_plain(lines_spec(#[trigger] outs[i])),
    ensures
        fences_spec(merge_spec(d, outs)) == fences_spec(d),
{
    lemma_lines_rec_nl_free(d, Seq::empty());
    lemma_strip_of_merge(ScanState::OutOfBlock, lines_spec(d), outs);
    let merged = merge_spec(d, outs);
    lemma_fences_strip(ScanState::OutOfBlock, lines_spec(merged));
    lemma_fences_strip(ScanState::OutOfBlock, lines_spec(d));
}

} // verus!
