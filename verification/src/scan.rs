use vstd::prelude::*;
use crate::lines::{lines_spec, unlines_spec, split_lines, push_line};

verus! {

// Byte values the fence grammar is built from.
pub const B_TICK: u8 = 96; // `
pub const B_DOLLAR: u8 = 36; // $
pub const B_SPACE: u8 = 32;
pub const B_TAB: u8 = 9;
pub const B_HASH: u8 = 35; // #
pub const B_NL: u8 = 10; // \n

/// Whitespace inside a fence header line: space or tab.
pub open spec fn is_ws_byte(b: u8) -> bool {
    b == B_SPACE || b == B_TAB
}

/// The bytes of "```console", the prefix every console fence-open line carries.
pub open spec fn open_prefix() -> Seq<u8> {
    seq![96u8, 96, 96, 99, 111, 110, 115, 111, 108, 101]
}

/// The bytes of "continued", the optional modifier on a fence-open line.
pub open spec fn continued_token() -> Seq<u8> {
    seq![99u8, 111, 110, 116, 105, 110, 117, 101, 100]
}

/// The bytes of "```", the only line that closes a console block.
pub open spec fn close_fence() -> Seq<u8> {
    seq![96u8, 96, 96]
}

pub open spec fn seq_starts_with(l: Seq<u8>, p: Seq<u8>) -> bool {
    l.len() >= p.len() && l.take(p.len() as int) == p
}

pub open spec fn all_ws(s: Seq<u8>) -> bool {
    forall|i: int| 0 <= i < s.len() ==> is_ws_byte(s[i])
}

/// What may follow "```console" on a fence-open line: nothing but
/// whitespace, or whitespace and then the token "continued" and
/// then only whitespace.
pub open spec fn open_rest_spec(r: Seq<u8>) -> bool {
    all_ws(r) || (exists|k: int|
        1 <= k && k + 9 <= r.len() && all_ws(#[trigger] r.take(k)) && r.subrange(k, k + 9)
            == continued_token() && all_ws(r.skip(k + 9)))
}

/// A console fence-open line: "```console", optionally followed by
/// whitespace and the modifier "continued".
pub open spec fn open_fence_spec(l: Seq<u8>) -> bool {
    seq_starts_with(l, open_prefix()) && open_rest_spec(l.skip(10))
}

/// A console fence-close line: exactly "```".
pub open spec fn close_fence_spec(l: Seq<u8>) -> bool {
    l == close_fence()
}

/// A command line inside a console block: "$" followed by a space.
pub open spec fn command_spec(l: Seq<u8>) -> bool {
    l.len() >= 2 && l[0] == B_DOLLAR && l[1] == B_SPACE
}

/// An annotation line inside a console block: exactly two spaces, then "#".
pub open spec fn comment_spec(l: Seq<u8>) -> bool {
    l.len() >= 3 && l[0] == B_SPACE && l[1] == B_SPACE && l[2] == B_HASH
}

pub fn is_open_fence(line: &Vec<u8>) -> (b: bool)
    ensures
        b == open_fence_spec(line@),
{
    if line.len() < 10 {
        return false;
    }
    if !(line[0] == B_TICK && line[1] == B_TICK && line[2] == B_TICK && line[3] == 99 && line[4]
        == 111 && line[5] == 110 && line[6] == 115 && line[7] == 111 && line[8] == 108 && line[9]
        == 101) {
        proof {
            assert(line@.take(10) != open_prefix()) by {
                if line@.take(10) == open_prefix() {
                    assert(forall|i: int|
                        0 <= i < 10 ==> line@[i] == #[trigger] open_prefix()[i]) by {
                        assert(forall|i: int|
                            0 <= i < 10 ==> line@.take(10)[i] == #[trigger] line@[i]);
                    }
                }
            }
        }
        return false;
    }
    proof {
        assert(line@.take(10) =~= open_prefix());
    }
    let ghost r = line@.skip(10);
    let n = line.len();
    let mut i: usize = 10;
    while i < n && (line[i] == B_SPACE || line[i] == B_TAB)
        invariant
            10 <= i <= n,
            n == line@.len(),
            forall|j: int| 10 <= j < i ==> is_ws_byte(line@[j]),
        decreases n - i,
    {
        i = i + 1;
    }
    if i == n {
        proof {
            assert(all_ws(r)) by {
                assert(forall|j: int| 0 <= j < r.len() ==> r[j] == line@[j + 10]);
            }
        }
        return true;
    }
    // line[i] is the first non-whitespace byte after the prefix.
    proof {
        assert(!is_ws_byte(line@[i as int]));
    }
    if i == 10 {
        // no whitespace between "```console" and the rest
        proof {
            assert(!all_ws(r)) by {
                assert(r[0] == line@[10]);
            }
            assert(!open_rest_spec(r)) by {
                if exists|k: int|
                    1 <= k && k + 9 <= r.len() && all_ws(#[trigger] r.take(k)) && r.subrange(
                        k,
                        k + 9,
                    ) == continued_token() && all_ws(r.skip(k + 9)) {
                    let k = choose|k: int|
                        1 <= k && k + 9 <= r.len() && all_ws(#[trigger] r.take(k)) && r.subrange(
                            k,
                            k + 9,
                        ) == continued_token() && all_ws(r.skip(k + 9));
                    assert(is_ws_byte(r.take(k)[0]));
                    assert(r[0] == line@[10]);
                }
            }
        }
        return false;
    }
    let ghost k0 = i - 10;
    // any witness k in open_rest_spec must equal k0: positions before k0 are
    // whitespace, and the token "continued" starts with a non-whitespace byte.
    proof {
        assert(!all_ws(r)) by {
            assert(r[k0] == line@[i as int]);
        }
        assert forall|k: int|
            1 <= k && k + 9 <= r.len() && all_ws(#[trigger] r.take(k)) && r.subrange(k, k + 9)
                == continued_token() && all_ws(r.skip(k + 9)) implies k == k0 by {
            assert(r[k0] == line@[i as int]);
            if k < k0 {
                assert(r.subrange(k, k + 9)[0] == continued_token()[0]);
                assert(r[k] == 99);
                assert(is_ws_byte(line@[k + 10]));
                assert(r[k] == line@[k + 10]);
            }
            if k > k0 {
                assert(is_ws_byte(r.take(k)[k0]));
                assert(r.take(k)[k0] == r[k0]);
            }
        }
    }
    if n - i < 9 {
        return false;
    }
    if !(line[i] == 99 && line[i + 1] == 111 && line[i + 2] == 110 && line[i + 3] == 116 && line[i
        + 4] == 105 && line[i + 5] == 110 && line[i + 6] == 117 && line[i + 7] == 101 && line[i + 8]
        == 100) {
        proof {
            assert(r.subrange(k0, k0 + 9) != continued_token()) by {
                if r.subrange(k0, k0 + 9) == continued_token() {
                    assert(forall|j: int|
                        0 <= j < 9 ==> r.subrange(k0, k0 + 9)[j] == #[trigger] continued_token()[j]);
                    assert(forall|j: int|
                        0 <= j < 9 ==> #[trigger] r.subrange(k0, k0 + 9)[j] == r[k0 + j]);
                    assert(forall|j: int| 0 <= j < 9 ==> #[trigger] r[k0 + j] == line@[i + j]);
                }
            }
        }
        return false;
    }
    proof {
        assert(r.subrange(k0, k0 + 9) =~= continued_token()) by {
            assert(forall|j: int| 0 <= j < 9 ==> #[trigger] r.subrange(k0, k0 + 9)[j] == line@[i
                + j]);
        }
    }
    let mut j: usize = i + 9;
    while j < n && (line[j] == B_SPACE || line[j] == B_TAB)
        invariant
            i + 9 <= j <= n,
            n == line@.len(),
            forall|m: int| i + 9 <= m < j ==> is_ws_byte(line@[m]),
        decreases n - j,
    {
        j = j + 1;
    }
    if j == n {
        proof {
            assert(all_ws(r.skip(k0 + 9))) by {
                assert(forall|m: int|
                    0 <= m < r.skip(k0 + 9).len() ==> #[trigger] r.skip(k0 + 9)[m] == line@[m + i
                        + 9]);
            }
            assert(all_ws(r.take(k0))) by {
                assert(forall|m: int| 0 <= m < k0 ==> #[trigger] r.take(k0)[m] == line@[m + 10]);
            }
        }
        true
    } else {
        proof {
            assert(!all_ws(r.skip(k0 + 9))) by {
                assert(r.skip(k0 + 9)[j - i - 9] == line@[j as int]);
            }
        }
        false
    }
}

pub fn is_close_fence(line: &Vec<u8>) -> (b: bool)
    ensures
        b == close_fence_spec(line@),
{
    if line.len() == 3 && line[0] == B_TICK && line[1] == B_TICK && line[2] == B_TICK {
        proof {
            assert(line@ =~= close_fence());
        }
        true
    } else {
        proof {
            if line@ == close_fence() {
                assert(line@[0] == 96 && line@[1] == 96 && line@[2] == 96);
            }
        }
        false
    }
}

pub fn is_command_line(line: &Vec<u8>) -> (b: bool)
    ensures
        b == command_spec(line@),
{
    line.len() >= 2 && line[0] == B_DOLLAR && line[1] == B_SPACE
}

pub fn is_comment_line(line: &Vec<u8>) -> (b: bool)
    ensures
        b == comment_spec(line@),
{
    line.len() >= 3 && line[0] == B_SPACE && line[1] == B_SPACE && line[2] == B_HASH
}

/// The scan state carried from one line to the next: the scanner is
/// either between console blocks or inside one.
#[derive(Copy, Clone, PartialEq, Eq, Structural, Debug)]
pub enum ScanState {
    OutOfBlock,
    InsideBlock,
}

/// What one line is, given the state the scanner is in when it reads it.
#[derive(Copy, Clone, PartialEq, Eq, Structural, Debug)]
pub enum LineClass {
    /// Prose outside any console block; kept verbatim.
    Text,
    /// A console fence-open line; kept, and it announces a new block.
    OpenFence,
    /// A console fence-close line; kept, and it ends the block.
    CloseFence,
    /// A command line inside a block; kept, and its payload is executed.
    CommandLine,
    /// An annotation line inside a block; kept, never executed.
    CommentLine,
    /// Any other line inside a block: stale captured output; dropped.
    OutputLine,
}

pub open spec fn next_state_spec(s: ScanState, l: Seq<u8>) -> ScanState {
    match s {
        ScanState::OutOfBlock => if open_fence_spec(l) {
            ScanState::InsideBlock
        } else {
            ScanState::OutOfBlock
        },
        ScanState::InsideBlock => if close_fence_spec(l) {
            ScanState::OutOfBlock
        } else {
            ScanState::InsideBlock
        },
    }
}

pub open spec fn class_spec(s: ScanState, l: Seq<u8>) -> LineClass {
    match s {
        ScanState::OutOfBlock => if open_fence_spec(l) {
            LineClass::OpenFence
        } else {
            LineClass::Text
        },
        ScanState::InsideBlock => if close_fence_spec(l) {
            LineClass::CloseFence
        } else if command_spec(l) {
            LineClass::CommandLine
        } else if comment_spec(l) {
            LineClass::CommentLine
        } else {
            LineClass::OutputLine
        },
    }
}

/// Whether a line of this class belongs in the rewritten document.
pub open spec fn keeps(c: LineClass) -> bool {
    c != LineClass::OutputLine
}

impl ScanState {
    /// The classifier's transition function: one line in, the next state
    /// and the line's class out.
    pub fn next(self, line: &Vec<u8>) -> (r: (ScanState, LineClass))
        ensures
            r.0 == next_state_spec(self, line@),
            r.1 == class_spec(self, line@),
    {
        match self {
            ScanState::OutOfBlock => {
                if is_open_fence(line) {
                    (ScanState::InsideBlock, LineClass::OpenFence)
                } else {
                    (ScanState::OutOfBlock, LineClass::Text)
                }
            },
            ScanState::InsideBlock => {
                if is_close_fence(line) {
                    (ScanState::OutOfBlock, LineClass::CloseFence)
                } else if is_command_line(line) {
                    (ScanState::InsideBlock, LineClass::CommandLine)
                } else if is_comment_line(line) {
                    (ScanState::InsideBlock, LineClass::CommentLine)
                } else {
                    (ScanState::InsideBlock, LineClass::OutputLine)
                }
            },
        }
    }
}

/// A byte string without its leading whitespace.
pub open spec fn skip_leading_ws(s: Seq<u8>) -> Seq<u8>
    decreases s.len(),
{
    if s.len() > 0 && is_ws_byte(s[0]) {
        skip_leading_ws(s.skip(1))
    } else {
        s
    }
}

/// A byte string without its trailing whitespace.
pub open spec fn drop_trailing_ws(s: Seq<u8>) -> Seq<u8>
    decreases s.len(),
{
    if s.len() > 0 && is_ws_byte(s.last()) {
        drop_trailing_ws(s.drop_last())
    } else {
        s
    }
}

/// A byte string without leading or trailing whitespace.
pub open spec fn trim_spec(s: Seq<u8>) -> Seq<u8> {
    drop_trailing_ws(skip_leading_ws(s))
}

/// The command a command line carries: the line without its marker
/// "$ ", trimmed of surrounding whitespace.
pub open spec fn payload_spec(l: Seq<u8>) -> Seq<u8> {
    trim_spec(l.skip(2))
}

pub proof fn lemma_skip_leading_ws(s: Seq<u8>, a: int)
    requires
        0 <= a <= s.len(),
        forall|j: int| 0 <= j < a ==> is_ws_byte(s[j]),
        a < s.len() ==> !is_ws_byte(s[a]),
    ensures
        skip_leading_ws(s) == s.skip(a),
    decreases a,
{
    if a == 0 {
        assert(s.skip(0) =~= s);
    } else {
        assert(is_ws_byte(s[0]));
        lemma_skip_leading_ws(s.skip(1), a - 1);
        assert(s.skip(1).skip(a - 1) =~= s.skip(a));
    }
}

pub proof fn lemma_drop_trailing_ws(s: Seq<u8>, b: int)
    requires
        -1 <= b < s.len(),
        forall|j: int| b < j < s.len() ==> is_ws_byte(s[j]),
        b >= 0 ==> !is_ws_byte(s[b]),
    ensures
        drop_trailing_ws(s) == s.take(b + 1),
    decreases s.len(),
{
    if b == s.len() - 1 {
        assert(s.take(b + 1) =~= s);
    } else {
        assert(is_ws_byte(s.last()));
        assert(s.drop_last() =~= s.take(s.len() - 1));
        lemma_drop_trailing_ws(s.drop_last(), b);
        assert(s.drop_last().take(b + 1) =~= s.take(b + 1));
    }
}

/// Extracts the command a command line carries.
pub fn extract_payload(line: &Vec<u8>) -> (r: Vec<u8>)
    requires
        command_spec(line@),
    ensures
        r@ == payload_spec(line@),
{
    let n = line.len();
    let ghost t = line@.skip(2);
    let mut a: usize = 2;
    while a < n && (line[a] == B_SPACE || line[a] == B_TAB)
        invariant
            2 <= a <= n,
            n == line@.len(),
            forall|j: int| 2 <= j < a ==> is_ws_byte(line@[j]),
        decreases n - a,
    {
        a = a + 1;
    }
    proof {
        assert(forall|j: int| 0 <= j < t.len() ==> t[j] == line@[j + 2]);
    }
    if a == n {
        proof {
            lemma_skip_leading_ws(t, t.len() as int);
            assert(t.skip(t.len() as int) =~= Seq::<u8>::empty());
            assert(trim_spec(t) == Seq::<u8>::empty());
        }
        return Vec::new();
    }
    proof {
        lemma_skip_leading_ws(t, a - 2);
        assert(t.skip(a - 2) =~= line@.subrange(a as int, n as int));
    }
    let mut b: usize = n - 1;
    while b > a && (line[b] == B_SPACE || line[b] == B_TAB)
        invariant
            a <= b < n,
            n == line@.len(),
            forall|j: int| b < j < n ==> is_ws_byte(line@[j]),
        decreases b,
    {
        b = b - 1;
    }
    // line[a] is not whitespace, so the scan from the right stops at a
    // non-whitespace byte no earlier than a.
    proof {
        assert(!is_ws_byte(line@[b as int]));
        let u = t.skip(a - 2);
        assert(forall|j: int| 0 <= j < u.len() ==> u[j] == line@[j + a]);
        lemma_drop_trailing_ws(u, b - a);
        assert(u.take(b - a + 1) =~= line@.subrange(a as int, b + 1));
        assert(trim_spec(t) == line@.subrange(a as int, b + 1));
    }
    let mut out: Vec<u8> = Vec::new();
    let mut j: usize = a;
    while j <= b
        invariant
            a <= j <= b + 1,
            b < n == line@.len(),
            out@ == line@.subrange(a as int, j as int),
        decreases b + 1 - j,
    {
        out.push(line[j]);
        proof {
            assert(line@.subrange(a as int, j + 1) =~= line@.subrange(a as int, j as int).push(
                line@[j as int],
            ));
        }
        j = j + 1;
    }
    out
}

/// The scan state after the classifier has read a sequence of lines.
pub open spec fn state_after(s: ScanState, ls: Seq<Seq<u8>>) -> ScanState
    decreases ls.len(),
{
    if ls.len() == 0 {
        s
    } else {
        state_after(next_state_spec(s, ls[0]), ls.skip(1))
    }
}

/// The class of each line, in order, starting from state `s`.
pub open spec fn classes_rec(s: ScanState, ls: Seq<Seq<u8>>) -> Seq<LineClass>
    decreases ls.len(),
{
    if ls.len() == 0 {
        Seq::empty()
    } else {
        seq![class_spec(s, ls[0])] + classes_rec(next_state_spec(s, ls[0]), ls.skip(1))
    }
}

/// The lines that survive a strip, in order, starting from state `s`:
/// all of them but the stale output lines.
pub open spec fn strip_rec(s: ScanState, ls: Seq<Seq<u8>>) -> Seq<Seq<u8>>
    decreases ls.len(),
{
    if ls.len() == 0 {
        Seq::empty()
    } else {
        let rest = strip_rec(next_state_spec(s, ls[0]), ls.skip(1));
        if keeps(class_spec(s, ls[0])) {
            seq![ls[0]] + rest
        } else {
            rest
        }
    }
}

/// A stripped document: every line kept verbatim, with a newline after
/// each, except the stale output lines, which are gone.
pub open spec fn strip_spec(d: Seq<u8>) -> Seq<u8> {
    unlines_spec(strip_rec(ScanState::OutOfBlock, lines_spec(d)))
}

/// Labels every line of a document with its class, in one pass.
pub fn annotate_lines(ls: &Vec<Vec<u8>>) -> (r: Vec<LineClass>)
    ensures
        r@ == classes_rec(ScanState::OutOfBlock, ls.deep_view()),
{
    let n = ls.len();
    let mut out: Vec<LineClass> = Vec::new();
    let mut st = ScanState::OutOfBlock;
    let mut i: usize = 0;
    proof {
        assert(ls.deep_view().skip(0) =~= ls.deep_view());
        assert(out@ + classes_rec(st, ls.deep_view()) =~= classes_rec(
            ScanState::OutOfBlock,
            ls.deep_view(),
        ));
    }
    while i < n
        invariant
            0 <= i <= n,
            n == ls@.len(),
            n == ls.deep_view().len(),
            out@ + classes_rec(st, ls.deep_view().skip(i as int)) == classes_rec(
                ScanState::OutOfBlock,
                ls.deep_view(),
            ),
        decreases n - i,
    {
        let ghost rem = ls.deep_view().skip(i as int);
        let ghost pre = out@;
        proof {
            assert(rem[0] == ls.deep_view()[i as int]);
            assert(rem.skip(1) =~= ls.deep_view().skip(i + 1));
            assert(ls[i as int]@ =~= ls.deep_view()[i as int]);
        }
        let (st2, c) = st.next(&ls[i]);
        out.push(c);
        proof {
            assert(classes_rec(st, rem) == seq![class_spec(st, rem[0])] + classes_rec(
                next_state_spec(st, rem[0]),
                rem.skip(1),
            ));
            assert(pre.push(c) + classes_rec(st2, rem.skip(1)) =~= pre + (seq![c] + classes_rec(
                st2,
                rem.skip(1),
            )));
        }
        st = st2;
        i = i + 1;
    }
    proof {
        assert(ls.deep_view().skip(n as int) =~= Seq::<Seq<u8>>::empty());
        assert(out@ + Seq::<LineClass>::empty() =~= out@);
    }
    out
}

/// Removes every previously captured output line from a document; all
/// other lines stay, byte for byte and in order.
pub fn remove_existing_command_outputs(doc: &Vec<u8>) -> (r: Vec<u8>)
    ensures
        r@ == strip_spec(doc@),
{
    let ls = split_lines(doc);
    let ghost all = ls.deep_view();
    let n = ls.len();
    let mut out: Vec<u8> = Vec::new();
    let mut st = ScanState::OutOfBlock;
    let mut i: usize = 0;
    proof {
        assert(all.skip(0) =~= all);
        assert(out@ + unlines_spec(strip_rec(st, all)) =~= unlines_spec(
            strip_rec(ScanState::OutOfBlock, all),
        ));
    }
    while i < n
        invariant
            0 <= i <= n,
            n == ls@.len(),
            n == all.len(),
            all == ls.deep_view(),
            out@ + unlines_spec(strip_rec(st, all.skip(i as int))) == strip_spec(doc@),
        decreases n - i,
    {
        let ghost rem = all.skip(i as int);
        let ghost pre = out@;
        proof {
            assert(rem[0] == all[i as int]);
            assert(rem.skip(1) =~= all.skip(i + 1));
            assert(ls[i as int]@ =~= all[i as int]);
        }
        let (st2, c) = st.next(&ls[i]);
        if c != LineClass::OutputLine {
            push_line(&mut out, &ls[i]);
            proof {
                assert(strip_rec(st, rem) == seq![rem[0]] + strip_rec(st2, rem.skip(1)));
                assert(unlines_spec(seq![rem[0]] + strip_rec(st2, rem.skip(1))) == rem[0]
                    + seq![B_NL] + unlines_spec(strip_rec(st2, rem.skip(1)))) by {
                    let w = seq![rem[0]] + strip_rec(st2, rem.skip(1));
                    assert(w[0] == rem[0]);
                    assert(w.skip(1) =~= strip_rec(st2, rem.skip(1)));
                }
                assert((pre + rem[0] + seq![B_NL]) + unlines_spec(strip_rec(st2, rem.skip(1))) =~=
                pre + (rem[0] + seq![B_NL] + unlines_spec(strip_rec(st2, rem.skip(1)))));
            }
        } else {
            proof {
                assert(strip_rec(st, rem) == strip_rec(st2, rem.skip(1)));
            }
        }
        st = st2;
        i = i + 1;
    }
    proof {
        assert(all.skip(n as int) =~= Seq::<Seq<u8>>::empty());
        assert(out@ + unlines_spec(strip_rec(st, Seq::<Seq<u8>>::empty())) =~= out@);
    }
    out
}

} // verus!
