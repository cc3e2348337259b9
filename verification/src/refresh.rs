use vstd::prelude::*;
use crate::config::{Config, ConfigModel, subst_spec};
use crate::scan::{
    ScanState, LineClass, class_spec, next_state_spec, keeps, payload_spec, B_NL,
};
use crate::lines::{lines_spec, split_lines, push_line, push_bytes};
use crate::config::copy_bytes;

verus! {

/// Where in the run one shell invocation stands: one of the four hook
/// points, or a command taken from a console block.
#[derive(Copy, Clone, PartialEq, Eq, Structural, Debug)]
pub enum StepKind {
    PreFileHook,
    PreBlockHook,
    CommandStep,
    PostBlockHook,
    PostFileHook,
}

/// One shell invocation the driver owes the document: its place in the
/// run, the exact text to hand to the interpreter, and the text to show
/// in diagnostics. For a command step `text` has already passed the
/// alternative-command table while `shown` is the command as written;
/// for a hook step the two are the same.
pub struct Step {
    pub kind: StepKind,
    pub text: Vec<u8>,
    pub shown: Vec<u8>,
}

/// The mathematical image of `Step`.
pub ghost struct StepModel {
    pub kind: StepKind,
    pub text: Seq<u8>,
    pub shown: Seq<u8>,
}

impl View for Step {
    type V = StepModel;

    open spec fn view(&self) -> StepModel {
        StepModel { kind: self.kind, text: self.text@, shown: self.shown@ }
    }
}

impl DeepView for Step {
    type V = StepModel;

    open spec fn deep_view(&self) -> StepModel {
        self@
    }
}

/// What running one step produced: the interpreter's success flag and
/// its captured standard output.
pub struct StepOutcome {
    pub success: bool,
    pub output: Vec<u8>,
}

/// The mathematical image of `StepOutcome`.
pub ghost struct OutcomeModel {
    pub success: bool,
    pub output: Seq<u8>,
}

impl View for StepOutcome {
    type V = OutcomeModel;

    open spec fn view(&self) -> OutcomeModel {
        OutcomeModel { success: self.success, output: self.output@ }
    }
}

impl DeepView for StepOutcome {
    type V = OutcomeModel;

    open spec fn deep_view(&self) -> OutcomeModel {
        self@
    }
}

/// A fatal condition: it aborts the document's scan, and nothing may be
/// written back.
#[derive(Copy, Clone, PartialEq, Eq, Structural, Debug)]
pub enum ScanError {
    /// A hook failed; hooks are fatal, unlike block commands.
    HookFailed,
    /// The driver handed back more or fewer outcomes than the plan has
    /// steps, without a failing hook to explain the shortfall.
    IncompleteRun,
    /// The outputs to merge do not match the document's command count.
    OutputMismatch,
}

/// The steps a hook list contributes, in order.
pub open spec fn hook_steps(kind: StepKind, cmds: Seq<Seq<u8>>) -> Seq<StepModel>
    decreases cmds.len(),
{
    if cmds.len() == 0 {
        Seq::empty()
    } else {
        seq![StepModel { kind, text: cmds[0], shown: cmds[0] }] + hook_steps(kind, cmds.skip(1))
    }
}

/// The steps one classified line contributes: entering a block runs the
/// pre-block hooks, leaving it runs the post-block hooks, and a command
/// line runs its substituted payload.
pub open spec fn line_steps(cfg: ConfigModel, c: LineClass, l: Seq<u8>) -> Seq<StepModel> {
    if c == LineClass::OpenFence {
        hook_steps(StepKind::PreBlockHook, cfg.hooks.pre_block)
    } else if c == LineClass::CloseFence {
        hook_steps(StepKind::PostBlockHook, cfg.hooks.post_block)
    } else if c == LineClass::CommandLine {
        seq![StepModel {
            kind: StepKind::CommandStep,
            text: subst_spec(cfg.alt, payload_spec(l)),
            shown: payload_spec(l),
        }]
    } else {
        Seq::empty()
    }
}

pub open spec fn plan_rec(cfg: ConfigModel, s: ScanState, ls: Seq<Seq<u8>>) -> Seq<StepModel>
    decreases ls.len(),
{
    if ls.len() == 0 {
        Seq::empty()
    } else {
        line_steps(cfg, class_spec(s, ls[0]), ls[0]) + plan_rec(
            cfg,
            next_state_spec(s, ls[0]),
            ls.skip(1),
        )
    }
}

/// Every shell invocation one refresh of the document owes, in order:
/// the pre-file hooks, then per line of the document the steps it
/// contributes, then the post-file hooks.
pub open spec fn plan_spec(cfg: ConfigModel, d: Seq<u8>) -> Seq<StepModel> {
    hook_steps(StepKind::PreFileHook, cfg.hooks.pre_file) + plan_rec(
        cfg,
        ScanState::OutOfBlock,
        lines_spec(d),
    ) + hook_steps(StepKind::PostFileHook, cfg.hooks.post_file)
}

fn push_hook_steps(steps: &mut Vec<Step>, kind: StepKind, cmds: &Vec<Vec<u8>>)
    ensures
        final(steps).deep_view() == old(steps).deep_view() + hook_steps(kind, cmds.deep_view()),
{
    let ghost pre = steps.deep_view();
    let ghost all = cmds.deep_view();
    let n = cmds.len();
    let mut i: usize = 0;
    proof {
        assert(all.skip(0) =~= all);
        assert(pre + hook_steps(kind, all) =~= pre + hook_steps(kind, all));
    }
    while i < n
        invariant
            0 <= i <= n,
            n == cmds@.len(),
            n == all.len(),
            all == cmds.deep_view(),
            steps.deep_view() + hook_steps(kind, all.skip(i as int)) == pre + hook_steps(kind, all),
        decreases n - i,
    {
        let ghost rem = all.skip(i as int);
        let ghost mid = steps.deep_view();
        proof {
            assert(rem[0] == all[i as int]);
            assert(rem.skip(1) =~= all.skip(i + 1));
            assert(cmds[i as int]@ =~= all[i as int]);
        }
        let text = copy_bytes(&cmds[i]);
        let shown = copy_bytes(&cmds[i]);
        steps.push(Step { kind, text, shown });
        proof {
            let sm = StepModel { kind, text: rem[0], shown: rem[0] };
            assert(steps.deep_view() =~~= mid.push(sm));
            assert(hook_steps(kind, rem) == seq![sm] + hook_steps(kind, rem.skip(1)));
            assert(mid.push(sm) + hook_steps(kind, rem.skip(1)) =~= mid + (seq![sm] + hook_steps(
                kind,
                rem.skip(1),
            )));
        }
        i = i + 1;
    }
    proof {
        assert(all.skip(n as int) =~= Seq::<Seq<u8>>::empty());
        assert(steps.deep_view() + Seq::<StepModel>::empty() =~= steps.deep_view());
    }
}

/// Builds the full execution plan for one document: which shell
/// invocations a refresh runs, in which order, with the alternative-
/// command table already applied to every command payload.
pub fn build_commands(doc: &Vec<u8>, config: &Config) -> (steps: Vec<Step>)
    ensures
        steps.deep_view() == plan_spec(config@, doc@),
{
    let ls = split_lines(doc);
    let ghost all = ls.deep_view();
    let mut steps: Vec<Step> = Vec::new();
    proof {
        assert(steps.deep_view() =~= Seq::<StepModel>::empty());
    }
    push_hook_steps(&mut steps, StepKind::PreFileHook, &config.hooks.pre_file);
    proof {
        assert(Seq::<StepModel>::empty() + hook_steps(StepKind::PreFileHook, config@.hooks.pre_file)
            =~= hook_steps(StepKind::PreFileHook, config@.hooks.pre_file));
    }
    let ghost prefix = hook_steps(StepKind::PreFileHook, config@.hooks.pre_file);
    let n = ls.len();
    let mut st = ScanState::OutOfBlock;
    let mut i: usize = 0;
    proof {
        assert(all.skip(0) =~= all);
        assert(prefix + plan_rec(config@, st, all) =~= prefix + plan_rec(config@, st, all));
    }
    while i < n
        invariant
            0 <= i <= n,
            n == ls@.len(),
            n == all.len(),
            all == ls.deep_view(),
            steps.deep_view() + plan_rec(config@, st, all.skip(i as int)) == prefix + plan_rec(
                config@,
                ScanState::OutOfBlock,
                all,
            ),
        decreases n - i,
    {
        let ghost rem = all.skip(i as int);
        let ghost mid = steps.deep_view();
        proof {
            assert(rem[0] == all[i as int]);
            assert(rem.skip(1) =~= all.skip(i + 1));
            assert(ls[i as int]@ =~= all[i as int]);
        }
        let (st2, c) = st.next(&ls[i]);
        let ghost contribution = line_steps(config@, class_spec(st, rem[0]), rem[0]);
        match c {
            LineClass::OpenFence => {
                push_hook_steps(&mut steps, StepKind::PreBlockHook, &config.hooks.pre_block);
            },
            LineClass::CloseFence => {
                push_hook_steps(&mut steps, StepKind::PostBlockHook, &config.hooks.post_block);
            },
            LineClass::CommandLine => {
                let payload = crate::scan::extract_payload(&ls[i]);
                let text = config.substitute(&payload);
                steps.push(Step { kind: StepKind::CommandStep, text, shown: payload });
                proof {
                    assert(steps.deep_view() =~~= mid + contribution);
                }
            },
            _ => {
                proof {
                    assert(contribution =~= Seq::<StepModel>::empty());
                    assert(steps.deep_view() =~= mid + contribution);
                }
            },
        }
        proof {
            assert(steps.deep_view() == mid + contribution);
            assert(plan_rec(config@, st, rem) == contribution + plan_rec(config@, st2, rem.skip(1)));
            assert((mid + contribution) + plan_rec(config@, st2, rem.skip(1)) =~= mid + (
            contribution + plan_rec(config@, st2, rem.skip(1))));
        }
        st = st2;
        i = i + 1;
    }
    proof {
        assert(all.skip(n as int) =~= Seq::<Seq<u8>>::empty());
        assert(steps.deep_view() + Seq::<StepModel>::empty() =~= steps.deep_view());
    }
    push_hook_steps(&mut steps, StepKind::PostFileHook, &config.hooks.post_file);
    proof {
        assert((prefix + plan_rec(config@, ScanState::OutOfBlock, all)) + hook_steps(
            StepKind::PostFileHook,
            config@.hooks.post_file,
        ) =~= plan_spec(config@, doc@));
    }
    steps
}

/// One captured output as it is written into the document: empty output
/// contributes nothing, and any other output gets exactly one newline
/// terminator appended when it lacks one.
pub open spec fn region_spec(out: Seq<u8>) -> Seq<u8> {
    if out.len() == 0 {
        Seq::empty()
    } else if out.last() == B_NL {
        out
    } else {
        out.push(B_NL)
    }
}

/// How many command lines the classifier finds, starting from state `s`.
pub open spec fn cmd_count_rec(s: ScanState, ls: Seq<Seq<u8>>) -> nat
    decreases ls.len(),
{
    if ls.len() == 0 {
        0
    } else {
        (if class_spec(s, ls[0]) == LineClass::CommandLine {
            1nat
        } else {
            0nat
        }) + cmd_count_rec(next_state_spec(s, ls[0]), ls.skip(1))
    }
}

pub open spec fn cmd_count_spec(d: Seq<u8>) -> nat {
    cmd_count_rec(ScanState::OutOfBlock, lines_spec(d))
}

/// The rebuilt document: every kept line verbatim with its newline, each
/// command line followed at once by its output region, stale output gone.
pub open spec fn merge_rec(s: ScanState, ls: Seq<Seq<u8>>, outs: Seq<Seq<u8>>) -> Seq<u8>
    decreases ls.len(),
{
    if ls.len() == 0 {
        Seq::empty()
    } else {
        let c = class_spec(s, ls[0]);
        let s2 = next_state_spec(s, ls[0]);
        if c == LineClass::CommandLine {
            ls[0] + seq![B_NL] + region_spec(outs[0]) + merge_rec(s2, ls.skip(1), outs.skip(1))
        } else if keeps(c) {
            ls[0] + seq![B_NL] + merge_rec(s2, ls.skip(1), outs)
        } else {
            merge_rec(s2, ls.skip(1), outs)
        }
    }
}

pub open spec fn merge_spec(d: Seq<u8>, outs: Seq<Seq<u8>>) -> Seq<u8> {
    merge_rec(ScanState::OutOfBlock, lines_spec(d), outs)
}

/// Counts the command lines of a document.
pub fn count_commands(ls: &Vec<Vec<u8>>) -> (c: usize)
    ensures
        c == cmd_count_rec(ScanState::OutOfBlock, ls.deep_view()),
{
    let ghost all = ls.deep_view();
    let n = ls.len();
    let mut c: usize = 0;
    let mut st = ScanState::OutOfBlock;
    let mut i: usize = 0;
    proof {
        assert(all.skip(0) =~= all);
    }
    while i < n
        invariant
            0 <= i <= n,
            0 <= c <= i,
            n == ls@.len(),
            n == all.len(),
            all == ls.deep_view(),
            c + cmd_count_rec(st, all.skip(i as int)) == cmd_count_rec(ScanState::OutOfBlock, all),
        decreases n - i,
    {
        let ghost rem = all.skip(i as int);
        proof {
            assert(rem[0] == all[i as int]);
            assert(rem.skip(1) =~= all.skip(i + 1));
            assert(ls[i as int]@ =~= all[i as int]);
        }
        let (st2, cl) = st.next(&ls[i]);
        if cl == LineClass::CommandLine {
            c = c + 1;
        }
        st = st2;
        i = i + 1;
    }
    proof {
        assert(all.skip(n as int) =~= Seq::<Seq<u8>>::empty());
    }
    c
}

/// Appends one output region: the raw output, terminated by exactly one
/// newline, or nothing at all for empty output.
fn push_region(out: &mut Vec<u8>, bytes: &Vec<u8>)
    ensures
        final(out)@ == old(out)@ + region_spec(bytes@),
{
    let ghost pre = out@;
    if bytes.len() == 0 {
        proof {
            assert(pre + region_spec(bytes@) =~= pre);
        }
        return ;
    }
    push_bytes(out, bytes);
    if bytes[bytes.len() - 1] != B_NL {
        out.push(B_NL);
        proof {
            assert((pre + bytes@).push(B_NL) =~= pre + bytes@.push(B_NL));
        }
    }
}

/// Rebuilds the document text from its lines and the captured output of
/// each command, one output per command line, in order.
pub fn merge_outputs(doc: &Vec<u8>, outputs: &Vec<Vec<u8>>) -> (r: Result<Vec<u8>, ScanError>)
    ensures
        match r {
            Result::Ok(t) => outputs@.len() == cmd_count_spec(doc@) && t@ == merge_spec(
                doc@,
                outputs.deep_view(),
            ),
            Result::Err(e) => outputs@.len() != cmd_count_spec(doc@) && e
                == ScanError::OutputMismatch,
        },
{
    let ls = split_lines(doc);
    let ghost all = ls.deep_view();
    let ghost odeep = outputs.deep_view();
    let total = count_commands(&ls);
    if outputs.len() != total {
        return Err(ScanError::OutputMismatch);
    }
    let n = ls.len();
    let mut out: Vec<u8> = Vec::new();
    let mut st = ScanState::OutOfBlock;
    let mut i: usize = 0;
    let mut k: usize = 0;
    proof {
        assert(all.skip(0) =~= all);
        assert(odeep.skip(0) =~= odeep);
        assert(out@ + merge_rec(st, all, odeep) =~= merge_rec(ScanState::OutOfBlock, all, odeep));
        assert(odeep.len() == outputs@.len());
    }
    while i < n
        invariant
            0 <= i <= n,
            0 <= k <= total,
            n == ls@.len(),
            n == all.len(),
            all == ls.deep_view(),
            odeep == outputs.deep_view(),
            total == outputs@.len(),
            total == odeep.len(),
            total == cmd_count_rec(ScanState::OutOfBlock, all),
            out@ + merge_rec(st, all.skip(i as int), odeep.skip(k as int)) == merge_spec(
                doc@,
                odeep,
            ),
            k + cmd_count_rec(st, all.skip(i as int)) == cmd_count_rec(ScanState::OutOfBlock, all),
        decreases n - i,
    {
        let ghost rem = all.skip(i as int);
        let ghost orem = odeep.skip(k as int);
        let ghost pre = out@;
        proof {
            assert(rem[0] == all[i as int]);
            assert(rem.skip(1) =~= all.skip(i + 1));
            assert(ls[i as int]@ =~= all[i as int]);
        }
        let (st2, c) = st.next(&ls[i]);
        if c == LineClass::CommandLine {
            proof {
                assert(class_spec(st, rem[0]) == LineClass::CommandLine);
                assert(cmd_count_rec(st, rem) == 1 + cmd_count_rec(
                    next_state_spec(st, rem[0]),
                    rem.skip(1),
                ));
                assert(k < total);
                assert(orem[0] == odeep[k as int]);
                assert(orem.skip(1) =~= odeep.skip(k + 1));
                assert(outputs[k as int]@ =~= odeep[k as int]);
            }
            push_line(&mut out, &ls[i]);
            push_region(&mut out, &outputs[k]);
            k = k + 1;
            proof {
                assert(merge_rec(st, rem, orem) == rem[0] + seq![B_NL] + region_spec(orem[0])
                    + merge_rec(st2, rem.skip(1), orem.skip(1)));
                assert(out@ =~= pre + rem[0] + seq![B_NL] + region_spec(orem[0]));
                assert((pre + rem[0] + seq![B_NL] + region_spec(orem[0])) + merge_rec(
                    st2,
                    rem.skip(1),
                    orem.skip(1),
                ) =~= pre + (rem[0] + seq![B_NL] + region_spec(orem[0]) + merge_rec(
                    st2,
                    rem.skip(1),
                    orem.skip(1),
                )));
            }
        } else if c != LineClass::OutputLine {
            push_line(&mut out, &ls[i]);
            proof {
                assert(merge_rec(st, rem, orem) == rem[0] + seq![B_NL] + merge_rec(
                    st2,
                    rem.skip(1),
                    orem,
                ));
                assert((pre + rem[0] + seq![B_NL]) + merge_rec(st2, rem.skip(1), orem) =~= pre + (
                rem[0] + seq![B_NL] + merge_rec(st2, rem.skip(1), orem)));
            }
        } else {
            proof {
                assert(merge_rec(st, rem, orem) == merge_rec(st2, rem.skip(1), orem));
            }
        }
        st = st2;
        i = i + 1;
    }
    proof {
        assert(all.skip(n as int) =~= Seq::<Seq<u8>>::empty());
        assert(out@ + merge_rec(st, Seq::<Seq<u8>>::empty(), odeep.skip(k as int)) =~= out@);
    }
    Ok(out)
}

/// A step whose failure is fatal: every hook step, but no command step.
pub open spec fn is_hook(k: StepKind) -> bool {
    k != StepKind::CommandStep
}

/// Some executed hook step failed; the scan must abort.
pub open spec fn hook_failure(plan: Seq<StepModel>, outs: Seq<OutcomeModel>) -> bool {
    exists|i: int|
        0 <= i < plan.len() && i < outs.len() && is_hook((#[trigger] plan[i]).kind)
            && !outs[i].success
}

/// Every command step among the outcomes succeeded.
pub open spec fn commands_ok(plan: Seq<StepModel>, outs: Seq<OutcomeModel>) -> bool {
    forall|i: int|
        0 <= i < plan.len() && i < outs.len() ==> ((#[trigger] plan[i]).kind
            == StepKind::CommandStep ==> outs[i].success)
}

/// The outputs of the command steps, in plan order.
pub open spec fn command_outputs(plan: Seq<StepModel>, outs: Seq<OutcomeModel>) -> Seq<Seq<u8>>
    decreases plan.len(),
{
    if plan.len() == 0 || outs.len() == 0 {
        Seq::empty()
    } else {
        (if plan[0].kind == StepKind::CommandStep {
            seq![outs[0].output]
        } else {
            Seq::empty()
        }) + command_outputs(plan.skip(1), outs.skip(1))
    }
}

/// The driver's abort rule: stop the run at once when a hook fails;
/// a failed command is recorded but never stops the run.
pub fn should_abort(step: &Step, outcome: &StepOutcome) -> (b: bool)
    ensures
        b == (is_hook(step@.kind) && !outcome@.success),
{
    match step.kind {
        StepKind::CommandStep => false,
        _ => !outcome.success,
    }
}

/// Reads the outcomes of a run back against its plan: a failed hook is
/// fatal; a run that stopped early without one is incomplete; otherwise
/// the aggregate success flag is the conjunction of the command results,
/// and the command outputs come back in plan order.
pub fn exec_commands(plan: &Vec<Step>, outcomes: &Vec<StepOutcome>) -> (r: Result<
    (bool, Vec<Vec<u8>>),
    ScanError,
>)
    ensures
        match r {
            Result::Ok(p) => !hook_failure(plan.deep_view(), outcomes.deep_view()) && plan@.len()
                == outcomes@.len() && p.0 == commands_ok(plan.deep_view(), outcomes.deep_view())
                && p.1.deep_view() == command_outputs(plan.deep_view(), outcomes.deep_view()),
            Result::Err(e) => (e == ScanError::HookFailed && hook_failure(
                plan.deep_view(),
                outcomes.deep_view(),
            )) || (e == ScanError::IncompleteRun && !hook_failure(
                plan.deep_view(),
                outcomes.deep_view(),
            ) && plan@.len() != outcomes@.len()),
        },
{
    let ghost pdeep = plan.deep_view();
    let ghost odeep = outcomes.deep_view();
    let np = plan.len();
    let no = outcomes.len();
    let m = if np < no {
        np
    } else {
        no
    };
    let mut i: usize = 0;
    while i < m
        invariant
            0 <= i <= m,
            m <= np == plan@.len(),
            m <= no == outcomes@.len(),
            m == if np < no {
                np
            } else {
                no
            },
            pdeep == plan.deep_view(),
            odeep == outcomes.deep_view(),
            forall|j: int| 0 <= j < i ==> !(is_hook((#[trigger] pdeep[j]).kind) && !odeep[j].success),
        decreases m - i,
    {
        proof {
            assert(pdeep[i as int] == plan@[i as int]@);
            assert(odeep[i as int] == outcomes@[i as int]@);
        }
        let hook = match plan[i].kind {
            StepKind::CommandStep => false,
            _ => true,
        };
        if hook && !outcomes[i].success {
            proof {
                assert(is_hook(pdeep[i as int].kind) && !odeep[i as int].success);
            }
            return Err(ScanError::HookFailed);
        }
        i = i + 1;
    }
    proof {
        assert(!hook_failure(pdeep, odeep));
    }
    if np != no {
        return Err(ScanError::IncompleteRun);
    }
    let mut succ = true;
    let mut outs: Vec<Vec<u8>> = Vec::new();
    let mut i: usize = 0;
    proof {
        assert(pdeep.skip(0) =~= pdeep);
        assert(odeep.skip(0) =~= odeep);
        assert(outs.deep_view() + command_outputs(pdeep, odeep) =~= command_outputs(pdeep, odeep));
    }
    while i < np
        invariant
            0 <= i <= np,
            np == plan@.len(),
            np == no == outcomes@.len(),
            pdeep == plan.deep_view(),
            odeep == outcomes.deep_view(),
            outs.deep_view() + command_outputs(pdeep.skip(i as int), odeep.skip(i as int))
                == command_outputs(pdeep, odeep),
            succ == (forall|j: int|
                0 <= j < i ==> ((#[trigger] pdeep[j]).kind == StepKind::CommandStep
                    ==> odeep[j].success)),
        decreases np - i,
    {
        let ghost prem = pdeep.skip(i as int);
        let ghost orem = odeep.skip(i as int);
        let ghost pre = outs.deep_view();
        let ghost pre_succ = succ;
        proof {
            assert(prem[0] == pdeep[i as int]);
            assert(orem[0] == odeep[i as int]);
            assert(prem.skip(1) =~= pdeep.skip(i + 1));
            assert(orem.skip(1) =~= odeep.skip(i + 1));
            assert(pdeep[i as int] == plan@[i as int]@);
            assert(odeep[i as int] == outcomes@[i as int]@);
        }
        let is_cmd = match plan[i].kind {
            StepKind::CommandStep => true,
            _ => false,
        };
        if is_cmd {
            let o = copy_bytes(&outcomes[i].output);
            outs.push(o);
            succ = succ && outcomes[i].success;
            proof {
                assert(outs.deep_view() =~~= pre.push(orem[0].output));
                assert(command_outputs(prem, orem) == seq![orem[0].output] + command_outputs(
                    prem.skip(1),
                    orem.skip(1),
                ));
                assert(pre.push(orem[0].output) + command_outputs(prem.skip(1), orem.skip(1)) =~=
                pre + (seq![orem[0].output] + command_outputs(prem.skip(1), orem.skip(1))));
            }
        } else {
            proof {
                assert(command_outputs(prem, orem) == command_outputs(prem.skip(1), orem.skip(1)))
                    by {
                    if prem.len() > 0 && orem.len() > 0 {
                        assert(Seq::<Seq<u8>>::empty() + command_outputs(
                            prem.skip(1),
                            orem.skip(1),
                        ) =~= command_outputs(prem.skip(1), orem.skip(1)));
                    }
                }
            }
        }
        i = i + 1;
        proof {
            if succ {
                assert(forall|j: int|
                    0 <= j < i ==> ((#[trigger] pdeep[j]).kind == StepKind::CommandStep
                        ==> odeep[j].success));
            } else {
                assert(!(forall|j: int|
                    0 <= j < i ==> ((#[trigger] pdeep[j]).kind == StepKind::CommandStep
                        ==> odeep[j].success))) by {
                    if !pre_succ {
                        let j = choose|j: int|
                            !(0 <= j < i - 1 ==> ((#[trigger] pdeep[j]).kind
                                == StepKind::CommandStep ==> odeep[j].success));
                        assert(!(0 <= j < i ==> ((pdeep[j]).kind == StepKind::CommandStep
                            ==> odeep[j].success)));
                    } else {
                        assert(!(0 <= i - 1 < i ==> ((pdeep[i - 1]).kind == StepKind::CommandStep
                            ==> odeep[i - 1].success)));
                    }
                }
            }
        }
    }
    proof {
        assert(pdeep.skip(np as int) =~= Seq::<StepModel>::empty());
        assert(odeep.skip(np as int) =~= Seq::<OutcomeModel>::empty());
        assert(outs.deep_view() + Seq::<Seq<u8>>::empty() =~= outs.deep_view());
        assert(succ == commands_ok(pdeep, odeep));
    }
    Ok((succ, outs))
}

/// How many command steps a plan holds.
pub open spec fn plan_cmd_count(p: Seq<StepModel>) -> nat
    decreases p.len(),
{
    if p.len() == 0 {
        0
    } else {
        (if p[0].kind == StepKind::CommandStep {
            1nat
        } else {
            0nat
        }) + plan_cmd_count(p.skip(1))
    }
}

pub proof fn lemma_plan_cmd_count_concat(a: Seq<StepModel>, b: Seq<StepModel>)
    ensures
        plan_cmd_count(a + b) == plan_cmd_count(a) + plan_cmd_count(b),
    decreases a.len(),
{
    if a.len() == 0 {
        assert(a + b =~= b);
    } else {
        assert((a + b)[0] == a[0]);
        assert((a + b).skip(1) =~= a.skip(1) + b);
        lemma_plan_cmd_count_concat(a.skip(1), b);
    }
}

/// Hook steps never count as commands.
pub proof fn lemma_hook_steps_no_commands(kind: StepKind, cmds: Seq<Seq<u8>>)
    requires
        kind != StepKind::CommandStep,
    ensures
        plan_cmd_count(hook_steps(kind, cmds)) == 0,
    decreases cmds.len(),
{
    if cmds.len() == 0 {
    } else {
        let h = seq![StepModel { kind, text: cmds[0], shown: cmds[0] }];
        lemma_plan_cmd_count_concat(h, hook_steps(kind, cmds.skip(1)));
        assert(plan_cmd_count(h) == 0) by {
            assert(h.len() == 1);
            assert(h[0].kind != StepKind::CommandStep);
            assert(h.skip(1) =~= Seq::<StepModel>::empty());
            assert(plan_cmd_count(Seq::<StepModel>::empty()) == 0);
            assert(plan_cmd_count(h) == 0 + plan_cmd_count(h.skip(1)));
        }
        lemma_hook_steps_no_commands(kind, cmds.skip(1));
        assert(hook_steps(kind, cmds) == h + hook_steps(kind, cmds.skip(1)));
    }
}

/// The plan holds exactly one command step per command line.
pub proof fn lemma_plan_rec_cmd_count(cfg: ConfigModel, s: ScanState, ls: Seq<Seq<u8>>)
    ensures
        plan_cmd_count(plan_rec(cfg, s, ls)) == cmd_count_rec(s, ls),
    decreases ls.len(),
{
    if ls.len() == 0 {
    } else {
        let c = class_spec(s, ls[0]);
        let contribution = line_steps(cfg, c, ls[0]);
        lemma_plan_cmd_count_concat(contribution, plan_rec(cfg, next_state_spec(s, ls[0]), ls.skip(1)));
        if c == LineClass::OpenFence {
            lemma_hook_steps_no_commands(StepKind::PreBlockHook, cfg.hooks.pre_block);
        } else if c == LineClass::CloseFence {
            lemma_hook_steps_no_commands(StepKind::PostBlockHook, cfg.hooks.post_block);
        } else if c == LineClass::CommandLine {
            assert(plan_cmd_count(contribution) == 1) by {
                assert(contribution.len() == 1);
                assert(contribution[0].kind == StepKind::CommandStep);
                assert(contribution.skip(1) =~= Seq::<StepModel>::empty());
                assert(plan_cmd_count(Seq::<StepModel>::empty()) == 0);
                assert(plan_cmd_count(contribution) == 1 + plan_cmd_count(contribution.skip(1)));
            }
        } else {
            assert(contribution =~= Seq::<StepModel>::empty());
        }
        lemma_plan_rec_cmd_count(cfg, next_state_spec(s, ls[0]), ls.skip(1));
        assert(plan_rec(cfg, s, ls) == contribution + plan_rec(
            cfg,
            next_state_spec(s, ls[0]),
            ls.skip(1),
        ));
    }
}

pub proof fn lemma_plan_spec_cmd_count(cfg: ConfigModel, d: Seq<u8>)
    ensures
        plan_cmd_count(plan_spec(cfg, d)) == cmd_count_spec(d),
{
    let pre = hook_steps(StepKind::PreFileHook, cfg.hooks.pre_file);
    let mid = plan_rec(cfg, ScanState::OutOfBlock, lines_spec(d));
    let post = hook_steps(StepKind::PostFileHook, cfg.hooks.post_file);
    lemma_plan_cmd_count_concat(pre + mid, post);
    lemma_plan_cmd_count_concat(pre, mid);
    lemma_hook_steps_no_commands(StepKind::PreFileHook, cfg.hooks.pre_file);
    lemma_hook_steps_no_commands(StepKind::PostFileHook, cfg.hooks.post_file);
    lemma_plan_rec_cmd_count(cfg, ScanState::OutOfBlock, lines_spec(d));
}

/// A full run hands back one output per command step.
pub proof fn lemma_command_outputs_len(p: Seq<StepModel>, o: Seq<OutcomeModel>)
    requires
        p.len() == o.len(),
    ensures
        command_outputs(p, o).len() == plan_cmd_count(p),
    decreases p.len(),
{
    if p.len() == 0 {
    } else {
        lemma_command_outputs_len(p.skip(1), o.skip(1));
    }
}

/// One whole refresh of a document, given the outcomes of its planned
/// run: fatal on a failed hook or an incomplete run; otherwise the
/// rebuilt text together with the aggregate success flag.
pub fn insert_command_outputs(doc: &Vec<u8>, config: &Config, outcomes: &Vec<StepOutcome>) -> (r:
    Result<(bool, Vec<u8>), ScanError>)
    ensures
        match r {
            Result::Ok(p) => !hook_failure(plan_spec(config@, doc@), outcomes.deep_view())
                && plan_spec(config@, doc@).len() == outcomes@.len() && p.0 == commands_ok(
                plan_spec(config@, doc@),
                outcomes.deep_view(),
            ) && p.1@ == merge_spec(
                doc@,
                command_outputs(plan_spec(config@, doc@), outcomes.deep_view()),
            ),
            Result::Err(e) => (e == ScanError::HookFailed && hook_failure(
                plan_spec(config@, doc@),
                outcomes.deep_view(),
            )) || (e == ScanError::IncompleteRun && !hook_failure(
                plan_spec(config@, doc@),
                outcomes.deep_view(),
            ) && plan_spec(config@, doc@).len() != outcomes@.len()),
        },
{
    let plan = build_commands(doc, config);
    match exec_commands(&plan, outcomes) {
        Err(e) => Err(e),
        Ok((succ, outs)) => {
            proof {
                lemma_plan_spec_cmd_count(config@, doc@);
                lemma_command_outputs_len(plan.deep_view(), outcomes.deep_view());
            }
            match merge_outputs(doc, &outs) {
                Err(_) => {
                    proof {
                        assert(false);
                    }
                    Err(ScanError::OutputMismatch)
                },
                Ok(t) => Ok((succ, t)),
            }
        },
    }
}

} // verus!
