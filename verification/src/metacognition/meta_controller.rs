//! The meta-action policy: per iteration, picks one of act, reflect,
//! decompose, escalate or abort by minimising expected free energy over a
//! belief. Quantities are fixed-point numbers, in billionths, unless said
//! otherwise.
use crate::fixed::{floor_div, fmt_two_decimals, fx_mul, two_decimals, ONE};
use crate::metacognition::self_belief::{
    after_failure, after_mixed, after_success, beta_mean, dim_param, has_dim,
    law_observations_add_weight, law_observations_are_local, lemma_mean_range, uncertainty,
    BetaParam, SelfBelief,
};
use crate::text::{dec_int, fmt_i64, owned, same};
use vstd::arithmetic::div_mod::lemma_fundamental_div_mod_converse;
use vstd::prelude::*;

verus! {

#[derive(Debug, Clone, Copy, PartialEq, Eq, Structural)]
pub enum MetaAction {
    Act,
    Reflect,
    Decompose,
    Escalate,
    Abort,
}

/// The lower-case name of an action.
pub open spec fn action_name(a: MetaAction) -> Seq<char> {
    match a {
        MetaAction::Act => "act"@,
        MetaAction::Reflect => "reflect"@,
        MetaAction::Decompose => "decompose"@,
        MetaAction::Escalate => "escalate"@,
        MetaAction::Abort => "abort"@,
    }
}

impl MetaAction {
    pub fn as_str(&self) -> (r: &'static str)
        ensures
            r@ == action_name(*self),
    {
        match self {
            MetaAction::Act => "act",
            MetaAction::Reflect => "reflect",
            MetaAction::Decompose => "decompose",
            MetaAction::Escalate => "escalate",
            MetaAction::Abort => "abort",
        }
    }
}

impl Default for MetaAction {
    fn default() -> (r: MetaAction)
        ensures
            r == MetaAction::Act,
    {
        MetaAction::Act
    }
}

/// Why the model just stopped streaming, as far as the agent loop knows.
#[derive(Debug, Clone, Copy, PartialEq, Eq, Structural)]
pub enum StopReason {
    Unknown,
    EndTurn,
    ToolUse,
    MaxTokens,
    Refusal,
}

impl Default for StopReason {
    fn default() -> (r: StopReason)
        ensures
            r == StopReason::Unknown,
    {
        StopReason::Unknown
    }
}

/// What the agent loop reports about each iteration before asking the
/// controller for its next action.
#[derive(Debug, Clone, Copy)]
pub struct IterationObservation {
    pub turn: i32,
    pub tool_calls: i32,
    pub tool_errors: i32,
    pub any_progress: bool,
    pub loop_detected: bool,
    pub low_quality_cot: bool,
    pub stop_reason: StopReason,
}

impl Default for IterationObservation {
    fn default() -> (r: IterationObservation)
        ensures
            r == (IterationObservation {
                turn: 0,
                tool_calls: 0,
                tool_errors: 0,
                any_progress: false,
                loop_detected: false,
                low_quality_cot: false,
                stop_reason: StopReason::Unknown,
            }),
    {
        IterationObservation {
            turn: 0,
            tool_calls: 0,
            tool_errors: 0,
            any_progress: false,
            loop_detected: false,
            low_quality_cot: false,
            stop_reason: StopReason::Unknown,
        }
    }
}

/// What the controller returns to the agent loop.
#[derive(Debug, Clone)]
pub struct MetaDecision {
    pub action: MetaAction,
    /// Ready-to-inject prompt fragment; empty when acting or aborting.
    pub injection: String,
    pub reason: String,
    /// Expected free energy of the chosen action, for diagnostics, in units
    /// of `10⁻²⁸`, held within the type.
    pub efe_score: i128,
}

impl Default for MetaDecision {
    fn default() -> (r: MetaDecision)
        ensures
            r.action == MetaAction::Act,
            r.injection@ == Seq::<char>::empty(),
            r.reason@ == Seq::<char>::empty(),
            r.efe_score == 0,
    {
        MetaDecision {
            action: MetaAction::Act,
            injection: String::new(),
            reason: String::new(),
            efe_score: 0,
        }
    }
}

/// Tunables of the policy.
#[derive(Debug, Clone, Copy)]
pub struct MetaConfig {
    pub cost_act: i64,
    pub cost_reflect: i64,
    pub cost_decompose: i64,
    pub cost_escalate: i64,
    pub cost_abort: i64,
    pub progress_weight: i64,
    pub gamma_init: i64,
    pub gamma_min: i64,
    pub gamma_decay: i64,
    pub abort_min_iters: i32,
    pub abort_progress_thresh: i64,
    pub reflect_after_failures: i32,
    pub decompose_after_stalls: i32,
    pub allow_abort: bool,
}

/// The largest magnitude of a configured quantity: one thousand million.
pub const LIMIT: i64 = 1_000_000_000_000_000_000;

/// Whether a quantity is within the limit.
pub open spec fn in_limit(x: int) -> bool {
    -LIMIT <= x <= LIMIT
}

/// The calibrated defaults.
pub open spec fn default_config() -> MetaConfig {
    MetaConfig {
        cost_act: 1_000_000_000,
        cost_reflect: 1_400_000_000,
        cost_decompose: 2_000_000_000,
        cost_escalate: 300_000_000,
        cost_abort: 100_000_000,
        progress_weight: 5_000_000_000,
        gamma_init: 1_500_000_000,
        gamma_min: 100_000_000,
        gamma_decay: 850_000_000,
        abort_min_iters: 4,
        abort_progress_thresh: 250_000_000,
        reflect_after_failures: 2,
        decompose_after_stalls: 3,
        allow_abort: true,
    }
}

impl Default for MetaConfig {
    fn default() -> (r: MetaConfig)
        ensures
            r == default_config(),
            r.wf(),
    {
        MetaConfig {
            cost_act: 1_000_000_000,
            cost_reflect: 1_400_000_000,
            cost_decompose: 2_000_000_000,
            cost_escalate: 300_000_000,
            cost_abort: 100_000_000,
            progress_weight: 5_000_000_000,
            gamma_init: 1_500_000_000,
            gamma_min: 100_000_000,
            gamma_decay: 850_000_000,
            abort_min_iters: 4,
            abort_progress_thresh: 250_000_000,
            reflect_after_failures: 2,
            decompose_after_stalls: 3,
            allow_abort: true,
        }
    }
}

impl MetaConfig {
    /// Every quantity is within the limit, so that free energies fit their
    /// type.
    pub open spec fn wf(&self) -> bool {
        &&& in_limit(self.cost_act as int)
        &&& in_limit(self.cost_reflect as int)
        &&& in_limit(self.cost_decompose as int)
        &&& in_limit(self.cost_escalate as int)
        &&& in_limit(self.cost_abort as int)
        &&& in_limit(self.progress_weight as int)
        &&& in_limit(self.gamma_init as int)
        &&& in_limit(self.gamma_min as int)
        &&& in_limit(self.gamma_decay as int)
    }

    /// Whether every quantity is within the limit.
    pub fn is_valid(&self) -> (r: bool)
        ensures
            r == self.wf(),
    {
        within(self.cost_act) && within(self.cost_reflect) && within(self.cost_decompose)
            && within(self.cost_escalate) && within(self.cost_abort) && within(
            self.progress_weight,
        ) && within(self.gamma_init) && within(self.gamma_min) && within(self.gamma_decay)
    }
}

fn within(x: i64) -> (r: bool)
    ensures
        r == in_limit(x as int),
{
    -LIMIT <= x && x <= LIMIT
}

/// What a controller knows, as a mathematical value.
pub struct ControllerState {
    pub cfg: MetaConfig,
    pub belief: Seq<(Seq<char>, BetaParam)>,
    pub iter: i32,
    pub consecutive_errors: i32,
    pub stall_count: i32,
    pub total_reflects: i32,
    pub total_aborts: i32,
    pub turn_started: bool,
    pub last_user_input: Seq<char>,
}

#[derive(Debug)]
pub struct MetaController {
    pub cfg: MetaConfig,
    pub belief: SelfBelief,
    pub iter: i32,
    pub consecutive_errors: i32,
    pub stall_count: i32,
    pub total_reflects: i32,
    pub total_aborts: i32,
    pub turn_started: bool,
    pub last_user_input: String,
}

impl View for MetaController {
    type V = ControllerState;

    open spec fn view(&self) -> ControllerState {
        ControllerState {
            cfg: self.cfg,
            belief: self.belief@,
            iter: self.iter,
            consecutive_errors: self.consecutive_errors,
            stall_count: self.stall_count,
            total_reflects: self.total_reflects,
            total_aborts: self.total_aborts,
            turn_started: self.turn_started,
            last_user_input: self.last_user_input@,
        }
    }
}

/// A fresh controller.
pub open spec fn fresh_controller(cfg: MetaConfig) -> ControllerState {
    ControllerState {
        cfg,
        belief: SelfBelief::initial(),
        iter: 0,
        consecutive_errors: 0,
        stall_count: 0,
        total_reflects: 0,
        total_aborts: 0,
        turn_started: false,
        last_user_input: Seq::empty(),
    }
}

/// The mean of a dimension in a controller's belief.
pub open spec fn mean_of(s: ControllerState, dim: Seq<char>) -> int {
    beta_mean(dim_param(s.belief, dim)) as int
}

/// The `n`-th power of `d`, each multiplication rounded down.
pub open spec fn decay_pow(d: int, n: nat) -> int
    decreases n,
{
    if n == 0 {
        ONE as int
    } else {
        fx_mul(d, decay_pow(d, (n - 1) as nat))
    }
}

/// The epistemic weight: `γ_init · γ_decay^iter`, but at least `γ_min`.
pub open spec fn gamma(cfg: MetaConfig, iter: i32) -> int {
    let n = if iter > 0 {
        iter as nat
    } else {
        0
    };
    let g = fx_mul(cfg.gamma_init as int, decay_pow(cfg.gamma_decay as int, n));
    if g > cfg.gamma_min {
        g
    } else {
        cfg.gamma_min as int
    }
}

/// What one is, in the units of free energy.
pub const EFE_ONE: i128 = 10_000_000_000_000_000_000_000_000_000;

/// The factor from billionths to the units of free energy.
pub const EFE_FACTOR: i128 = 10_000_000_000_000_000_000;

/// Cost minus pragmatic value of an action, in units of `10⁻²⁸`. `None`
/// stands for infinity: an abort that is not allowed.
pub open spec fn net_cost(s: ControllerState, a: MetaAction) -> Option<int> {
    let progress = mean_of(s, "task_progress"@);
    let reasoning = mean_of(s, "reasoning"@);
    let tool = mean_of(s, "tool_use"@);
    let u = uncertainty(s.belief) as int;
    let pw = s.cfg.progress_weight as int;
    let one = ONE as int;
    match a {
        MetaAction::Act => Some(
            s.cfg.cost_act * EFE_FACTOR - 5 * (pw * progress * (tool + reasoning)),
        ),
        MetaAction::Reflect => {
            let bonus = if s.consecutive_errors >= s.cfg.reflect_after_failures {
                2 * EFE_ONE
            } else {
                0
            };
            Some(s.cfg.cost_reflect * EFE_FACTOR - (12 * (pw * (one - reasoning) * one) + bonus))
        },
        MetaAction::Decompose => {
            let bonus = if s.stall_count >= s.cfg.decompose_after_stalls {
                2 * EFE_ONE
            } else {
                0
            };
            Some(s.cfg.cost_decompose * EFE_FACTOR - (8 * (pw * (one - progress) * one) + bonus))
        },
        MetaAction::Escalate => {
            let bonus: int = if s.iter >= 6 && progress < 300_000_000 {
                15_000_000_000_000_000_000_000_000_000
            } else {
                0
            };
            Some(s.cfg.cost_escalate * EFE_FACTOR - (5 * (pw * (one - progress) * one) + bonus))
        },
        MetaAction::Abort => {
            if !s.cfg.allow_abort || s.iter < s.cfg.abort_min_iters {
                None
            } else {
                let v = if progress < s.cfg.abort_progress_thresh {
                    3 * EFE_ONE
                } else {
                    -2 * EFE_ONE
                };
                Some(s.cfg.cost_abort * EFE_FACTOR - (v - 3 * (u * EFE_FACTOR)))
            }
        },
    }
}

/// How much an action is expected to tell, in tenths of the uncertainty.
pub open spec fn info_gain(a: MetaAction) -> int {
    match a {
        MetaAction::Act => 5,
        MetaAction::Reflect => 12,
        MetaAction::Decompose => 15,
        MetaAction::Escalate => 0,
        MetaAction::Abort => 0,
    }
}

/// What a tenth of the uncertainty is worth: `γ` times it.
pub open spec fn info_worth(s: ControllerState) -> int {
    gamma(s.cfg, s.iter) * (uncertainty(s.belief) as int) * ONE
}

/// Expected free energy of an action: cost minus pragmatic value minus `γ`
/// times information gain, in units of `10⁻²⁸`. `None` stands for infinity.
pub open spec fn free_energy(s: ControllerState, a: MetaAction) -> Option<int> {
    match net_cost(s, a) {
        Some(c) => Some(c - info_gain(a) * info_worth(s)),
        None => None,
    }
}

/// A free energy as it is reported: one beyond the range of its type is held
/// at the end of the range.
pub open spec fn reported(e: int) -> int {
    if e < i128::MIN {
        i128::MIN as int
    } else if e > i128::MAX {
        i128::MAX as int
    } else {
        e
    }
}

/// The order in which actions are considered.
pub open spec fn rank(a: MetaAction) -> int {
    match a {
        MetaAction::Act => 0,
        MetaAction::Reflect => 1,
        MetaAction::Decompose => 2,
        MetaAction::Escalate => 3,
        MetaAction::Abort => 4,
    }
}

/// Whether `a` has the least free energy of all actions, and is the first
/// of those that do.
pub open spec fn is_choice(s: ControllerState, a: MetaAction) -> bool {
    &&& free_energy(s, a) is Some
    &&& forall|b: MetaAction| #[trigger]
        free_energy(s, b) is Some ==> free_energy(s, a)->0 <= free_energy(s, b)->0 && (rank(b)
            < rank(a) ==> free_energy(s, a)->0 < free_energy(s, b)->0)
}

/// Whether the chosen action can be counted.
pub open spec fn decision_room(s: ControllerState) -> bool {
    &&& is_choice(s, MetaAction::Reflect) ==> s.total_reflects < i32::MAX
    &&& is_choice(s, MetaAction::Abort) ==> s.total_aborts < i32::MAX
}

/// At least one, as a count shown to the model.
pub open spec fn at_least_one(n: i32) -> int {
    if n > 1 {
        n as int
    } else {
        1
    }
}

/// The prompt fragment that goes with an action.
pub open spec fn injection_text(s: ControllerState, a: MetaAction) -> Seq<char> {
    match a {
        MetaAction::Reflect => "[Metacognition / reflect] You have hit "@ + dec_int(
            at_least_one(s.consecutive_errors),
        )
            + " consecutive tool error(s). Before the next action, briefly state in 2 lines: (a) what assumption is most likely wrong, and (b) one concretely different strategy you will try now."@,
        MetaAction::Decompose => "[Metacognition / decompose] Progress has been stuck for "@
            + dec_int(at_least_one(s.stall_count))
            + " iterations. Decompose the remaining work into 2-4 smaller subtasks and tackle the most independent one first."@,
        MetaAction::Escalate => "[Metacognition / escalate] After "@ + dec_int(s.iter as int)
            + " iterations the estimated probability of success is only "@ + two_decimals(
            mean_of(s, "task_progress"@) as nat,
        )
            + ". Consider asking the user a specific clarifying question before continuing."@,
        MetaAction::Abort => Seq::empty(),
        MetaAction::Act => Seq::empty(),
    }
}

/// Why an action was chosen, in words.
pub open spec fn reason_text(s: ControllerState, a: MetaAction) -> Seq<char> {
    match a {
        MetaAction::Reflect => "consecutive_errors="@ + dec_int(s.consecutive_errors as int)
            + ", reasoning_mean="@ + two_decimals(mean_of(s, "reasoning"@) as nat),
        MetaAction::Decompose => "stall_count="@ + dec_int(s.stall_count as int)
            + ", task_progress_mean="@ + two_decimals(mean_of(s, "task_progress"@) as nat),
        MetaAction::Escalate => "iter="@ + dec_int(s.iter as int) + ", progress="@ + two_decimals(
            mean_of(s, "task_progress"@) as nat,
        ),
        MetaAction::Abort => "iter="@ + dec_int(s.iter as int) + ", progress="@ + two_decimals(
            mean_of(s, "task_progress"@) as nat,
        ) + ", uncertainty="@ + two_decimals(uncertainty(s.belief)),
        MetaAction::Act => "act on best estimate"@,
    }
}

/// The tools that edit code or text.
pub open spec fn code_edit_tool(name: Seq<char>) -> bool {
    name == "file_edit"@ || name == "file_write"@ || name == "FileEdit"@ || name == "FileWrite"@
        || name == "Edit"@ || name == "Write"@ || name == "note_edit"@
}

/// The tools that search.
pub open spec fn search_tool(name: Seq<char>) -> bool {
    name == "search"@ || name == "glob_tool"@ || name == "Grep"@ || name == "Glob"@ || name
        == "GrepTool"@ || name == "GlobTool"@ || name == "list_files"@
}

/// The dimension that a tool's outcome informs.
pub open spec fn tool_dimension(name: Seq<char>) -> Seq<char> {
    if code_edit_tool(name) {
        "code_edit"@
    } else if search_tool(name) {
        "search"@
    } else {
        "tool_use"@
    }
}

/// The belief after a tool's outcome: full weight on the tool's own
/// dimension, half weight on tool use in general.
pub open spec fn belief_after_tool(
    b: Seq<(Seq<char>, BetaParam)>,
    name: Seq<char>,
    is_error: bool,
) -> Seq<(Seq<char>, BetaParam)> {
    let d = tool_dimension(name);
    if is_error {
        after_failure(after_failure(b, d, ONE), "tool_use"@, 500_000_000)
    } else {
        after_success(after_success(b, d, ONE), "tool_use"@, 500_000_000)
    }
}

/// Whether an iteration went without any sign of trouble.
pub open spec fn clean_iteration(o: IterationObservation) -> bool {
    o.tool_errors == 0 && o.any_progress && o.tool_calls > 0 && !o.loop_detected
        && !o.low_quality_cot
}

/// Whether an iteration counts as a stall.
pub open spec fn stalled_iteration(o: IterationObservation) -> bool {
    !clean_iteration(o) && (o.tool_errors > 0 || !o.any_progress || o.loop_detected)
}

/// The controller after hearing about an iteration.
pub open spec fn after_observation(s: ControllerState, o: IterationObservation) -> ControllerState {
    ControllerState {
        iter: o.turn,
        stall_count: if clean_iteration(o) {
            0
        } else if stalled_iteration(o) {
            (s.stall_count + 1) as i32
        } else {
            s.stall_count
        },
        ..s
    }
}

/// The controller after hearing about a tool's outcome.
pub open spec fn after_tool_result(
    s: ControllerState,
    name: Seq<char>,
    is_error: bool,
) -> ControllerState {
    ControllerState {
        belief: belief_after_tool(s.belief, name, is_error),
        consecutive_errors: if is_error {
            (s.consecutive_errors + 1) as i32
        } else {
            0
        },
        ..s
    }
}

/// The controller after hearing about the quality of the reasoning.
pub open spec fn after_cot_quality(s: ControllerState, q: u64) -> ControllerState {
    ControllerState { belief: after_mixed(s.belief, "reasoning"@, q, ONE), ..s }
}

/// The controller after hearing whether progress was made; a negative
/// signal has half weight.
pub open spec fn after_progress(s: ControllerState, made: bool) -> ControllerState {
    ControllerState {
        belief: if made {
            after_success(s.belief, "task_progress"@, ONE)
        } else {
            after_failure(s.belief, "task_progress"@, 500_000_000)
        },
        ..s
    }
}

/// The controller at the start of a turn.
pub open spec fn at_turn_start(s: ControllerState, input: Seq<char>) -> ControllerState {
    ControllerState {
        turn_started: true,
        last_user_input: input,
        consecutive_errors: 0,
        stall_count: 0,
        iter: 0,
        ..s
    }
}

/// The controller after a decision.
pub open spec fn after_decision(s: ControllerState, iter: i32, a: MetaAction) -> ControllerState {
    ControllerState {
        iter,
        total_reflects: if a == MetaAction::Reflect {
            (s.total_reflects + 1) as i32
        } else {
            s.total_reflects
        },
        total_aborts: if a == MetaAction::Abort {
            (s.total_aborts + 1) as i32
        } else {
            s.total_aborts
        },
        ..s
    }
}

/// At most one action is the choice.
pub proof fn law_choice_unique(s: ControllerState, a: MetaAction, b: MetaAction)
    requires
        is_choice(s, a),
        is_choice(s, b),
    ensures
        a == b,
{
    if rank(a) < rank(b) {
        assert(free_energy(s, a) is Some);
    } else if rank(b) < rank(a) {
        assert(free_energy(s, b) is Some);
    }
}

/// An abort is never chosen before the configured number of iterations, nor
/// where it is not allowed.
pub proof fn law_no_early_abort(s: ControllerState)
    requires
        !s.cfg.allow_abort || s.iter < s.cfg.abort_min_iters,
    ensures
        !is_choice(s, MetaAction::Abort),
{
}

/// Reaching the configured number of consecutive errors lowers the free
/// energy of reflecting by exactly two.
pub proof fn law_errors_favour_reflection(s: ControllerState, t: ControllerState)
    requires
        t == (ControllerState { consecutive_errors: t.consecutive_errors, ..s }),
        s.consecutive_errors < s.cfg.reflect_after_failures <= t.consecutive_errors,
    ensures
        free_energy(t, MetaAction::Reflect)->0 == free_energy(s, MetaAction::Reflect)->0 - 2
            * EFE_ONE,
        forall|a: MetaAction|
            a != MetaAction::Reflect ==> free_energy(t, a) == #[trigger] free_energy(s, a),
{
}

/// An abort is worth exactly five more where the progress is below the
/// threshold than where it is not; no other action depends on the threshold.
pub proof fn law_low_progress_favours_abort(s: ControllerState, t: ControllerState)
    requires
        t == (ControllerState {
            cfg: MetaConfig { abort_progress_thresh: t.cfg.abort_progress_thresh, ..s.cfg },
            ..s
        }),
        s.cfg.abort_progress_thresh <= mean_of(s, "task_progress"@)
            < t.cfg.abort_progress_thresh,
        s.cfg.allow_abort,
        s.iter >= s.cfg.abort_min_iters,
    ensures
        free_energy(t, MetaAction::Abort) is Some,
        free_energy(t, MetaAction::Abort)->0 == free_energy(s, MetaAction::Abort)->0 - 5 * EFE_ONE,
        forall|a: MetaAction|
            a != MetaAction::Abort ==> free_energy(t, a) == #[trigger] free_energy(s, a),
{
    assert(gamma(t.cfg, t.iter) == gamma(s.cfg, s.iter));
}

proof fn lemma_gamma_floor(cfg: MetaConfig, iter: i32)
    ensures
        gamma(cfg, iter) >= cfg.gamma_min,
{
}

/// Under the default configuration a task whose progress is not below the
/// threshold is never aborted, whatever else is believed.
pub proof fn law_progress_is_not_aborted(s: ControllerState)
    requires
        s.cfg == default_config(),
        mean_of(s, "task_progress"@) >= s.cfg.abort_progress_thresh,
    ensures
        !is_choice(s, MetaAction::Abort),
{
    let progress = mean_of(s, "task_progress"@);
    let reasoning = mean_of(s, "reasoning"@);
    let tool = mean_of(s, "tool_use"@);
    let u = uncertainty(s.belief) as int;
    let pw = s.cfg.progress_weight as int;
    lemma_gamma_floor(s.cfg, s.iter);
    let g = gamma(s.cfg, s.iter);
    assert(g * u * 1_000_000_000 >= 0) by (nonlinear_arith)
        requires
            g >= 0,
            u >= 0,
    ;
    assert(pw * progress * (tool + reasoning) >= 0) by (nonlinear_arith)
        requires
            pw >= 0,
            progress >= 0,
            tool >= 0,
            reasoning >= 0,
    ;
    assert(free_energy(s, MetaAction::Act) is Some);
    if free_energy(s, MetaAction::Abort) is Some {
        assert(free_energy(s, MetaAction::Act)->0 < free_energy(s, MetaAction::Abort)->0);
    }
}

/// Under the default configuration a task that has run long enough, with
/// little progress of which the controller is sure, and reasoning and tools
/// that it trusts, is aborted or handed back to the user.
pub proof fn law_hopeless_task_is_given_up(s: ControllerState)
    requires
        s.cfg == default_config(),
        s.iter >= s.cfg.abort_min_iters,
        mean_of(s, "task_progress"@) == 0,
        mean_of(s, "reasoning"@) == ONE,
        uncertainty(s.belief) == 0,
        s.consecutive_errors < s.cfg.reflect_after_failures,
        s.stall_count < s.cfg.decompose_after_stalls,
    ensures
        is_choice(s, MetaAction::Abort) || is_choice(s, MetaAction::Escalate),
{
    let pw = s.cfg.progress_weight as int;
    let g = gamma(s.cfg, s.iter);
    let tool = mean_of(s, "tool_use"@);
    let one = ONE as int;
    assert(g * 0 * one == 0) by (nonlinear_arith);
    assert(pw * 0 * (tool + one) == 0) by (nonlinear_arith);
    assert(pw * (one - one) * one == 0);
    assert(pw * (one - 0) * one == 5_000_000_000_000_000_000_000_000_000) by (nonlinear_arith)
        requires
            pw == 5_000_000_000,
            one == 1_000_000_000,
    ;
    let c = if free_energy(s, MetaAction::Abort)->0 < free_energy(s, MetaAction::Escalate)->0 {
        MetaAction::Abort
    } else {
        MetaAction::Escalate
    };
    assert forall|b: MetaAction| #[trigger] free_energy(s, b) is Some implies free_energy(s, c)->0
        <= free_energy(s, b)->0 && (rank(b) < rank(c) ==> free_energy(s, c)->0 < free_energy(
        s,
        b,
    )->0) by {
        match b {
            MetaAction::Act => {},
            MetaAction::Reflect => {},
            MetaAction::Decompose => {},
            MetaAction::Escalate => {},
            MetaAction::Abort => {},
        }
    }
}

/// The configured cost of an action.
pub open spec fn cost_of(cfg: MetaConfig, a: MetaAction) -> int {
    match a {
        MetaAction::Act => cfg.cost_act as int,
        MetaAction::Reflect => cfg.cost_reflect as int,
        MetaAction::Decompose => cfg.cost_decompose as int,
        MetaAction::Escalate => cfg.cost_escalate as int,
        MetaAction::Abort => cfg.cost_abort as int,
    }
}

/// Whether two configurations differ in nothing but costs.
pub open spec fn same_but_costs(c: MetaConfig, d: MetaConfig) -> bool {
    d == (MetaConfig {
        cost_act: d.cost_act,
        cost_reflect: d.cost_reflect,
        cost_decompose: d.cost_decompose,
        cost_escalate: d.cost_escalate,
        cost_abort: d.cost_abort,
        ..c
    })
}

/// Making an action dearer raises its free energy by exactly that much, and
/// leaves the others.
pub proof fn law_costs_add_up(s: ControllerState, t: ControllerState, a: MetaAction)
    requires
        t == (ControllerState { cfg: t.cfg, ..s }),
        same_but_costs(s.cfg, t.cfg),
    ensures
        free_energy(t, a) is Some == free_energy(s, a) is Some,
        free_energy(s, a) is Some ==> (free_energy(t, a)->0 - free_energy(s, a)->0) == (cost_of(
            t.cfg,
            a,
        ) - cost_of(s.cfg, a)) * 10_000_000_000_000_000_000,
{
    assert(gamma(t.cfg, t.iter) == gamma(s.cfg, s.iter));
    let x = cost_of(s.cfg, a);
    let y = cost_of(t.cfg, a);
    assert((y - x) * 10_000_000_000_000_000_000 == y * 10_000_000_000_000_000_000 - x
        * 10_000_000_000_000_000_000);
}

/// Whether two controllers differ in nothing but their beliefs.
pub open spec fn same_but_belief(s: ControllerState, t: ControllerState) -> bool {
    t == (ControllerState { belief: t.belief, ..s })
}

/// How the beliefs move the choice, for a weight of progress that is not
/// negative: acting gets better with progress, tools and reasoning;
/// reflecting gets better as reasoning gets worse; decomposing and
/// escalating get better as progress gets worse.
pub proof fn law_beliefs_move_the_choice(s: ControllerState, t: ControllerState)
    requires
        same_but_belief(s, t),
        s.cfg.progress_weight >= 0,
        uncertainty(s.belief) == uncertainty(t.belief),
        mean_of(s, "task_progress"@) <= mean_of(t, "task_progress"@),
        mean_of(s, "reasoning"@) <= mean_of(t, "reasoning"@),
        mean_of(s, "tool_use"@) <= mean_of(t, "tool_use"@),
    ensures
        free_energy(t, MetaAction::Act)->0 <= free_energy(s, MetaAction::Act)->0,
        free_energy(t, MetaAction::Reflect)->0 >= free_energy(s, MetaAction::Reflect)->0,
        free_energy(t, MetaAction::Decompose)->0 >= free_energy(s, MetaAction::Decompose)->0,
        free_energy(t, MetaAction::Escalate)->0 >= free_energy(s, MetaAction::Escalate)->0,
{
    let pw = s.cfg.progress_weight as int;
    let (p, q) = (mean_of(s, "task_progress"@), mean_of(t, "task_progress"@));
    let (r, v) = (mean_of(s, "reasoning"@), mean_of(t, "reasoning"@));
    let (x, y) = (mean_of(s, "tool_use"@), mean_of(t, "tool_use"@));
    let one = ONE as int;
    assert(pw * p <= pw * q) by (nonlinear_arith)
        requires
            0 <= pw,
            p <= q,
    ;
    assert(pw * p >= 0) by (nonlinear_arith)
        requires
            0 <= pw,
            0 <= p,
    ;
    let (a, b) = (pw * p, pw * q);
    assert(a * (x + r) <= b * (y + v)) by (nonlinear_arith)
        requires
            0 <= a <= b,
            0 <= x + r <= y + v,
    ;
    assert(pw * (one - v) * one <= pw * (one - r) * one) by (nonlinear_arith)
        requires
            pw >= 0,
            r <= v,
            one > 0,
    ;
    assert(pw * (one - q) * one <= pw * (one - p) * one) by (nonlinear_arith)
        requires
            pw >= 0,
            p <= q,
            one > 0,
    ;
}

/// By exactly how much reasoning moves the energy of reflecting, and progress
/// that of decomposing and escalating: one and a fifth, four fifths and a
/// half of the weight of progress per unit.
pub proof fn law_shares_of_progress_weight(s: ControllerState, t: ControllerState)
    requires
        same_but_belief(s, t),
        uncertainty(s.belief) == uncertainty(t.belief),
    ensures
        ({
            let w = s.cfg.progress_weight as int;
            let r = mean_of(t, "reasoning"@) - mean_of(s, "reasoning"@);
            let p = mean_of(t, "task_progress"@) - mean_of(s, "task_progress"@);
            let late = s.iter >= 6;
            &&& free_energy(t, MetaAction::Reflect)->0 - free_energy(s, MetaAction::Reflect)->0
                == 12_000_000_000 * (w * r)
            &&& free_energy(t, MetaAction::Decompose)->0 - free_energy(s, MetaAction::Decompose)->0
                == 8_000_000_000 * (w * p)
            &&& !late ==> free_energy(t, MetaAction::Escalate)->0 - free_energy(
                s,
                MetaAction::Escalate,
            )->0 == 5_000_000_000 * (w * p)
        }),
{
    let w = s.cfg.progress_weight as int;
    let one = ONE as int;
    lemma_share(w, mean_of(s, "reasoning"@), mean_of(t, "reasoning"@));
    lemma_share(w, mean_of(s, "task_progress"@), mean_of(t, "task_progress"@));
}

proof fn lemma_share(w: int, a: int, b: int)
    ensures
        w * (ONE - a) * ONE - w * (ONE - b) * ONE == 1_000_000_000 * (w * (b - a)),
{
    let one = ONE as int;
    assert(w * (one - a) * one - w * (one - b) * one == one * (w * (b - a))) by (nonlinear_arith);
}

/// Information is worth `γ` per unit of uncertainty: half of it to acting,
/// one and a fifth to reflecting, one and a half to decomposing, nothing to
/// escalating; and what is uncertain weighs threefold against an abort.
pub proof fn law_uncertainty_is_worth_gamma(s: ControllerState, t: ControllerState)
    requires
        same_but_belief(s, t),
        mean_of(s, "task_progress"@) == mean_of(t, "task_progress"@),
        mean_of(s, "reasoning"@) == mean_of(t, "reasoning"@),
        mean_of(s, "tool_use"@) == mean_of(t, "tool_use"@),
    ensures
        ({
            let g = gamma(s.cfg, s.iter);
            let d = uncertainty(t.belief) - uncertainty(s.belief);
            let gain = |a: MetaAction| free_energy(s, a)->0 - free_energy(t, a)->0;
            &&& gain(MetaAction::Act) == 5_000_000_000 * (g * d)
            &&& gain(MetaAction::Reflect) == 12_000_000_000 * (g * d)
            &&& gain(MetaAction::Decompose) == 15_000_000_000 * (g * d)
            &&& gain(MetaAction::Escalate) == 0
            &&& free_energy(s, MetaAction::Abort) is Some ==> gain(MetaAction::Abort) == -3 * (d
                * 10_000_000_000_000_000_000)
        }),
{
    let g = gamma(s.cfg, s.iter);
    let a = uncertainty(s.belief) as int;
    let b = uncertainty(t.belief) as int;
    let one = ONE as int;
    assert(g * b * one - g * a * one == one * (g * (b - a))) by (nonlinear_arith);
    let x = g * a * one;
    let y = g * b * one;
    assert(info_worth(s) == x && info_worth(t) == y);
    assert(0 * x == 0 && 0 * y == 0) by (nonlinear_arith);
}

/// Where nothing is at stake, the free energy of an action is its cost: no
/// weight of progress, no uncertainty, no errors, no stalls and no late hour.
pub proof fn law_energy_without_stakes_is_cost(s: ControllerState, a: MetaAction)
    requires
        s.cfg.progress_weight == 0,
        uncertainty(s.belief) == 0,
        s.consecutive_errors < s.cfg.reflect_after_failures,
        s.stall_count < s.cfg.decompose_after_stalls,
        s.iter < 6,
        a != MetaAction::Abort,
    ensures
        free_energy(s, a) == Some(cost_of(s.cfg, a) * 10_000_000_000_000_000_000),
{
    let g = gamma(s.cfg, s.iter);
    let one = ONE as int;
    let (p, r, x) = (
        mean_of(s, "task_progress"@),
        mean_of(s, "reasoning"@),
        mean_of(s, "tool_use"@),
    );
    assert(0 * p * (x + r) == 0) by (nonlinear_arith);
    assert(0 * (one - r) * one == 0) by (nonlinear_arith);
    assert(0 * (one - p) * one == 0) by (nonlinear_arith);
    assert(g * 0 * one == 0) by (nonlinear_arith);
    let w = info_worth(s);
    assert(w == 0);
}

/// Acting is valued by progress times the mean of tools and reasoning, at
/// the weight of progress.
pub proof fn law_acting_is_valued_by_progress(s: ControllerState)
    requires
        uncertainty(s.belief) == 0,
    ensures
        s.cfg.cost_act * 10_000_000_000_000_000_000 - free_energy(s, MetaAction::Act)->0 == 5 * (
        s.cfg.progress_weight * mean_of(s, "task_progress"@) * (mean_of(s, "tool_use"@) + mean_of(
            s,
            "reasoning"@,
        ))),
{
    let g = gamma(s.cfg, s.iter);
    let one = ONE as int;
    assert(g * 0 * one == 0) by (nonlinear_arith);
    assert(info_worth(s) == 0);
}

/// Reaching the configured number of stalls lowers the free energy of
/// decomposing by exactly two.
pub proof fn law_stalls_favour_decomposition(s: ControllerState, t: ControllerState)
    requires
        t == (ControllerState { stall_count: t.stall_count, ..s }),
        s.stall_count < s.cfg.decompose_after_stalls <= t.stall_count,
    ensures
        free_energy(t, MetaAction::Decompose)->0 == free_energy(s, MetaAction::Decompose)->0 - 2
            * EFE_ONE,
        forall|a: MetaAction|
            a != MetaAction::Decompose ==> free_energy(t, a) == #[trigger] free_energy(s, a),
{
}

/// From the sixth iteration on, little progress lowers the free energy of
/// escalating by exactly one and a half.
pub proof fn law_late_and_little_progress_escalates(s: ControllerState, t: ControllerState)
    requires
        t == (ControllerState { iter: t.iter, ..s }),
        s.iter < 6 <= t.iter,
    ensures
        mean_of(s, "task_progress"@) < 300_000_000 ==> 2 * (free_energy(
            s,
            MetaAction::Escalate,
        )->0 - free_energy(t, MetaAction::Escalate)->0) == 3 * EFE_ONE,
        mean_of(s, "task_progress"@) >= 300_000_000 ==> free_energy(t, MetaAction::Escalate)
            == free_energy(s, MetaAction::Escalate),
{
    let w = info_worth(s);
    let v = info_worth(t);
    assert(0 * w == 0 && 0 * v == 0) by (nonlinear_arith);
}

/// The epistemic weight never falls below its least value, starts at its
/// first, and with a decay of at most one it only ever falls.
pub proof fn law_gamma_decays(cfg: MetaConfig, iter: i32, later: i32)
    requires
        0 <= iter <= later,
        0 <= cfg.gamma_decay <= ONE,
        0 <= cfg.gamma_init,
    ensures
        gamma(cfg, later) >= cfg.gamma_min,
        gamma(cfg, later) <= gamma(cfg, iter),
        cfg.gamma_init >= cfg.gamma_min ==> gamma(cfg, 0) == cfg.gamma_init,
{
    let d = cfg.gamma_decay as int;
    let c = cfg.gamma_init as int;
    lemma_decay_falls(d, iter as nat, later as nat);
    let x = decay_pow(d, iter as nat);
    let y = decay_pow(d, later as nat);
    assert(c * y <= c * x) by (nonlinear_arith)
        requires
            c >= 0,
            y <= x,
    ;
    reveal_with_fuel(decay_pow, 1);
    assert(decay_pow(d, 0) == ONE);
    assert(fx_mul(c, ONE as int) == c);
}

proof fn lemma_decay_falls(d: int, n: nat, m: nat)
    requires
        0 <= d <= ONE,
        n <= m,
    ensures
        0 <= decay_pow(d, m) <= decay_pow(d, n),
    decreases m,
{
    if m == 0 {
    } else if n < m {
        lemma_decay_falls(d, n, (m - 1) as nat);
        let x = decay_pow(d, (m - 1) as nat);
        assert(0 <= d * x <= 1_000_000_000 * x) by (nonlinear_arith)
            requires
                0 <= d <= 1_000_000_000,
                x >= 0,
        ;
    } else {
        lemma_decay_falls(d, 0, (m - 1) as nat);
        let x = decay_pow(d, (m - 1) as nat);
        assert(0 <= d * x) by (nonlinear_arith)
            requires
                0 <= d,
                x >= 0,
        ;
    }
}

/// Each iteration multiplies the power of the decay by the decay, up to
/// rounding.
pub proof fn law_decay_compounds(d: int, n: nat)
    ensures
        decay_pow(d, 0) == 1_000_000_000,
        decay_pow(d, 1) == d,
        1_000_000_000 * decay_pow(d, n + 1) <= d * decay_pow(d, n) < 1_000_000_000 * (decay_pow(
            d,
            n + 1,
        ) + 1),
{
    reveal_with_fuel(decay_pow, 2);
    assert(fx_mul(d, 1_000_000_000) == d);
}

/// A fragment is put before the model exactly when it is to reflect, to
/// decompose or to escalate.
pub proof fn law_injection_when_intervening(s: ControllerState, a: MetaAction)
    ensures
        injection_text(s, a).len() > 0 <==> a == MetaAction::Reflect || a == MetaAction::Decompose
            || a == MetaAction::Escalate,
        reason_text(s, a).len() > 0,
{
    reveal_strlit("[Metacognition / reflect] You have hit ");
    reveal_strlit("[Metacognition / decompose] Progress has been stuck for ");
    reveal_strlit("[Metacognition / escalate] After ");
    reveal_strlit("consecutive_errors=");
    reveal_strlit("stall_count=");
    reveal_strlit("iter=");
    reveal_strlit("act on best estimate");
}

/// A clean iteration clears the stalls, a stalled one adds one, and nothing
/// else changes but the count of iterations.
pub proof fn law_observation_counts_stalls(s: ControllerState, o: IterationObservation)
    requires
        s.stall_count < i32::MAX,
    ensures
        ({
            let t = after_observation(s, o);
            &&& t == (ControllerState { iter: o.turn, stall_count: t.stall_count, ..s })
            &&& o.tool_errors > 0 || o.loop_detected || !o.any_progress ==> t.stall_count
                == s.stall_count + 1
            &&& o.tool_errors == 0 && o.any_progress && o.tool_calls > 0 && !o.loop_detected
                && !o.low_quality_cot ==> t.stall_count == 0
            &&& o.tool_errors <= 0 && o.any_progress && !o.loop_detected && o.low_quality_cot
                ==> t.stall_count == s.stall_count
        }),
{
}

/// Errors in a row are counted, and a success ends the row.
pub proof fn law_tool_outcome_counts(s: ControllerState, name: Seq<char>)
    requires
        s.consecutive_errors < i32::MAX,
    ensures
        after_tool_result(s, name, true).consecutive_errors == s.consecutive_errors + 1,
        after_tool_result(s, name, false).consecutive_errors == 0,
        after_tool_result(s, name, true).stall_count == s.stall_count,
        after_tool_result(s, name, true).iter == s.iter,
{
}

/// Once a power repeats, it stays.
proof fn lemma_decay_pow_fixpoint(d: int, k: nat, n: nat)
    requires
        k <= n,
        decay_pow(d, k + 1) == decay_pow(d, k),
    ensures
        decay_pow(d, n) == decay_pow(d, k),
    decreases n - k,
{
    if k < n {
        lemma_decay_pow_fixpoint(d, k, (n - 1) as nat);
        assert(decay_pow(d, n) == fx_mul(d, decay_pow(d, (n - 1) as nat)));
        assert(decay_pow(d, k + 1) == fx_mul(d, decay_pow(d, k)));
    }
}

/// A number beyond which the exact value of a power no longer matters.
const FAR: i128 = 100_000_000_000_000_000_000_000_000_000_000_000_000;

/// A weight beyond which its exact value no longer matters.
const FAR_GAMMA: i128 = 100_000_000_000_000_000_000_000_000_000;

/// Whether two numbers are equal, or far on the same side.
spec fn alike(a: int, b: int) -> bool {
    a == b || (a > FAR && b > FAR) || (a < -FAR && b < -FAR)
}

/// Powers of a base within one stay within one.
proof fn lemma_small_base(d: int, n: nat)
    requires
        -ONE <= d <= ONE,
    ensures
        -ONE <= decay_pow(d, n) <= ONE,
    decreases n,
{
    if n > 0 {
        lemma_small_base(d, (n - 1) as nat);
        let x = decay_pow(d, (n - 1) as nat);
        let p = d * x;
        assert(-1_000_000_000_000_000_000 <= p <= 1_000_000_000_000_000_000) by (nonlinear_arith)
            requires
                p == d * x,
                -1_000_000_000 <= d <= 1_000_000_000,
                -1_000_000_000 <= x <= 1_000_000_000,
        ;
        assert(fx_mul(d, x) == p / 1_000_000_000);
    }
}

/// A base beyond one takes a number further away from zero.
proof fn lemma_grows(d: int, x: int)
    requires
        d >= ONE || d <= -ONE,
    ensures
        d > 0 && x >= 0 ==> fx_mul(d, x) >= x,
        d > 0 && x <= 0 ==> fx_mul(d, x) <= x,
        d < 0 && x >= 0 ==> fx_mul(d, x) <= -x,
        d < 0 && x <= 0 ==> fx_mul(d, x) >= -x,
{
    let p = d * x;
    assert(fx_mul(d, x) == p / 1_000_000_000);
    if d > 0 && x >= 0 {
        assert(p >= 1_000_000_000 * x) by (nonlinear_arith)
            requires
                p == d * x,
                d >= 1_000_000_000,
                x >= 0,
        ;
    }
    if d > 0 && x <= 0 {
        assert(p <= 1_000_000_000 * x) by (nonlinear_arith)
            requires
                p == d * x,
                d >= 1_000_000_000,
                x <= 0,
        ;
    }
    if d < 0 && x >= 0 {
        assert(p <= -1_000_000_000 * x) by (nonlinear_arith)
            requires
                p == d * x,
                d <= -1_000_000_000,
                x >= 0,
        ;
    }
    if d < 0 && x <= 0 {
        assert(p >= -1_000_000_000 * x) by (nonlinear_arith)
            requires
                p == d * x,
                d <= -1_000_000_000,
                x <= 0,
        ;
    }
}

/// Whether a far power has the sign of another: the sign stays with a
/// positive base, and changes with every step with a negative one.
spec fn same_sign(d: int, k: nat, n: nat) -> bool {
    d > 0 || (n - k) % 2 == 0
}

/// A power that is far stays far.
proof fn lemma_far_stays(d: int, k: nat, n: nat)
    requires
        k <= n,
        decay_pow(d, k) > FAR || decay_pow(d, k) < -FAR,
    ensures
        decay_pow(d, k) > FAR && same_sign(d, k, n) ==> decay_pow(d, n) > FAR,
        decay_pow(d, k) > FAR && !same_sign(d, k, n) ==> decay_pow(d, n) < -FAR,
        decay_pow(d, k) < -FAR && same_sign(d, k, n) ==> decay_pow(d, n) < -FAR,
        decay_pow(d, k) < -FAR && !same_sign(d, k, n) ==> decay_pow(d, n) > FAR,
    decreases n - k,
{
    if -ONE <= d <= ONE {
        lemma_small_base(d, k);
    }
    if k < n {
        lemma_far_stays(d, k, (n - 1) as nat);
        lemma_grows(d, decay_pow(d, (n - 1) as nat));
        assert(decay_pow(d, n) == fx_mul(d, decay_pow(d, (n - 1) as nat)));
    }
}

/// The product of two fixed-point numbers; one that is far is only told to
/// be so.
fn mul_far(a: i64, b: i128) -> (r: i128)
    requires
        in_limit(a as int),
        -FAR - 1 <= b <= FAR + 1,
    ensures
        alike(r as int, fx_mul(a as int, b as int)),
        -FAR - 1 <= r <= FAR + 1,
{
    if a == 0 {
        proof {
            assert(0 * (b as int) == 0) by (nonlinear_arith);
        }
        return 0;
    }
    let one: i128 = ONE as i128;
    let q: i128 = floor_div(b, one);
    let m: i128 = b - q * one;
    let ghost x = a as int;
    let ghost y = m as int;
    proof {
        assert(-1_000_000_000_000_000_000_000_000_000 <= x * y
            <= 1_000_000_000_000_000_000_000_000_000) by (nonlinear_arith)
            requires
                -1_000_000_000_000_000_000 <= x <= 1_000_000_000_000_000_000,
                0 <= y <= 1_000_000_000,
        ;
    }
    let part: i128 = floor_div((a as i128) * m, one);
    let size: i128 = if a > 0 {
        a as i128
    } else {
        -(a as i128)
    };
    let whole: i128 = if q >= 0 {
        q
    } else {
        -q
    };
    let most: i128 = 150_000_000_000_000_000_000_000_000_000_000_000_000;
    let ghost z = q as int;
    let ghost v = x * z + part;
    proof {
        let p = x * y;
        assert(x * (b as int) == v * 1_000_000_000 + p % 1_000_000_000) by (nonlinear_arith)
            requires
                b as int == z * 1_000_000_000 + y,
                p == x * y,
                v == x * z + p / 1_000_000_000,
        ;
        lemma_fundamental_div_mod_converse(x * (b as int), 1_000_000_000, v, p % 1_000_000_000);
        assert(fx_mul(x, b as int) == v);
        let sz = size as int;
        let w = whole as int;
        let t = most as int / sz;
        if w > t {
            assert(sz * w > most) by (nonlinear_arith)
                requires
                    sz > 0,
                    t == most as int / sz,
                    w >= t + 1,
            ;
        } else {
            assert(0 <= sz * w <= most) by (nonlinear_arith)
                requires
                    sz > 0,
                    t == most as int / sz,
                    0 <= w <= t,
            ;
        }
        let n = sz * w;
        assert(x * z == if (a > 0) == (q >= 0) {
            n
        } else {
            -n
        }) by (nonlinear_arith)
            requires
                n == sz * w,
                sz == if a > 0 {
                    x
                } else {
                    -x
                },
                w == if q >= 0 {
                    z
                } else {
                    -z
                },
        ;
    }
    if whole > most / size {
        if (a > 0) == (q >= 0) {
            return FAR + 1;
        } else {
            return -FAR - 1;
        }
    }
    let r: i128 = (a as i128) * q + part;
    if r > FAR {
        FAR + 1
    } else if r < -FAR {
        -FAR - 1
    } else {
        r
    }
}

fn power(d: i64, n: u32) -> (r: i128)
    requires
        in_limit(d as int),
    ensures
        alike(r as int, decay_pow(d as int, n as nat)),
        -FAR - 1 <= r <= FAR + 1,
{
    let mut x: i128 = ONE as i128;
    let mut i: u32 = 0;
    while i < n
        invariant
            i <= n,
            x == decay_pow(d as int, i as nat),
            -FAR <= x <= FAR,
            in_limit(d as int),
        decreases n - i,
    {
        let y: i128 = mul_far(d, x);
        proof {
            assert(alike(y as int, decay_pow(d as int, (i + 1) as nat)));
        }
        if y > FAR || y < -FAR {
            proof {
                lemma_far_stays(d as int, (i + 1) as nat, n as nat);
            }
            if (d > 0 || (n - (i + 1)) % 2 == 0) == (y > FAR) {
                return FAR + 1;
            } else {
                return -FAR - 1;
            }
        }
        if y == x {
            proof {
                lemma_decay_pow_fixpoint(d as int, i as nat, n as nat);
            }
            return x;
        }
        x = y;
        i = i + 1;
    }
    x
}

/// A product with a far number is beyond the weights that matter.
proof fn lemma_far_product(c: int, p: int)
    requires
        p > FAR || p < -FAR,
    ensures
        c > 0 && p > FAR ==> fx_mul(c, p) >= FAR_GAMMA,
        c > 0 && p < -FAR ==> fx_mul(c, p) <= -FAR_GAMMA,
        c < 0 && p > FAR ==> fx_mul(c, p) <= -FAR_GAMMA,
        c < 0 && p < -FAR ==> fx_mul(c, p) >= FAR_GAMMA,
        c == 0 ==> fx_mul(c, p) == 0,
{
    let x = c * p;
    assert(fx_mul(c, p) == x / 1_000_000_000);
    if c > 0 && p > FAR {
        assert(x >= p) by (nonlinear_arith)
            requires
                x == c * p,
                c >= 1,
                p > 0,
        ;
    }
    if c > 0 && p < -FAR {
        assert(x <= p) by (nonlinear_arith)
            requires
                x == c * p,
                c >= 1,
                p < 0,
        ;
    }
    if c < 0 && p > FAR {
        assert(x <= -p) by (nonlinear_arith)
            requires
                x == c * p,
                c <= -1,
                p > 0,
        ;
    }
    if c < 0 && p < -FAR {
        assert(x >= -p) by (nonlinear_arith)
            requires
                x == c * p,
                c <= -1,
                p < 0,
        ;
    }
    if c == 0 {
        assert(0 * p == 0) by (nonlinear_arith);
    }
}

/// A worth of information from which on only the information counts.
const OVERWHELMING: i128 = 11_000_000_000_000_000_000_000_000_000_000_000_000;

/// The largest magnitude of a cost minus a pragmatic value.
const NET_LIMIT: i128 = 30_000_000_000_000_000_000_000_000_000_000_000_000;

/// Where information overwhelms, the action that tells most is chosen.
proof fn lemma_information_decides(s: ControllerState)
    requires
        s.cfg.wf(),
        info_worth(s) > OVERWHELMING,
    ensures
        is_choice(s, MetaAction::Decompose),
{
    let i = info_worth(s);
    let progress = mean_of(s, "task_progress"@);
    let reasoning = mean_of(s, "reasoning"@);
    let tool = mean_of(s, "tool_use"@);
    let pw = s.cfg.progress_weight as int;
    let one = ONE as int;
    lemma_mean_range(dim_param(s.belief, "task_progress"@));
    lemma_mean_range(dim_param(s.belief, "reasoning"@));
    lemma_mean_range(dim_param(s.belief, "tool_use"@));
    lemma_product_bound(pw, progress, tool + reasoning, LIMIT as int, one, 2 * one);
    lemma_product_bound(pw, one - reasoning, one, LIMIT as int, one, one);
    lemma_product_bound(pw, one - progress, one, LIMIT as int, one, one);
    let a = pw * (one - reasoning) * one;
    let b = pw * (one - progress) * one;
    assert(pw >= 0 ==> a >= 0 && b >= 0) by (nonlinear_arith)
        requires
            a == pw * (one - reasoning) * one,
            b == pw * (one - progress) * one,
            reasoning <= one,
            progress <= one,
            one > 0,
    ;
    assert(pw <= 0 ==> a <= 0 && b <= 0) by (nonlinear_arith)
        requires
            a == pw * (one - reasoning) * one,
            b == pw * (one - progress) * one,
            reasoning <= one,
            progress <= one,
            one > 0,
    ;
    assert(LIMIT as int * one == 1_000_000_000_000_000_000_000_000_000) by (nonlinear_arith)
        requires
            LIMIT == 1_000_000_000_000_000_000,
            one == 1_000_000_000,
    ;
    assert forall|x: MetaAction| #[trigger]
        free_energy(s, x) is Some implies free_energy(s, MetaAction::Decompose)->0 <= free_energy(
        s,
        x,
    )->0 && (rank(x) < rank(MetaAction::Decompose) ==> free_energy(s, MetaAction::Decompose)->0
        < free_energy(s, x)->0) by {
        match x {
            MetaAction::Act => {},
            MetaAction::Reflect => {},
            MetaAction::Decompose => {},
            MetaAction::Escalate => {},
            MetaAction::Abort => {},
        }
    }
}

/// Whether the first of two free energies is lower, each given by a net cost
/// and an information gain.
fn lower(a: i128, k: i128, b: i128, l: i128, worth: i128) -> (r: bool)
    requires
        -NET_LIMIT <= a <= NET_LIMIT,
        -NET_LIMIT <= b <= NET_LIMIT,
        0 <= k <= 15,
        0 <= l <= 15,
        -OVERWHELMING <= worth <= OVERWHELMING,
    ensures
        r == (a - k * worth < b - l * worth),
{
    proof {
        let x = k as int;
        let y = l as int;
        let w = worth as int;
        assert((x - y) * w == x * w - y * w) by (nonlinear_arith);
        let z = x - y;
        assert(-165_000_000_000_000_000_000_000_000_000_000_000_000 <= z * w
            <= 165_000_000_000_000_000_000_000_000_000_000_000_000) by (nonlinear_arith)
            requires
                -15 <= z <= 15,
                -11_000_000_000_000_000_000_000_000_000_000_000_000 <= w
                    <= 11_000_000_000_000_000_000_000_000_000_000_000_000,
        ;
    }
    a - b < (k - l) * worth
}

/// A net cost less `k` times a worth, held within the type.
fn less_information(a: i128, k: i128, worth: i128) -> (r: i128)
    requires
        -NET_LIMIT <= a <= NET_LIMIT,
        0 <= k <= 15,
        -OVERWHELMING / 10 <= worth <= FAR,
    ensures
        r == reported(a - k * worth),
{
    let mut x: i128 = a;
    let mut i: i128 = 0;
    proof {
        assert(0 * (worth as int) == 0) by (nonlinear_arith);
    }
    while i < k
        invariant
            0 <= i <= k <= 15,
            -NET_LIMIT <= a <= NET_LIMIT,
            -OVERWHELMING / 10 <= worth <= FAR,
            x == a - i * worth,
        decreases k - i,
    {
        let ghost w = worth as int;
        let ghost n = i as int;
        proof {
            assert((n + 1) * w == n * w + w) by (nonlinear_arith);
            if w <= 0 {
                assert(0 >= n * w >= 15 * w) by (nonlinear_arith)
                    requires
                        0 <= n <= 15,
                        w <= 0,
                ;
            } else {
                assert(n * w >= 0) by (nonlinear_arith)
                    requires
                        0 <= n,
                        w >= 0,
                ;
                let m = k as int;
                assert(m * w >= (n + 1) * w) by (nonlinear_arith)
                    requires
                        m >= n + 1,
                        w >= 0,
                ;
            }
        }
        if worth > 0 && x < i128::MIN + worth {
            return i128::MIN;
        }
        x = x - worth;
        i = i + 1;
    }
    x
}

/// The product of three numbers is bounded as the factors are.
proof fn lemma_product_bound(a: int, b: int, c: int, ba: int, bb: int, bc: int)
    requires
        -ba <= a <= ba,
        0 <= b <= bb,
        0 <= c <= bc,
    ensures
        -(ba * bb) <= a * b <= ba * bb,
        -(ba * bb * bc) <= a * b * c <= ba * bb * bc,
{
    assert(-(ba * bb) <= a * b <= ba * bb) by (nonlinear_arith)
        requires
            -ba <= a <= ba,
            0 <= b <= bb,
    ;
    let p = a * b;
    let q = ba * bb;
    assert(-(q * bc) <= p * c <= q * bc) by (nonlinear_arith)
        requires
            -q <= p <= q,
            0 <= c <= bc,
    ;
}

fn triple(a: i64, b: u64, c: u64) -> (r: i128)
    requires
        in_limit(a as int),
        b <= ONE,
        c <= 2 * ONE,
    ensures
        r == a * b * c,
        -2_000_000_000_000_000_000_000_000_000_000_000_000 <= r
            <= 2_000_000_000_000_000_000_000_000_000_000_000_000,
{
    proof {
        lemma_product_bound(
            a as int,
            b as int,
            c as int,
            1_000_000_000_000_000_000,
            1_000_000_000,
            2_000_000_000,
        );
    }
    (a as i128) * (b as i128) * (c as i128)
}

fn single(a: i64, b: u64) -> (r: i128)
    requires
        in_limit(a as int),
        b <= ONE,
    ensures
        r == a * b * (ONE as int),
        -1_000_000_000_000_000_000_000_000_000_000_000_000 <= r
            <= 1_000_000_000_000_000_000_000_000_000_000_000_000,
{
    proof {
        lemma_product_bound(
            a as int,
            b as int,
            ONE as int,
            1_000_000_000_000_000_000,
            1_000_000_000,
            1_000_000_000,
        );
    }
    (a as i128) * (b as i128) * (ONE as i128)
}

impl Default for MetaController {
    fn default() -> (r: MetaController)
        ensures
            r.wf(),
            r@ == fresh_controller(default_config()),
    {
        MetaController::with_config(MetaConfig::default())
    }
}

impl MetaController {
    /// The invariant: a valid configuration and distinct dimensions.
    pub open spec fn wf(&self) -> bool {
        self.cfg.wf() && self.belief.wf()
    }

    pub fn new() -> (r: MetaController)
        ensures
            r.wf(),
            r@ == fresh_controller(default_config()),
    {
        MetaController::with_config(MetaConfig::default())
    }

    pub fn with_config(cfg: MetaConfig) -> (r: MetaController)
        requires
            cfg.wf(),
        ensures
            r.wf(),
            r@ == fresh_controller(cfg),
    {
        MetaController {
            cfg,
            belief: SelfBelief::new(),
            iter: 0,
            consecutive_errors: 0,
            stall_count: 0,
            total_reflects: 0,
            total_aborts: 0,
            turn_started: false,
            last_user_input: String::new(),
        }
    }

    pub fn belief(&self) -> (r: &SelfBelief)
        ensures
            *r == self.belief,
    {
        &self.belief
    }

    pub fn belief_mut(&mut self) -> (r: &mut SelfBelief)
        ensures
            *r == old(self).belief,
            final(self)@ == (ControllerState { belief: final(r)@, ..old(self)@ }),
    {
        &mut self.belief
    }

    pub fn config(&self) -> (r: &MetaConfig)
        ensures
            *r == self.cfg,
    {
        &self.cfg
    }

    /// Drops all per-run state. The belief returns to the uniform prior on
    /// all default dimensions.
    pub fn reset(&mut self)
        requires
            old(self).wf(),
        ensures
            final(self).wf(),
            final(self)@ == fresh_controller(old(self)@.cfg),
    {
        self.belief = SelfBelief::new();
        self.iter = 0;
        self.consecutive_errors = 0;
        self.stall_count = 0;
        self.total_reflects = 0;
        self.total_aborts = 0;
        self.turn_started = false;
        self.last_user_input = String::new();
    }

    pub fn on_turn_start(&mut self, user_input: &str)
        requires
            old(self).wf(),
        ensures
            final(self).wf(),
            final(self)@ == at_turn_start(old(self)@, user_input@),
    {
        self.turn_started = true;
        self.last_user_input = owned(user_input);
        self.consecutive_errors = 0;
        self.stall_count = 0;
        self.iter = 0;
    }

    pub fn record_observation(&mut self, obs: &IterationObservation)
        requires
            old(self).wf(),
            stalled_iteration(*obs) ==> old(self)@.stall_count < i32::MAX,
        ensures
            final(self).wf(),
            final(self)@ == after_observation(old(self)@, *obs),
    {
        self.iter = obs.turn;
        let clean: bool = obs.tool_errors == 0 && obs.any_progress && obs.tool_calls > 0
            && !obs.loop_detected && !obs.low_quality_cot;
        if clean {
            self.stall_count = 0;
        } else if obs.tool_errors > 0 || !obs.any_progress || obs.loop_detected {
            self.stall_count = self.stall_count + 1;
        }
    }

    /// Maps a tool name to the dimension it informs and updates the belief.
    pub fn observe_tool_result(&mut self, tool_name: &str, is_error: bool)
        requires
            old(self).wf(),
            is_error ==> old(self)@.consecutive_errors < i32::MAX,
        ensures
            final(self).wf(),
            final(self)@ == after_tool_result(old(self)@, tool_name@, is_error),
    {
        let dim: &str = if MetaController::is_code_edit_tool(tool_name) {
            "code_edit"
        } else if MetaController::is_search_tool(tool_name) {
            "search"
        } else {
            "tool_use"
        };
        if is_error {
            self.belief.observe_failure(dim, ONE);
            self.belief.observe_failure("tool_use", 500_000_000);
            self.consecutive_errors = self.consecutive_errors + 1;
        } else {
            self.belief.observe_success(dim, ONE);
            self.belief.observe_success("tool_use", 500_000_000);
            self.consecutive_errors = 0;
        }
    }

    /// Takes in a quality signal for the reasoning, held to at most one.
    pub fn observe_cot_quality(&mut self, q: u64)
        requires
            old(self).wf(),
        ensures
            final(self).wf(),
            final(self)@ == after_cot_quality(old(self)@, q),
    {
        self.belief.observe_mixed("reasoning", q, ONE);
    }

    /// Updates `task_progress`. A negative signal has half weight, so that a
    /// noisy one does not dominate.
    pub fn observe_progress(&mut self, made: bool)
        requires
            old(self).wf(),
        ensures
            final(self).wf(),
            final(self)@ == after_progress(old(self)@, made),
    {
        if made {
            self.belief.observe_success("task_progress", ONE);
        } else {
            self.belief.observe_failure("task_progress", 500_000_000);
        }
    }

    /// Computes the expected free energy of all five actions and picks the
    /// least, the earlier one where two are equal.
    pub fn decide(&mut self, iter_index: i32) -> (d: MetaDecision)
        requires
            old(self).wf(),
            decision_room(ControllerState { iter: iter_index, ..old(self)@ }),
        ensures
            final(self).wf(),
            ({
                let s = ControllerState { iter: iter_index, ..old(self)@ };
                &&& is_choice(s, d.action)
                &&& d.efe_score == reported(free_energy(s, d.action)->0)
                &&& d.injection@ == injection_text(s, d.action)
                &&& d.reason@ == reason_text(s, d.action)
                &&& final(self)@ == after_decision(old(self)@, iter_index, d.action)
            }),
    {
        self.iter = iter_index;
        let best: MetaAction = self.choice();
        let score: i128 = match self.expected_free_energy(best) {
            Some(e) => e,
            None => 0,
        };
        let injection: String = self.injection(best);
        let reason: String = self.reason(best);
        match best {
            MetaAction::Reflect => {
                self.total_reflects = self.total_reflects + 1;
            },
            MetaAction::Abort => {
                self.total_aborts = self.total_aborts + 1;
            },
            _ => {},
        }
        MetaDecision { action: best, injection, reason, efe_score: score }
    }

    fn injection(&self, a: MetaAction) -> (r: String)
        ensures
            r@ == injection_text(self@, a),
    {
        let mut s: String = String::new();
        match a {
            MetaAction::Reflect => {
                s.append("[Metacognition / reflect] You have hit ");
                let n: i32 = if self.consecutive_errors > 1 {
                    self.consecutive_errors
                } else {
                    1
                };
                s.append(fmt_i64(n as i64).as_str());
                s.append(
                    " consecutive tool error(s). Before the next action, briefly state in 2 lines: (a) what assumption is most likely wrong, and (b) one concretely different strategy you will try now.",
                );
            },
            MetaAction::Decompose => {
                s.append("[Metacognition / decompose] Progress has been stuck for ");
                let n: i32 = if self.stall_count > 1 {
                    self.stall_count
                } else {
                    1
                };
                s.append(fmt_i64(n as i64).as_str());
                s.append(
                    " iterations. Decompose the remaining work into 2-4 smaller subtasks and tackle the most independent one first.",
                );
            },
            MetaAction::Escalate => {
                let progress: u64 = self.belief.mean("task_progress");
                s.append("[Metacognition / escalate] After ");
                s.append(fmt_i64(self.iter as i64).as_str());
                s.append(" iterations the estimated probability of success is only ");
                s.append(fmt_two_decimals(progress).as_str());
                s.append(
                    ". Consider asking the user a specific clarifying question before continuing.",
                );
            },
            MetaAction::Abort => {},
            MetaAction::Act => {},
        }
        proof {
            assert(s@ =~= injection_text(self@, a));
        }
        s
    }

    fn reason(&self, a: MetaAction) -> (r: String)
        ensures
            r@ == reason_text(self@, a),
    {
        let mut s: String = String::new();
        match a {
            MetaAction::Reflect => {
                s.append("consecutive_errors=");
                s.append(fmt_i64(self.consecutive_errors as i64).as_str());
                s.append(", reasoning_mean=");
                s.append(fmt_two_decimals(self.belief.mean("reasoning")).as_str());
            },
            MetaAction::Decompose => {
                s.append("stall_count=");
                s.append(fmt_i64(self.stall_count as i64).as_str());
                s.append(", task_progress_mean=");
                s.append(fmt_two_decimals(self.belief.mean("task_progress")).as_str());
            },
            MetaAction::Escalate => {
                s.append("iter=");
                s.append(fmt_i64(self.iter as i64).as_str());
                s.append(", progress=");
                s.append(fmt_two_decimals(self.belief.mean("task_progress")).as_str());
            },
            MetaAction::Abort => {
                s.append("iter=");
                s.append(fmt_i64(self.iter as i64).as_str());
                s.append(", progress=");
                s.append(fmt_two_decimals(self.belief.mean("task_progress")).as_str());
                s.append(", uncertainty=");
                s.append(fmt_two_decimals(self.belief.overall_uncertainty()).as_str());
            },
            MetaAction::Act => {
                s.append("act on best estimate");
            },
        }
        proof {
            assert(s@ =~= reason_text(self@, a));
        }
        s
    }

    pub fn iteration(&self) -> (r: i32)
        ensures
            r == self@.iter,
    {
        self.iter
    }

    pub fn consecutive_errors(&self) -> (r: i32)
        ensures
            r == self@.consecutive_errors,
    {
        self.consecutive_errors
    }

    pub fn stall_count(&self) -> (r: i32)
        ensures
            r == self@.stall_count,
    {
        self.stall_count
    }

    pub fn total_reflects(&self) -> (r: i32)
        ensures
            r == self@.total_reflects,
    {
        self.total_reflects
    }

    pub fn total_aborts(&self) -> (r: i32)
        ensures
            r == self@.total_aborts,
    {
        self.total_aborts
    }

    /// The epistemic weight; one beyond those that matter is held.
    fn current_gamma(&self) -> (r: i128)
        requires
            self.cfg.wf(),
        ensures
            r == gamma(self.cfg, self.iter) || (r == FAR_GAMMA && gamma(self.cfg, self.iter)
                >= FAR_GAMMA),
            -LIMIT <= r <= FAR_GAMMA,
    {
        let n: u32 = if self.iter > 0 {
            self.iter as u32
        } else {
            0
        };
        let p: i128 = power(self.cfg.gamma_decay, n);
        let g: i128 = mul_far(self.cfg.gamma_init, p);
        proof {
            let c = self.cfg.gamma_init as int;
            let e = decay_pow(self.cfg.gamma_decay as int, n as nat);
            if p != e {
                lemma_far_product(c, p as int);
                lemma_far_product(c, e);
            }
        }
        if g > self.cfg.gamma_min as i128 {
            if g > FAR_GAMMA {
                FAR_GAMMA
            } else {
                g
            }
        } else {
            self.cfg.gamma_min as i128
        }
    }

    /// What a tenth of the uncertainty is worth; one beyond those that
    /// matter is held.
    fn worth(&self) -> (r: i128)
        requires
            self.cfg.wf(),
        ensures
            r == info_worth(self@) || (r == FAR && info_worth(self@) >= FAR),
            -OVERWHELMING / 10 <= r <= FAR,
    {
        let u: u64 = self.belief.overall_uncertainty();
        let g: i128 = self.current_gamma();
        if u == 0 {
            proof {
                assert(gamma(self.cfg, self.iter) * 0 * (ONE as int) == 0) by (nonlinear_arith);
            }
            return 0;
        }
        proof {
            let e = gamma(self.cfg, self.iter);
            let x = g as int;
            let y = u as int;
            assert(-1_000_000_000_000_000_000_000_000_000 <= x * y <= FAR) by (nonlinear_arith)
                requires
                    -1_000_000_000_000_000_000 <= x <= 100_000_000_000_000_000_000_000_000_000,
                    1 <= y <= 1_000_000_000,
                    FAR == 100_000_000_000_000_000_000_000_000_000_000_000_000,
            ;
            if g != e {
                assert(x * y >= FAR_GAMMA) by (nonlinear_arith)
                    requires
                        x == FAR_GAMMA,
                        FAR_GAMMA > 0,
                        y >= 1,
                ;
                assert(e * y >= FAR_GAMMA) by (nonlinear_arith)
                    requires
                        e >= FAR_GAMMA,
                        FAR_GAMMA > 0,
                        y >= 1,
                ;
            }
        }
        let w: i128 = g * (u as i128);
        if w >= FAR_GAMMA {
            return FAR;
        }
        proof {
            let x = w as int;
            assert(-1_000_000_000_000_000_000_000_000_000_000_000_000 <= x * ONE <= FAR)
                by (nonlinear_arith)
                requires
                    -1_000_000_000_000_000_000_000_000_000 <= x <= FAR_GAMMA,
                    ONE == 1_000_000_000,
                    FAR == FAR_GAMMA * 1_000_000_000,
            ;
        }
        w * (ONE as i128)
    }

    fn net(&self, action: MetaAction) -> (r: Option<i128>)
        requires
            self.cfg.wf(),
        ensures
            match r {
                Some(c) => net_cost(self@, action) == Some(c as int) && -NET_LIMIT <= c <= NET_LIMIT,
                None => net_cost(self@, action) is None,
            },
    {
        let progress: u64 = self.belief.mean("task_progress");
        let reasoning: u64 = self.belief.mean("reasoning");
        let tool: u64 = self.belief.mean("tool_use");
        let u: u64 = self.belief.overall_uncertainty();
        let pw: i64 = self.cfg.progress_weight;
        match action {
            MetaAction::Act => {
                let v: i128 = triple(pw, progress, tool + reasoning);
                Some((self.cfg.cost_act as i128) * EFE_FACTOR - 5 * v)
            },
            MetaAction::Reflect => {
                let v: i128 = single(pw, ONE - reasoning);
                let bonus: i128 = if self.consecutive_errors >= self.cfg.reflect_after_failures {
                    2 * EFE_ONE
                } else {
                    0
                };
                Some((self.cfg.cost_reflect as i128) * EFE_FACTOR - (12 * v + bonus))
            },
            MetaAction::Decompose => {
                let v: i128 = single(pw, ONE - progress);
                let bonus: i128 = if self.stall_count >= self.cfg.decompose_after_stalls {
                    2 * EFE_ONE
                } else {
                    0
                };
                Some((self.cfg.cost_decompose as i128) * EFE_FACTOR - (8 * v + bonus))
            },
            MetaAction::Escalate => {
                let v: i128 = single(pw, ONE - progress);
                let bonus: i128 = if self.iter >= 6 && progress < 300_000_000 {
                    15_000_000_000_000_000_000_000_000_000
                } else {
                    0
                };
                Some((self.cfg.cost_escalate as i128) * EFE_FACTOR - (5 * v + bonus))
            },
            MetaAction::Abort => {
                if !self.cfg.allow_abort || self.iter < self.cfg.abort_min_iters {
                    return None;
                }
                let v: i128 = if (progress as i64) < self.cfg.abort_progress_thresh {
                    3 * EFE_ONE
                } else {
                    -2 * EFE_ONE
                };
                Some((self.cfg.cost_abort as i128) * EFE_FACTOR - (v - 3 * ((u as i128) * EFE_FACTOR)))
            },
        }
    }

    /// The action with the least expected free energy, the earlier one where
    /// two are equal.
    fn choice(&self) -> (r: MetaAction)
        requires
            self.cfg.wf(),
        ensures
            is_choice(self@, r),
    {
        let ghost s = self@;
        let w: i128 = self.worth();
        if w > OVERWHELMING {
            proof {
                lemma_information_decides(s);
            }
            return MetaAction::Decompose;
        }
        let mut best: MetaAction = MetaAction::Act;
        let mut cost: i128 = match self.net(MetaAction::Act) {
            Some(c) => c,
            None => 0,
        };
        let mut gain: i128 = 5;
        if let Some(c) = self.net(MetaAction::Reflect) {
            if lower(c, 12, cost, gain, w) {
                best = MetaAction::Reflect;
                cost = c;
                gain = 12;
            }
        }
        if let Some(c) = self.net(MetaAction::Decompose) {
            if lower(c, 15, cost, gain, w) {
                best = MetaAction::Decompose;
                cost = c;
                gain = 15;
            }
        }
        if let Some(c) = self.net(MetaAction::Escalate) {
            if lower(c, 0, cost, gain, w) {
                best = MetaAction::Escalate;
                cost = c;
                gain = 0;
            }
        }
        if let Some(c) = self.net(MetaAction::Abort) {
            if lower(c, 0, cost, gain, w) {
                best = MetaAction::Abort;
            }
        }
        proof {
            assert forall|b: MetaAction| #[trigger]
                free_energy(s, b) is Some implies free_energy(s, best)->0 <= free_energy(s, b)->0
                && (rank(b) < rank(best) ==> free_energy(s, best)->0 < free_energy(s, b)->0) by {
                match b {
                    MetaAction::Act => {},
                    MetaAction::Reflect => {},
                    MetaAction::Decompose => {},
                    MetaAction::Escalate => {},
                    MetaAction::Abort => {},
                }
            }
        }
        best
    }

    fn expected_free_energy(&self, action: MetaAction) -> (r: Option<i128>)
        requires
            self.cfg.wf(),
        ensures
            match free_energy(self@, action) {
                Some(e) => r is Some && r->0 == reported(e),
                None => r is None,
            },
    {
        let gain: i128 = match action {
            MetaAction::Act => 5,
            MetaAction::Reflect => 12,
            MetaAction::Decompose => 15,
            MetaAction::Escalate => 0,
            MetaAction::Abort => 0,
        };
        let w: i128 = self.worth();
        match self.net(action) {
            Some(c) => {
                proof {
                    let x = info_worth(self@);
                    let k = gain as int;
                    if w != x && k > 0 {
                        assert(k * x >= 5 * FAR) by (nonlinear_arith)
                            requires
                                k >= 5,
                                x >= FAR,
                                FAR > 0,
                        ;
                        assert(k * FAR >= 5 * FAR) by (nonlinear_arith)
                            requires
                                k >= 5,
                                FAR > 0,
                        ;
                    }
                    if k == 0 {
                        assert(0 * x == 0 && 0 * (w as int) == 0) by (nonlinear_arith);
                    }
                }
                Some(less_information(c, gain, w))
            },
            None => None,
        }
    }

    fn is_code_edit_tool(name: &str) -> (r: bool)
        ensures
            r == code_edit_tool(name@),
    {
        same(name, "file_edit") || same(name, "file_write") || same(name, "FileEdit") || same(
            name,
            "FileWrite",
        ) || same(name, "Edit") || same(name, "Write") || same(name, "note_edit")
    }

    fn is_search_tool(name: &str) -> (r: bool)
        ensures
            r == search_tool(name@),
    {
        same(name, "search") || same(name, "glob_tool") || same(name, "Grep") || same(name, "Glob")
            || same(name, "GrepTool") || same(name, "GlobTool") || same(name, "list_files")
    }
}

/// A tool that edits informs the belief about edits, one that searches that
/// about searches, and any other that about tool use.
pub proof fn law_tool_dimensions(name: Seq<char>)
    ensures
        tool_dimension(name) == "code_edit"@ <==> name == "file_edit"@ || name == "file_write"@
            || name == "FileEdit"@ || name == "FileWrite"@ || name == "Edit"@ || name == "Write"@
            || name == "note_edit"@,
        tool_dimension(name) == "search"@ || tool_dimension(name) == "code_edit"@ || tool_dimension(
            name,
        ) == "tool_use"@,
        name == "search"@ || name == "Glob"@ || name == "Grep"@ || name == "list_files"@
            ==> tool_dimension(name) == "search"@,
        name == "execute_command"@ || name == "http_fetch"@ ==> tool_dimension(name) == "tool_use"@,
{
    lemma_tool_names();
}

proof fn lemma_tool_names()
    ensures
        "code_edit"@ != "search"@,
        "code_edit"@ != "tool_use"@,
        "search"@ != "tool_use"@,
        forall|n: Seq<char>|
            n == "search"@ || n == "Glob"@ || n == "Grep"@ || n == "list_files"@
                ==> !#[trigger] code_edit_tool(n),
        !code_edit_tool("execute_command"@) && !search_tool("execute_command"@),
        !code_edit_tool("http_fetch"@) && !search_tool("http_fetch"@),
{
    reveal_strlit("code_edit");
    reveal_strlit("search");
    reveal_strlit("tool_use");
    reveal_strlit("file_edit");
    reveal_strlit("file_write");
    reveal_strlit("FileEdit");
    reveal_strlit("FileWrite");
    reveal_strlit("Edit");
    reveal_strlit("Write");
    reveal_strlit("note_edit");
    reveal_strlit("glob_tool");
    reveal_strlit("Grep");
    reveal_strlit("Glob");
    reveal_strlit("GrepTool");
    reveal_strlit("GlobTool");
    reveal_strlit("list_files");
    reveal_strlit("execute_command");
    reveal_strlit("http_fetch");
    assert("search"@.len() == 6 && "code_edit"@.len() == 9 && "tool_use"@.len() == 8);
    assert("Edit"@[0] == 'E' && "Grep"@[0] == 'G' && "Glob"@[0] == 'G');
    assert("list_files"@[0] == 'l' && "file_write"@[0] == 'f' && "http_fetch"@[0] == 'h');
    assert("execute_command"@.len() == 15);
    assert("file_edit"@.len() == 9 && "FileEdit"@.len() == 8 && "FileWrite"@.len() == 9
        && "Write"@.len() == 5 && "note_edit"@.len() == 9);
    assert("file_write"@.len() == 10 && "list_files"@.len() == 10 && "http_fetch"@.len() == 10);
    assert("glob_tool"@.len() == 9 && "GrepTool"@.len() == 8 && "GlobTool"@.len() == 8);
}

/// The outcome of a tool is weighed in full for the tool's own dimension and
/// by half for tool use: a success among the successes, a failure among the
/// failures. Other dimensions stay.
pub proof fn law_tool_outcome_moves_the_belief(
    b: Seq<(Seq<char>, BetaParam)>,
    name: Seq<char>,
    other: Seq<char>,
)
    requires
        has_dim(b, tool_dimension(name)),
        has_dim(b, "tool_use"@),
        dim_param(b, tool_dimension(name)).alpha <= 1_000_000_000_000_000_000,
        dim_param(b, tool_dimension(name)).beta <= 1_000_000_000_000_000_000,
        dim_param(b, "tool_use"@).alpha <= 1_000_000_000_000_000_000,
        dim_param(b, "tool_use"@).beta <= 1_000_000_000_000_000_000,
    ensures
        ({
            let d = tool_dimension(name);
            let good = belief_after_tool(b, name, false);
            let bad = belief_after_tool(b, name, true);
            &&& d != "tool_use"@ ==> {
                &&& dim_param(good, d).alpha == dim_param(b, d).alpha + 1_000_000_000
                &&& dim_param(bad, d).beta == dim_param(b, d).beta + 1_000_000_000
                &&& dim_param(good, "tool_use"@).alpha == dim_param(b, "tool_use"@).alpha
                    + 500_000_000
                &&& dim_param(bad, "tool_use"@).beta == dim_param(b, "tool_use"@).beta
                    + 500_000_000
            }
            &&& d == "tool_use"@ ==> {
                &&& dim_param(good, d).alpha == dim_param(b, d).alpha + 1_500_000_000
                &&& dim_param(bad, d).beta == dim_param(b, d).beta + 1_500_000_000
            }
            &&& dim_param(good, d).beta == dim_param(b, d).beta
            &&& dim_param(bad, d).alpha == dim_param(b, d).alpha
            &&& other != d && other != "tool_use"@ ==> dim_param(good, other) == dim_param(b, other)
                && dim_param(bad, other) == dim_param(b, other)
        }),
{
    let d = tool_dimension(name);
    let t = "tool_use"@;
    let g = after_success(b, d, ONE);
    let f = after_failure(b, d, ONE);
    law_observations_add_weight(b, d, ONE);
    law_observations_add_weight(g, t, 500_000_000);
    law_observations_add_weight(f, t, 500_000_000);
    if d != t {
        law_observations_are_local(b, d, t, ONE);
        law_observations_are_local(g, t, d, 500_000_000);
        law_observations_are_local(f, t, d, 500_000_000);
    }
    if other != d && other != t {
        law_observations_are_local(b, d, other, ONE);
        law_observations_are_local(g, t, other, 500_000_000);
        law_observations_are_local(f, t, other, 500_000_000);
    }
}

/// Progress counts in full, and the lack of it by half.
pub proof fn law_progress_moves_the_belief(s: ControllerState)
    requires
        has_dim(s.belief, "task_progress"@),
        dim_param(s.belief, "task_progress"@).alpha <= 1_000_000_000_000_000_000,
        dim_param(s.belief, "task_progress"@).beta <= 1_000_000_000_000_000_000,
    ensures
        ({
            let p = dim_param(s.belief, "task_progress"@);
            let up = after_progress(s, true);
            let down = after_progress(s, false);
            &&& dim_param(up.belief, "task_progress"@).alpha == p.alpha + 1_000_000_000
            &&& dim_param(up.belief, "task_progress"@).beta == p.beta
            &&& dim_param(down.belief, "task_progress"@).beta == p.beta + 500_000_000
            &&& dim_param(down.belief, "task_progress"@).alpha == p.alpha
            &&& up.stall_count == s.stall_count && up.iter == s.iter
        }),
{
    law_observations_add_weight(s.belief, "task_progress"@, ONE);
    law_observations_add_weight(s.belief, "task_progress"@, 500_000_000);
}

/// A new turn starts without errors and stalls, at iteration zero, and keeps
/// the belief and what was counted before; a decision counts reflections and
/// aborts, and changes nothing else but the iteration.
pub proof fn law_turns_and_decisions(
    s: ControllerState,
    input: Seq<char>,
    iter: i32,
    a: MetaAction,
)
    requires
        s.total_reflects < i32::MAX,
        s.total_aborts < i32::MAX,
    ensures
        ({
            let t = at_turn_start(s, input);
            &&& t.consecutive_errors == 0
            &&& t.stall_count == 0
            &&& t.iter == 0
            &&& t.last_user_input == input
            &&& t.belief == s.belief
            &&& t.cfg == s.cfg
            &&& t.total_reflects == s.total_reflects
            &&& t.total_aborts == s.total_aborts
        }),
        ({
            let t = after_decision(s, iter, a);
            &&& t.iter == iter
            &&& t.total_reflects - s.total_reflects == (if a == MetaAction::Reflect {
                1int
            } else {
                0
            })
            &&& t.total_aborts - s.total_aborts == (if a == MetaAction::Abort {
                1int
            } else {
                0
            })
            &&& t.belief == s.belief
            &&& t.stall_count == s.stall_count
            &&& t.consecutive_errors == s.consecutive_errors
        }),
{
}

} // verus!
