//! The loop that drives a goal to completion, as a state machine.
//!
//! A run is told what happened (a reply of the model, the outcome of a tool)
//! and says what to do next: ask the model, call a tool, or stop. Whoever
//! drives it does the asking and calling.
use crate::agent::goal::{goal_block, is_overdue, Goal, GoalStatus, GoalView};
use crate::agent::persona::{PersonaProfile, Profile};
use crate::ambient::{millis_of, Timestamp};
use crate::api::{
    call_views, chat_views, copy_calls, text_message, tool_message, Call, Chat, ChatMessage,
    ToolCall,
};
use crate::json::{canonical, json_canonical, json_string, quote};
use crate::metacognition::cot_monitor::after_delta;
use crate::metacognition::engine::{
    deciding, engine_cot_end, engine_iteration, engine_tool_result, engine_tool_use,
    engine_turn_end, engine_turn_start, iteration_injection, review_room, turn_end_room,
    EngineState, MetacognitionEngine,
};
use crate::metacognition::meta_controller::{
    is_choice, law_choice_unique, ControllerState, MetaAction, MetaDecision,
};
use crate::metacognition::self_model_store::{relevant, rendered};
use crate::text::{opt_view, owned};
use vstd::prelude::*;

verus! {

/// Why a run stopped.
#[derive(Debug, Clone, Copy, PartialEq, Eq, Structural)]
pub enum StopReason {
    /// The model answered without asking for a tool.
    AssistantFinal,
    /// The configured number of iterations was used up.
    MaxStepsReached,
    /// A tool failed beyond recovery.
    ToolError,
    /// The model could not be reached or gave no answer.
    ApiError,
    /// The run was called off: by the metacognition, or at the deadline.
    Cancelled,
}

/// What happened in a step.
#[derive(Debug, Clone, Copy, PartialEq, Eq, Structural)]
pub enum StepKind {
    /// The model asked for a tool.
    ToolCall,
    /// The model wrote text.
    Assistant,
    /// A tool gave its result.
    ToolResult,
}

/// One observable step of a run.
#[derive(Debug, Clone)]
pub struct RunStep {
    pub iteration: usize,
    pub kind: StepKind,
    /// The tool's name, or `assistant`.
    pub label: String,
    /// Arguments, output or text.
    pub payload: String,
}

/// A step as a mathematical value.
pub struct Step {
    pub iteration: usize,
    pub kind: StepKind,
    pub label: Seq<char>,
    pub payload: Seq<char>,
}

/// The views of a sequence of steps.
pub open spec fn step_views(s: Seq<RunStep>) -> Seq<Step> {
    s.map_values(
        |x: RunStep|
            Step {
                iteration: x.iteration,
                kind: x.kind,
                label: x.label@,
                payload: x.payload@,
            },
    )
}

/// The outcome of a run.
#[derive(Debug, Clone)]
pub struct RunOutcome {
    pub goal: Goal,
    pub persona_name: String,
    pub stop_reason: StopReason,
    /// The last text of the model, if any.
    pub final_answer: Option<String>,
    pub steps: Vec<RunStep>,
}

/// What a run waits for.
#[derive(Debug, Clone, Copy, PartialEq, Eq, Structural)]
pub enum Phase {
    /// To be started.
    Ready,
    /// The model's reply.
    Reply,
    /// The outcome of the first pending tool call.
    Tool,
    /// Nothing: it has stopped.
    Stopped(StopReason),
}

/// A run as a mathematical value.
pub struct RunState {
    pub goal: GoalView,
    pub persona_name: Seq<char>,
    pub messages: Seq<Chat>,
    pub steps: Seq<Step>,
    pub final_answer: Option<Seq<char>>,
    pub iter: usize,
    pub max_steps: usize,
    /// The tool calls of this iteration that have no result yet.
    pub pending: Seq<Call>,
    pub phase: Phase,
    pub engine: Option<EngineState>,
}

/// What to do next, as a mathematical value.
pub enum Todo {
    /// Ask the model with these messages.
    Ask(Seq<Chat>),
    /// Call a tool with arguments in JSON.
    Call { id: Seq<char>, name: Seq<char>, arguments: Seq<char> },
    /// Stop.
    Stop(StopReason),
}

/// What to do next.
#[derive(Debug, Clone)]
pub enum Action {
    /// Ask the model with these messages.
    Ask(Vec<ChatMessage>),
    /// Call a tool with arguments in JSON.
    Call { id: String, name: String, arguments: String },
    /// Stop.
    Stop(StopReason),
}

impl View for Action {
    type V = Todo;

    open spec fn view(&self) -> Todo {
        match self {
            Action::Ask(v) => Todo::Ask(chat_views(v@)),
            Action::Call { id, name, arguments } => Todo::Call {
                id: id@,
                name: name@,
                arguments: arguments@,
            },
            Action::Stop(r) => Todo::Stop(*r),
        }
    }
}

/// The goal's status after a stop.
pub open spec fn status_after(r: StopReason) -> GoalStatus {
    match r {
        StopReason::AssistantFinal => GoalStatus::Succeeded,
        _ => GoalStatus::Failed,
    }
}

/// The system prompt of a run.
pub open spec fn system_prompt(p: Profile, g: GoalView) -> Seq<char> {
    p.system_prompt + "\n\n"@ + goal_block(g)
        + "\n\n# Loop policy\n- Take one step at a time.\n- Prefer calling a tool over guessing.\n- When the goal is met, reply in plain text with the final answer and no further tool calls."@
}

/// A run at its start.
pub open spec fn started_run(
    p: Profile,
    g: GoalView,
    max_steps: usize,
    e: Option<EngineState>,
) -> RunState {
    let goal = GoalView { status: GoalStatus::Running, ..g };
    RunState {
        goal,
        persona_name: p.name,
        messages: seq![
            text_message("system"@, system_prompt(p, goal)),
            text_message("user"@, "Begin. Goal: "@ + g.objective),
        ],
        steps: Seq::empty(),
        final_answer: None,
        iter: 0,
        max_steps,
        pending: Seq::empty(),
        phase: Phase::Ready,
        engine: match e {
            Some(s) => Some(engine_turn_start(s, g.objective)),
            None => None,
        },
    }
}

/// The action with the least free energy.
pub open spec fn chosen(c: ControllerState) -> MetaAction {
    choose|a: MetaAction| is_choice(c, a)
}

/// A message of its own before others, unless it is empty.
pub open spec fn with_lead(text: Seq<char>, ms: Seq<Chat>) -> Seq<Chat> {
    if text.len() == 0 {
        ms
    } else {
        seq![text_message("system"@, text)] + ms
    }
}

/// The self-knowledge of an engine for its current task.
pub open spec fn self_section(e: EngineState) -> Seq<char> {
    if e.cfg.enable_layer3 {
        rendered(relevant(e.store, e.current_task, e.cfg.prompt_top_k as nat))
    } else {
        Seq::empty()
    }
}

/// A stopped run: the turn ends and the goal's status is settled.
pub open spec fn stopped(s: RunState, r: StopReason, t: Timestamp) -> (RunState, Todo) {
    (
        RunState {
            phase: Phase::Stopped(r),
            goal: GoalView { status: status_after(r), ..s.goal },
            engine: match s.engine {
                Some(e) => Some(engine_turn_end(e, millis_of(t) as i64)),
                None => None,
            },
            ..s
        },
        Todo::Stop(r),
    )
}

/// A run at the beginning of an iteration. It stops when the iterations are
/// used up, when the deadline has passed, or when the metacognition aborts;
/// else the model is asked, with the metacognition's injection and the
/// self-knowledge before the history.
pub open spec fn begun(s: RunState, t: Timestamp) -> (RunState, Todo) {
    if s.iter >= s.max_steps {
        stopped(s, StopReason::MaxStepsReached, t)
    } else if is_overdue(s.goal, t) {
        stopped(s, StopReason::Cancelled, t)
    } else {
        match s.engine {
            Some(e) => {
                let i = s.iter as i32;
                let a = chosen(deciding(e, i));
                let after = engine_iteration(e, i, a);
                let u = RunState { engine: Some(after), ..s };
                if a == MetaAction::Abort {
                    stopped(u, StopReason::Cancelled, t)
                } else {
                    (
                        RunState { phase: Phase::Reply, ..u },
                        Todo::Ask(
                            with_lead(
                                self_section(after),
                                with_lead(iteration_injection(e, i, a), s.messages),
                            ),
                        ),
                    )
                }
            },
            None => (RunState { phase: Phase::Reply, ..s }, Todo::Ask(s.messages)),
        }
    }
}

/// The arguments of a call as compact JSON; text that is no JSON becomes a
/// JSON string.
pub open spec fn arguments_json(raw: Seq<char>) -> Seq<char> {
    match json_canonical(raw) {
        Some(t) => t,
        None => json_string(raw),
    }
}

/// A run that turns to its next pending call, or to its next iteration where
/// none is left.
pub open spec fn continued(s: RunState, t: Timestamp) -> (RunState, Todo) {
    if s.pending.len() == 0 {
        begun(RunState { iter: (s.iter + 1) as usize, ..s }, t)
    } else {
        let c = s.pending[0];
        let args = arguments_json(c.arguments);
        (
            RunState {
                phase: Phase::Tool,
                steps: s.steps.push(
                    Step { iteration: s.iter, kind: StepKind::ToolCall, label: c.name, payload: args },
                ),
                engine: match s.engine {
                    Some(e) => Some(engine_tool_use(e, c.name, args)),
                    None => None,
                },
                ..s
            },
            Todo::Call { id: c.id, name: c.name, arguments: args },
        )
    }
}

/// A run after the model's text, if it wrote any.
pub open spec fn after_text(s: RunState, text: Option<Seq<char>>) -> RunState {
    match text {
        Some(c) => if c.len() == 0 {
            s
        } else {
            RunState {
                engine: match s.engine {
                    Some(e) => Some(
                        engine_cot_end(EngineState { cot: after_delta(e.cot, c), ..e }),
                    ),
                    None => None,
                },
                steps: s.steps.push(
                    Step {
                        iteration: s.iter,
                        kind: StepKind::Assistant,
                        label: "assistant"@,
                        payload: c,
                    },
                ),
                final_answer: Some(c),
                ..s
            }
        },
        None => s,
    }
}

/// A run after the model's reply; none stands for an error.
pub open spec fn replied(s: RunState, reply: Option<Chat>, t: Timestamp) -> (RunState, Todo) {
    match reply {
        None => stopped(s, StopReason::ApiError, t),
        Some(m) => {
            let calls = match m.tool_calls {
                Some(cs) => cs,
                None => Seq::empty(),
            };
            let u = after_text(s, m.content);
            let v = RunState { messages: u.messages.push(m), pending: calls, ..u };
            if calls.len() == 0 {
                stopped(v, StopReason::AssistantFinal, t)
            } else {
                continued(v, t)
            }
        },
    }
}

/// What the model is told of a tool's outcome.
pub open spec fn result_text(ok: bool, text: Seq<char>) -> Seq<char> {
    if ok {
        text
    } else {
        "tool error: "@ + text
    }
}

/// A run after the outcome of the tool it waited for.
pub open spec fn tool_done(s: RunState, ok: bool, text: Seq<char>, t: Timestamp) -> (
    RunState,
    Todo,
) {
    let c = s.pending[0];
    let payload = result_text(ok, text);
    continued(
        RunState {
            engine: match s.engine {
                Some(e) => Some(engine_tool_result(e, c.name, !ok, millis_of(t) as i64)),
                None => None,
            },
            steps: s.steps.push(
                Step {
                    iteration: s.iter,
                    kind: StepKind::ToolResult,
                    label: c.name,
                    payload,
                },
            ),
            messages: s.messages.push(tool_message(c.id, payload)),
            pending: s.pending.skip(1),
            ..s
        },
        t,
    )
}

/// The engine's counters leave room for more than `n` further events.
pub open spec fn engine_room(e: Option<EngineState>, n: int) -> bool {
    e matches Some(x) ==> {
        &&& x.controller.consecutive_errors < i32::MAX - n
        &&& x.controller.stall_count < i32::MAX - n
        &&& x.controller.total_reflects < i32::MAX - n
        &&& x.controller.total_aborts < i32::MAX - n
        &&& x.tool_calls_in_iter < i32::MAX - n
        &&& x.turn_tool_calls < i32::MAX - n
        &&& x.tool_errors_in_iter < i32::MAX - n
        &&& x.turn_tool_errors < i32::MAX - n
        &&& x.cfg.enable_layer4 ==> x.reviser.episode_count < i32::MAX - n && review_room(x, n)
    }
}

/// The goal of a stopped run has succeeded exactly when the model answered
/// without asking for a tool.
pub proof fn law_success_is_a_final_answer(s: RunState, r: StopReason, t: Timestamp)
    ensures
        stopped(s, r, t).0.goal.status == GoalStatus::Succeeded <==> r
            == StopReason::AssistantFinal,
        stopped(s, r, t).0.goal.status != GoalStatus::Running,
{
}

/// An abort of the metacognition stops the run at once, as cancelled.
pub proof fn law_abort_cancels(s: RunState, e: EngineState, t: Timestamp)
    requires
        s.engine == Some(e),
        s.iter < s.max_steps,
        !is_overdue(s.goal, t),
        chosen(deciding(e, s.iter as i32)) == MetaAction::Abort,
    ensures
        begun(s, t).1 == Todo::Stop(StopReason::Cancelled),
        begun(s, t).0.messages == s.messages,
{
}

/// No iteration is begun past the deadline, nor beyond the configured number.
pub proof fn law_no_iteration_too_many(s: RunState, t: Timestamp)
    requires
        is_overdue(s.goal, t) || s.iter >= s.max_steps,
    ensures
        begun(s, t).1 is Stop,
        begun(s, t).0.phase is Stopped,
{
}

/// While a run waits, it is within its iterations; while it waits for the
/// model, no tool call is open; while it waits for a tool, one is.
pub open spec fn run_ok(s: RunState) -> bool {
    match s.phase {
        Phase::Ready => s.pending.len() == 0 && s.iter == 0,
        Phase::Reply => s.pending.len() == 0 && s.iter < s.max_steps,
        Phase::Tool => s.pending.len() > 0 && s.iter < s.max_steps,
        Phase::Stopped(_) => true,
    }
}

/// Whether `b` begins with all of `a`.
pub open spec fn extends<T>(a: Seq<T>, b: Seq<T>) -> bool {
    a.len() <= b.len() && b.take(a.len() as int) == a
}

proof fn lemma_extends_push<T>(a: Seq<T>, x: T)
    ensures
        extends(a, a.push(x)),
        extends(a, a),
{
    assert(a.push(x).take(a.len() as int) =~= a);
    assert(a.take(a.len() as int) =~= a);
}

proof fn lemma_extends_trans<T>(a: Seq<T>, b: Seq<T>, c: Seq<T>)
    requires
        extends(a, b),
        extends(b, c),
    ensures
        extends(a, c),
{
    assert(c.take(a.len() as int) =~= b.take(a.len() as int));
}

/// Beginning an iteration keeps the history, and a run that goes on is
/// within its iterations.
pub proof fn law_begin_keeps_history(s: RunState, t: Timestamp)
    requires
        s.pending.len() == 0,
    ensures
        run_ok(begun(s, t).0),
        begun(s, t).0.messages == s.messages,
        begun(s, t).0.steps == s.steps,
{
}

/// A reply of the model never rewrites the history of a run; the run stays
/// in order.
pub proof fn law_reply_extends_history(s: RunState, reply: Option<Chat>, t: Timestamp)
    requires
        s.phase == Phase::Reply,
        run_ok(s),
    ensures
        run_ok(replied(s, reply, t).0),
        extends(s.messages, replied(s, reply, t).0.messages),
        extends(s.steps, replied(s, reply, t).0.steps),
{
    lemma_extends_push(s.messages, text_message("user"@, seq![]));
    lemma_extends_push(s.steps, Step {
        iteration: 0,
        kind: StepKind::Assistant,
        label: seq![],
        payload: seq![],
    });
    match reply {
        None => {},
        Some(m) => {
            let u = after_text(s, m.content);
            lemma_extends_push(s.messages, m);
            match m.content {
                Some(c) => {
                    lemma_extends_push(s.steps, u.steps.last());
                    assert(extends(s.steps, u.steps));
                },
                None => {},
            }
            let calls = match m.tool_calls {
                Some(cs) => cs,
                None => Seq::empty(),
            };
            let v = RunState { messages: u.messages.push(m), pending: calls, ..u };
            if calls.len() > 0 {
                lemma_extends_push(u.steps, continued(v, t).0.steps.last());
                lemma_extends_trans(s.steps, u.steps, continued(v, t).0.steps);
            }
        },
    }
}

/// The outcome of a tool is answered to the model under the call's own
/// identifier, and never rewrites the history; the run stays in order.
pub proof fn law_tool_result_extends_history(s: RunState, ok: bool, text: Seq<char>, t: Timestamp)
    requires
        s.phase == Phase::Tool,
        run_ok(s),
        s.iter < usize::MAX,
    ensures
        run_ok(tool_done(s, ok, text, t).0),
        tool_done(s, ok, text, t).0.messages == s.messages.push(
            tool_message(s.pending[0].id, result_text(ok, text)),
        ),
        extends(s.steps, tool_done(s, ok, text, t).0.steps),
{
    let c = s.pending[0];
    let step = Step {
        iteration: s.iter,
        kind: StepKind::ToolResult,
        label: c.name,
        payload: result_text(ok, text),
    };
    let mid = s.steps.push(step);
    lemma_extends_push(s.steps, step);
    let after = tool_done(s, ok, text, t).0;
    if s.pending.len() > 1 {
        lemma_extends_push(mid, after.steps.last());
        lemma_extends_trans(s.steps, mid, after.steps);
    }
}

/// The output of a successful tool call reaches the model word for word: it
/// is the content of a message with the role `tool` and the call's own
/// identifier, which follows the history as it was. The trace shows the same
/// output under the tool's name.
pub proof fn law_tool_output_reaches_the_model(s: RunState, output: Seq<char>, t: Timestamp)
    requires
        s.pending.len() > 0,
    ensures
        ({
            let after = tool_done(s, true, output, t).0;
            let m = after.messages.last();
            let x = after.steps[s.steps.len() as int];
            &&& after.messages.drop_last() == s.messages
            &&& m.role == "tool"@
            &&& m.content == Some(output)
            &&& m.tool_call_id == Some(s.pending[0].id)
            &&& m.tool_calls is None
            &&& after.steps.take(s.steps.len() as int) == s.steps
            &&& x.kind == StepKind::ToolResult
            &&& x.payload == output
            &&& x.label == s.pending[0].name
            &&& x.iteration == s.iter
            &&& after.final_answer == s.final_answer
        }),
{
    let after = tool_done(s, true, output, t).0;
    assert(after.messages.drop_last() =~= s.messages);
    assert(after.steps.take(s.steps.len() as int) =~= s.steps);
}

/// The error of a failed tool call reaches the model, marked as an error, in
/// the place where its output would stand; the run goes on.
pub proof fn law_tool_error_reaches_the_model(s: RunState, error: Seq<char>, t: Timestamp)
    requires
        s.pending.len() > 0,
    ensures
        ({
            let after = tool_done(s, false, error, t).0;
            let m = after.messages.last();
            let x = after.steps[s.steps.len() as int];
            &&& after.messages.drop_last() == s.messages
            &&& m.role == "tool"@
            &&& m.content == Some("tool error: "@ + error)
            &&& m.tool_call_id == Some(s.pending[0].id)
            &&& after.steps.take(s.steps.len() as int) == s.steps
            &&& x.kind == StepKind::ToolResult
            &&& x.payload == "tool error: "@ + error
            &&& x.label == s.pending[0].name
        }),
{
    let after = tool_done(s, false, error, t).0;
    assert(after.messages.drop_last() =~= s.messages);
    assert(after.steps.take(s.steps.len() as int) =~= s.steps);
}

/// The calls of a reply are made one by one, in the order of the reply: after
/// the outcome of one comes the next, and after the last the model is asked
/// again, in the next iteration.
pub proof fn law_calls_are_made_in_order(s: RunState, ok: bool, text: Seq<char>, t: Timestamp)
    requires
        s.pending.len() > 0,
        s.iter < usize::MAX,
    ensures
        ({
            let (after, todo) = tool_done(s, ok, text, t);
            &&& s.pending.len() > 1 ==> {
                &&& todo matches Todo::Call { id, name, arguments }
                &&& id == s.pending[1].id
                &&& name == s.pending[1].name
                &&& after.pending == s.pending.skip(1)
                &&& after.iter == s.iter
            }
            &&& s.pending.len() == 1 ==> !(todo is Call) && after.iter == s.iter + 1
            &&& s.pending.len() == 1 && s.engine is None && s.iter + 1 < s.max_steps && !is_overdue(
                s.goal,
                t,
            ) ==> todo == Todo::Ask(after.messages)
        }),
{
    assert(s.pending.skip(1).len() == s.pending.len() - 1);
    if s.pending.len() > 1 {
        assert(s.pending.skip(1)[0] == s.pending[1]);
    }
}

/// A reply joins the history as it is. Its text, where it has any, is the
/// answer from then on and stands in the trace; else the earlier answer
/// stays.
pub proof fn law_reply_is_kept(s: RunState, m: Chat, t: Timestamp)
    ensures
        ({
            let after = replied(s, Some(m), t).0;
            &&& after.messages == s.messages.push(m)
            &&& (m.content matches Some(c) && c.len() > 0) ==> {
                let x = after.steps[s.steps.len() as int];
                &&& after.final_answer == m.content
                &&& x.kind == StepKind::Assistant
                &&& x.payload == m.content->0
                &&& x.iteration == s.iter
            }
            &&& !(m.content matches Some(c) && c.len() > 0) ==> after.final_answer == s.final_answer
        }),
{
}

/// A reply without a tool call ends the run as a success; one with calls
/// starts the first of them, whose arguments are handed on as the JSON they
/// are, and every call waits for its turn.
pub proof fn law_reply_decides(s: RunState, m: Chat, t: Timestamp)
    ensures
        ({
            let (after, todo) = replied(s, Some(m), t);
            &&& (m.tool_calls matches Some(cs) && cs.len() > 0) ==> {
                let cs = m.tool_calls->0;
                &&& todo matches Todo::Call { id, name, arguments }
                &&& id == cs[0].id
                &&& name == cs[0].name
                &&& json_canonical(cs[0].arguments) matches Some(j) ==> arguments == j
                &&& json_canonical(cs[0].arguments) is None ==> arguments == json_string(
                    cs[0].arguments,
                )
                &&& after.pending == cs
                &&& after.steps.last().kind == StepKind::ToolCall
                &&& after.steps.last().label == name
                &&& after.steps.last().payload == arguments
            }
            &&& !(m.tool_calls matches Some(cs) && cs.len() > 0) ==> {
                &&& todo == Todo::Stop(StopReason::AssistantFinal)
                &&& after.goal.status == GoalStatus::Succeeded
            }
        }),
{
}

/// A failed request ends the run as a failure and leaves its history.
pub proof fn law_failed_request_stops(s: RunState, t: Timestamp)
    ensures
        replied(s, None, t).1 == Todo::Stop(StopReason::ApiError),
        replied(s, None, t).0.goal.status == GoalStatus::Failed,
        replied(s, None, t).0.messages == s.messages,
        replied(s, None, t).0.steps == s.steps,
        replied(s, None, t).0.final_answer == s.final_answer,
{
}

/// The model is asked with the whole history at the end of the request; what
/// comes before it are messages of the system.
pub proof fn law_request_ends_with_history(s: RunState, t: Timestamp)
    ensures
        ({
            let (after, todo) = begun(s, t);
            todo matches Todo::Ask(ms) ==> {
                let k = ms.len() - s.messages.len();
                &&& 0 <= k <= 2
                &&& ms.skip(k) == s.messages
                &&& s.engine is None ==> k == 0
                &&& forall|i: int| 0 <= i < k ==> (#[trigger] ms[i]).role == "system"@
            }
        }),
{
    let (after, todo) = begun(s, t);
    if let Todo::Ask(ms) = todo {
        let k = ms.len() - s.messages.len();
        assert(ms.skip(k) =~= s.messages);
    }
}

/// A run without metacognition asks the model in every iteration that is
/// within the number and the deadline, and stops for no other reason.
pub proof fn law_iteration_is_begun(s: RunState, t: Timestamp)
    requires
        s.engine is None,
    ensures
        begun(s, t).1 is Ask <==> s.iter < s.max_steps && !is_overdue(s.goal, t),
        s.iter >= s.max_steps ==> begun(s, t).1 == Todo::Stop(StopReason::MaxStepsReached),
        s.iter < s.max_steps && is_overdue(s.goal, t) ==> begun(s, t).1 == Todo::Stop(
            StopReason::Cancelled,
        ),
{
}

/// A run starts with two messages: the system prompt, which begins with the
/// role and names the goal, and the user's request, which ends with the
/// objective.
pub proof fn law_run_starts_with_the_goal(
    p: Profile,
    g: GoalView,
    max_steps: usize,
    e: Option<EngineState>,
)
    ensures
        ({
            let s = started_run(p, g, max_steps, e);
            let ask = s.messages[1].content->0;
            &&& s.messages.len() == 2
            &&& s.messages[0].role == "system"@
            &&& s.messages[0].content->0.take(p.system_prompt.len() as int) == p.system_prompt
            &&& s.messages[1].role == "user"@
            &&& ask.skip(ask.len() - g.objective.len()) == g.objective
            &&& s.goal.objective == g.objective
            &&& s.goal.status == GoalStatus::Running
            &&& s.steps.len() == 0
            &&& s.final_answer is None
            &&& s.max_steps == max_steps
        }),
{
    let s = started_run(p, g, max_steps, e);
    let ask = s.messages[1].content->0;
    assert(s.messages[0].content->0.take(p.system_prompt.len() as int) =~= p.system_prompt);
    assert(ask.skip(ask.len() - g.objective.len()) =~= g.objective);
}

/// A run in progress.
#[derive(Debug)]
pub struct AgentRun {
    pub goal: Goal,
    pub persona_name: String,
    pub messages: Vec<ChatMessage>,
    pub steps: Vec<RunStep>,
    pub final_answer: Option<String>,
    pub iter: usize,
    pub max_steps: usize,
    pub pending: Vec<ToolCall>,
    pub phase: Phase,
    pub engine: Option<MetacognitionEngine>,
}

/// The view of an optional engine.
pub open spec fn opt_engine(o: Option<MetacognitionEngine>) -> Option<EngineState> {
    match o {
        Some(e) => Some(e@),
        None => None,
    }
}

impl View for AgentRun {
    type V = RunState;

    open spec fn view(&self) -> RunState {
        RunState {
            goal: self.goal@,
            persona_name: self.persona_name@,
            messages: chat_views(self.messages@),
            steps: step_views(self.steps@),
            final_answer: opt_view(self.final_answer),
            iter: self.iter,
            max_steps: self.max_steps,
            pending: call_views(self.pending@),
            phase: self.phase,
            engine: opt_engine(self.engine),
        }
    }
}

fn copy_messages(v: &Vec<ChatMessage>) -> (r: Vec<ChatMessage>)
    ensures
        chat_views(r@) == chat_views(v@),
{
    let mut out: Vec<ChatMessage> = Vec::new();
    for i in 0..v.len()
        invariant
            chat_views(out@) == chat_views(v@).take(i as int),
    {
        let m: ChatMessage = v[i].clone();
        let ghost before = out@;
        out.push(m);
        proof {
            assert(chat_views(out@) =~= chat_views(before).push(m@));
            assert(chat_views(v@).take(i + 1) =~= chat_views(v@).take(i as int).push(m@));
        }
    }
    proof {
        assert(chat_views(v@).take(v@.len() as int) =~= chat_views(v@));
    }
    out
}

fn lead(text: &str, ms: Vec<ChatMessage>) -> (r: Vec<ChatMessage>)
    ensures
        chat_views(r@) == with_lead(text@, chat_views(ms@)),
{
    let mut out: Vec<ChatMessage> = ms;
    if text.unicode_len() > 0 {
        let ghost before = out@;
        let m: ChatMessage = ChatMessage::system(text);
        out.insert(0, m);
        proof {
            assert(chat_views(out@) =~= seq![text_message("system"@, text@)] + chat_views(before));
        }
    }
    out
}

impl AgentRun {
    /// The invariant: the engine is in order, the run waits for what its
    /// phase says, and iterations can be counted.
    pub open spec fn wf(&self) -> bool {
        &&& self.engine matches Some(e) ==> e.wf()
        &&& run_ok(self@)
        &&& self.engine is Some ==> self.max_steps <= i32::MAX
    }

    fn record(&mut self, kind: StepKind, label: &str, payload: &str)
        ensures
            final(self)@ == (RunState {
                steps: old(self)@.steps.push(
                    Step { iteration: old(self)@.iter, kind, label: label@, payload: payload@ },
                ),
                ..old(self)@
            }),
            final(self).engine == old(self).engine,
            final(self).max_steps == old(self).max_steps,
    {
        let x = RunStep {
            iteration: self.iter,
            kind,
            label: owned(label),
            payload: owned(payload),
        };
        self.steps.push(x);
        proof {
            assert(self@.steps =~= old(self)@.steps.push(
                Step { iteration: old(self)@.iter, kind, label: label@, payload: payload@ },
            ));
        }
    }

    fn stop(&mut self, reason: StopReason, t: Timestamp) -> (r: Action)
        requires
            old(self).engine matches Some(e) ==> e.wf(),
            old(self).engine is Some ==> old(self).max_steps <= i32::MAX,
            t.wf(),
            old(self).engine matches Some(e) ==> turn_end_room(e@),
        ensures
            final(self).wf(),
            (final(self)@, r@) == stopped(old(self)@, reason, t),
    {
        match &mut self.engine {
            Some(e) => {
                e.on_turn_end_at(t.millis());
            },
            None => {},
        }
        self.goal.status = match reason {
            StopReason::AssistantFinal => GoalStatus::Succeeded,
            _ => GoalStatus::Failed,
        };
        self.phase = Phase::Stopped(reason);
        Action::Stop(reason)
    }

    fn begin(&mut self, t: Timestamp) -> (r: Action)
        requires
            old(self).engine matches Some(e) ==> e.wf(),
            old(self).engine is Some ==> old(self).max_steps <= i32::MAX,
            old(self)@.pending.len() == 0,
            t.wf(),
            engine_room(old(self)@.engine, 0),
        ensures
            final(self).wf(),
            (final(self)@, r@) == begun(old(self)@, t),
    {
        let ghost s = self@;
        if self.iter >= self.max_steps {
            return self.stop(StopReason::MaxStepsReached, t);
        }
        if self.goal.overdue(t) {
            return self.stop(StopReason::Cancelled, t);
        }
        let mut aborted: bool = false;
        let mut injection: String = String::new();
        let mut section: String = String::new();
        let i: i32 = self.iter as i32;
        match &mut self.engine {
            Some(e) => {
                let ghost before = e@;
                let d: MetaDecision = e.before_next_iteration(i);
                proof {
                    let c = deciding(before, i);
                    law_choice_unique(c, d.action, chosen(c));
                }
                match d.action {
                    MetaAction::Abort => {
                        aborted = true;
                    },
                    _ => {
                        injection = d.injection;
                        section = e.self_model_prompt_section();
                    },
                }
            },
            None => {},
        }
        if aborted {
            return self.stop(StopReason::Cancelled, t);
        }
        let ms: Vec<ChatMessage> = copy_messages(&self.messages);
        let asked: Vec<ChatMessage> = lead(section.as_str(), lead(injection.as_str(), ms));
        self.phase = Phase::Reply;
        Action::Ask(asked)
    }

    fn proceed(&mut self, t: Timestamp) -> (r: Action)
        requires
            old(self).engine matches Some(e) ==> e.wf(),
            old(self).engine is Some ==> old(self).max_steps <= i32::MAX,
            old(self).iter < old(self).max_steps,
            t.wf(),
            engine_room(old(self)@.engine, 0),
        ensures
            final(self).wf(),
            (final(self)@, r@) == continued(old(self)@, t),
    {
        if self.pending.len() == 0 {
            self.iter = self.iter + 1;
            return self.begin(t);
        }
        let ghost s = self@;
        let id: String = self.pending[0].id.clone();
        let name: String = self.pending[0].function.name.clone();
        let raw: String = self.pending[0].function.arguments.clone();
        let args: String = match canonical(raw.as_str()) {
            Some(t) => t,
            None => quote(raw.as_str()),
        };
        proof {
            assert(s.pending[0] == self.pending@[0]@);
            assert(args@ == arguments_json(s.pending[0].arguments));
        }
        self.record(StepKind::ToolCall, name.as_str(), args.as_str());
        match &mut self.engine {
            Some(e) => {
                e.on_tool_use(name.as_str(), args.as_str());
            },
            None => {},
        }
        self.phase = Phase::Tool;
        Action::Call { id, name, arguments: args }
    }

    /// Whether the engine's counters leave room for another event.
    pub fn has_room(&self) -> (r: bool)
        requires
            self.wf(),
        ensures
            r == engine_room(self@.engine, 1),
    {
        match &self.engine {
            Some(e) => {
                let top: i32 = i32::MAX - 1;
                e.controller.consecutive_errors < top && e.controller.stall_count < top
                    && e.controller.total_reflects < top && e.controller.total_aborts < top
                    && e.tool_calls_in_iter < top && e.turn_tool_calls < top
                    && e.tool_errors_in_iter < top && e.turn_tool_errors < top
                    && (!e.cfg.enable_layer4 || (e.reviser.episode_count < top
                    && e.reviser.failures.len() < 1_073_741_823 && e.store.has_evidence_room(
                    e.reviser.failures.len() + 1,
                )))
            },
            None => true,
        }
    }

    /// Begins the first iteration, at a given time.
    pub fn start(&mut self, t: Timestamp) -> (r: Action)
        requires
            old(self).wf(),
            old(self)@.phase == Phase::Ready,
            t.wf(),
            engine_room(old(self)@.engine, 1),
        ensures
            final(self).wf(),
            (final(self)@, r@) == begun(old(self)@, t),
    {
        self.begin(t)
    }

    /// Takes in the model's reply, at a given time; none stands for a failed
    /// request or a response without an answer.
    pub fn on_reply(&mut self, reply: Option<ChatMessage>, t: Timestamp) -> (r: Action)
        requires
            old(self).wf(),
            old(self)@.phase == Phase::Reply,
            t.wf(),
            engine_room(old(self)@.engine, 1),
        ensures
            final(self).wf(),
            (final(self)@, r@) == replied(
                old(self)@,
                match reply {
                    Some(m) => Some(m@),
                    None => None,
                },
                t,
            ),
    {
        let m: ChatMessage = match reply {
            Some(m) => m,
            None => {
                return self.stop(StopReason::ApiError, t);
            },
        };
        let calls: Vec<ToolCall> = match &m.tool_calls {
            Some(v) => copy_calls(v),
            None => Vec::new(),
        };
        proof {
            if m.tool_calls is None {
                assert(call_views(calls@) =~= Seq::empty());
            }
        }
        match &m.content {
            Some(c) => {
                if c.as_str().unicode_len() > 0 {
                    match &mut self.engine {
                        Some(e) => {
                            e.on_cot_delta(c.as_str());
                            e.on_cot_end();
                        },
                        None => {},
                    }
                    self.record(StepKind::Assistant, "assistant", c.as_str());
                    self.final_answer = Some(c.clone());
                }
            },
            None => {},
        }
        let ghost u = self@;
        proof {
            assert(u == after_text(old(self)@, m@.content));
        }
        let ghost before = self.messages@;
        self.messages.push(m);
        proof {
            assert(chat_views(self.messages@) =~= chat_views(before).push(m@));
        }
        let done: bool = calls.len() == 0;
        self.pending = calls;
        if done {
            self.stop(StopReason::AssistantFinal, t)
        } else {
            self.proceed(t)
        }
    }

    /// Takes in the outcome of the tool that was called, at a given time: its
    /// output, or the message of its error.
    pub fn on_tool_result(&mut self, outcome: Result<String, String>, t: Timestamp) -> (r: Action)
        requires
            old(self).wf(),
            old(self)@.phase == Phase::Tool,
            t.wf(),
            engine_room(old(self)@.engine, 1),
        ensures
            final(self).wf(),
            (final(self)@, r@) == (match outcome {
                Ok(o) => tool_done(old(self)@, true, o@, t),
                Err(e) => tool_done(old(self)@, false, e@, t),
            }),
            final(self)@.messages.drop_last() == old(self)@.messages,
            final(self)@.messages.last().role == "tool"@,
            final(self)@.messages.last().tool_call_id == Some(old(self)@.pending[0].id),
            final(self)@.messages.last().content == (match outcome {
                Ok(o) => Some(o@),
                Err(e) => Some("tool error: "@ + e@),
            }),
    {
        let ok: bool = outcome.is_ok();
        proof {
            match &outcome {
                Ok(o) => law_tool_output_reaches_the_model(self@, o@, t),
                Err(e) => law_tool_error_reaches_the_model(self@, e@, t),
            }
        }
        let payload: String = match outcome {
            Ok(o) => o,
            Err(e) => {
                let mut s: String = owned("tool error: ");
                s.append(e.as_str());
                s
            },
        };
        let ghost s = self@;
        let c: ToolCall = self.pending.remove(0);
        proof {
            assert(c@ == s.pending[0]);
            assert(self@.pending =~= s.pending.skip(1));
        }
        match &mut self.engine {
            Some(e) => {
                e.on_tool_result_at(c.function.name.as_str(), !ok, t.millis());
            },
            None => {},
        }
        self.record(StepKind::ToolResult, c.function.name.as_str(), payload.as_str());
        let ghost before = self.messages@;
        let m: ChatMessage = ChatMessage::tool(c.id.as_str(), payload.as_str());
        self.messages.push(m);
        proof {
            assert(chat_views(self.messages@) =~= chat_views(before).push(m@));
        }
        self.proceed(t)
    }

    /// The outcome of a stopped run, and the engine that watched it.
    pub fn finish(self) -> (r: Option<(RunOutcome, Option<MetacognitionEngine>)>)
        ensures
            match self@.phase {
                Phase::Stopped(reason) => r matches Some(x) && {
                    &&& x.0.goal@ == self@.goal
                    &&& x.0.persona_name@ == self@.persona_name
                    &&& x.0.stop_reason == reason
                    &&& opt_view(x.0.final_answer) == self@.final_answer
                    &&& step_views(x.0.steps@) == self@.steps
                    &&& opt_engine(x.1) == self@.engine
                },
                _ => r is None,
            },
    {
        match self.phase {
            Phase::Stopped(reason) => Some(
                (
                    RunOutcome {
                        goal: self.goal,
                        persona_name: self.persona_name,
                        stop_reason: reason,
                        final_answer: self.final_answer,
                        steps: self.steps,
                    },
                    self.engine,
                ),
            ),
            _ => None,
        }
    }
}

/// A role and its limits, ready to take on goals.
#[derive(Debug)]
pub struct AgentRunner {
    pub profile: PersonaProfile,
    /// The most iterations of a run.
    pub max_steps: usize,
}

impl AgentRunner {
    /// A runner with at most twelve iterations per run.
    pub fn new(profile: PersonaProfile) -> (r: AgentRunner)
        ensures
            r.profile@ == profile@,
            r.max_steps == 12,
    {
        AgentRunner { profile, max_steps: 12 }
    }

    /// Sets the most iterations of a run, at least one.
    pub fn with_max_steps(self, max_steps: usize) -> (r: AgentRunner)
        ensures
            r.profile@ == self.profile@,
            r.max_steps == if max_steps > 1 {
                max_steps
            } else {
                1
            },
    {
        let mut x: AgentRunner = self;
        x.max_steps = if max_steps > 1 {
            max_steps
        } else {
            1
        };
        x
    }

    /// The system prompt for a goal: the role, the goal, and how to go about
    /// it.
    pub fn compose_system_prompt(&self, goal: &Goal) -> (r: String)
        ensures
            r@ == system_prompt(self.profile@, goal@),
    {
        let mut out: String = owned(self.profile.system_prompt.as_str());
        out.append("\n\n");
        out.append(goal.to_prompt_block().as_str());
        out.append(
            "\n\n# Loop policy\n- Take one step at a time.\n- Prefer calling a tool over guessing.\n- When the goal is met, reply in plain text with the final answer and no further tool calls.",
        );
        out
    }

    /// A run of a goal that is ready to start, watched by an engine where
    /// there is one.
    pub fn run(&self, goal: Goal, engine: Option<MetacognitionEngine>) -> (r: AgentRun)
        requires
            engine is Some ==> self.max_steps <= i32::MAX,
            engine matches Some(e) ==> e.wf(),
        ensures
            r.wf(),
            r@ == started_run(self.profile@, goal@, self.max_steps, opt_engine(engine)),
    {
        let mut g: Goal = goal;
        g.status = GoalStatus::Running;
        let mut watched: Option<MetacognitionEngine> = engine;
        match &mut watched {
            Some(e) => {
                e.on_turn_start(g.objective.as_str());
            },
            None => {},
        }
        let prompt: String = self.compose_system_prompt(&g);
        let mut ask: String = owned("Begin. Goal: ");
        ask.append(g.objective.as_str());
        let mut messages: Vec<ChatMessage> = Vec::new();
        messages.push(ChatMessage::system(prompt.as_str()));
        messages.push(ChatMessage::user(ask.as_str()));
        let r = AgentRun {
            goal: g,
            persona_name: self.profile.name.clone(),
            messages,
            steps: Vec::new(),
            final_answer: None,
            iter: 0,
            max_steps: self.max_steps,
            pending: Vec::new(),
            phase: Phase::Ready,
            engine: watched,
        };
        proof {
            assert(r@.messages =~= started_run(
                self.profile@,
                goal@,
                self.max_steps,
                opt_engine(engine),
            ).messages);
            assert(r@.steps =~= Seq::empty());
            assert(r@.pending =~= Seq::empty());
        }
        r
    }
}

} // verus!
