//! The single entry point that an agent loop talks to. Per turn:
//!
//! ```text
//!   on_turn_start(user_input)
//!   for i in 0..max_iters:
//!     dec = before_next_iteration(i)
//!     if dec.action == Abort: break
//!     // put dec.injection into the next system prompt slot
//!     stream the model's response:
//!       for delta in text: on_cot_delta(delta)
//!       on_cot_end()
//!     for t in tool_uses:
//!       on_tool_use(t.name, canonical(t.input))
//!       run_tool(t)
//!       on_tool_result(t.name, is_error)
//!   on_turn_end()
//! ```
use crate::ambient::now_millis;
use crate::fixed::{fmt_two_decimals, two_decimals};
use crate::metacognition::cot_monitor::{
    after_block, after_call, after_delta, at_iteration_start, default_cot_config, fresh_monitor,
    intervention, CoTConfig, CoTMonitor, CotState,
};
use crate::metacognition::meta_controller::{
    action_name, after_cot_quality, after_decision, after_observation, after_progress,
    after_tool_result, at_turn_start, decision_room, default_config, free_energy, fresh_controller,
    injection_text, is_choice, reason_text, reported, stalled_iteration, ControllerState,
    IterationObservation, MetaAction, MetaConfig, MetaController, MetaDecision, StopReason,
};
use crate::metacognition::schema_reviser::{
    after_failure_event, applies, belief_after_proposal, default_reviser_config, fresh_reviser,
    grouped, kind_name, lemma_groups_small, proposal_fits, proposal_views, proposals_for,
    proposed_proposition, review_due, revisions, store_after_proposal, Failure, FailureEvent, Group,
    Proposal, ReviserConfig, ReviserState, SchemaProposal, SchemaReviser,
};
use crate::metacognition::self_belief::BetaParam;
use crate::metacognition::self_model_store::{
    identified, lemma_prop_index, relevant, rendered, SelfModelStore,
};
use crate::metacognition::self_proposition::Proposition;
use crate::text::{begins, byte_len, dec, ends, fmt_u64, owned};
use vstd::prelude::*;
use vstd::string::*;
use vstd::utf8::*;

verus! {

/// A diagnostic event. The loop collects them with `drain_events`.
#[derive(Debug, Clone)]
pub struct MetacognitionEvent {
    pub kind: String,
    pub detail: String,
}

/// An event as a mathematical value: its kind and its detail.
pub open spec fn event_views(s: Seq<MetacognitionEvent>) -> Seq<(Seq<char>, Seq<char>)> {
    s.map_values(|e: MetacognitionEvent| (e.kind@, e.detail@))
}

#[derive(Debug, Clone, Copy)]
pub struct EngineConfig {
    pub layer1: MetaConfig,
    pub layer2: CoTConfig,
    pub layer4: ReviserConfig,
    pub prompt_top_k: usize,
    pub enable_layer3: bool,
    pub enable_layer4: bool,
}

/// The default configuration.
pub open spec fn default_engine_config() -> EngineConfig {
    EngineConfig {
        layer1: default_config(),
        layer2: default_cot_config(),
        layer4: default_reviser_config(),
        prompt_top_k: 3,
        enable_layer3: true,
        enable_layer4: true,
    }
}

impl Default for EngineConfig {
    fn default() -> (r: EngineConfig)
        ensures
            r == default_engine_config(),
            r.wf(),
    {
        EngineConfig {
            layer1: MetaConfig::default(),
            layer2: CoTConfig::default(),
            layer4: ReviserConfig::default(),
            prompt_top_k: 3,
            enable_layer3: true,
            enable_layer4: true,
        }
    }
}

impl EngineConfig {
    /// Each part of the configuration is valid.
    pub open spec fn wf(&self) -> bool {
        self.layer1.wf() && self.layer2.wf()
    }
}

#[derive(Debug)]
pub struct MetacognitionEngine {
    pub cfg: EngineConfig,
    pub controller: MetaController,
    pub cot: CoTMonitor,
    pub store: SelfModelStore,
    pub reviser: SchemaReviser,
    pub iter: i32,
    pub tool_calls_in_iter: i32,
    pub tool_errors_in_iter: i32,
    pub turn_tool_errors: i32,
    pub turn_tool_calls: i32,
    pub current_task: String,
    pub events: Vec<MetacognitionEvent>,
}

/// What an engine knows, as a mathematical value.
pub struct EngineState {
    pub cfg: EngineConfig,
    pub controller: ControllerState,
    pub cot: CotState,
    pub store: Seq<Proposition>,
    pub reviser: ReviserState,
    pub iter: i32,
    pub tool_calls_in_iter: i32,
    pub tool_errors_in_iter: i32,
    pub turn_tool_errors: i32,
    pub turn_tool_calls: i32,
    pub current_task: Seq<char>,
    pub events: Seq<(Seq<char>, Seq<char>)>,
}

impl View for MetacognitionEngine {
    type V = EngineState;

    open spec fn view(&self) -> EngineState {
        EngineState {
            cfg: self.cfg,
            controller: self.controller@,
            cot: self.cot@,
            store: self.store@,
            reviser: self.reviser@,
            iter: self.iter,
            tool_calls_in_iter: self.tool_calls_in_iter,
            tool_errors_in_iter: self.tool_errors_in_iter,
            turn_tool_errors: self.turn_tool_errors,
            turn_tool_calls: self.turn_tool_calls,
            current_task: self.current_task@,
            events: event_views(self.events@),
        }
    }
}

/// A fresh engine.
pub open spec fn fresh_engine(cfg: EngineConfig) -> EngineState {
    EngineState {
        cfg,
        controller: fresh_controller(cfg.layer1),
        cot: fresh_monitor(cfg.layer2),
        store: Seq::empty(),
        reviser: fresh_reviser(cfg.layer4),
        iter: 0,
        tool_calls_in_iter: 0,
        tool_errors_in_iter: 0,
        turn_tool_errors: 0,
        turn_tool_calls: 0,
        current_task: Seq::empty(),
        events: Seq::empty(),
    }
}

/// The engine at the start of a turn.
pub open spec fn engine_turn_start(s: EngineState, input: Seq<char>) -> EngineState {
    EngineState {
        controller: at_turn_start(s.controller, input),
        cot: fresh_monitor(s.cot.cfg),
        iter: 0,
        tool_calls_in_iter: 0,
        tool_errors_in_iter: 0,
        turn_tool_errors: 0,
        turn_tool_calls: 0,
        current_task: input,
        events: s.events.push(("turn_start"@, "len="@ + dec(encode_utf8(input).len()))),
        ..s
    }
}

/// What a review has changed so far: belief, propositions, events.
pub struct ReviewState {
    pub belief: Seq<(Seq<char>, BetaParam)>,
    pub store: Seq<Proposition>,
    pub events: Seq<(Seq<char>, Seq<char>)>,
}

/// The event that reports an applied proposal.
pub open spec fn revise_event(p: Proposal) -> (Seq<char>, Seq<char>) {
    (
        "schema_revise"@,
        "applied "@ + kind_name(p.kind) + ": "@ + p.name_or_text + " (novelty="@ + two_decimals(
            p.novelty as nat,
        ) + ")"@,
    )
}

/// A review after its first `n` proposals were applied.
pub open spec fn after_proposals(
    cfg: ReviserConfig,
    props: Seq<Proposal>,
    n: nat,
    r: ReviewState,
    now_ms: i64,
) -> ReviewState
    decreases n,
{
    if n == 0 {
        r
    } else {
        let q = after_proposals(cfg, props, (n - 1) as nat, r, now_ms);
        let p = props[n - 1];
        ReviewState {
            belief: belief_after_proposal(cfg, p, q.belief),
            store: store_after_proposal(cfg, p, q.belief, q.store, now_ms),
            events: if applies(cfg, p, q.belief) {
                q.events.push(revise_event(p))
            } else {
                q.events
            },
        }
    }
}

/// The engine at the end of a turn: an episode is counted, and where a
/// review is due its proposals are applied.
pub open spec fn engine_turn_end(s: EngineState, now_ms: i64) -> EngineState {
    if !s.cfg.enable_layer4 {
        s
    } else {
        let counted = ReviserState {
            episode_count: (s.reviser.episode_count + 1) as i32,
            ..s.reviser
        };
        if !review_due(counted) {
            EngineState { reviser: counted, ..s }
        } else {
            let props = revisions(counted, s.controller.belief, s.store);
            let r = after_proposals(
                counted.cfg,
                props,
                props.len(),
                ReviewState {
                    belief: s.controller.belief,
                    store: s.store,
                    events: s.events,
                },
                now_ms,
            );
            EngineState {
                reviser: ReviserState { last_review_episode: counted.episode_count, ..counted },
                controller: ControllerState { belief: r.belief, ..s.controller },
                store: r.store,
                events: r.events,
                ..s
            }
        }
    }
}

/// The engine at the end of a block of reasoning.
pub open spec fn engine_cot_end(s: EngineState) -> EngineState {
    let cot = after_block(s.cot);
    let warned = if cot.low_quality {
        s.events.push(("cot_warn"@, "low_quality q="@ + two_decimals(cot.quality as nat)))
    } else {
        s.events
    };
    EngineState {
        cot,
        controller: after_cot_quality(s.controller, cot.quality),
        events: if cot.loop_detected {
            warned.push(("cot_warn"@, "tool_loop_detected"@))
        } else {
            warned
        },
        ..s
    }
}

/// The engine after a tool was called.
pub open spec fn engine_tool_use(s: EngineState, name: Seq<char>, input: Seq<char>) -> EngineState {
    EngineState {
        cot: after_call(s.cot, name, input),
        tool_calls_in_iter: (s.tool_calls_in_iter + 1) as i32,
        turn_tool_calls: (s.turn_tool_calls + 1) as i32,
        ..s
    }
}

/// The failure that a failed tool leaves behind.
pub open spec fn tool_failure(name: Seq<char>) -> Failure {
    Failure { ts: 0, tool: name, description: name + " failed"@, task_type: Seq::empty() }
}

/// The engine after a tool's outcome.
pub open spec fn engine_tool_result(
    s: EngineState,
    name: Seq<char>,
    is_error: bool,
    now_ms: i64,
) -> EngineState {
    let t = EngineState { controller: after_tool_result(s.controller, name, is_error), ..s };
    if is_error {
        EngineState {
            tool_errors_in_iter: (s.tool_errors_in_iter + 1) as i32,
            turn_tool_errors: (s.turn_tool_errors + 1) as i32,
            reviser: if s.cfg.enable_layer4 {
                after_failure_event(s.reviser, tool_failure(name), now_ms)
            } else {
                s.reviser
            },
            ..t
        }
    } else {
        t
    }
}

/// What the controller is told about the iteration that ends.
pub open spec fn observation_of(s: EngineState, iter_index: i32) -> IterationObservation {
    IterationObservation {
        turn: iter_index,
        tool_calls: s.tool_calls_in_iter,
        tool_errors: s.tool_errors_in_iter,
        any_progress: s.tool_calls_in_iter > 0 && s.tool_errors_in_iter == 0,
        loop_detected: s.cot.loop_detected,
        low_quality_cot: s.cot.low_quality,
        stop_reason: StopReason::Unknown,
    }
}

/// The controller when it decides on the next iteration.
pub open spec fn deciding(s: EngineState, iter_index: i32) -> ControllerState {
    after_observation(s.controller, observation_of(s, iter_index))
}

/// Hundredths of a free energy, rounded to the nearest, ties to the even
/// neighbour.
pub open spec fn efe_hundredths(e: int) -> nat {
    let a = if e < 0 {
        -e
    } else {
        e
    };
    let unit = 100_000_000_000_000_000_000_000_000int;
    let q = a / unit;
    let r = a % unit;
    if 2 * r > unit || (2 * r == unit && q % 2 == 1) {
        (q + 1) as nat
    } else {
        q as nat
    }
}

/// A free energy with two decimals.
pub open spec fn efe_text(e: int) -> Seq<char> {
    let h = efe_hundredths(e);
    (if e < 0 {
        "-"@
    } else {
        ""@
    }) + dec(h / 100) + "."@ + dec((h / 10) % 10) + dec(h % 10)
}

/// The prompt fragment for the next iteration: where the controller would
/// simply act, the monitor's intervention takes its place.
pub open spec fn iteration_injection(s: EngineState, iter_index: i32, a: MetaAction) -> Seq<char> {
    match (a, intervention(s.cot)) {
        (MetaAction::Act, Some(t)) => t,
        _ => injection_text(deciding(s, iter_index), a),
    }
}

/// The reason for the next iteration's action.
pub open spec fn iteration_reason(s: EngineState, iter_index: i32, a: MetaAction) -> Seq<char> {
    let r = reason_text(deciding(s, iter_index), a);
    if a == MetaAction::Act && intervention(s.cot) is Some {
        "cot_intervention; "@ + r
    } else {
        r
    }
}

/// The engine after it decided on the next iteration.
pub open spec fn engine_iteration(s: EngineState, iter_index: i32, a: MetaAction) -> EngineState {
    let c = deciding(s, iter_index);
    let told = if a == MetaAction::Act {
        if intervention(s.cot) is Some {
            s.events.push(("intervention"@, "cot_pathology"@))
        } else {
            s.events
        }
    } else {
        s.events.push(
            ("decision"@, action_name(a) + " efe="@ + efe_text(reported(free_energy(c, a)->0))),
        )
    };
    EngineState {
        controller: after_decision(c, iter_index, a),
        cot: at_iteration_start(s.cot),
        iter: (iter_index + 1) as i32,
        tool_calls_in_iter: 0,
        tool_errors_in_iter: 0,
        events: if a == MetaAction::Abort {
            told.push(("abort"@, reason_text(c, a)))
        } else {
            told
        },
        ..s
    }
}

/// Every entry can be observed `n` more times.
pub open spec fn evidence_room(s: Seq<Proposition>, n: int) -> bool {
    forall|i: int| 0 <= i < s.len() ==> (#[trigger] s[i]).evidence_count <= i32::MAX - 1 - n
}

/// A first iteration is never aborted, whatever was seen before, under the
/// default configuration.
pub proof fn law_first_iteration_not_aborted(s: EngineState, a: MetaAction)
    requires
        s.controller.cfg == default_config(),
        is_choice(deciding(s, 0), a),
    ensures
        a != MetaAction::Abort,
{
    assert(free_energy(deciding(s, 0), MetaAction::Abort) is None);
}

/// Whether a review that sees `n` more failures leaves the evidence counts
/// within their type.
pub open spec fn review_room(s: EngineState, n: int) -> bool {
    let k = s.reviser.failures.len() + n;
    2 * k < i32::MAX && evidence_room(s.store, k)
}

/// Whether a turn can end: the episodes can be counted, and the review, if
/// one is due, has room.
pub open spec fn turn_end_room(s: EngineState) -> bool {
    s.cfg.enable_layer4 ==> {
        let r = ReviserState { episode_count: (s.reviser.episode_count + 1) as i32, ..s.reviser };
        s.reviser.episode_count < i32::MAX && (review_due(r) ==> review_room(s, 0))
    }
}

proof fn lemma_proposals_small(
    cfg: ReviserConfig,
    failures: Seq<Failure>,
    groups: Seq<Group>,
    n: nat,
    b: Seq<(Seq<char>, BetaParam)>,
    s: Seq<Proposition>,
    most: nat,
)
    requires
        n <= groups.len(),
        most <= i32::MAX,
        forall|g: int| 0 <= g < groups.len() ==> (#[trigger] groups[g]).members.len() <= most,
    ensures
        proposals_for(cfg, failures, groups, n, b, s).len() <= n,
        forall|i: int|
            0 <= i < proposals_for(cfg, failures, groups, n, b, s).len() ==> 0 <= (
            #[trigger] proposals_for(cfg, failures, groups, n, b, s)[i]).evidence_count <= most,
    decreases n,
{
    if n > 0 {
        lemma_proposals_small(cfg, failures, groups, (n - 1) as nat, b, s, most);
        assert(groups[n - 1].members.len() <= most);
    }
}

proof fn lemma_room_after(
    cfg: ReviserConfig,
    p: Proposal,
    b: Seq<(Seq<char>, BetaParam)>,
    s: Seq<Proposition>,
    now_ms: i64,
    n: int,
)
    requires
        evidence_room(s, n + 1),
        0 <= n,
        p.evidence_count <= i32::MAX - 1 - n,
    ensures
        proposal_fits(cfg, p, b, s),
        evidence_room(store_after_proposal(cfg, p, b, s, now_ms), n),
{
    let q = identified(proposed_proposition(p, now_ms));
    lemma_prop_index(s, q.id);
    let t = store_after_proposal(cfg, p, b, s, now_ms);
    assert forall|i: int| 0 <= i < t.len() implies (#[trigger] t[i]).evidence_count <= i32::MAX - 1
        - n by {
        if i < s.len() {
            assert(s[i].evidence_count <= i32::MAX - 2 - n);
        }
    }
}

/// Formats a free energy with two decimals.
fn fmt_efe(e: i128) -> (r: String)
    ensures
        r@ == efe_text(e as int),
{
    let a: u128 = if e < 0 {
        (-(e + 1)) as u128 + 1
    } else {
        e as u128
    };
    let unit: u128 = 100_000_000_000_000_000_000_000_000;
    let q: u128 = a / unit;
    let rest: u128 = a % unit;
    let h: u64 = if 2 * rest > unit || (2 * rest == unit && q % 2 == 1) {
        (q + 1) as u64
    } else {
        q as u64
    };
    let mut s: String = owned(
        if e < 0 {
            "-"
        } else {
            ""
        },
    );
    s.append(fmt_u64(h / 100).as_str());
    s.append(".");
    s.append(fmt_u64((h / 10) % 10).as_str());
    s.append(fmt_u64(h % 10).as_str());
    s
}

impl Default for MetacognitionEngine {
    fn default() -> (r: MetacognitionEngine)
        ensures
            r.wf(),
            r@ == fresh_engine(default_engine_config()),
    {
        MetacognitionEngine::with_config(EngineConfig::default())
    }
}

impl MetacognitionEngine {
    /// The invariant: each layer's own.
    pub open spec fn wf(&self) -> bool {
        &&& self.controller.wf()
        &&& self.cot.wf()
        &&& self.reviser.wf()
    }

    pub fn new() -> (r: MetacognitionEngine)
        ensures
            r.wf(),
            r@ == fresh_engine(default_engine_config()),
    {
        MetacognitionEngine::with_config(EngineConfig::default())
    }

    pub fn with_config(cfg: EngineConfig) -> (r: MetacognitionEngine)
        requires
            cfg.wf(),
        ensures
            r.wf(),
            r@ == fresh_engine(cfg),
    {
        let r = MetacognitionEngine {
            cfg,
            controller: MetaController::with_config(cfg.layer1),
            cot: CoTMonitor::with_config(cfg.layer2),
            store: SelfModelStore::new(),
            reviser: SchemaReviser::with_config(cfg.layer4),
            iter: 0,
            tool_calls_in_iter: 0,
            tool_errors_in_iter: 0,
            turn_tool_errors: 0,
            turn_tool_calls: 0,
            current_task: String::new(),
            events: Vec::new(),
        };
        proof {
            assert(r@.events =~= Seq::empty());
        }
        r
    }

    pub fn config(&self) -> (r: &EngineConfig)
        ensures
            *r == self.cfg,
    {
        &self.cfg
    }

    pub fn controller(&self) -> (r: &MetaController)
        ensures
            *r == self.controller,
    {
        &self.controller
    }

    pub fn controller_mut(&mut self) -> (r: &mut MetaController)
        ensures
            *r == old(self).controller,
            final(self)@ == (EngineState { controller: final(r)@, ..old(self)@ }),
    {
        &mut self.controller
    }

    pub fn cot(&self) -> (r: &CoTMonitor)
        ensures
            *r == self.cot,
    {
        &self.cot
    }

    pub fn store(&self) -> (r: &SelfModelStore)
        ensures
            *r == self.store,
    {
        &self.store
    }

    pub fn store_mut(&mut self) -> (r: &mut SelfModelStore)
        ensures
            *r == old(self).store,
            final(self)@ == (EngineState { store: final(r)@, ..old(self)@ }),
    {
        &mut self.store
    }

    pub fn reviser(&self) -> (r: &SchemaReviser)
        ensures
            *r == self.reviser,
    {
        &self.reviser
    }

    pub fn reviser_mut(&mut self) -> (r: &mut SchemaReviser)
        ensures
            *r == old(self).reviser,
            final(self)@ == (EngineState { reviser: final(r)@, ..old(self)@ }),
    {
        &mut self.reviser
    }

    /// Hands over the diagnostic events gathered so far.
    pub fn drain_events(&mut self) -> (r: Vec<MetacognitionEvent>)
        requires
            old(self).wf(),
        ensures
            final(self).wf(),
            event_views(r@) == old(self)@.events,
            final(self)@ == (EngineState { events: Seq::empty(), ..old(self)@ }),
    {
        let mut out: Vec<MetacognitionEvent> = Vec::new();
        core::mem::swap(&mut out, &mut self.events);
        proof {
            assert(self@.events =~= Seq::empty());
        }
        out
    }

    fn emit(&mut self, kind: &str, detail: String)
        ensures
            final(self)@ == (EngineState {
                events: old(self)@.events.push((kind@, detail@)),
                ..old(self)@
            }),
            old(self).wf() ==> final(self).wf(),
    {
        self.events.push(MetacognitionEvent { kind: owned(kind), detail });
        proof {
            assert(self@.events =~= old(self)@.events.push((kind@, detail@)));
        }
    }

    pub fn on_turn_start(&mut self, user_input: &str)
        requires
            old(self).wf(),
        ensures
            final(self).wf(),
            final(self)@ == engine_turn_start(old(self)@, user_input@),
    {
        self.controller.on_turn_start(user_input);
        self.cot.on_turn_start();
        self.iter = 0;
        self.tool_calls_in_iter = 0;
        self.tool_errors_in_iter = 0;
        self.turn_tool_errors = 0;
        self.turn_tool_calls = 0;
        self.current_task = owned(user_input);
        let mut d: String = owned("len=");
        d.append(fmt_u64(byte_len(user_input) as u64).as_str());
        self.emit("turn_start", d);
    }

    /// Ends a turn as of now. Returns whether the propositions are to be
    /// saved.
    pub fn on_turn_end(&mut self) -> (save: bool)
        requires
            old(self).wf(),
            turn_end_room(old(self)@),
        ensures
            final(self).wf(),
            exists|now_ms: i64| final(self)@ == #[trigger] engine_turn_end(old(self)@, now_ms),
            save == old(self)@.cfg.enable_layer3,
    {
        let t: i64 = now_millis();
        self.on_turn_end_at(t)
    }

    /// Ends a turn as of a given time.
    pub fn on_turn_end_at(&mut self, now_ms: i64) -> (save: bool)
        requires
            old(self).wf(),
            turn_end_room(old(self)@),
        ensures
            final(self).wf(),
            final(self)@ == engine_turn_end(old(self)@, now_ms),
            save == old(self)@.cfg.enable_layer3,
    {
        if self.cfg.enable_layer4 {
            self.reviser.note_episode_complete();
            if self.reviser.should_review() {
                self.review(now_ms);
            }
        }
        self.cfg.enable_layer3
    }

    fn review(&mut self, now_ms: i64)
        requires
            old(self).wf(),
            review_room(old(self)@, 0),
        ensures
            final(self).wf(),
            ({
                let s = old(self)@;
                let props = revisions(s.reviser, s.controller.belief, s.store);
                let r = after_proposals(
                    s.reviser.cfg,
                    props,
                    props.len(),
                    ReviewState {
                        belief: s.controller.belief,
                        store: s.store,
                        events: s.events,
                    },
                    now_ms,
                );
                final(self)@ == EngineState {
                    reviser: ReviserState {
                        last_review_episode: s.reviser.episode_count,
                        ..s.reviser
                    },
                    controller: ControllerState { belief: r.belief, ..s.controller },
                    store: r.store,
                    events: r.events,
                    ..s
                }
            }),
    {
        let ghost s = self@;
        let ghost cfg = s.reviser.cfg;
        let ghost start = ReviewState {
            belief: s.controller.belief,
            store: s.store,
            events: s.events,
        };
        proof {
            let fs = s.reviser.failures;
            let th = cfg.cluster_jaccard_thresh as nat;
            let groups = grouped(fs, fs.len(), th);
            lemma_groups_small(fs, fs.len(), th);
            lemma_proposals_small(
                cfg,
                fs,
                groups,
                groups.len(),
                s.controller.belief,
                s.store,
                fs.len(),
            );
        }
        let props: Vec<SchemaProposal> = self.reviser.propose_revisions(
            &self.controller.belief,
            &self.store,
        );
        let ghost pv = proposal_views(props@);
        let n: usize = props.len();
        for i in 0..n
            invariant
                n == props@.len(),
                pv == proposal_views(props@),
                n <= s.reviser.failures.len(),
                2 * s.reviser.failures.len() < i32::MAX,
                forall|k: int|
                    0 <= k < pv.len() ==> (#[trigger] pv[k]).evidence_count
                        <= s.reviser.failures.len(),
                self.wf(),
                cfg == self.reviser.cfg,
                evidence_room(self@.store, n - i),
                ({
                    let r = after_proposals(cfg, pv, i as nat, start, now_ms);
                    self@ == EngineState {
                        reviser: ReviserState {
                            last_review_episode: s.reviser.episode_count,
                            ..s.reviser
                        },
                        controller: ControllerState { belief: r.belief, ..s.controller },
                        store: r.store,
                        events: r.events,
                        ..s
                    }
                }),
        {
            let ghost q = after_proposals(cfg, pv, i as nat, start, now_ms);
            let p: &SchemaProposal = &props[i];
            proof {
                assert(pv[i as int] == p@);
                lemma_room_after(cfg, p@, q.belief, q.store, now_ms, n - i - 1);
            }
            let applied: bool = self.reviser.apply_at(
                p,
                &mut self.controller.belief,
                &mut self.store,
                now_ms,
            );
            if applied {
                let mut d: String = owned("applied ");
                d.append(p.kind.name());
                d.append(": ");
                d.append(p.name_or_text.as_str());
                d.append(" (novelty=");
                d.append(fmt_two_decimals(p.novelty).as_str());
                d.append(")");
                self.emit("schema_revise", d);
            }
        }
    }

    pub fn on_cot_delta(&mut self, delta: &str)
        requires
            old(self).wf(),
        ensures
            final(self).wf(),
            final(self)@ == (EngineState {
                cot: after_delta(old(self)@.cot, delta@),
                ..old(self)@
            }),
    {
        self.cot.on_cot_delta(delta);
    }

    pub fn on_cot_end(&mut self)
        requires
            old(self).wf(),
        ensures
            final(self).wf(),
            final(self)@ == engine_cot_end(old(self)@),
    {
        self.cot.on_cot_block_end();
        let q: u64 = self.cot.quality();
        self.controller.observe_cot_quality(q);
        if self.cot.low_quality() {
            let mut d: String = owned("low_quality q=");
            d.append(fmt_two_decimals(q).as_str());
            self.emit("cot_warn", d);
        }
        if self.cot.loop_detected() {
            self.emit("cot_warn", owned("tool_loop_detected"));
        }
    }

    pub fn on_tool_use(&mut self, name: &str, input_canonical: &str)
        requires
            old(self).wf(),
            old(self)@.tool_calls_in_iter < i32::MAX,
            old(self)@.turn_tool_calls < i32::MAX,
        ensures
            final(self).wf(),
            final(self)@ == engine_tool_use(old(self)@, name@, input_canonical@),
    {
        self.cot.on_tool_call(name, input_canonical);
        self.tool_calls_in_iter = self.tool_calls_in_iter + 1;
        self.turn_tool_calls = self.turn_tool_calls + 1;
    }

    /// Takes in a tool's outcome as of now.
    pub fn on_tool_result(&mut self, name: &str, is_error: bool)
        requires
            old(self).wf(),
            is_error ==> old(self)@.controller.consecutive_errors < i32::MAX
                && old(self)@.tool_errors_in_iter < i32::MAX && old(self)@.turn_tool_errors
                < i32::MAX,
        ensures
            final(self).wf(),
            exists|now_ms: i64|
                final(self)@ == #[trigger] engine_tool_result(old(self)@, name@, is_error, now_ms),
    {
        let t: i64 = now_millis();
        self.on_tool_result_at(name, is_error, t);
    }

    /// Takes in a tool's outcome as of a given time.
    pub fn on_tool_result_at(&mut self, name: &str, is_error: bool, now_ms: i64)
        requires
            old(self).wf(),
            is_error ==> old(self)@.controller.consecutive_errors < i32::MAX
                && old(self)@.tool_errors_in_iter < i32::MAX && old(self)@.turn_tool_errors
                < i32::MAX,
        ensures
            final(self).wf(),
            final(self)@ == engine_tool_result(old(self)@, name@, is_error, now_ms),
    {
        self.controller.observe_tool_result(name, is_error);
        if is_error {
            self.tool_errors_in_iter = self.tool_errors_in_iter + 1;
            self.turn_tool_errors = self.turn_tool_errors + 1;
            if self.cfg.enable_layer4 {
                let mut d: String = owned(name);
                d.append(" failed");
                self.reviser.record_failure_at(
                    FailureEvent {
                        ts: 0,
                        tool: owned(name),
                        description: d,
                        task_type: String::new(),
                    },
                    now_ms,
                );
            }
        }
    }

    pub fn observe_progress(&mut self, made: bool)
        requires
            old(self).wf(),
        ensures
            final(self).wf(),
            final(self)@ == (EngineState {
                controller: after_progress(old(self)@.controller, made),
                ..old(self)@
            }),
    {
        self.controller.observe_progress(made);
    }

    /// Tells the controller about the iteration that ends, and decides on
    /// the next one.
    pub fn before_next_iteration(&mut self, iter_index: i32) -> (d: MetaDecision)
        requires
            old(self).wf(),
            iter_index < i32::MAX,
            stalled_iteration(observation_of(old(self)@, iter_index))
                ==> old(self)@.controller.stall_count < i32::MAX,
            decision_room(deciding(old(self)@, iter_index)),
        ensures
            final(self).wf(),
            is_choice(deciding(old(self)@, iter_index), d.action),
            d.efe_score == reported(free_energy(deciding(old(self)@, iter_index), d.action)->0),
            d.injection@ == iteration_injection(old(self)@, iter_index, d.action),
            d.reason@ == iteration_reason(old(self)@, iter_index, d.action),
            final(self)@ == engine_iteration(old(self)@, iter_index, d.action),
    {
        let ghost s = self@;
        let obs = IterationObservation {
            turn: iter_index,
            tool_calls: self.tool_calls_in_iter,
            tool_errors: self.tool_errors_in_iter,
            any_progress: self.tool_calls_in_iter > 0 && self.tool_errors_in_iter == 0,
            loop_detected: self.cot.loop_detected(),
            low_quality_cot: self.cot.low_quality(),
            stop_reason: StopReason::Unknown,
        };
        self.controller.record_observation(&obs);
        let mut decision: MetaDecision = self.controller.decide(iter_index);
        match decision.action {
            MetaAction::Act => {
                match self.cot.propose_intervention() {
                    Some(inj) => {
                        let mut r: String = owned("cot_intervention; ");
                        r.append(decision.reason.as_str());
                        decision.injection = inj;
                        decision.reason = r;
                        self.emit("intervention", owned("cot_pathology"));
                    },
                    None => {},
                }
            },
            _ => {
                let mut t: String = owned(decision.action.as_str());
                t.append(" efe=");
                t.append(fmt_efe(decision.efe_score).as_str());
                self.emit("decision", t);
            },
        }
        match decision.action {
            MetaAction::Abort => {
                let r: String = decision.reason.clone();
                self.emit("abort", r);
            },
            _ => {},
        }
        self.iter = iter_index + 1;
        self.tool_calls_in_iter = 0;
        self.tool_errors_in_iter = 0;
        self.cot.reset_iteration();
        decision
    }

    /// A markdown block for the system prompt; empty where self-knowledge is
    /// disabled or nothing is relevant.
    pub fn self_model_prompt_section(&self) -> (r: String)
        requires
            self.wf(),
        ensures
            r@ == if self@.cfg.enable_layer3 {
                rendered(relevant(self@.store, self@.current_task, self@.cfg.prompt_top_k as nat))
            } else {
                Seq::empty()
            },
    {
        if !self.cfg.enable_layer3 {
            return String::new();
        }
        self.store.render_for_prompt(self.current_task.as_str(), self.cfg.prompt_top_k)
    }

    /// How many tools were called in this turn, and how many failed.
    pub fn turn_tool_stats(&self) -> (r: (i32, i32))
        ensures
            r == (self@.turn_tool_calls, self@.turn_tool_errors),
    {
        (self.turn_tool_calls, self.turn_tool_errors)
    }
}

/// A failed tool is counted for the iteration and the turn, is remembered as
/// a failure of that tool where revision is on, and raises the row of errors;
/// a successful one ends the row and leaves no failure.
pub proof fn law_tool_outcome_is_noted(s: EngineState, name: Seq<char>, now_ms: i64)
    requires
        s.tool_errors_in_iter < i32::MAX,
        s.turn_tool_errors < i32::MAX,
        s.controller.consecutive_errors < i32::MAX,
        s.reviser.cfg.max_failures_buffer > 0,
    ensures
        ({
            let bad = engine_tool_result(s, name, true, now_ms);
            let good = engine_tool_result(s, name, false, now_ms);
            &&& bad.tool_errors_in_iter == s.tool_errors_in_iter + 1
            &&& bad.turn_tool_errors == s.turn_tool_errors + 1
            &&& bad.controller.consecutive_errors == s.controller.consecutive_errors + 1
            &&& s.cfg.enable_layer4 ==> bad.reviser.failures.last().tool == name
                && bad.reviser.failures.last().ts == now_ms
            &&& !s.cfg.enable_layer4 ==> bad.reviser == s.reviser
            &&& good.tool_errors_in_iter == s.tool_errors_in_iter
            &&& good.turn_tool_errors == s.turn_tool_errors
            &&& good.controller.consecutive_errors == 0
            &&& good.reviser == s.reviser
        }),
{
}

/// A tool call is counted once for the iteration and once for the turn.
pub proof fn law_tool_call_is_counted(s: EngineState, name: Seq<char>, input: Seq<char>)
    requires
        s.tool_calls_in_iter < i32::MAX,
        s.turn_tool_calls < i32::MAX,
    ensures
        engine_tool_use(s, name, input).tool_calls_in_iter == s.tool_calls_in_iter + 1,
        engine_tool_use(s, name, input).turn_tool_calls == s.turn_tool_calls + 1,
        engine_tool_use(s, name, input).tool_errors_in_iter == s.tool_errors_in_iter,
        engine_tool_use(s, name, input).controller == s.controller,
{
}

/// What the controller hears of an iteration: progress is made where tools
/// were called and none failed, and loops and poor reasoning are passed on.
pub proof fn law_iteration_is_reported(s: EngineState, i: i32)
    ensures
        ({
            let o = observation_of(s, i);
            &&& o.turn == i
            &&& o.tool_calls == s.tool_calls_in_iter
            &&& o.tool_errors == s.tool_errors_in_iter
            &&& o.any_progress <==> s.tool_calls_in_iter > 0 && s.tool_errors_in_iter == 0
            &&& o.loop_detected == s.cot.loop_detected
            &&& o.low_quality_cot == s.cot.low_quality
        }),
{
}

/// A new turn clears what belongs to the turn and keeps what was learnt: the
/// belief, the propositions and the failures.
pub proof fn law_turn_start_keeps_knowledge(s: EngineState, input: Seq<char>)
    ensures
        ({
            let t = engine_turn_start(s, input);
            &&& t.controller.belief == s.controller.belief
            &&& t.store == s.store
            &&& t.reviser == s.reviser
            &&& t.current_task == input
            &&& t.controller.last_user_input == input
            &&& t.tool_calls_in_iter == 0 && t.tool_errors_in_iter == 0 && t.turn_tool_errors == 0
                && t.turn_tool_calls == 0
            &&& t.controller.consecutive_errors == 0 && t.controller.stall_count == 0
            &&& t.cot.steps.len() == 0 && t.cot.tools.len() == 0 && !t.cot.loop_detected
        }),
{
}

/// The end of a turn counts an episode where revision is on. Without a review
/// nothing else changes; a review is noted, so that the next one waits.
pub proof fn law_turn_end_counts_an_episode(s: EngineState, now_ms: i64)
    requires
        s.reviser.episode_count < i32::MAX,
    ensures
        ({
            let t = engine_turn_end(s, now_ms);
            let counted = ReviserState {
                episode_count: (s.reviser.episode_count + 1) as i32,
                ..s.reviser
            };
            &&& !s.cfg.enable_layer4 ==> t == s
            &&& s.cfg.enable_layer4 ==> t.reviser.episode_count == s.reviser.episode_count + 1
                && t.reviser.failures == s.reviser.failures
            &&& s.cfg.enable_layer4 && !review_due(counted) ==> t.store == s.store
                && t.controller == s.controller && t.events == s.events
                && t.reviser.last_review_episode == s.reviser.last_review_episode
            &&& s.cfg.enable_layer4 && review_due(counted) ==> t.reviser.last_review_episode
                == s.reviser.episode_count + 1
        }),
{
}

/// The end of a block of reasoning tells the controller its quality, and
/// warns of poor reasoning and of loops, in that order, and of nothing else.
pub proof fn law_reasoning_is_judged(s: EngineState)
    ensures
        ({
            let t = engine_cot_end(s);
            let n = t.events.len() - s.events.len();
            &&& t.controller == after_cot_quality(s.controller, t.cot.quality)
            &&& n == (if t.cot.low_quality {
                1int
            } else {
                0
            }) + (if t.cot.loop_detected {
                1int
            } else {
                0
            })
            &&& forall|i: int|
                s.events.len() <= i < t.events.len() ==> (#[trigger] t.events[i]).0 == "cot_warn"@
            &&& t.store == s.store
        }),
{
}

/// The decision closes the iteration: its counts start anew and its flags
/// are lowered, while what was seen of steps and calls stays.
pub proof fn law_decision_closes_the_iteration(s: EngineState, i: i32, a: MetaAction)
    requires
        i < i32::MAX,
    ensures
        ({
            let t = engine_iteration(s, i, a);
            &&& t.iter == i + 1
            &&& t.tool_calls_in_iter == 0
            &&& t.tool_errors_in_iter == 0
            &&& t.turn_tool_calls == s.turn_tool_calls
            &&& !t.cot.loop_detected && !t.cot.low_quality
            &&& t.cot.steps == s.cot.steps
            &&& t.cot.tools == s.cot.tools
            &&& t.store == s.store
            &&& a == MetaAction::Act && intervention(s.cot) is None ==> t.events == s.events
            &&& a != MetaAction::Act ==> t.events.len() > s.events.len()
                && t.events[s.events.len() as int].0 == "decision"@
        }),
{
}

/// Where the controller would simply act, what the monitor has to say is put
/// before the model; any other decision speaks for itself.
pub proof fn law_monitor_speaks_when_acting(s: EngineState, i: i32, a: MetaAction)
    ensures
        a == MetaAction::Act && intervention(s.cot) is Some ==> iteration_injection(s, i, a)
            == intervention(s.cot)->0,
        a == MetaAction::Act && intervention(s.cot) is None ==> iteration_injection(s, i, a).len()
            == 0,
        a != MetaAction::Act ==> iteration_injection(s, i, a) == injection_text(deciding(s, i), a),
{
}

/// A free energy is shown as the nearest number of hundredths, with its
/// sign: what is shown is at most half a hundredth away.
pub proof fn law_energy_is_shown_to_the_hundredth(e: int)
    ensures
        e >= 0 ==> 2 * e <= 200_000_000_000_000_000_000_000_000 * efe_hundredths(e)
            + 100_000_000_000_000_000_000_000_000,
        e >= 0 ==> 200_000_000_000_000_000_000_000_000 * efe_hundredths(e) <= 2 * e
            + 100_000_000_000_000_000_000_000_000,
        efe_hundredths(-e) == efe_hundredths(e),
        e < 0 ==> efe_text(e) == "-"@ + efe_text(-e),
{
    reveal_strlit("");
    if e < 0 {
        assert(efe_text(e) =~= "-"@ + efe_text(-e));
    }
}

/// A proposal that applies is reported with its kind and its words, one that
/// does not is not, and both in their turn.
pub proof fn law_applied_proposals_are_reported(
    cfg: ReviserConfig,
    props: Seq<Proposal>,
    p: Proposal,
    r: ReviewState,
    now_ms: i64,
)
    ensures
        ({
            let before = after_proposals(cfg, props.push(p), props.len(), r, now_ms);
            let after = after_proposals(cfg, props.push(p), props.len() + 1, r, now_ms);
            &&& applies(cfg, p, before.belief) ==> after.events.len() == before.events.len() + 1
                && after.events.drop_last() == before.events && after.events.last().0
                == "schema_revise"@ && begins(
                after.events.last().1,
                "applied "@ + kind_name(p.kind) + ": "@ + p.name_or_text,
            )
            &&& !applies(cfg, p, before.belief) ==> after.events == before.events
        }),
{
    let before = after_proposals(cfg, props.push(p), props.len(), r, now_ms);
    let after = after_proposals(cfg, props.push(p), props.len() + 1, r, now_ms);
    let a = "applied "@ + kind_name(p.kind) + ": "@ + p.name_or_text;
    if applies(cfg, p, before.belief) {
        assert(after.events.drop_last() =~= before.events);
        assert(after.events.last().1.take(a.len() as int) =~= a);
    }
}

/// The failure of a tool names the tool and says that it failed.
pub proof fn law_failure_names_its_tool(name: Seq<char>)
    ensures
        tool_failure(name).tool == name,
        tool_failure(name).description == name + " failed"@,
        tool_failure(name).task_type.len() == 0,
{
}

/// The reason for an action is the controller's; where the monitor speaks
/// before an action, that is said first.
pub proof fn law_reason_tells_who_speaks(s: EngineState, iter_index: i32, a: MetaAction)
    ensures
        ends(iteration_reason(s, iter_index, a), reason_text(deciding(s, iter_index), a)),
        a == MetaAction::Act && intervention(s.cot) is Some ==> begins(
            iteration_reason(s, iter_index, a),
            "cot_intervention; "@,
        ),
        a != MetaAction::Act || intervention(s.cot) is None ==> iteration_reason(s, iter_index, a)
            == reason_text(deciding(s, iter_index), a),
{
    let r = reason_text(deciding(s, iter_index), a);
    let t = iteration_reason(s, iter_index, a);
    assert(t.skip(t.len() - r.len()) =~= r);
    let c = "cot_intervention; "@;
    if a == MetaAction::Act && intervention(s.cot) is Some {
        assert(t.take(c.len() as int) =~= c);
    }
}

} // verus!
