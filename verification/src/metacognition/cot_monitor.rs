//! Process monitoring: a sliding window over the reasoning trace and the
//! tool calls.
//!
//! It detects a step that repeats an earlier one, steps that are all very
//! short, and a tool called again with the same input, and gives a quality
//! between zero and one, in billionths.
use crate::fixed::{HALF, ONE};
use crate::text::{chars_of, collapsed, lemma_views_push, normalize, normalized, owned, same, views};
use crate::window::{drop_oldest, keep_last};
use vstd::prelude::*;

verus! {

#[derive(Debug, Clone, Copy)]
pub struct CoTConfig {
    pub step_min_chars: usize,
    pub repeat_window: usize,
    pub loop_window: usize,
    /// In billionths.
    pub low_quality_thresh: u64,
    pub enable_injection: bool,
}

/// The default configuration.
pub open spec fn default_cot_config() -> CoTConfig {
    CoTConfig {
        step_min_chars: 60,
        repeat_window: 4,
        loop_window: 5,
        low_quality_thresh: 400_000_000,
        enable_injection: true,
    }
}

impl Default for CoTConfig {
    fn default() -> (r: CoTConfig)
        ensures
            r == default_cot_config(),
    {
        CoTConfig {
            step_min_chars: 60,
            repeat_window: 4,
            loop_window: 5,
            low_quality_thresh: 400_000_000,
            enable_injection: true,
        }
    }
}

impl CoTConfig {
    /// The repeat window leaves room for the step that is compared.
    pub open spec fn wf(&self) -> bool {
        self.repeat_window < usize::MAX
    }
}

#[derive(Debug)]
pub struct CoTMonitor {
    pub cfg: CoTConfig,
    pub current_buf: Vec<char>,
    pub recent_steps: Vec<String>,
    pub recent_tools: Vec<String>,
    pub loop_detected: bool,
    pub low_quality: bool,
    pub any_text: bool,
    pub last_quality: u64,
}

/// What a monitor knows, as a mathematical value.
pub struct CotState {
    pub cfg: CoTConfig,
    pub buf: Seq<char>,
    pub steps: Seq<Seq<char>>,
    pub tools: Seq<Seq<char>>,
    pub loop_detected: bool,
    pub low_quality: bool,
    pub any_text: bool,
    pub quality: u64,
}

impl View for CoTMonitor {
    type V = CotState;

    open spec fn view(&self) -> CotState {
        CotState {
            cfg: self.cfg,
            buf: self.current_buf@,
            steps: views(self.recent_steps@),
            tools: views(self.recent_tools@),
            loop_detected: self.loop_detected,
            low_quality: self.low_quality,
            any_text: self.any_text,
            quality: self.last_quality,
        }
    }
}

/// A monitor that has seen nothing.
pub open spec fn fresh_monitor(cfg: CoTConfig) -> CotState {
    CotState {
        cfg,
        buf: Seq::empty(),
        steps: Seq::empty(),
        tools: Seq::empty(),
        loop_detected: false,
        low_quality: false,
        any_text: false,
        quality: HALF,
    }
}

/// A monitor at the start of an iteration: the history of steps and tool
/// calls stays.
pub open spec fn at_iteration_start(s: CotState) -> CotState {
    CotState {
        buf: Seq::empty(),
        loop_detected: false,
        low_quality: false,
        any_text: false,
        quality: HALF,
        ..s
    }
}

/// The steps after one more: normalised, dropped when nothing is left of it,
/// and the oldest dropped beyond the window.
pub open spec fn committed(steps: Seq<Seq<char>>, step: Seq<char>, window: nat) -> Seq<Seq<char>> {
    let n = normalized(step);
    if n.len() == 0 {
        steps
    } else {
        keep_last(steps.push(n), window + 1)
    }
}

/// The first position from `i` on at which a blank line begins, or the
/// length when there is none.
pub open spec fn blank_from(s: Seq<char>, i: int) -> int
    decreases s.len() - i,
{
    if i + 1 >= s.len() {
        s.len() as int
    } else if s[i] == '\n' && s[i + 1] == '\n' {
        i
    } else {
        blank_from(s, i + 1)
    }
}

/// The steps and the open text after every step that a blank line closes was
/// committed.
pub open spec fn flushed(steps: Seq<Seq<char>>, buf: Seq<char>, window: nat) -> (
    Seq<Seq<char>>,
    Seq<char>,
)
    decreases buf.len(),
{
    let i = blank_from(buf, 0);
    if i < 0 || i + 2 > buf.len() {
        (steps, buf)
    } else {
        flushed(committed(steps, buf.take(i), window), buf.skip(i + 2), window)
    }
}

/// The monitor after a piece of text.
pub open spec fn after_delta(s: CotState, delta: Seq<char>) -> CotState {
    let (steps, buf) = flushed(s.steps, s.buf + delta, s.cfg.repeat_window as nat);
    CotState { steps, buf, any_text: s.any_text || delta.len() > 0, ..s }
}

/// Whether the last step equals one of the `window` before it.
pub open spec fn repeats(steps: Seq<Seq<char>>, window: nat) -> bool {
    exists|j: int|
        0 <= j < steps.len() - 1 && j >= steps.len() - 1 - window && #[trigger] steps[j]
            == steps.last()
}

/// Whether there are `window` steps at the end and all of them are shorter
/// than `min`.
pub open spec fn all_short(steps: Seq<Seq<char>>, window: nat, min: nat) -> bool {
    &&& 0 < window <= steps.len()
    &&& forall|j: int|
        steps.len() - window <= j < steps.len() ==> (#[trigger] steps[j]).len() < min
}

/// The quality of the trace: one, less 0.5 for a repeated step and less 0.3
/// for short steps; one half where there was no text.
pub open spec fn quality_of(s: CotState) -> u64 {
    let w = s.cfg.repeat_window as nat;
    let short = all_short(s.steps, w, s.cfg.step_min_chars as nat);
    if !s.any_text {
        HALF
    } else if repeats(s.steps, w) {
        if short {
            200_000_000
        } else {
            HALF
        }
    } else if short {
        700_000_000
    } else {
        ONE
    }
}

/// The monitor after its quality was computed anew.
pub open spec fn with_quality(s: CotState) -> CotState {
    CotState {
        quality: quality_of(s),
        low_quality: quality_of(s) < s.cfg.low_quality_thresh,
        ..s
    }
}

/// The monitor at the end of a block: open text becomes the last step.
pub open spec fn after_block(s: CotState) -> CotState {
    let t = if s.buf.len() > 0 {
        CotState {
            buf: Seq::empty(),
            steps: committed(s.steps, s.buf, s.cfg.repeat_window as nat),
            ..s
        }
    } else {
        s
    };
    with_quality(t)
}

/// How a tool call is remembered.
pub open spec fn call_key(name: Seq<char>, input: Seq<char>) -> Seq<char> {
    name + "|"@ + input
}

/// The monitor after a tool call.
pub open spec fn after_call(s: CotState, name: Seq<char>, input: Seq<char>) -> CotState {
    CotState {
        loop_detected: s.loop_detected || s.tools.contains(call_key(name, input)),
        tools: keep_last(s.tools.push(call_key(name, input)), s.cfg.loop_window as nat),
        ..s
    }
}

/// The sentence against repeating a tool call.
pub open spec fn loop_text() -> Seq<char> {
    "[Metacognition / process] You are about to call a tool with effectively the same input as a very recent attempt that did not advance the task. Before the next action, briefly state in one line: (a) what changed since the prior attempt, and (b) what concretely different thing you will try now."@
}

/// The sentence against thin reasoning.
pub open spec fn thin_text() -> Seq<char> {
    "[Metacognition / process] Your recent reasoning steps look thin or repetitive. Please write one substantive next step (≥ 2 sentences) describing concretely what you will try and why."@
}

/// What the monitor would say to the model.
pub open spec fn intervention(s: CotState) -> Option<Seq<char>> {
    if !s.cfg.enable_injection {
        None
    } else if s.loop_detected {
        Some(loop_text())
    } else if s.low_quality {
        Some(thin_text())
    } else {
        None
    }
}

/// Calling a tool twice in a row with the same input is detected as a loop,
/// unless the window is empty.
pub proof fn law_repeated_call_detected(s: CotState, name: Seq<char>, input: Seq<char>)
    requires
        s.cfg.loop_window > 0,
    ensures
        after_call(after_call(s, name, input), name, input).loop_detected,
{
    let k = call_key(name, input);
    let one = after_call(s, name, input).tools;
    let all = s.tools.push(k);
    assert(one.last() == k);
    assert(one[one.len() - 1] == k);
}

/// The history never outgrows its windows.
pub proof fn law_history_bounded(s: CotState, name: Seq<char>, input: Seq<char>, step: Seq<char>)
    ensures
        after_call(s, name, input).tools.len() <= s.cfg.loop_window,
        s.steps.len() <= s.cfg.repeat_window + 1 ==> committed(
            s.steps,
            step,
            s.cfg.repeat_window as nat,
        ).len() <= s.cfg.repeat_window + 1,
{
}

proof fn lemma_blank_prefix(x: Seq<char>, b: Seq<char>, i: int)
    requires
        0 <= i <= x.len(),
        blank_from(x, i) < x.len(),
    ensures
        blank_from(x + b, i) == blank_from(x, i),
    decreases x.len() - i,
{
    if !(x[i] == '\n' && x[i + 1] == '\n') {
        lemma_blank_prefix(x, b, i + 1);
    }
}

proof fn lemma_flushed_pieces(steps: Seq<Seq<char>>, x: Seq<char>, b: Seq<char>, window: nat)
    ensures
        ({
            let (s, r) = flushed(steps, x, window);
            flushed(steps, x + b, window) == flushed(s, r + b, window)
        }),
    decreases x.len(),
{
    let i = blank_from(x, 0);
    lemma_blank_bounds(x, 0);
    if i + 2 <= x.len() {
        lemma_blank_prefix(x, b, 0);
        assert((x + b).take(i) =~= x.take(i));
        assert((x + b).skip(i + 2) =~= x.skip(i + 2) + b);
        lemma_flushed_pieces(committed(steps, x.take(i), window), x.skip(i + 2), b, window);
    }
}

/// How a text is cut into pieces does not matter: two pieces in turn leave
/// the monitor as their concatenation does.
pub proof fn law_pieces_do_not_matter(s: CotState, a: Seq<char>, b: Seq<char>)
    ensures
        after_delta(after_delta(s, a), b) == after_delta(s, a + b),
{
    lemma_flushed_pieces(s.steps, s.buf + a, b, s.cfg.repeat_window as nat);
    assert(s.buf + (a + b) =~= (s.buf + a) + b);
}

proof fn lemma_blank_bounds(s: Seq<char>, i: int)
    requires
        0 <= i <= s.len(),
    ensures
        i <= blank_from(s, i) <= s.len(),
        blank_from(s, i) < s.len() ==> blank_from(s, i) + 2 <= s.len(),
    decreases s.len() - i,
{
    if i + 1 < s.len() && !(s[i] == '\n' && s[i + 1] == '\n') {
        lemma_blank_bounds(s, i + 1);
    }
}

fn find_blank(v: &Vec<char>, start: usize) -> (r: usize)
    requires
        start <= v@.len(),
    ensures
        r == start + blank_from(v@.skip(start as int), 0),
        start <= r <= v@.len(),
        r < v@.len() ==> r + 2 <= v@.len(),
{
    let ghost d = v@.skip(start as int);
    let mut i: usize = start;
    proof {
        lemma_blank_bounds(d, 0);
    }
    while i < v.len() && i + 1 < v.len()
        invariant
            start <= i <= v@.len(),
            d == v@.skip(start as int),
            blank_from(d, 0) == blank_from(d, i - start),
            blank_from(d, 0) < d.len() ==> blank_from(d, 0) + 2 <= d.len(),
        decreases v@.len() - i,
    {
        proof {
            assert(d[i - start] == v@[i as int]);
            assert(d[i + 1 - start] == v@[i + 1]);
        }
        if v[i] == '\n' && v[i + 1] == '\n' {
            return i;
        }
        i = i + 1;
    }
    v.len()
}

impl Default for CoTMonitor {
    fn default() -> (r: CoTMonitor)
        ensures
            r.wf(),
            r@ == fresh_monitor(default_cot_config()),
    {
        CoTMonitor::with_config(CoTConfig::default())
    }
}

impl CoTMonitor {
    /// The invariant: the step history fits its window.
    pub open spec fn wf(&self) -> bool {
        self.cfg.wf() && self.recent_steps@.len() <= self.cfg.repeat_window + 1
    }

    pub fn new() -> (r: CoTMonitor)
        ensures
            r.wf(),
            r@ == fresh_monitor(default_cot_config()),
    {
        CoTMonitor::with_config(CoTConfig::default())
    }

    pub fn with_config(cfg: CoTConfig) -> (r: CoTMonitor)
        requires
            cfg.wf(),
        ensures
            r.wf(),
            r@ == fresh_monitor(cfg),
    {
        let r = CoTMonitor {
            cfg,
            current_buf: Vec::new(),
            recent_steps: Vec::new(),
            recent_tools: Vec::new(),
            loop_detected: false,
            low_quality: false,
            any_text: false,
            last_quality: HALF,
        };
        proof {
            assert(r@.steps =~= Seq::empty());
            assert(r@.tools =~= Seq::empty());
        }
        r
    }

    pub fn config(&self) -> (r: &CoTConfig)
        ensures
            *r == self.cfg,
    {
        &self.cfg
    }

    /// Drops everything, at the start of a turn.
    pub fn on_turn_start(&mut self)
        requires
            old(self).wf(),
        ensures
            final(self).wf(),
            final(self)@ == fresh_monitor(old(self)@.cfg),
    {
        self.current_buf = Vec::new();
        self.recent_steps = Vec::new();
        self.recent_tools = Vec::new();
        self.loop_detected = false;
        self.low_quality = false;
        self.any_text = false;
        self.last_quality = HALF;
        proof {
            assert(self@.steps =~= Seq::empty());
            assert(self@.tools =~= Seq::empty());
        }
    }

    /// Resets the flags of an iteration. The history stays.
    pub fn reset_iteration(&mut self)
        requires
            old(self).wf(),
        ensures
            final(self).wf(),
            final(self)@ == at_iteration_start(old(self)@),
    {
        self.current_buf = Vec::new();
        self.loop_detected = false;
        self.low_quality = false;
        self.any_text = false;
        self.last_quality = HALF;
    }

    /// Appends a piece of text to the open step and closes steps at blank
    /// lines.
    pub fn on_cot_delta(&mut self, delta: &str)
        requires
            old(self).wf(),
        ensures
            final(self).wf(),
            final(self)@ == after_delta(old(self)@, delta@),
    {
        let mut more: Vec<char> = chars_of(delta);
        if more.len() > 0 {
            self.any_text = true;
        }
        self.current_buf.append(&mut more);
        let ghost buf = self.current_buf@;
        let ghost window = self.cfg.repeat_window as nat;
        let ghost goal = flushed(old(self)@.steps, buf, window);
        let mut start: usize = 0;
        proof {
            assert(buf.skip(0) =~= buf);
        }
        let mut stop: usize = find_blank(&self.current_buf, 0);
        while stop < self.current_buf.len()
            invariant
                self.wf(),
                buf == self.current_buf@,
                window == self.cfg.repeat_window,
                start <= stop <= buf.len(),
                stop == start + blank_from(buf.skip(start as int), 0),
                stop < buf.len() ==> stop + 2 <= buf.len(),
                goal == flushed(self@.steps, buf.skip(start as int), window),
                self@ == (CotState {
                    steps: self@.steps,
                    buf,
                    any_text: old(self)@.any_text || delta@.len() > 0,
                    ..old(self)@
                }),
            decreases buf.len() - stop,
        {
            let ghost rest = buf.skip(start as int);
            proof {
                assert(rest.take(stop - start) =~= buf.subrange(start as int, stop as int));
                assert(rest.skip(stop - start + 2) =~= buf.skip(stop + 2));
                assert(rest.take(blank_from(rest, 0)) == buf.subrange(start as int, stop as int));
            }
            self.commit_step(start, stop);
            start = stop + 2;
            stop = find_blank(&self.current_buf, start);
        }
        let ghost rest = buf.skip(start as int);
        proof {
            assert(blank_from(rest, 0) == rest.len());
            assert(goal == (self@.steps, rest));
        }
        let tail: Vec<char> = self.current_buf.split_off(start);
        self.current_buf = tail;
        proof {
            assert(self@.buf =~= rest);
        }
    }

    /// Marks the end of a block: open text becomes the last step, and the
    /// quality is computed anew.
    pub fn on_cot_block_end(&mut self)
        requires
            old(self).wf(),
        ensures
            final(self).wf(),
            final(self)@ == after_block(old(self)@),
    {
        if self.current_buf.len() > 0 {
            let n: usize = self.current_buf.len();
            proof {
                assert(self.current_buf@.subrange(0, n as int) =~= self.current_buf@);
            }
            self.commit_step(0, n);
            self.current_buf = Vec::new();
        }
        self.recompute_quality();
    }

    fn commit_step(&mut self, from: usize, to: usize)
        requires
            old(self).wf(),
            from <= to <= old(self).current_buf@.len(),
        ensures
            final(self).wf(),
            final(self)@ == (CotState {
                steps: committed(
                    old(self)@.steps,
                    old(self)@.buf.subrange(from as int, to as int),
                    old(self)@.cfg.repeat_window as nat,
                ),
                ..old(self)@
            }),
            final(self).current_buf@ == old(self).current_buf@,
    {
        let n: String = normalize(&self.current_buf, from, to);
        if n.as_str().unicode_len() == 0 {
            return;
        }
        let mut steps: Vec<String> = Vec::new();
        core::mem::swap(&mut steps, &mut self.recent_steps);
        proof {
            lemma_views_push(steps@, n);
        }
        steps.push(n);
        let ghost all = steps@;
        self.recent_steps = drop_oldest(steps, self.cfg.repeat_window + 1);
        proof {
            assert(views(self.recent_steps@) =~= keep_last(
                views(all),
                (self.cfg.repeat_window + 1) as nat,
            ));
        }
    }

    fn recompute_quality(&mut self)
        requires
            old(self).wf(),
        ensures
            final(self).wf(),
            final(self)@ == with_quality(old(self)@),
    {
        let ghost steps = views(self.recent_steps@);
        let n: usize = self.recent_steps.len();
        let w: usize = self.cfg.repeat_window;
        let mut repeating: bool = false;
        if n > 0 {
            let lo: usize = if n - 1 > w {
                n - 1 - w
            } else {
                0
            };
            let mut j: usize = lo;
            while j < n - 1
                invariant
                    n > 0,
                    n == self.recent_steps@.len(),
                    steps == views(self.recent_steps@),
                    lo <= j <= n - 1,
                    repeating == exists|k: int| lo <= k < j && #[trigger] steps[k] == steps.last(),
                decreases n - j,
            {
                if same(self.recent_steps[j].as_str(), self.recent_steps[n - 1].as_str()) {
                    repeating = true;
                    proof {
                        assert(steps[j as int] == steps.last());
                    }
                }
                j = j + 1;
            }
        }
        let mut short: bool = w > 0 && w <= n;
        if short {
            let mut j: usize = n - w;
            while j < n
                invariant
                    n == self.recent_steps@.len(),
                    steps == views(self.recent_steps@),
                    0 < w <= n,
                    n - w <= j <= n,
                    short == forall|k: int|
                        n - w <= k < j ==> (#[trigger] steps[k]).len() < self.cfg.step_min_chars,
                decreases n - j,
            {
                if self.recent_steps[j].as_str().unicode_len() >= self.cfg.step_min_chars {
                    short = false;
                    proof {
                        assert(steps[j as int].len() >= self.cfg.step_min_chars);
                    }
                }
                j = j + 1;
            }
        }
        proof {
            assert(repeating == repeats(steps, w as nat));
            assert(short == all_short(steps, w as nat, self.cfg.step_min_chars as nat));
        }
        let q: u64 = if !self.any_text {
            HALF
        } else if repeating {
            if short {
                200_000_000
            } else {
                HALF
            }
        } else if short {
            700_000_000
        } else {
            ONE
        };
        self.last_quality = q;
        self.low_quality = q < self.cfg.low_quality_thresh;
    }

    /// Records a tool call with its canonical input. A pair that occurred
    /// within the window sets the loop flag.
    pub fn on_tool_call(&mut self, tool_name: &str, input_canonical: &str)
        requires
            old(self).wf(),
        ensures
            final(self).wf(),
            final(self)@ == after_call(old(self)@, tool_name@, input_canonical@),
    {
        let mut key: String = owned(tool_name);
        key.append("|");
        key.append(input_canonical);
        let mut seen: bool = false;
        let ghost tools = views(self.recent_tools@);
        for i in 0..self.recent_tools.len()
            invariant
                tools == views(self.recent_tools@),
                seen == exists|k: int| 0 <= k < i && #[trigger] tools[k] == key@,
        {
            if same(self.recent_tools[i].as_str(), key.as_str()) {
                seen = true;
                proof {
                    assert(tools[i as int] == key@);
                }
            }
        }
        proof {
            assert(seen == tools.contains(key@));
        }
        if seen {
            self.loop_detected = true;
        }
        let mut list: Vec<String> = Vec::new();
        core::mem::swap(&mut list, &mut self.recent_tools);
        proof {
            lemma_views_push(list@, key);
        }
        list.push(key);
        let ghost all = list@;
        self.recent_tools = drop_oldest(list, self.cfg.loop_window);
        proof {
            assert(views(self.recent_tools@) =~= keep_last(views(all), self.cfg.loop_window as nat));
        }
    }

    pub fn quality(&self) -> (r: u64)
        ensures
            r == self@.quality,
    {
        self.last_quality
    }

    pub fn loop_detected(&self) -> (r: bool)
        ensures
            r == self@.loop_detected,
    {
        self.loop_detected
    }

    pub fn low_quality(&self) -> (r: bool)
        ensures
            r == self@.low_quality,
    {
        self.low_quality
    }

    pub fn any_text_content(&self) -> (r: bool)
        ensures
            r == self@.any_text,
    {
        self.any_text
    }

    /// A single sentence to put into the next turn, or nothing when all is
    /// well.
    pub fn propose_intervention(&self) -> (r: Option<String>)
        ensures
            match intervention(self@) {
                Some(t) => r matches Some(s) && s@ == t,
                None => r is None,
            },
    {
        if !self.cfg.enable_injection {
            return None;
        }
        if self.loop_detected {
            return Some(
                owned(
                    "[Metacognition / process] You are about to call a tool with effectively the same input as a very recent attempt that did not advance the task. Before the next action, briefly state in one line: (a) what changed since the prior attempt, and (b) what concretely different thing you will try now.",
                ),
            );
        }
        if self.low_quality {
            return Some(
                owned(
                    "[Metacognition / process] Your recent reasoning steps look thin or repetitive. Please write one substantive next step (≥ 2 sentences) describing concretely what you will try and why.",
                ),
            );
        }
        None
    }
}

/// Reasoning whose steps are all different, and whose last one is long
/// enough, has full quality; where there was no text it is one half.
pub proof fn law_substantial_reasoning_is_good(s: CotState)
    requires
        s.steps.no_duplicates(),
        s.steps.len() > 0 ==> s.steps.last().len() >= s.cfg.step_min_chars,
    ensures
        s.any_text ==> quality_of(s) == 1_000_000_000,
        !s.any_text ==> quality_of(s) == 500_000_000,
{
    let w = s.cfg.repeat_window as nat;
    if repeats(s.steps, w) {
        let j = choose|j: int|
            0 <= j < s.steps.len() - 1 && j >= s.steps.len() - 1 - w && #[trigger] s.steps[j]
                == s.steps.last();
        assert(s.steps[j] == s.steps[s.steps.len() - 1]);
    }
    if s.steps.len() > 0 {
        assert(s.steps[s.steps.len() - 1] == s.steps.last());
    }
}

/// A step that repeats one of the window before it costs half the quality,
/// and a window of steps that are all too short three tenths more or less.
pub proof fn law_quality_is_docked(s: CotState, j: int)
    requires
        s.any_text,
    ensures
        ({
            let n = s.steps.len();
            let w = s.cfg.repeat_window as int;
            let brief = 0 < w <= n && forall|i: int|
                n - w <= i < n ==> (#[trigger] s.steps[i]).len() < s.cfg.step_min_chars;
            &&& n - 1 - w <= j < n - 1 && 0 <= j && s.steps[j] == s.steps.last() ==> quality_of(s)
                == if brief {
                200_000_000u64
            } else {
                500_000_000u64
            }
            &&& s.steps.no_duplicates() && brief ==> quality_of(s) == 700_000_000
        }),
{
    let w = s.cfg.repeat_window as nat;
    let n = s.steps.len();
    if n - 1 - w <= j < n - 1 && 0 <= j && s.steps[j] == s.steps.last() {
        assert(repeats(s.steps, w));
    }
    if s.steps.no_duplicates() && repeats(s.steps, w) {
        let i = choose|i: int|
            0 <= i < n - 1 && i >= n - 1 - w && #[trigger] s.steps[i] == s.steps.last();
        assert(s.steps[i] == s.steps[n - 1]);
    }
}

/// A trace counts as poor exactly when its quality is below the threshold,
/// and computing the quality changes nothing else.
pub proof fn law_poor_below_the_threshold(s: CotState)
    ensures
        with_quality(s).low_quality <==> with_quality(s).quality < s.cfg.low_quality_thresh,
        with_quality(s).steps == s.steps,
        with_quality(s).tools == s.tools,
        with_quality(s).loop_detected == s.loop_detected,
{
}

/// A loop is seen exactly when a call repeats one that is remembered, with
/// the same tool and the same input; once seen it stays seen within the
/// iteration.
pub proof fn law_loop_is_a_repeated_call(s: CotState, name: Seq<char>, input: Seq<char>)
    ensures
        s.loop_detected ==> after_call(s, name, input).loop_detected,
        !s.loop_detected ==> (after_call(s, name, input).loop_detected <==> exists|i: int|
            0 <= i < s.tools.len() && #[trigger] s.tools[i] == name + "|"@ + input),
        after_call(s, name, input).steps == s.steps,
{
    if s.tools.contains(call_key(name, input)) {
        let i = choose|i: int| 0 <= i < s.tools.len() && s.tools[i] == call_key(name, input);
        assert(s.tools[i] == name + "|"@ + input);
    }
}

/// Calls are remembered until the window is full of later ones: the newest
/// stands last, and while there is room none is dropped.
pub proof fn law_calls_are_remembered(s: CotState, name: Seq<char>, input: Seq<char>)
    requires
        s.cfg.loop_window > 0,
    ensures
        after_call(s, name, input).tools.last() == name + "|"@ + input,
        s.tools.len() < s.cfg.loop_window ==> after_call(s, name, input).tools == s.tools.push(
            name + "|"@ + input,
        ),
        s.tools.len() == s.cfg.loop_window ==> after_call(s, name, input).tools
            == s.tools.drop_first().push(name + "|"@ + input),
{
    let t = s.tools.push(call_key(name, input));
    let w = s.cfg.loop_window as int;
    if s.tools.len() == w {
        assert(t.skip(1) =~= s.tools.drop_first().push(call_key(name, input)));
    }
    assert(after_call(s, name, input).tools.last() == t.last());
}

/// The monitor speaks up exactly when it may and saw a loop or poor
/// reasoning; a loop comes first.
pub proof fn law_intervention(s: CotState)
    ensures
        intervention(s) is Some <==> s.cfg.enable_injection && (s.loop_detected || s.low_quality),
        s.cfg.enable_injection && s.loop_detected ==> intervention(s) == Some(loop_text()),
        s.cfg.enable_injection && s.low_quality && !s.loop_detected ==> intervention(s) == Some(
            thin_text(),
        ),
        loop_text() != thin_text(),
{
    reveal_strlit("[Metacognition / process] You are about to call a tool with effectively the same input as a very recent attempt that did not advance the task. Before the next action, briefly state in one line: (a) what changed since the prior attempt, and (b) what concretely different thing you will try now.");
    reveal_strlit("[Metacognition / process] Your recent reasoning steps look thin or repetitive. Please write one substantive next step (≥ 2 sentences) describing concretely what you will try and why.");
    assert(loop_text().len() != thin_text().len());
}

/// A blank line closes a step: what stood before it joins the steps, tidied,
/// and what follows stays open.
pub proof fn law_blank_line_closes_a_step(s: CotState, step: Seq<char>)
    requires
        s.buf.len() == 0,
        forall|i: int| 0 <= i < step.len() ==> #[trigger] step[i] != '\n',
        step.len() > 0,
    ensures
        ({
            let t = after_delta(s, step + seq!['\n', '\n']);
            &&& t.buf.len() == 0
            &&& t.any_text
            &&& normalized(step).len() > 0 && s.steps.len() <= s.cfg.repeat_window ==> t.steps
                == s.steps.push(normalized(step))
            &&& normalized(step).len() == 0 ==> t.steps == s.steps
        }),
        after_delta(s, step).steps == s.steps,
        after_delta(s, step).buf == step,
{
    let d = step + seq!['\n', '\n'];
    let w = s.cfg.repeat_window as nat;
    assert(s.buf + d =~= d);
    assert(s.buf + step =~= step);
    lemma_blank_after(d, 0, step.len() as int);
    lemma_no_blank(step, 0);
    assert(d.take(step.len() as int) =~= step);
    assert(d.skip(step.len() as int + 2) =~= Seq::<char>::empty());
    let c = committed(s.steps, step, w);
    assert(flushed(c, Seq::<char>::empty(), w) == (c, Seq::<char>::empty()));
    assert(flushed(s.steps, d, w) == flushed(c, d.skip(step.len() as int + 2), w));
    assert(flushed(s.steps, step, w) == (s.steps, step));
}

proof fn lemma_blank_after(s: Seq<char>, i: int, n: int)
    requires
        0 <= i <= n,
        s.len() == n + 2,
        s[n] == '\n',
        s[n + 1] == '\n',
        forall|k: int| 0 <= k < n ==> #[trigger] s[k] != '\n',
    ensures
        blank_from(s, i) == n,
    decreases n - i,
{
    if i < n {
        assert(s[i] != '\n');
        lemma_blank_after(s, i + 1, n);
    }
}

proof fn lemma_no_blank(s: Seq<char>, i: int)
    requires
        0 <= i <= s.len(),
        forall|k: int| 0 <= k < s.len() ==> #[trigger] s[k] != '\n',
    ensures
        blank_from(s, i) == s.len(),
    decreases s.len() - i,
{
    if i + 1 < s.len() {
        assert(s[i] != '\n');
        lemma_no_blank(s, i + 1);
    }
}

proof fn lemma_nothing_normalized(s: Seq<char>)
    requires
        s.len() == 0,
    ensures
        normalized(s).len() == 0,
{
    assert(collapsed(s).len() == 0);
}

/// The end of a block closes the open step: it becomes the last of the steps
/// that are remembered, unless it is blank, and nothing stays open. Calls
/// and loops are not touched.
pub proof fn law_block_end_closes_the_step(s: CotState)
    ensures
        ({
            let t = after_block(s);
            &&& t.buf.len() == 0
            &&& normalized(s.buf).len() > 0 ==> t.steps.last() == normalized(s.buf) && t.steps.len()
                > 0
            &&& normalized(s.buf).len() > 0 && s.steps.len() <= s.cfg.repeat_window
                ==> t.steps.drop_last() == s.steps
            &&& normalized(s.buf).len() == 0 ==> t.steps == s.steps
            &&& t.tools == s.tools
            &&& t.loop_detected == s.loop_detected
            &&& t.any_text == s.any_text
        }),
{
    let t = after_block(s);
    if s.buf.len() == 0 {
        lemma_nothing_normalized(s.buf);
    }
    if normalized(s.buf).len() > 0 && s.steps.len() <= s.cfg.repeat_window {
        assert(t.steps.drop_last() =~= s.steps);
    }
}

} // verus!
