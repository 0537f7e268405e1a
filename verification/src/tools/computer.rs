//! Screen control: which command an action becomes, and what its outcome is
//! reported as.
use crate::api::{base64_encode, base64_standard};
use crate::json::{json_string, quote};
use crate::strmap::StrMap;
use crate::text::{chars_of, dec, dec_int, ends, fmt_i64, fmt_u64, owned, same};
use crate::tools::registry::{
    fail, failed, missing, ok_text, outcome, text_output, Failed, Output, ToolError, ToolOutput,
};
use vstd::prelude::*;

verus! {

#[derive(Debug, Clone, Copy, PartialEq, Eq, Structural)]
pub enum Platform {
    Linux,
    MacOS,
    Other,
}

/// What an action is given.
#[derive(Debug, Clone)]
pub struct ComputerInput {
    /// The coordinates, where they are whole numbers.
    pub x: Option<i64>,
    pub y: Option<i64>,
    /// Whether both coordinates are given at all.
    pub has_point: bool,
    pub text: Option<String>,
    pub keys: Option<String>,
    pub delta: Option<i64>,
}

/// What to do for an action.
#[derive(Debug, Clone)]
pub enum ComputerStep {
    /// Take a screenshot.
    Screenshot,
    /// Run a command and report its output.
    Report(String),
    /// Run a command and report that it succeeded.
    Run(String),
}

/// A step as a mathematical value.
pub enum StepView {
    Screenshot,
    Report(Seq<char>),
    Run(Seq<char>),
}

impl View for ComputerStep {
    type V = StepView;

    open spec fn view(&self) -> StepView {
        match self {
            ComputerStep::Screenshot => StepView::Screenshot,
            ComputerStep::Report(c) => StepView::Report(c@),
            ComputerStep::Run(c) => StepView::Run(c@),
        }
    }
}

/// Whether an action changes anything.
pub open spec fn mutating(action: Seq<char>) -> bool {
    action != "screenshot"@ && action != "cursor_position"@
}

/// Whether an action changes anything.
pub fn is_mutating(action: &str) -> (r: bool)
    ensures
        r == mutating(action@),
{
    !same(action, "screenshot") && !same(action, "cursor_position")
}

/// A text between single quotes: a quote in it closes them, stands escaped,
/// and opens them again.
pub open spec fn quoted_body(s: Seq<char>) -> Seq<char>
    decreases s.len(),
{
    if s.len() == 0 {
        seq![]
    } else if s.last() == '\'' {
        quoted_body(s.drop_last()) + seq!['\'', '\\', '\'', '\'']
    } else {
        quoted_body(s.drop_last()).push(s.last())
    }
}

/// A text as one word of a shell command.
pub open spec fn shell_quoted(s: Seq<char>) -> Seq<char> {
    seq!['\''] + quoted_body(s) + seq!['\'']
}

/// How a shell reads a word: the characters so far, whether a single quote
/// is open, and whether a backslash is pending.
pub open spec fn shell_scan(s: Seq<char>) -> (Seq<char>, bool, bool)
    decreases s.len(),
{
    if s.len() == 0 {
        (seq![], false, false)
    } else {
        let (out, open, escaped) = shell_scan(s.drop_last());
        let c = s.last();
        if escaped {
            (out.push(c), open, false)
        } else if c == '\'' {
            (out, !open, false)
        } else if c == '\\' && !open {
            (out, open, true)
        } else {
            (out.push(c), open, false)
        }
    }
}

/// A shell reads a quoted text back as it was, with no quote left open.
pub proof fn law_shell_reads_back(s: Seq<char>)
    ensures
        shell_scan(shell_quoted(s)) == (s, false, false),
{
    let lead = seq!['\''] + quoted_body(s);
    lemma_open_quote(s);
    assert(shell_quoted(s).drop_last() =~= lead);
    assert(shell_quoted(s).last() == '\'');
}

proof fn lemma_open_quote(s: Seq<char>)
    ensures
        shell_scan(seq!['\''] + quoted_body(s)) == (s, true, false),
    decreases s.len(),
{
    let q = seq!['\''] + quoted_body(s);
    if s.len() == 0 {
        assert(q =~= seq!['\'']);
        assert(q.drop_last() =~= Seq::<char>::empty());
        assert(s =~= Seq::<char>::empty());
        assert(shell_scan(q.drop_last()) == (s, false, false));
        assert(q.last() == '\'');
    } else {
        let d = s.drop_last();
        let b = seq!['\''] + quoted_body(d);
        lemma_open_quote(d);
        assert(s =~= d.push(s.last()));
        if s.last() == '\'' {
            let b1 = b.push('\'');
            let b2 = b1.push('\\');
            let b3 = b2.push('\'');
            let b4 = b3.push('\'');
            assert(q =~= b4);
            assert(b1.drop_last() =~= b);
            assert(b2.drop_last() =~= b1);
            assert(b3.drop_last() =~= b2);
            assert(b4.drop_last() =~= b3);
            assert(shell_scan(b1) == (d, false, false));
            assert(shell_scan(b2) == (d, false, true));
            assert(shell_scan(b3) == (d.push('\''), false, false));
            assert(shell_scan(b4) == (d.push('\''), true, false));
        } else {
            assert(q =~= b.push(s.last()));
            assert(q.drop_last() =~= b);
            assert(q.last() == s.last());
            assert(shell_scan(q) == (d.push(s.last()), true, false));
        }
    }
}

/// Quotes a text as one word of a shell command.
pub fn shq(s: &str) -> (r: String)
    ensures
        r@ == shell_quoted(s@),
{
    let v: Vec<char> = chars_of(s);
    let mut out: String = String::new();
    out.push('\'');
    proof {
        assert(out@ =~= seq!['\''] + quoted_body(v@.take(0)));
    }
    for i in 0..v.len()
        invariant
            out@ == seq!['\''] + quoted_body(v@.take(i as int)),
    {
        let c: char = v[i];
        let ghost before = out@;
        proof {
            assert(v@.take(i + 1).drop_last() =~= v@.take(i as int));
            assert(v@.take(i + 1).last() == c);
        }
        if c == '\'' {
            out.push('\'');
            out.push('\\');
            out.push('\'');
            out.push('\'');
        } else {
            out.push(c);
        }
        proof {
            assert(out@ =~= seq!['\''] + quoted_body(v@.take(i + 1)));
        }
    }
    proof {
        assert(v@.take(v@.len() as int) =~= v@);
    }
    out.push('\'');
    proof {
        assert(out@ =~= shell_quoted(s@));
    }
    out
}

/// A number, or zero.
pub open spec fn or_zero(o: Option<i64>) -> int {
    match o {
        Some(n) => n as int,
        None => 0,
    }
}

/// A text, or the empty one.
pub open spec fn or_empty(o: Option<String>) -> Seq<char> {
    match o {
        Some(s) => s@,
        None => seq![],
    }
}

/// The scroll of an amount: how often, and with which button.
pub open spec fn scroll_command(delta: int) -> Seq<char> {
    "click --repeat "@ + dec(
        (if delta < 0 {
            -delta
        } else {
            delta
        }) as nat,
    ) + (if delta > 0 {
        " 5"@
    } else {
        " 4"@
    })
}

/// What an action becomes on Linux.
pub open spec fn linux_step(action: Seq<char>, i: ComputerInput) -> Result<StepView, Failed> {
    let run = |c: Seq<char>| Ok::<StepView, Failed>(StepView::Run("xdotool "@ + c));
    if action == "screenshot"@ {
        Ok(StepView::Screenshot)
    } else if action == "cursor_position"@ {
        Ok(StepView::Report("xdotool getmouselocation --shell"@))
    } else if action == "mouse_move"@ {
        run("mousemove "@ + dec_int(or_zero(i.x)) + " "@ + dec_int(or_zero(i.y)))
    } else if action == "left_click"@ {
        run("click 1"@)
    } else if action == "middle_click"@ {
        run("click 2"@)
    } else if action == "right_click"@ {
        run("click 3"@)
    } else if action == "double_click"@ {
        run("click --repeat 2 --delay 100 1"@)
    } else if action == "scroll"@ {
        run(
            scroll_command(
                match i.delta {
                    Some(d) => d as int,
                    None => 1,
                },
            ),
        )
    } else if action == "type"@ {
        run("type --delay 12 -- "@ + shell_quoted(or_empty(i.text)))
    } else if action == "key"@ {
        if or_empty(i.keys).len() == 0 {
            Err(failed("'keys' required for action=key"@, "missing_parameter"@))
        } else {
            run("key "@ + shell_quoted(or_empty(i.keys)))
        }
    } else {
        Err(failed("unknown action: "@ + action, "unknown_action"@))
    }
}

/// What an action becomes on macOS.
pub open spec fn macos_step(action: Seq<char>, i: ComputerInput) -> Result<StepView, Failed> {
    let run = |c: Seq<char>| Ok::<StepView, Failed>(StepView::Run("cliclick "@ + c));
    if action == "screenshot"@ {
        Ok(StepView::Screenshot)
    } else if action == "cursor_position"@ {
        Ok(StepView::Report("cliclick p"@))
    } else if action == "mouse_move"@ {
        run("m:"@ + dec_int(or_zero(i.x)) + ","@ + dec_int(or_zero(i.y)))
    } else if action == "left_click"@ {
        if i.has_point {
            run("c:"@ + dec_int(or_zero(i.x)) + ","@ + dec_int(or_zero(i.y)))
        } else {
            run("c:."@)
        }
    } else if action == "right_click"@ {
        run("rc:."@)
    } else if action == "double_click"@ {
        run("dc:."@)
    } else if action == "type"@ {
        run("t:"@ + shell_quoted(or_empty(i.text)))
    } else if action == "key"@ {
        run("kp:"@ + shell_quoted(or_empty(i.keys)))
    } else if action == "scroll"@ {
        Err(failed("scroll not supported on macOS in this version"@, "unsupported"@))
    } else {
        Err(failed("unknown action: "@ + action, "unknown_action"@))
    }
}

/// What to do for an action. One is required; in read-only mode those that
/// change anything are refused.
pub open spec fn planned_step(
    action: Option<Seq<char>>,
    i: ComputerInput,
    platform: Platform,
    read_only: bool,
) -> Result<StepView, Failed> {
    match action {
        Some(a) => if a.len() == 0 {
            Err(failed("'action' is required"@, "missing_parameter"@))
        } else if read_only && mutating(a) {
            Err(
                failed(
                    "read-only mode: Computer action '"@ + a + "' is disabled"@,
                    "read_only"@,
                ),
            )
        } else {
            match platform {
                Platform::Linux => linux_step(a, i),
                Platform::MacOS => macos_step(a, i),
                Platform::Other => Err(
                    failed(
                        "Computer tool not supported on this platform (Linux/macOS only)"@,
                        "unsupported_platform"@,
                    ),
                ),
            }
        },
        None => Err(failed("'action' is required"@, "missing_parameter"@)),
    }
}

/// In read-only mode nothing is run that changes anything.
pub proof fn law_read_only_changes_nothing(a: Seq<char>, i: ComputerInput, platform: Platform)
    requires
        a.len() > 0,
        mutating(a),
    ensures
        planned_step(Some(a), i, platform, true) is Err,
{
}

/// The view of a planned step.
pub open spec fn step_outcome(r: Result<ComputerStep, ToolError>) -> Result<StepView, Failed> {
    match r {
        Ok(s) => Ok(s@),
        Err(e) => Err(e@),
    }
}

fn num(o: Option<i64>) -> (r: String)
    ensures
        r@ == dec_int(or_zero(o)),
{
    match o {
        Some(n) => fmt_i64(n),
        None => fmt_i64(0),
    }
}

fn quoted(o: &Option<String>) -> (r: String)
    ensures
        r@ == shell_quoted(or_empty(*o)),
{
    match o {
        Some(s) => shq(s.as_str()),
        None => {
            proof {
                reveal_strlit("");
                assert(""@ =~= Seq::<char>::empty());
            }
            shq("")
        },
    }
}

fn join2(a: &str, b: &str) -> (r: String)
    ensures
        r@ == a@ + b@,
{
    let mut s: String = owned(a);
    s.append(b);
    s
}

fn scroll(delta: i64) -> (r: String)
    ensures
        r@ == scroll_command(delta as int),
{
    let n: u64 = if delta == i64::MIN {
        0x8000_0000_0000_0000u64
    } else if delta < 0 {
        (-delta) as u64
    } else {
        delta as u64
    };
    let mut s: String = owned("click --repeat ");
    s.append(fmt_u64(n).as_str());
    s.append(
        if delta > 0 {
            " 5"
        } else {
            " 4"
        },
    );
    s
}

fn run(prefix: &str, c: &str) -> (r: Result<ComputerStep, ToolError>)
    ensures
        step_outcome(r) == Ok::<StepView, Failed>(StepView::Run(prefix@ + c@)),
{
    Ok(ComputerStep::Run(join2(prefix, c)))
}

fn unknown(action: &str) -> (r: ToolError)
    ensures
        r@ == failed("unknown action: "@ + action@, "unknown_action"@),
{
    fail(join2("unknown action: ", action), "unknown_action")
}

/// What an action becomes on Linux.
pub fn exec_linux(action: &str, input: &ComputerInput) -> (r: Result<ComputerStep, ToolError>)
    ensures
        step_outcome(r) == linux_step(action@, *input),
{
    let p: &str = "xdotool ";
    if same(action, "screenshot") {
        Ok(ComputerStep::Screenshot)
    } else if same(action, "cursor_position") {
        Ok(ComputerStep::Report(owned("xdotool getmouselocation --shell")))
    } else if same(action, "mouse_move") {
        let mut c: String = join2("mousemove ", num(input.x).as_str());
        c.append(" ");
        c.append(num(input.y).as_str());
        run(p, c.as_str())
    } else if same(action, "left_click") {
        run(p, "click 1")
    } else if same(action, "middle_click") {
        run(p, "click 2")
    } else if same(action, "right_click") {
        run(p, "click 3")
    } else if same(action, "double_click") {
        run(p, "click --repeat 2 --delay 100 1")
    } else if same(action, "scroll") {
        let d: i64 = match input.delta {
            Some(d) => d,
            None => 1,
        };
        run(p, scroll(d).as_str())
    } else if same(action, "type") {
        run(p, join2("type --delay 12 -- ", quoted(&input.text).as_str()).as_str())
    } else if same(action, "key") {
        let empty: bool = match &input.keys {
            Some(k) => k.as_str().unicode_len() == 0,
            None => true,
        };
        if empty {
            Err(missing("'keys' required for action=key"))
        } else {
            run(p, join2("key ", quoted(&input.keys).as_str()).as_str())
        }
    } else {
        Err(unknown(action))
    }
}

/// What an action becomes on macOS.
pub fn exec_macos(action: &str, input: &ComputerInput) -> (r: Result<ComputerStep, ToolError>)
    ensures
        step_outcome(r) == macos_step(action@, *input),
{
    let p: &str = "cliclick ";
    if same(action, "screenshot") {
        Ok(ComputerStep::Screenshot)
    } else if same(action, "cursor_position") {
        Ok(ComputerStep::Report(owned("cliclick p")))
    } else if same(action, "mouse_move") {
        let mut c: String = join2("m:", num(input.x).as_str());
        c.append(",");
        c.append(num(input.y).as_str());
        run(p, c.as_str())
    } else if same(action, "left_click") {
        if input.has_point {
            let mut c: String = join2("c:", num(input.x).as_str());
            c.append(",");
            c.append(num(input.y).as_str());
            run(p, c.as_str())
        } else {
            run(p, "c:.")
        }
    } else if same(action, "right_click") {
        run(p, "rc:.")
    } else if same(action, "double_click") {
        run(p, "dc:.")
    } else if same(action, "type") {
        run(p, join2("t:", quoted(&input.text).as_str()).as_str())
    } else if same(action, "key") {
        run(p, join2("kp:", quoted(&input.keys).as_str()).as_str())
    } else if same(action, "scroll") {
        Err(fail(owned("scroll not supported on macOS in this version"), "unsupported"))
    } else {
        Err(unknown(action))
    }
}

/// The commands that take a screenshot into a file, in the order in which
/// they are tried.
pub open spec fn capture_command(platform: Platform, attempt: nat, path: Seq<char>) -> Option<
    Seq<char>,
> {
    match platform {
        Platform::Linux => if attempt == 0 {
            Some("scrot "@ + shell_quoted(path))
        } else if attempt == 1 {
            Some("maim "@ + shell_quoted(path))
        } else {
            None
        },
        Platform::MacOS => if attempt == 0 {
            Some("screencapture -x "@ + shell_quoted(path))
        } else {
            None
        },
        Platform::Other => None,
    }
}

/// The `attempt`-th command that takes a screenshot, if there is one.
pub fn screenshot_command(platform: Platform, attempt: u8, path: &str) -> (r: Option<String>)
    ensures
        crate::text::opt_view(r) == capture_command(platform, attempt as nat, path@),
{
    let q: String = shq(path);
    match platform {
        Platform::Linux => if attempt == 0 {
            Some(join2("scrot ", q.as_str()))
        } else if attempt == 1 {
            Some(join2("maim ", q.as_str()))
        } else {
            None
        },
        Platform::MacOS => if attempt == 0 {
            Some(join2("screencapture -x ", q.as_str()))
        } else {
            None
        },
        Platform::Other => None,
    }
}

/// The error when no command took a screenshot, given what they printed.
pub fn screenshot_failed(platform: Platform, printed: &str) -> (r: ToolError)
    ensures
        r@ == failed(
            (if platform == Platform::Linux {
                "screenshot failed (need `scrot` or `maim` installed). "@
            } else {
                "screencapture failed: "@
            }) + printed@,
            "screenshot_failed"@,
        ),
{
    let lead: &str = match platform {
        Platform::Linux => "screenshot failed (need `scrot` or `maim` installed). ",
        _ => "screencapture failed: ",
    };
    fail(join2(lead, printed), "screenshot_failed")
}

/// The output that carries a screenshot.
pub open spec fn screenshot_output(path: Seq<char>, bytes: Seq<u8>) -> Output {
    Output {
        output_type: "image"@,
        content: "screenshot "@ + path + " ("@ + dec(bytes.len()) + " bytes)"@,
        metadata: Map::<Seq<char>, Seq<char>>::empty().insert(
            "image_base64"@,
            json_string(base64_standard(bytes)),
        ).insert("image_mime"@, json_string("image/png"@)).insert(
            "image_path"@,
            json_string(path),
        ),
    }
}

/// Reports a screenshot; none stands for a file that could not be read.
pub fn package_screenshot(path: &str, bytes: &Option<Vec<u8>>) -> (r: Result<ToolOutput, ToolError>)
    ensures
        outcome(r) == (match *bytes {
            Some(b) => Ok(screenshot_output(path@, b@)),
            None => Err(
                failed(
                    "screenshot file empty/unreadable: "@ + path@,
                    "screenshot_failed"@,
                ),
            ),
        }),
{
    match bytes {
        Some(b) => {
            let mut metadata: StrMap = StrMap::new();
            metadata.insert("image_base64", quote(base64_encode(b).as_str()));
            metadata.insert("image_mime", quote("image/png"));
            metadata.insert("image_path", quote(path));
            let mut content: String = join2("screenshot ", path);
            content.append(" (");
            content.append(fmt_u64(b.len() as u64).as_str());
            content.append(" bytes)");
            Ok(ToolOutput { output_type: owned("image"), content, metadata })
        },
        None => Err(
            fail(join2("screenshot file empty/unreadable: ", path), "screenshot_failed"),
        ),
    }
}

/// The error of a command that failed, given what it printed.
pub open spec fn command_failed(platform: Platform, printed: Seq<char>) -> Failed {
    if platform == Platform::MacOS {
        failed(
            "cliclick failed (install via `brew install cliclick`): "@ + printed,
            "cliclick_failed"@,
        )
    } else {
        failed("xdotool failed: "@ + printed, "xdotool_failed"@)
    }
}

/// What the model is told of the tool.
pub const COMPUTER_DESCRIPTION: &'static str = "Control the screen and input devices. Actions: screenshot, cursor_position, mouse_move, left_click, right_click, middle_click, double_click, scroll, type, key. Requires xdotool+scrot/maim on Linux, cliclick+screencapture on macOS. Windows is not supported. Screenshots are returned base64-encoded in tool metadata.";

/// The JSON schema of the tool's input.
pub const COMPUTER_SCHEMA: &'static str = "{\"properties\":{\"action\":{\"description\":\"screenshot | cursor_position | mouse_move | left_click | right_click | middle_click | double_click | scroll | type | key\",\"type\":\"string\"},\"delta\":{\"description\":\"scroll amount (negative = up)\",\"type\":\"integer\"},\"keys\":{\"description\":\"key combo, e.g. \\\"ctrl+c\\\", \\\"Return\\\"\",\"type\":\"string\"},\"text\":{\"description\":\"text to type\",\"type\":\"string\"},\"x\":{\"description\":\"x coord (for mouse_move/click)\",\"type\":\"integer\"},\"y\":{\"description\":\"y coord\",\"type\":\"integer\"}},\"required\":[\"action\"],\"type\":\"object\"}";

#[derive(Debug, Clone, Copy)]
pub struct ComputerTool {
    pub read_only: bool,
}

impl Default for ComputerTool {
    fn default() -> (r: ComputerTool)
        ensures
            !r.read_only,
    {
        ComputerTool { read_only: false }
    }
}

impl ComputerTool {
    pub fn new() -> (r: ComputerTool)
        ensures
            !r.read_only,
    {
        ComputerTool { read_only: false }
    }

    pub fn with_read_only(read_only: bool) -> (r: ComputerTool)
        ensures
            r.read_only == read_only,
    {
        ComputerTool { read_only }
    }

    pub fn name(&self) -> (r: &'static str)
        ensures
            r@ == "Computer"@,
    {
        "Computer"
    }

    pub fn description(&self) -> (r: &'static str)
        ensures
            r@ == COMPUTER_DESCRIPTION@,
    {
        COMPUTER_DESCRIPTION
    }

    pub fn input_schema(&self) -> (r: &'static str)
        ensures
            r@ == COMPUTER_SCHEMA@,
    {
        COMPUTER_SCHEMA
    }

    /// What to do for an action.
    pub fn plan(&self, action: &Option<String>, input: &ComputerInput, platform: Platform) -> (r:
        Result<ComputerStep, ToolError>)
        ensures
            step_outcome(r) == planned_step(
                crate::text::opt_view(*action),
                *input,
                platform,
                self.read_only,
            ),
    {
        let a: &String = match action {
            Some(a) => a,
            None => {
                return Err(missing("'action' is required"));
            },
        };
        if a.as_str().unicode_len() == 0 {
            return Err(missing("'action' is required"));
        }
        if self.read_only && is_mutating(a.as_str()) {
            let mut m: String = join2("read-only mode: Computer action '", a.as_str());
            m.append("' is disabled");
            return Err(fail(m, "read_only"));
        }
        match platform {
            Platform::Linux => exec_linux(a.as_str(), input),
            Platform::MacOS => exec_macos(a.as_str(), input),
            Platform::Other => Err(
                fail(
                    owned("Computer tool not supported on this platform (Linux/macOS only)"),
                    "unsupported_platform",
                ),
            ),
        }
    }

    /// Reports a command's outcome: its exit code and what it printed.
    pub fn report(
        &self,
        action: &str,
        platform: Platform,
        show_output: bool,
        code: i32,
        printed: String,
    ) -> (r: Result<ToolOutput, ToolError>)
        ensures
            outcome(r) == (if code != 0 {
                Err(command_failed(platform, printed@))
            } else if show_output {
                Ok(text_output(printed@))
            } else {
                Ok(text_output("ok: "@ + action@))
            }),
    {
        if code != 0 {
            return Err(
                match platform {
                    Platform::MacOS => fail(
                        join2(
                            "cliclick failed (install via `brew install cliclick`): ",
                            printed.as_str(),
                        ),
                        "cliclick_failed",
                    ),
                    _ => fail(join2("xdotool failed: ", printed.as_str()), "xdotool_failed"),
                },
            );
        }
        if show_output {
            Ok(ok_text(printed))
        } else {
            Ok(ok_text(join2("ok: ", action)))
        }
    }
}

/// What is typed, and the keys that are pressed, reach the shell as one
/// word, which it reads back as they were given.
pub proof fn law_typed_text_is_one_word(i: ComputerInput)
    ensures
        linux_step("type"@, i) matches Ok(StepView::Run(c)) && ends(c, shell_quoted(or_empty(i.text))),
        or_empty(i.keys).len() > 0 ==> (linux_step("key"@, i) matches Ok(StepView::Run(c)) && c
            == "xdotool key "@ + shell_quoted(or_empty(i.keys))),
        or_empty(i.keys).len() == 0 ==> linux_step("key"@, i) is Err,
        macos_step("type"@, i) matches Ok(StepView::Run(c)) && c == "cliclick t:"@ + shell_quoted(
            or_empty(i.text),
        ),
        macos_step("key"@, i) matches Ok(StepView::Run(c)) && c == "cliclick kp:"@ + shell_quoted(
            or_empty(i.keys),
        ),
{
    lemma_action_names();
    let t = shell_quoted(or_empty(i.text));
    let c = "xdotool "@ + ("type --delay 12 -- "@ + t);
    assert(c.skip(c.len() - t.len()) =~= t);
    reveal_strlit("xdotool ");
    reveal_strlit("key ");
    reveal_strlit("xdotool key ");
    assert("xdotool "@ + "key "@ =~= "xdotool key "@);
    let k = shell_quoted(or_empty(i.keys));
    assert("xdotool "@ + ("key "@ + k) =~= "xdotool key "@ + k);
    reveal_strlit("cliclick ");
    reveal_strlit("t:");
    reveal_strlit("cliclick t:");
    reveal_strlit("kp:");
    reveal_strlit("cliclick kp:");
    assert("cliclick "@ + "t:"@ =~= "cliclick t:"@);
    assert("cliclick "@ + ("t:"@ + t) =~= "cliclick t:"@ + t);
    assert("cliclick "@ + "kp:"@ =~= "cliclick kp:"@);
    assert("cliclick "@ + ("kp:"@ + k) =~= "cliclick kp:"@ + k);
}

proof fn lemma_action_names()
    ensures
        "type"@ != "screenshot"@ && "type"@ != "cursor_position"@ && "type"@ != "mouse_move"@
            && "type"@ != "left_click"@ && "type"@ != "middle_click"@ && "type"@ != "right_click"@
            && "type"@ != "double_click"@ && "type"@ != "scroll"@,
        "key"@ != "screenshot"@ && "key"@ != "cursor_position"@ && "key"@ != "mouse_move"@ && "key"@
            != "left_click"@ && "key"@ != "middle_click"@ && "key"@ != "right_click"@ && "key"@
            != "double_click"@ && "key"@ != "scroll"@ && "key"@ != "type"@,
        "scroll"@ != "screenshot"@ && "scroll"@ != "cursor_position"@ && "scroll"@ != "mouse_move"@
            && "scroll"@ != "left_click"@ && "scroll"@ != "middle_click"@ && "scroll"@
            != "right_click"@ && "scroll"@ != "double_click"@,
        "mouse_move"@ != "screenshot"@ && "mouse_move"@ != "cursor_position"@,
{
    reveal_strlit("type");
    reveal_strlit("key");
    reveal_strlit("scroll");
    reveal_strlit("screenshot");
    reveal_strlit("cursor_position");
    reveal_strlit("mouse_move");
    reveal_strlit("left_click");
    reveal_strlit("middle_click");
    reveal_strlit("right_click");
    reveal_strlit("double_click");
    assert("type"@.len() == 4 && "key"@.len() == 3 && "scroll"@.len() == 6);
    assert("screenshot"@.len() == 10 && "cursor_position"@.len() == 15 && "mouse_move"@.len() == 10);
    assert("left_click"@.len() == 10 && "middle_click"@.len() == 12 && "right_click"@.len() == 11);
    assert("double_click"@.len() == 12);
    assert("screenshot"@[0] == 's' && "mouse_move"@[0] == 'm');
}

/// Scrolling by an amount repeats a click that often: upwards for a negative
/// amount, downwards for a positive one, and as far in either direction.
pub proof fn law_scroll_follows_its_sign(delta: int)
    requires
        delta > 0,
    ensures
        scroll_command(delta) == "click --repeat "@ + dec(delta as nat) + " 5"@,
        scroll_command(-delta) == "click --repeat "@ + dec(delta as nat) + " 4"@,
        scroll_command(delta).len() == scroll_command(-delta).len(),
{
    reveal_strlit(" 4");
    reveal_strlit(" 5");
}

/// A move goes to the point that was given, on either platform.
pub proof fn law_move_goes_to_the_point(i: ComputerInput)
    ensures
        linux_step("mouse_move"@, i) == Ok::<StepView, Failed>(
            StepView::Run(
                "xdotool mousemove "@ + dec_int(or_zero(i.x)) + " "@ + dec_int(or_zero(i.y)),
            ),
        ),
        macos_step("mouse_move"@, i) == Ok::<StepView, Failed>(
            StepView::Run("cliclick m:"@ + dec_int(or_zero(i.x)) + ","@ + dec_int(or_zero(i.y))),
        ),
{
    lemma_action_names();
    reveal_strlit("xdotool ");
    reveal_strlit("mousemove ");
    reveal_strlit("xdotool mousemove ");
    reveal_strlit("cliclick ");
    reveal_strlit("m:");
    reveal_strlit("cliclick m:");
    let x = dec_int(or_zero(i.x));
    let y = dec_int(or_zero(i.y));
    assert("xdotool "@ + ("mousemove "@ + x + " "@ + y) =~= "xdotool mousemove "@ + x + " "@ + y);
    assert("cliclick "@ + ("m:"@ + x + ","@ + y) =~= "cliclick m:"@ + x + ","@ + y);
}

/// In read-only mode an action that changes nothing is planned as otherwise,
/// and without it every action is; on another platform none is.
pub proof fn law_plans_depend_on_mode_and_platform(
    a: Seq<char>,
    i: ComputerInput,
    platform: Platform,
)
    requires
        a.len() > 0,
    ensures
        a == "screenshot"@ || a == "cursor_position"@ ==> planned_step(Some(a), i, platform, true)
            == planned_step(Some(a), i, platform, false),
        a != "screenshot"@ && a != "cursor_position"@ ==> (planned_step(Some(a), i, platform, true)
            matches Err(f) && f.code == Some("read_only"@)),
        planned_step(Some(a), i, Platform::Linux, false) == linux_step(a, i),
        planned_step(Some(a), i, Platform::MacOS, false) == macos_step(a, i),
        planned_step(Some(a), i, Platform::Other, false) is Err,
        planned_step(None, i, platform, false) matches Err(f) && f.code == Some(
            "missing_parameter"@,
        ),
{
}

/// A screenshot carries its picture, and the file it was written to.
pub proof fn law_screenshot_carries_the_picture(path: Seq<char>, bytes: Seq<u8>)
    ensures
        screenshot_output(path, bytes).metadata.contains_pair(
            "image_base64"@,
            json_string(base64_standard(bytes)),
        ),
        screenshot_output(path, bytes).metadata.contains_pair("image_path"@, json_string(path)),
        screenshot_output(path, bytes).metadata.contains_pair(
            "image_mime"@,
            json_string("image/png"@),
        ),
        screenshot_output(path, bytes).output_type == "image"@,
{
    reveal_strlit("image_base64");
    reveal_strlit("image_path");
    reveal_strlit("image_mime");
    assert("image_base64"@.len() == 12 && "image_path"@[6] == 'p' && "image_mime"@[6] == 'm');
}

} // verus!
