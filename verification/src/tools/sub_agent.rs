//! The tool that hands a task to a sub-agent: when it may, what the
//! sub-agent is told, and what is reported.
use crate::api::{chat_views, text_message, ChatMessage};
use crate::json::{json_string, quote};
use crate::strmap::StrMap;
use crate::text::{dec, ends, fmt_u64, opt_view, owned};
use crate::tools::registry::{fail, failed, missing, outcome, Failed, Output, ToolError, ToolOutput};
use vstd::prelude::*;

verus! {

/// How deep sub-agents may be nested.
pub const DEFAULT_MAX_SUBAGENT_DEPTH: usize = 2;

/// The instruction of a sub-agent where none is set.
pub open spec fn subagent_prompt() -> Seq<char> {
    "You are a sub-agent spawned to handle a self-contained task. Respond with your final answer as a single concise text reply. You do not have access to tools; reason from the prompt alone."@
}

fn default_subagent_system_prompt() -> (r: String)
    ensures
        r@ == subagent_prompt(),
{
    owned(
        "You are a sub-agent spawned to handle a self-contained task. Respond with your final answer as a single concise text reply. You do not have access to tools; reason from the prompt alone.",
    )
}

/// What the model is told of the tool.
pub const TASK_DESCRIPTION: &'static str = "Spawn a sub-agent to handle a self-contained task. The sub-agent has its own independent conversation and returns its final text response. Use this to delegate work that would otherwise pollute the main conversation, such as broad research or parallel investigations. Recursion is bounded.";

/// The JSON schema of the tool's input.
pub const TASK_SCHEMA: &'static str = "{\"properties\":{\"description\":{\"description\":\"Short 3-5 word description of the task (used for logging).\",\"type\":\"string\"},\"prompt\":{\"description\":\"The full instruction the sub-agent should receive. Should be self-contained — the sub-agent has no memory of the parent's context.\",\"type\":\"string\"}},\"required\":[\"prompt\"],\"type\":\"object\"}";

#[derive(Debug, Clone)]
pub struct TaskTool {
    /// Whether a model is there to ask.
    pub bound: bool,
    pub max_depth: usize,
    pub system_prompt: String,
}

/// The error when the nesting is too deep.
pub open spec fn too_deep(depth: nat, max: nat) -> Failed {
    failed(
        "Sub-agent recursion limit reached (depth="@ + dec(depth) + "/"@ + dec(max)
            + "). The current agent must complete this "@ + "task directly."@,
        "recursion_limit"@,
    )
}

/// Why a task is not taken on, if it is not.
pub open spec fn refusal(t: TaskTool, prompt: Option<Seq<char>>, depth: usize) -> Option<Failed> {
    if !(prompt matches Some(p) && p.len() > 0) {
        Some(failed("'prompt' is required"@, "missing_parameter"@))
    } else if depth >= t.max_depth {
        Some(too_deep(depth as nat, t.max_depth as nat))
    } else if !t.bound {
        Some(
            failed(
                "Task tool not wired to an ApiClient (use TaskTool::new(...) instead of TaskTool::unbound())"@,
                "unbound"@,
            ),
        )
    } else {
        None
    }
}

/// A task is never handed on at or beyond the permitted depth.
pub proof fn law_depth_is_bounded(t: TaskTool, prompt: Option<Seq<char>>, depth: usize)
    requires
        depth >= t.max_depth,
    ensures
        refusal(t, prompt, depth) is Some,
{
}

/// The metadata of a finished task.
pub open spec fn task_metadata(description: Option<Seq<char>>, depth: usize) -> Map<
    Seq<char>,
    Seq<char>,
> {
    let m = Map::<Seq<char>, Seq<char>>::empty();
    let d = match description {
        Some(s) => m.insert("task_description"@, json_string(s)),
        None => m,
    };
    d.insert("subagent_depth"@, dec((depth + 1) as nat))
}

/// What is reported of a sub-agent's reply: an error of the service, an
/// empty reply, or the text.
pub open spec fn task_outcome(
    reply: Result<Option<Seq<char>>, Seq<char>>,
    description: Option<Seq<char>>,
    depth: usize,
) -> Result<Output, Failed> {
    match reply {
        Err(e) => Err(failed("sub-agent API call failed: "@ + e, "api_error"@)),
        Ok(t) => if t matches Some(s) && s.len() > 0 {
            Ok(
                Output {
                    output_type: "text"@,
                    content: t->0,
                    metadata: task_metadata(description, depth),
                },
            )
        } else {
            Err(failed("Sub-agent returned no text"@, "empty_response"@))
        },
    }
}

/// The view of a sub-agent's reply.
pub open spec fn reply_view(r: Result<Option<String>, String>) -> Result<
    Option<Seq<char>>,
    Seq<char>,
> {
    match r {
        Ok(o) => Ok(opt_view(o)),
        Err(e) => Err(e@),
    }
}

impl TaskTool {
    /// A tool with a model to ask.
    pub fn new() -> (r: TaskTool)
        ensures
            r.bound,
            r.max_depth == DEFAULT_MAX_SUBAGENT_DEPTH,
            r.system_prompt@ == subagent_prompt(),
    {
        TaskTool {
            bound: true,
            max_depth: DEFAULT_MAX_SUBAGENT_DEPTH,
            system_prompt: default_subagent_system_prompt(),
        }
    }

    /// A tool without a model to ask; it refuses every task.
    pub fn unbound() -> (r: TaskTool)
        ensures
            !r.bound,
            r.max_depth == DEFAULT_MAX_SUBAGENT_DEPTH,
            r.system_prompt@ == subagent_prompt(),
    {
        TaskTool {
            bound: false,
            max_depth: DEFAULT_MAX_SUBAGENT_DEPTH,
            system_prompt: default_subagent_system_prompt(),
        }
    }

    pub fn with_max_depth(self, depth: usize) -> (r: TaskTool)
        ensures
            r == (TaskTool { max_depth: depth, ..self }),
    {
        TaskTool { bound: self.bound, max_depth: depth, system_prompt: self.system_prompt }
    }

    pub fn with_system_prompt(self, prompt: &str) -> (r: TaskTool)
        ensures
            r.bound == self.bound,
            r.max_depth == self.max_depth,
            r.system_prompt@ == prompt@,
    {
        TaskTool { bound: self.bound, max_depth: self.max_depth, system_prompt: owned(prompt) }
    }

    pub fn name(&self) -> (r: &'static str)
        ensures
            r@ == "Task"@,
    {
        "Task"
    }

    pub fn description(&self) -> (r: &'static str)
        ensures
            r@ == TASK_DESCRIPTION@,
    {
        TASK_DESCRIPTION
    }

    pub fn input_schema(&self) -> (r: &'static str)
        ensures
            r@ == TASK_SCHEMA@,
    {
        TASK_SCHEMA
    }

    /// What the sub-agent is told, at a given depth of nesting; else why the
    /// task is not taken on.
    pub fn prepare(&self, prompt: &Option<String>, depth: usize) -> (r: Result<
        Vec<ChatMessage>,
        ToolError,
    >)
        ensures
            match refusal(*self, opt_view(*prompt), depth) {
                Some(f) => r matches Err(e) && e@ == f,
                None => r matches Ok(ms) && chat_views(ms@) == seq![
                    text_message("system"@, self.system_prompt@),
                    text_message("user"@, prompt->0@),
                ],
            },
    {
        let p: &String = match prompt {
            Some(p) => p,
            None => {
                return Err(missing("'prompt' is required"));
            },
        };
        if p.as_str().unicode_len() == 0 {
            return Err(missing("'prompt' is required"));
        }
        if depth >= self.max_depth {
            let mut m: String = owned("Sub-agent recursion limit reached (depth=");
            m.append(fmt_u64(depth as u64).as_str());
            m.append("/");
            m.append(fmt_u64(self.max_depth as u64).as_str());
            m.append("). The current agent must complete this ");
            m.append("task directly.");
            return Err(fail(m, "recursion_limit"));
        }
        if !self.bound {
            return Err(
                fail(
                    owned(
                        "Task tool not wired to an ApiClient (use TaskTool::new(...) instead of TaskTool::unbound())",
                    ),
                    "unbound",
                ),
            );
        }
        let mut ms: Vec<ChatMessage> = Vec::new();
        ms.push(ChatMessage::system(self.system_prompt.as_str()));
        ms.push(ChatMessage::user(p.as_str()));
        proof {
            assert(chat_views(ms@) =~= seq![
                text_message("system"@, self.system_prompt@),
                text_message("user"@, prompt->0@),
            ]);
        }
        Ok(ms)
    }

    /// Reports a sub-agent's reply: the text of its answer, if it has one,
    /// or the error of the service.
    pub fn finish(
        &self,
        reply: Result<Option<String>, String>,
        description: &Option<String>,
        depth: usize,
    ) -> (r: Result<ToolOutput, ToolError>)
        requires
            depth < self.max_depth,
        ensures
            outcome(r) == task_outcome(reply_view(reply), opt_view(*description), depth),
    {
        let text: String = match reply {
            Ok(t) => match t {
                Some(s) => s,
                None => String::new(),
            },
            Err(e) => {
                let mut m: String = owned("sub-agent API call failed: ");
                m.append(e.as_str());
                return Err(fail(m, "api_error"));
            },
        };
        if text.as_str().unicode_len() == 0 {
            return Err(fail(owned("Sub-agent returned no text"), "empty_response"));
        }
        let mut metadata: StrMap = StrMap::new();
        match description {
            Some(d) => {
                metadata.insert("task_description", quote(d.as_str()));
            },
            None => {},
        }
        metadata.insert("subagent_depth", fmt_u64(depth as u64 + 1));
        Ok(ToolOutput { output_type: owned("text"), content: text, metadata })
    }
}

/// A task with a prompt is taken on just where a model is there to ask and
/// the nesting is not too deep; one without a prompt never is.
pub proof fn law_task_is_taken_on(t: TaskTool, prompt: Seq<char>, depth: usize)
    ensures
        prompt.len() > 0 && depth < t.max_depth && t.bound ==> refusal(t, Some(prompt), depth) is None,
        prompt.len() > 0 && depth < t.max_depth && !t.bound ==> (refusal(t, Some(prompt), depth)
            matches Some(f) && f.code == Some("unbound"@)),
        prompt.len() > 0 && depth >= t.max_depth ==> (refusal(t, Some(prompt), depth) matches Some(f)
            && f.code == Some("recursion_limit"@)),
        prompt.len() == 0 ==> (refusal(t, Some(prompt), depth) matches Some(f) && f.code == Some(
            "missing_parameter"@,
        )),
        refusal(t, None, depth) matches Some(f) && f.code == Some("missing_parameter"@),
{
}

/// What the sub-agent answered is what is reported; an empty answer and an
/// error of the service are errors.
pub proof fn law_answer_is_reported(
    text: Seq<char>,
    error: Seq<char>,
    description: Option<Seq<char>>,
    depth: usize,
)
    ensures
        text.len() > 0 ==> (task_outcome(Ok(Some(text)), description, depth) matches Ok(o)
            && o.content == text && o.output_type == "text"@),
        text.len() == 0 ==> (task_outcome(Ok(Some(text)), description, depth) matches Err(f)
            && f.code == Some("empty_response"@)),
        task_outcome(Ok(None), description, depth) matches Err(f) && f.code == Some(
            "empty_response"@,
        ),
        task_outcome(Err(error), description, depth) matches Err(f) && f.code == Some(
            "api_error"@,
        ) && ends(f.message, error),
{
    let m = "sub-agent API call failed: "@ + error;
    assert(m.skip(m.len() - error.len()) =~= error);
}

/// A finished task tells how deep it ran, one below its caller, and what it
/// was about where that was said.
pub proof fn law_task_metadata(description: Option<Seq<char>>, depth: usize)
    ensures
        task_metadata(description, depth).contains_pair(
            "subagent_depth"@,
            dec((depth + 1) as nat),
        ),
        description matches Some(d) ==> task_metadata(description, depth).contains_pair(
            "task_description"@,
            json_string(d),
        ),
        description is None ==> !task_metadata(description, depth).dom().contains(
            "task_description"@,
        ),
{
    reveal_strlit("subagent_depth");
    reveal_strlit("task_description");
    assert("subagent_depth"@.len() != "task_description"@.len());
}

} // verus!
