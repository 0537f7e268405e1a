//! Chat messages and requests of an OpenAI-compatible service.
use crate::json::{json_string, law_json_string_ends, quote};
use crate::text::{
    ascii_lower, begins, copy_opt, dec, ends, fmt_u64, law_ascii_lower, opt_view, owned, same,
    to_ascii_lowercase,
};
use vstd::prelude::*;

verus! {

/// A function call that the model asks for.
#[derive(Debug, Clone)]
pub struct ToolCallFunction {
    pub name: String,
    /// The arguments as the model wrote them.
    pub arguments: String,
}

/// A tool call that the model asks for.
#[derive(Debug)]
pub struct ToolCall {
    pub id: String,
    /// Always `function`.
    pub kind: String,
    pub function: ToolCallFunction,
}

/// A tool call as a mathematical value.
pub struct Call {
    pub id: Seq<char>,
    pub kind: Seq<char>,
    pub name: Seq<char>,
    pub arguments: Seq<char>,
}

impl View for ToolCall {
    type V = Call;

    open spec fn view(&self) -> Call {
        Call {
            id: self.id@,
            kind: self.kind@,
            name: self.function.name@,
            arguments: self.function.arguments@,
        }
    }
}

/// The views of a sequence of tool calls.
pub open spec fn call_views(s: Seq<ToolCall>) -> Seq<Call> {
    s.map_values(|c: ToolCall| c@)
}

impl Clone for ToolCall {
    fn clone(&self) -> (r: ToolCall)
        ensures
            r@ == self@,
    {
        ToolCall {
            id: self.id.clone(),
            kind: self.kind.clone(),
            function: ToolCallFunction {
                name: self.function.name.clone(),
                arguments: self.function.arguments.clone(),
            },
        }
    }
}

/// A copy of a list of tool calls.
pub fn copy_calls(v: &Vec<ToolCall>) -> (r: Vec<ToolCall>)
    ensures
        call_views(r@) == call_views(v@),
{
    let mut out: Vec<ToolCall> = Vec::new();
    for i in 0..v.len()
        invariant
            call_views(out@) == call_views(v@).take(i as int),
    {
        let c: ToolCall = v[i].clone();
        let ghost before = out@;
        out.push(c);
        proof {
            assert(call_views(out@) =~= call_views(before).push(c@));
            assert(call_views(v@).take(i + 1) =~= call_views(v@).take(i as int).push(c@));
        }
    }
    proof {
        assert(call_views(v@).take(v@.len() as int) =~= call_views(v@));
    }
    out
}

/// One image attached to a message.
#[derive(Debug, Clone)]
pub struct ImageRef {
    /// A web address or a `data:image/<kind>;base64,...` URI.
    pub url: String,
    /// Optional `low` or `high` detail hint.
    pub detail: Option<String>,
}

/// The views of a sequence of images: address and hint.
pub open spec fn image_views(s: Seq<ImageRef>) -> Seq<(Seq<char>, Option<Seq<char>>)> {
    s.map_values(|i: ImageRef| (i.url@, opt_view(i.detail)))
}

/// A digit of the standard alphabet of Base64.
pub open spec fn base64_digit(n: int) -> char {
    "ABCDEFGHIJKLMNOPQRSTUVWXYZabcdefghijklmnopqrstuvwxyz0123456789+/"@[n]
}

/// Bytes in Base64: four digits for three bytes, with padding at the end.
pub open spec fn base64_standard(b: Seq<u8>) -> Seq<char>
    decreases b.len(),
{
    if b.len() == 0 {
        seq![]
    } else if b.len() == 1 {
        seq![base64_digit(b[0] as int / 4), base64_digit((b[0] % 4) * 16), '=', '=']
    } else if b.len() == 2 {
        seq![
            base64_digit(b[0] as int / 4),
            base64_digit((b[0] % 4) * 16 + b[1] / 16),
            base64_digit((b[1] % 16) * 4),
            '=',
        ]
    } else {
        seq![
            base64_digit(b[0] as int / 4),
            base64_digit((b[0] % 4) * 16 + b[1] / 16),
            base64_digit((b[1] % 16) * 4 + b[2] / 64),
            base64_digit(b[2] as int % 64),
        ] + base64_standard(b.skip(3))
    }
}

/// Calls `base64::Engine::encode` of the standard engine, which uses the
/// standard alphabet and padding.
#[verifier::external_body]
pub(crate) fn base64_encode(bytes: &Vec<u8>) -> (r: String)
    ensures
        r@ == base64_standard(bytes@),
{
    base64::Engine::encode(&base64::engine::general_purpose::STANDARD, bytes)
}

/// The media type of an image file with the given extension.
pub open spec fn image_mime(extension: Option<Seq<char>>) -> Seq<char> {
    match extension {
        Some(e) => {
            let l = ascii_lower(e);
            if l == "jpg"@ || l == "jpeg"@ {
                "image/jpeg"@
            } else if l == "gif"@ {
                "image/gif"@
            } else if l == "webp"@ {
                "image/webp"@
            } else {
                "image/png"@
            }
        },
        None => "image/png"@,
    }
}

impl ImageRef {
    pub fn from_url(url: &str) -> (r: ImageRef)
        ensures
            r.url@ == url@,
            r.detail is None,
    {
        ImageRef { url: owned(url), detail: None }
    }

    pub fn from_data_uri(uri: &str) -> (r: ImageRef)
        ensures
            r.url@ == uri@,
            r.detail is None,
    {
        ImageRef { url: owned(uri), detail: None }
    }

    /// Wraps the bytes of an image file in a `data:` URI. An unknown
    /// extension counts as `image/png`.
    pub fn from_bytes(bytes: &Vec<u8>, extension: &Option<String>) -> (r: ImageRef)
        ensures
            r.url@ == "data:"@ + image_mime(opt_view(*extension)) + ";base64,"@ + base64_standard(
                bytes@,
            ),
            r.detail is None,
    {
        let mime: &str = match extension {
            Some(e) => {
                let l: String = to_ascii_lowercase(e.as_str());
                let l: &str = l.as_str();
                if same(l, "jpg") || same(l, "jpeg") {
                    "image/jpeg"
                } else if same(l, "gif") {
                    "image/gif"
                } else if same(l, "webp") {
                    "image/webp"
                } else {
                    "image/png"
                }
            },
            None => "image/png",
        };
        let mut url: String = owned("data:");
        url.append(mime);
        url.append(";base64,");
        url.append(base64_encode(bytes).as_str());
        ImageRef { url, detail: None }
    }
}

/// A chat message.
#[derive(Debug)]
pub struct ChatMessage {
    pub role: String,
    pub content: Option<String>,
    pub tool_calls: Option<Vec<ToolCall>>,
    pub tool_call_id: Option<String>,
    /// Attached images; with any, the message is written in parts.
    pub images: Vec<ImageRef>,
}

/// A message as a mathematical value.
pub struct Chat {
    pub role: Seq<char>,
    pub content: Option<Seq<char>>,
    pub tool_calls: Option<Seq<Call>>,
    pub tool_call_id: Option<Seq<char>>,
    pub images: Seq<(Seq<char>, Option<Seq<char>>)>,
}

impl View for ChatMessage {
    type V = Chat;

    open spec fn view(&self) -> Chat {
        Chat {
            role: self.role@,
            content: opt_view(self.content),
            tool_calls: match self.tool_calls {
                Some(v) => Some(call_views(v@)),
                None => None,
            },
            tool_call_id: opt_view(self.tool_call_id),
            images: image_views(self.images@),
        }
    }
}

/// The views of a sequence of messages.
pub open spec fn chat_views(s: Seq<ChatMessage>) -> Seq<Chat> {
    s.map_values(|m: ChatMessage| m@)
}

/// A message of text alone.
pub open spec fn text_message(role: Seq<char>, content: Seq<char>) -> Chat {
    Chat {
        role,
        content: Some(content),
        tool_calls: None,
        tool_call_id: None,
        images: Seq::empty(),
    }
}

/// The answer to a tool call.
pub open spec fn tool_message(id: Seq<char>, content: Seq<char>) -> Chat {
    Chat { tool_call_id: Some(id), ..text_message("tool"@, content) }
}

fn copy_images(v: &Vec<ImageRef>) -> (r: Vec<ImageRef>)
    ensures
        image_views(r@) == image_views(v@),
{
    let mut out: Vec<ImageRef> = Vec::new();
    for i in 0..v.len()
        invariant
            image_views(out@) == image_views(v@).take(i as int),
    {
        let c = ImageRef { url: v[i].url.clone(), detail: copy_opt(&v[i].detail) };
        let ghost before = out@;
        out.push(c);
        proof {
            assert(image_views(out@) =~= image_views(before).push((c.url@, opt_view(c.detail))));
            assert(image_views(v@).take(i + 1) =~= image_views(v@).take(i as int).push(
                (c.url@, opt_view(c.detail)),
            ));
        }
    }
    proof {
        assert(image_views(v@).take(v@.len() as int) =~= image_views(v@));
    }
    out
}

impl Clone for ChatMessage {
    fn clone(&self) -> (r: ChatMessage)
        ensures
            r@ == self@,
    {
        ChatMessage {
            role: self.role.clone(),
            content: copy_opt(&self.content),
            tool_calls: match &self.tool_calls {
                Some(v) => Some(copy_calls(v)),
                None => None,
            },
            tool_call_id: copy_opt(&self.tool_call_id),
            images: copy_images(&self.images),
        }
    }
}

impl ChatMessage {
    fn of_text(role: &str, content: &str) -> (r: ChatMessage)
        ensures
            r@ == text_message(role@, content@),
    {
        let r = ChatMessage {
            role: owned(role),
            content: Some(owned(content)),
            tool_calls: None,
            tool_call_id: None,
            images: Vec::new(),
        };
        proof {
            assert(r@.images =~= Seq::empty());
        }
        r
    }

    pub fn user(content: &str) -> (r: ChatMessage)
        ensures
            r@ == text_message("user"@, content@),
    {
        ChatMessage::of_text("user", content)
    }

    /// A user message of text and images.
    pub fn user_with_images(content: &str, images: Vec<ImageRef>) -> (r: ChatMessage)
        ensures
            r@ == (Chat { images: image_views(images@), ..text_message("user"@, content@) }),
    {
        let mut m: ChatMessage = ChatMessage::of_text("user", content);
        m.images = images;
        m
    }

    pub fn assistant(content: &str) -> (r: ChatMessage)
        ensures
            r@ == text_message("assistant"@, content@),
    {
        ChatMessage::of_text("assistant", content)
    }

    pub fn assistant_with_tools(tool_calls: Vec<ToolCall>) -> (r: ChatMessage)
        ensures
            r@ == (Chat {
                role: "assistant"@,
                content: None,
                tool_calls: Some(call_views(tool_calls@)),
                tool_call_id: None,
                images: Seq::empty(),
            }),
    {
        let r = ChatMessage {
            role: owned("assistant"),
            content: None,
            tool_calls: Some(tool_calls),
            tool_call_id: None,
            images: Vec::new(),
        };
        proof {
            assert(r@.images =~= Seq::empty());
        }
        r
    }

    pub fn system(content: &str) -> (r: ChatMessage)
        ensures
            r@ == text_message("system"@, content@),
    {
        ChatMessage::of_text("system", content)
    }

    pub fn tool(tool_call_id: &str, content: &str) -> (r: ChatMessage)
        ensures
            r@ == tool_message(tool_call_id@, content@),
    {
        let mut m: ChatMessage = ChatMessage::of_text("tool", content);
        m.tool_call_id = Some(owned(tool_call_id));
        m
    }

    /// Attaches an image.
    pub fn with_image(self, image: ImageRef) -> (r: ChatMessage)
        ensures
            r@ == (Chat {
                images: self@.images.push((image.url@, opt_view(image.detail))),
                ..self@
            }),
    {
        let mut m: ChatMessage = self;
        let ghost before = m.images@;
        m.images.push(image);
        proof {
            assert(image_views(m.images@) =~= image_views(before).push(
                (image.url@, opt_view(image.detail)),
            ));
        }
        m
    }

    /// Writes the message as JSON. Without images the content is a string;
    /// with images it is a list of parts, the text first.
    pub fn to_json(&self) -> (r: String)
        ensures
            r@ == chat_json(self@),
    {
        let mut s: String = owned("{\"role\":");
        s.append(quote(self.role.as_str()).as_str());
        if self.images.len() == 0 {
            match &self.content {
                Some(c) => {
                    s.append(",\"content\":");
                    s.append(quote(c.as_str()).as_str());
                },
                None => {},
            }
        } else {
            s.append(",\"content\":[{\"text\":");
            match &self.content {
                Some(c) => {
                    s.append(quote(c.as_str()).as_str());
                },
                None => {
                    s.append(quote("").as_str());
                },
            }
            s.append(",\"type\":\"text\"}");
            s.append(images_to_json(&self.images).as_str());
            s.append("]");
        }
        proof {
            assert(image_views(self.images@).len() == self.images@.len());
            assert(""@ =~= Seq::<char>::empty()) by {
                reveal_strlit("");
            }
            assert(s@ =~= "{\"role\":"@ + json_string(self@.role) + content_json(self@));
        }
        match &self.tool_calls {
            Some(v) => {
                s.append(",\"tool_calls\":[");
                s.append(calls_to_json(v).as_str());
                s.append("]");
            },
            None => {},
        }
        match &self.tool_call_id {
            Some(id) => {
                s.append(",\"tool_call_id\":");
                s.append(quote(id.as_str()).as_str());
            },
            None => {},
        }
        s.append("}");
        proof {
            assert(s@ =~= chat_json(self@));
        }
        s
    }
}

/// The JSON object of an image's address and hint.
pub open spec fn image_json(i: (Seq<char>, Option<Seq<char>>)) -> Seq<char> {
    "{\"image_url\":{"@ + (match i.1 {
        Some(d) => "\"detail\":"@ + json_string(d) + ","@,
        None => ""@,
    }) + "\"url\":"@ + json_string(i.0) + "},\"type\":\"image_url\"}"@
}

/// The parts of some images, each after a comma.
pub open spec fn images_json(s: Seq<(Seq<char>, Option<Seq<char>>)>) -> Seq<char>
    decreases s.len(),
{
    if s.len() == 0 {
        seq![]
    } else {
        images_json(s.drop_last()) + ","@ + image_json(s.last())
    }
}

/// The content of a message, with the comma before it.
pub open spec fn content_json(m: Chat) -> Seq<char> {
    if m.images.len() == 0 {
        match m.content {
            Some(c) => ",\"content\":"@ + json_string(c),
            None => seq![],
        }
    } else {
        ",\"content\":[{\"text\":"@ + json_string(
            match m.content {
                Some(c) => c,
                None => Seq::empty(),
            },
        ) + ",\"type\":\"text\"}"@ + images_json(m.images) + "]"@
    }
}

/// The JSON object of a tool call.
pub open spec fn call_json(c: Call) -> Seq<char> {
    "{\"id\":"@ + json_string(c.id) + ",\"type\":"@ + json_string(c.kind)
        + ",\"function\":{\"name\":"@ + json_string(c.name) + ",\"arguments\":"@ + json_string(
        c.arguments,
    ) + "}}"@
}

/// The JSON objects of some tool calls, with commas between them.
pub open spec fn calls_json(s: Seq<Call>) -> Seq<char>
    decreases s.len(),
{
    if s.len() == 0 {
        seq![]
    } else if s.len() == 1 {
        call_json(s[0])
    } else {
        calls_json(s.drop_last()) + ","@ + call_json(s.last())
    }
}

/// A message as JSON.
pub open spec fn chat_json(m: Chat) -> Seq<char> {
    "{\"role\":"@ + json_string(m.role) + content_json(m) + (match m.tool_calls {
        Some(cs) => ",\"tool_calls\":["@ + calls_json(cs) + "]"@,
        None => seq![],
    }) + (match m.tool_call_id {
        Some(id) => ",\"tool_call_id\":"@ + json_string(id),
        None => seq![],
    }) + "}"@
}

fn images_to_json(v: &Vec<ImageRef>) -> (r: String)
    ensures
        r@ == images_json(image_views(v@)),
{
    let mut s: String = String::new();
    let ghost iv = image_views(v@);
    proof {
        assert(s@ =~= images_json(iv.take(0)));
        reveal_strlit("");
    }
    for i in 0..v.len()
        invariant
            iv == image_views(v@),
            s@ == images_json(iv.take(i as int)),
            ""@ =~= Seq::<char>::empty(),
    {
        let ghost before = s@;
        s.append(",");
        s.append("{\"image_url\":{");
        match &v[i].detail {
            Some(d) => {
                s.append("\"detail\":");
                s.append(quote(d.as_str()).as_str());
                s.append(",");
            },
            None => {},
        }
        s.append("\"url\":");
        s.append(quote(v[i].url.as_str()).as_str());
        s.append("},\"type\":\"image_url\"}");
        proof {
            assert(iv.take(i + 1).drop_last() =~= iv.take(i as int));
            assert(iv.take(i + 1).last() == iv[i as int]);
            assert(s@ =~= before + ","@ + image_json(iv[i as int]));
        }
    }
    proof {
        assert(iv.take(iv.len() as int) =~= iv);
    }
    s
}

fn calls_to_json(v: &Vec<ToolCall>) -> (r: String)
    ensures
        r@ == calls_json(call_views(v@)),
{
    let mut s: String = String::new();
    let ghost cv = call_views(v@);
    proof {
        assert(s@ =~= calls_json(cv.take(0)));
    }
    for i in 0..v.len()
        invariant
            cv == call_views(v@),
            s@ == calls_json(cv.take(i as int)),
    {
        let ghost before = s@;
        if i > 0 {
            s.append(",");
        }
        let ghost lead = s@;
        s.append("{\"id\":");
        s.append(quote(v[i].id.as_str()).as_str());
        s.append(",\"type\":");
        s.append(quote(v[i].kind.as_str()).as_str());
        s.append(",\"function\":{\"name\":");
        s.append(quote(v[i].function.name.as_str()).as_str());
        s.append(",\"arguments\":");
        s.append(quote(v[i].function.arguments.as_str()).as_str());
        s.append("}}");
        proof {
            assert(cv.take(i + 1).drop_last() =~= cv.take(i as int));
            assert(cv.take(i + 1).last() == cv[i as int]);
            assert(s@ =~= lead + call_json(cv[i as int]));
            if i == 0 {
                assert(s@ =~= call_json(cv.take(1)[0]));
            }
        }
    }
    proof {
        assert(cv.take(cv.len() as int) =~= cv);
    }
    s
}

/// A tool as the model is told about it.
#[derive(Debug, Clone)]
pub struct ToolFunction {
    pub name: String,
    pub description: String,
    /// The schema of the parameters, as JSON text.
    pub parameters: String,
}

#[derive(Debug, Clone)]
pub struct ToolDefinition {
    /// Always `function`.
    pub kind: String,
    pub function: ToolFunction,
}

/// A tool definition as a mathematical value.
pub struct Definition {
    pub kind: Seq<char>,
    pub name: Seq<char>,
    pub description: Seq<char>,
    pub parameters: Seq<char>,
}

impl View for ToolDefinition {
    type V = Definition;

    open spec fn view(&self) -> Definition {
        Definition {
            kind: self.kind@,
            name: self.function.name@,
            description: self.function.description@,
            parameters: self.function.parameters@,
        }
    }
}

/// The views of a sequence of tool definitions.
pub open spec fn definition_views(s: Seq<ToolDefinition>) -> Seq<Definition> {
    s.map_values(|d: ToolDefinition| d@)
}

impl ToolDefinition {
    /// A function with the schema of its parameters as JSON text.
    pub fn new(name: &str, description: &str, parameters: &str) -> (r: ToolDefinition)
        ensures
            r@ == (Definition {
                kind: "function"@,
                name: name@,
                description: description@,
                parameters: parameters@,
            }),
    {
        ToolDefinition {
            kind: owned("function"),
            function: ToolFunction {
                name: owned(name),
                description: owned(description),
                parameters: owned(parameters),
            },
        }
    }
}

/// The JSON object of a tool definition.
pub open spec fn definition_json(d: Definition) -> Seq<char> {
    "{\"type\":"@ + json_string(d.kind) + ",\"function\":{\"name\":"@ + json_string(d.name)
        + ",\"description\":"@ + json_string(d.description) + ",\"parameters\":"@ + d.parameters
        + "}}"@
}

/// The JSON objects of some tool definitions, with commas between them.
pub open spec fn definitions_json(s: Seq<Definition>) -> Seq<char>
    decreases s.len(),
{
    if s.len() == 0 {
        seq![]
    } else if s.len() == 1 {
        definition_json(s[0])
    } else {
        definitions_json(s.drop_last()) + ","@ + definition_json(s.last())
    }
}

/// Messages as JSON, with commas between them.
pub open spec fn chats_json(s: Seq<Chat>) -> Seq<char>
    decreases s.len(),
{
    if s.len() == 0 {
        seq![]
    } else if s.len() == 1 {
        chat_json(s[0])
    } else {
        chats_json(s.drop_last()) + ","@ + chat_json(s.last())
    }
}

/// A chat request as JSON; the sampling temperature is `0.7`.
pub open spec fn request_json(
    model: Seq<char>,
    messages: Seq<Chat>,
    max_tokens: nat,
    stream: bool,
    tools: Option<Seq<Definition>>,
) -> Seq<char> {
    "{\"model\":"@ + json_string(model) + ",\"messages\":["@ + chats_json(messages)
        + "],\"max_tokens\":"@ + dec(max_tokens) + ",\"stream\":"@ + (if stream {
        "true"@
    } else {
        "false"@
    }) + ",\"temperature\":0.7"@ + (match tools {
        Some(ts) => ",\"tools\":["@ + definitions_json(ts) + "]"@,
        None => seq![],
    }) + "}"@
}

fn chats_to_json(v: &Vec<ChatMessage>) -> (r: String)
    ensures
        r@ == chats_json(chat_views(v@)),
{
    let mut s: String = String::new();
    let ghost cv = chat_views(v@);
    proof {
        assert(s@ =~= chats_json(cv.take(0)));
    }
    for i in 0..v.len()
        invariant
            cv == chat_views(v@),
            s@ == chats_json(cv.take(i as int)),
    {
        if i > 0 {
            s.append(",");
        }
        s.append(v[i].to_json().as_str());
        proof {
            assert(cv.take(i + 1).drop_last() =~= cv.take(i as int));
            assert(cv.take(i + 1).last() == v@[i as int]@);
            if i == 0 {
                assert(s@ =~= chat_json(cv.take(1)[0]));
            }
        }
    }
    proof {
        assert(cv.take(cv.len() as int) =~= cv);
    }
    s
}

fn definitions_to_json(v: &Vec<ToolDefinition>) -> (r: String)
    ensures
        r@ == definitions_json(definition_views(v@)),
{
    let mut s: String = String::new();
    let ghost dv = definition_views(v@);
    proof {
        assert(s@ =~= definitions_json(dv.take(0)));
    }
    for i in 0..v.len()
        invariant
            dv == definition_views(v@),
            s@ == definitions_json(dv.take(i as int)),
    {
        if i > 0 {
            s.append(",");
        }
        let ghost lead = s@;
        s.append("{\"type\":");
        s.append(quote(v[i].kind.as_str()).as_str());
        s.append(",\"function\":{\"name\":");
        s.append(quote(v[i].function.name.as_str()).as_str());
        s.append(",\"description\":");
        s.append(quote(v[i].function.description.as_str()).as_str());
        s.append(",\"parameters\":");
        s.append(v[i].function.parameters.as_str());
        s.append("}}");
        proof {
            assert(dv.take(i + 1).drop_last() =~= dv.take(i as int));
            assert(dv.take(i + 1).last() == dv[i as int]);
            assert(s@ =~= lead + definition_json(dv[i as int]));
            if i == 0 {
                assert(s@ =~= definition_json(dv.take(1)[0]));
            }
        }
    }
    proof {
        assert(dv.take(dv.len() as int) =~= dv);
    }
    s
}

/// The view of an optional list of tool definitions.
pub open spec fn opt_definitions(o: Option<Vec<ToolDefinition>>) -> Option<Seq<Definition>> {
    match o {
        Some(v) => Some(definition_views(v@)),
        None => None,
    }
}

/// Writes a chat request as JSON.
pub fn chat_request(
    model: &str,
    messages: &Vec<ChatMessage>,
    max_tokens: usize,
    stream: bool,
    tools: &Option<Vec<ToolDefinition>>,
) -> (r: String)
    ensures
        r@ == request_json(
            model@,
            chat_views(messages@),
            max_tokens as nat,
            stream,
            opt_definitions(*tools),
        ),
{
    let mut s: String = owned("{\"model\":");
    s.append(quote(model).as_str());
    s.append(",\"messages\":[");
    s.append(chats_to_json(messages).as_str());
    s.append("],\"max_tokens\":");
    s.append(fmt_u64(max_tokens as u64).as_str());
    s.append(",\"stream\":");
    s.append(
        if stream {
            "true"
        } else {
            "false"
        },
    );
    s.append(",\"temperature\":0.7");
    match tools {
        Some(v) => {
            s.append(",\"tools\":[");
            s.append(definitions_to_json(v).as_str());
            s.append("]");
        },
        None => {},
    }
    s.append("}");
    proof {
        assert(s@ =~= request_json(
            model@,
            chat_views(messages@),
            max_tokens as nat,
            stream,
            opt_definitions(*tools),
        ));
    }
    s
}

/// The address of the chat service below a base address.
pub fn chat_url(base_url: &str) -> (r: String)
    ensures
        r@ == base_url@ + "/v1/chat/completions"@,
{
    let mut s: String = owned(base_url);
    s.append("/v1/chat/completions");
    s
}

/// One of the answers of a chat service.
#[derive(Debug, Clone)]
pub struct Choice {
    pub index: i32,
    pub message: ChatMessage,
    pub finish_reason: Option<String>,
}

/// How many tokens a request took.
#[derive(Debug, Clone, Copy)]
pub struct Usage {
    pub prompt_tokens: usize,
    pub completion_tokens: usize,
    pub total_tokens: usize,
}

/// The response of a chat service.
#[derive(Debug, Clone)]
pub struct ChatResponse {
    pub id: String,
    pub object: String,
    pub created: i64,
    pub model: String,
    pub choices: Vec<Choice>,
    pub usage: Option<Usage>,
}

impl ChatResponse {
    /// The text of the first answer, if there is one.
    pub fn text(&self) -> (r: Option<String>)
        ensures
            opt_view(r) == (if self.choices@.len() > 0 {
                self.choices@[0].message@.content
            } else {
                None
            }),
    {
        if self.choices.len() > 0 {
            copy_opt(&self.choices[0].message.content)
        } else {
            None
        }
    }

    /// The message of the first answer, if there is one.
    pub fn into_first(self) -> (r: Option<ChatMessage>)
        ensures
            match r {
                Some(m) => self.choices@.len() > 0 && m@ == self.choices@[0].message@,
                None => self.choices@.len() == 0,
            },
    {
        if self.choices.len() > 0 {
            Some(self.choices[0].message.clone())
        } else {
            None
        }
    }
}

/// A piece of a streamed answer.
#[derive(Debug, Clone)]
pub struct Delta {
    pub role: Option<String>,
    pub content: Option<String>,
}

#[derive(Debug, Clone)]
pub struct StreamChoice {
    pub index: i32,
    pub delta: Delta,
    pub finish_reason: Option<String>,
}

#[derive(Debug, Clone)]
pub struct StreamChunk {
    pub id: String,
    pub object: String,
    pub created: i64,
    pub model: String,
    pub choices: Vec<StreamChoice>,
}

proof fn lemma_same_start(p: Seq<char>, a: Seq<char>, b: Seq<char>)
    requires
        p + a == p + b,
    ensures
        a == b,
{
    assert((p + a).skip(p.len() as int) =~= a);
    assert((p + b).skip(p.len() as int) =~= b);
}

proof fn lemma_next(p: Seq<char>, a: Seq<char>, x: Seq<char>, b: Seq<char>, y: Seq<char>)
    requires
        p + (json_string(a) + x) == p + (json_string(b) + y),
    ensures
        a == b,
        x == y,
{
    lemma_same_start(p, json_string(a) + x, json_string(b) + y);
    law_json_string_ends(a, x, b, y);
}

/// A part with something before it, between it and the rest, and the rest.
spec fn parted(p: Seq<char>, a: Seq<char>, q: Seq<char>, rest: Seq<char>) -> Seq<char> {
    p + (a + (q + rest))
}

proof fn lemma_call_parts(c: Call)
    ensures
        call_json(c) == parted(
            "{\"id\":"@,
            json_string(c.id),
            ",\"type\":"@,
            json_string(c.kind) + parted(
                ",\"function\":{\"name\":"@,
                json_string(c.name),
                ",\"arguments\":"@,
                json_string(c.arguments) + "}}"@,
            ),
        ),
{
    assert(call_json(c) =~= parted(
        "{\"id\":"@,
        json_string(c.id),
        ",\"type\":"@,
        json_string(c.kind) + parted(
            ",\"function\":{\"name\":"@,
            json_string(c.name),
            ",\"arguments\":"@,
            json_string(c.arguments) + "}}"@,
        ),
    ));
}

/// Different tool calls are written differently: nothing of a call is lost
/// on the way to the model.
pub proof fn law_calls_are_told_apart(c: Call, d: Call)
    requires
        call_json(c) == call_json(d),
    ensures
        c == d,
{
    lemma_call_parts(c);
    lemma_call_parts(d);
    let q = ",\"type\":"@;
    let r = ",\"function\":{\"name\":"@;
    let s = ",\"arguments\":"@;
    let t = "}}"@;
    let c3 = json_string(c.arguments) + t;
    let d3 = json_string(d.arguments) + t;
    let c2 = parted(r, json_string(c.name), s, c3);
    let d2 = parted(r, json_string(d.name), s, d3);
    lemma_next(
        "{\"id\":"@,
        c.id,
        q + (json_string(c.kind) + c2),
        d.id,
        q + (json_string(d.kind) + d2),
    );
    lemma_next(q, c.kind, c2, d.kind, d2);
    lemma_next(r, c.name, s + c3, d.name, s + d3);
    lemma_next(s, c.arguments, t, d.arguments, t);
}

/// A call is written under the names that the service knows: the identifier
/// first, the arguments last.
pub proof fn law_call_fields(c: Call)
    ensures
        begins(call_json(c), "{\"id\":"@ + json_string(c.id) + ",\"type\":"@ + json_string(c.kind)),
        ends(
            call_json(c),
            "{\"name\":"@ + json_string(c.name) + ",\"arguments\":"@ + json_string(c.arguments)
                + "}}"@,
        ),
{
    reveal_strlit(",\"function\":{\"name\":");
    reveal_strlit("{\"name\":");
    let j = call_json(c);
    let a = "{\"id\":"@ + json_string(c.id) + ",\"type\":"@ + json_string(c.kind);
    assert(j.take(a.len() as int) =~= a);
    let b = "{\"name\":"@ + json_string(c.name) + ",\"arguments\":"@ + json_string(c.arguments)
        + "}}"@;
    let f = ",\"function\":{\"name\":"@;
    assert(f.skip(f.len() - 8) =~= "{\"name\":"@);
    assert(f =~= f.take(f.len() - 8) + "{\"name\":"@);
    assert(j =~= a + f.take(f.len() - 8) + b);
    assert(j.skip(j.len() - b.len()) =~= b);
}

/// A message of text alone is its role and its text; an answer to a tool
/// call names the call; a message that asks for calls lists them.
pub proof fn law_message_json(role: Seq<char>, text: Seq<char>, id: Seq<char>, cs: Seq<Call>)
    ensures
        chat_json(text_message(role, text)) == "{\"role\":"@ + json_string(role)
            + ",\"content\":"@ + json_string(text) + "}"@,
        chat_json(tool_message(id, text)) == "{\"role\":"@ + json_string("tool"@)
            + ",\"content\":"@ + json_string(text) + ",\"tool_call_id\":"@ + json_string(id) + "}"@,
        chat_json(
            Chat {
                role,
                content: None,
                tool_calls: Some(cs),
                tool_call_id: None,
                images: Seq::empty(),
            },
        ) == "{\"role\":"@ + json_string(role) + ",\"tool_calls\":["@ + calls_json(cs) + "]}"@,
{
    reveal_strlit("]");
    reveal_strlit("}");
    reveal_strlit("]}");
    assert("]"@ + "}"@ =~= "]}"@);
    let m = text_message(role, text);
    assert(chat_json(m) =~= "{\"role\":"@ + json_string(role) + ",\"content\":"@ + json_string(text)
        + "}"@);
    let t = tool_message(id, text);
    assert(chat_json(t) =~= "{\"role\":"@ + json_string("tool"@) + ",\"content\":"@ + json_string(
        text,
    ) + ",\"tool_call_id\":"@ + json_string(id) + "}"@);
    let c = Chat {
        role,
        content: None,
        tool_calls: Some(cs),
        tool_call_id: None,
        images: Seq::empty(),
    };
    assert(chat_json(c) =~= "{\"role\":"@ + json_string(role) + ",\"tool_calls\":["@ + calls_json(cs)
        + "]}"@);
}

/// With images, a message is written in parts: the text first, then each
/// image in order, with its hint where it has one.
pub proof fn law_images_follow_the_text(
    m: Chat,
    url: Seq<char>,
    hint: Option<Seq<char>>,
    text: Seq<char>,
)
    requires
        m.content == Some(text),
        m.images.len() > 0,
    ensures
        begins(
            content_json(m),
            ",\"content\":[{\"text\":"@ + json_string(text) + ",\"type\":\"text\"},"@,
        ),
        images_json(m.images.push((url, hint))) == images_json(m.images) + ","@ + image_json(
            (url, hint),
        ),
        image_json((url, None)) == "{\"image_url\":{\"url\":"@ + json_string(url)
            + "},\"type\":\"image_url\"}"@,
        hint matches Some(d) ==> image_json((url, hint)) == "{\"image_url\":{\"detail\":"@
            + json_string(d) + ",\"url\":"@ + json_string(url) + "},\"type\":\"image_url\"}"@,
{
    assert(m.images.push((url, hint)).drop_last() =~= m.images);
    reveal_strlit("");
    reveal_strlit(",");
    reveal_strlit("{\"image_url\":{");
    reveal_strlit("\"url\":");
    reveal_strlit("{\"image_url\":{\"url\":");
    reveal_strlit("\"detail\":");
    reveal_strlit("{\"image_url\":{\"detail\":");
    reveal_strlit(",\"url\":");
    assert("{\"image_url\":{"@ + ""@ + "\"url\":"@ =~= "{\"image_url\":{\"url\":"@);
    assert("{\"image_url\":{"@ + "\"detail\":"@ =~= "{\"image_url\":{\"detail\":"@);
    assert(","@ + "\"url\":"@ =~= ",\"url\":"@);
    assert(image_json((url, None)) =~= "{\"image_url\":{\"url\":"@ + json_string(url)
        + "},\"type\":\"image_url\"}"@);
    if hint is Some {
        let d = hint->0;
        assert(image_json((url, hint)) =~= "{\"image_url\":{\"detail\":"@ + json_string(d)
            + ",\"url\":"@ + json_string(url) + "},\"type\":\"image_url\"}"@);
    }
    reveal_strlit(",\"type\":\"text\"}");
    reveal_strlit(",\"type\":\"text\"},");
    assert(",\"type\":\"text\"}"@ + ","@ =~= ",\"type\":\"text\"},"@);
    let i = m.images;
    lemma_images_begin(i);
    let a = ",\"content\":[{\"text\":"@ + json_string(text) + ",\"type\":\"text\"},"@;
    let t = images_json(i);
    assert(t =~= ","@ + t.skip(1));
    let c = content_json(m);
    assert(c =~= a + t.skip(1) + "]"@);
    assert(c.take(a.len() as int) =~= a);
}

proof fn lemma_images_begin(s: Seq<(Seq<char>, Option<Seq<char>>)>)
    requires
        s.len() > 0,
    ensures
        images_json(s).len() > 0,
        images_json(s)[0] == ',',
    decreases s.len(),
{
    reveal_strlit(",");
    let before = images_json(s.drop_last());
    let last = image_json(s.last());
    assert(images_json(s) == before + ","@ + last);
    if s.len() > 1 {
        lemma_images_begin(s.drop_last());
        assert(images_json(s)[0] == before[0]);
    } else {
        assert(before.len() == 0);
        assert(images_json(s)[0] == ","@[0]);
    }
}

/// Messages, calls and tools are listed one after another, in order, with
/// commas between them.
pub proof fn law_lists_in_order(
    ms: Seq<Chat>,
    m: Chat,
    cs: Seq<Call>,
    c: Call,
    ts: Seq<Definition>,
    t: Definition,
)
    ensures
        chats_json(seq![m]) == chat_json(m),
        ms.len() > 0 ==> chats_json(ms.push(m)) == chats_json(ms) + ","@ + chat_json(m),
        calls_json(seq![c]) == call_json(c),
        cs.len() > 0 ==> calls_json(cs.push(c)) == calls_json(cs) + ","@ + call_json(c),
        definitions_json(seq![t]) == definition_json(t),
        ts.len() > 0 ==> definitions_json(ts.push(t)) == definitions_json(ts) + ","@
            + definition_json(t),
{
    assert(ms.push(m).drop_last() =~= ms);
    assert(cs.push(c).drop_last() =~= cs);
    assert(ts.push(t).drop_last() =~= ts);
}

/// A request names the model, holds the messages and the limit, says whether
/// it streams, and lists the tools where there are any; nothing else of it
/// depends on the tools.
pub proof fn law_request_json(
    model: Seq<char>,
    ms: Seq<Chat>,
    max: nat,
    stream: bool,
    ts: Seq<Definition>,
)
    ensures
        begins(
            request_json(model, ms, max, stream, None),
            "{\"model\":"@ + json_string(model) + ",\"messages\":["@ + chats_json(ms)
                + "],\"max_tokens\":"@ + dec(max) + ",\"stream\":"@,
        ),
        ends(request_json(model, ms, max, true, None), ",\"stream\":true,\"temperature\":0.7}"@),
        ends(request_json(model, ms, max, false, None), ",\"stream\":false,\"temperature\":0.7}"@),
        request_json(model, ms, max, stream, Some(ts)) == request_json(
            model,
            ms,
            max,
            stream,
            None,
        ).drop_last() + ",\"tools\":["@ + definitions_json(ts) + "]}"@,
{
    reveal_strlit("]");
    reveal_strlit("}");
    reveal_strlit("]}");
    assert("]"@ + "}"@ =~= "]}"@);
    let a = "{\"model\":"@ + json_string(model) + ",\"messages\":["@ + chats_json(ms)
        + "],\"max_tokens\":"@ + dec(max) + ",\"stream\":"@;
    let r = request_json(model, ms, max, stream, None);
    assert(r.take(a.len() as int) =~= a);
    reveal_strlit(",\"stream\":");
    reveal_strlit("true");
    reveal_strlit("false");
    reveal_strlit(",\"temperature\":0.7");
    reveal_strlit(",\"stream\":true,\"temperature\":0.7}");
    reveal_strlit(",\"stream\":false,\"temperature\":0.7}");
    let y = ",\"stream\":true,\"temperature\":0.7}"@;
    let n = ",\"stream\":false,\"temperature\":0.7}"@;
    assert(",\"stream\":"@ + "true"@ + ",\"temperature\":0.7"@ + "}"@ =~= y);
    assert(",\"stream\":"@ + "false"@ + ",\"temperature\":0.7"@ + "}"@ =~= n);
    let h = "{\"model\":"@ + json_string(model) + ",\"messages\":["@ + chats_json(ms)
        + "],\"max_tokens\":"@ + dec(max);
    let rt = request_json(model, ms, max, true, None);
    let rf = request_json(model, ms, max, false, None);
    assert(rt =~= h + y);
    assert(rf =~= h + n);
    assert(rt.skip(rt.len() - y.len()) =~= y);
    assert(rf.skip(rf.len() - n.len()) =~= n);
    let b = if stream {
        "true"@
    } else {
        "false"@
    };
    let d = a + b + ",\"temperature\":0.7"@;
    assert(r =~= d + "}"@);
    assert(r.drop_last() =~= d);
    let t = request_json(model, ms, max, stream, Some(ts));
    assert(t =~= d + ",\"tools\":["@ + definitions_json(ts) + "]}"@);
}

proof fn lemma_definition_parts(d: Definition)
    ensures
        definition_json(d) == parted(
            "{\"type\":"@,
            json_string(d.kind),
            ",\"function\":{\"name\":"@,
            json_string(d.name) + parted(
                ",\"description\":"@,
                json_string(d.description),
                ",\"parameters\":"@,
                d.parameters + "}}"@,
            ),
        ),
{
    assert(definition_json(d) =~= parted(
        "{\"type\":"@,
        json_string(d.kind),
        ",\"function\":{\"name\":"@,
        json_string(d.name) + parted(
            ",\"description\":"@,
            json_string(d.description),
            ",\"parameters\":"@,
            d.parameters + "}}"@,
        ),
    ));
}

/// Different tools are told apart by what the model is told of them.
pub proof fn law_tools_are_told_apart(c: Definition, d: Definition)
    requires
        definition_json(c) == definition_json(d),
    ensures
        c == d,
{
    lemma_definition_parts(c);
    lemma_definition_parts(d);
    let q = ",\"function\":{\"name\":"@;
    let r = ",\"description\":"@;
    let s = ",\"parameters\":"@;
    let t = "}}"@;
    let c3 = c.parameters + t;
    let d3 = d.parameters + t;
    let c2 = parted(r, json_string(c.description), s, c3);
    let d2 = parted(r, json_string(d.description), s, d3);
    lemma_next(
        "{\"type\":"@,
        c.kind,
        q + (json_string(c.name) + c2),
        d.kind,
        q + (json_string(d.name) + d2),
    );
    lemma_next(q, c.name, c2, d.name, d2);
    lemma_next(r, c.description, s + c3, d.description, s + d3);
    lemma_same_start(s, c3, d3);
    assert(c3.len() == c.parameters.len() + t.len());
    assert(d3.len() == d.parameters.len() + t.len());
    assert(c3.take(c.parameters.len() as int) =~= c.parameters);
    assert(d3.take(d.parameters.len() as int) =~= d.parameters);
}

/// The case of an extension does not matter for the media type, and what is
/// not known counts as a PNG picture.
pub proof fn law_media_types(e: Seq<char>)
    ensures
        image_mime(Some(ascii_lower(e))) == image_mime(Some(e)),
        image_mime(Some("jpeg"@)) == image_mime(Some("jpg"@)),
        image_mime(None) == "image/png"@,
        ascii_lower(e) != "jpg"@ && ascii_lower(e) != "jpeg"@ && ascii_lower(e) != "gif"@
            && ascii_lower(e) != "webp"@ ==> image_mime(Some(e)) == "image/png"@,
{
    law_ascii_lower(e);
    reveal_strlit("jpg");
    reveal_strlit("jpeg");
    assert(ascii_lower("jpg"@) =~= "jpg"@);
    assert(ascii_lower("jpeg"@) =~= "jpeg"@);
}

} // verus!
