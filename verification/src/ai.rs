//! Optional AI summaries through a local Ollama server: settings, the
//! requests the library makes, and what it makes of the replies.
use vstd::prelude::*;
use crate::order::{sort_texts, text_order};
use crate::text::{decimal, texts, trim, trimmed, write_decimal};

verus! {

/// The default address of the Ollama server.
pub const DEFAULT_OLLAMA_URL: &'static str = "http://localhost:11434";

/// Settings of the AI summaries.
#[derive(Debug, Clone, PartialEq, Eq)]
pub struct AiSettings {
    pub enabled: bool,
    pub url: String,
    pub model: String,
}

impl Default for AiSettings {
    /// Disabled, on the default local server, with no model.
    fn default() -> (res: Self)
        ensures
            !res.enabled,
            res.url@ == DEFAULT_OLLAMA_URL@,
            res.model@ == Seq::<char>::empty(),
    {
        AiSettings { enabled: false, url: String::from_str(DEFAULT_OLLAMA_URL), model: String::new() }
    }
}

/// What came back from asking the server for its models.
#[derive(Debug, Clone, PartialEq, Eq)]
pub enum TagsReply {
    /// The request failed; the error as text.
    Unreachable(String),
    /// The reply was not the expected JSON; the error as text.
    Malformed(String),
    /// The names of the installed models.
    Models(Vec<String>),
}

/// The address that lists the installed models.
pub fn tags_url(url: &str) -> (res: String)
    ensures
        res@ == url@ + "/api/tags"@,
{
    let mut s = String::from_str(url);
    s.append("/api/tags");
    s
}

/// The installed models, sorted by name; or the error of the request.
pub fn list_models(url: &str, reply: TagsReply) -> (res: Result<Vec<String>, String>)
    ensures
        match reply {
            TagsReply::Unreachable(e) => res is Err && res->Err_0@ == "Ollama unreachable at "@
                + url@ + ": "@ + e@,
            TagsReply::Malformed(e) => res is Err && res->Err_0@ == e@,
            TagsReply::Models(names) => res is Ok && texts(res->Ok_0@) == texts(names@).sort_by(
                text_order(),
            ) && res->Ok_0@.to_multiset() == names@.to_multiset(),
        },
{
    match reply {
        TagsReply::Unreachable(e) => {
            let mut m = String::from_str("Ollama unreachable at ");
            m.append(url);
            m.append(": ");
            m.append(e.as_str());
            Err(m)
        },
        TagsReply::Malformed(e) => Err(e),
        TagsReply::Models(names) => Ok(sort_texts(names)),
    }
}

/// The instructions that go with every report to the model.
pub const SYSTEM_PROMPT: &'static str = "You are a precise assistant that polishes software development reports. You receive a structured markdown report of coding sessions and git commits and rewrite it as a clean, professional report.\n\nRules:\n- Keep every fact, number, timing, token count and commit message exactly as provided.\n- Do not invent anything that is not in the source data.\n- Improve only the prose: short intro paragraph, then keep the structured sections/bullets.\n- Output markdown only, no commentary.";

/// One message of a chat request.
#[derive(Debug, Clone, PartialEq, Eq)]
pub struct ChatMessage {
    pub role: String,
    pub content: String,
}

/// A chat request to the server.
#[derive(Debug, Clone, PartialEq, Eq)]
pub struct ChatRequest {
    pub model: String,
    pub messages: Vec<ChatMessage>,
    pub stream: bool,
}

/// The address of the chat endpoint.
pub fn chat_url(url: &str) -> (res: String)
    ensures
        res@ == url@ + "/api/chat"@,
{
    let mut s = String::from_str(url);
    s.append("/api/chat");
    s
}

/// The request that asks `model` to polish the report: the instructions,
/// then the report. An error when no model is configured.
pub fn chat_request(model: &str, report_markdown: &str) -> (res: Result<ChatRequest, String>)
    ensures
        model@.len() == 0 <==> res is Err,
        res is Err ==> res->Err_0@ == "No Ollama model configured"@,
        res is Ok ==> {
            let r = res->Ok_0;
            &&& r.model@ == model@
            &&& !r.stream
            &&& r.messages@.len() == 2
            &&& r.messages@[0].role@ == "system"@
            &&& r.messages@[0].content@ == SYSTEM_PROMPT@
            &&& r.messages@[1].role@ == "user"@
            &&& r.messages@[1].content@ == "Polish this development report:\n\n"@ + report_markdown@
        },
{
    if model.is_empty() {
        return Err(String::from_str("No Ollama model configured"));
    }
    let mut user = String::from_str("Polish this development report:\n\n");
    user.append(report_markdown);
    let mut messages: Vec<ChatMessage> = Vec::new();
    messages.push(
        ChatMessage { role: String::from_str("system"), content: String::from_str(SYSTEM_PROMPT) },
    );
    messages.push(ChatMessage { role: String::from_str("user"), content: user });
    Ok(ChatRequest { model: String::from_str(model), messages, stream: false })
}

/// What came back from a chat request.
#[derive(Debug, Clone, PartialEq, Eq)]
pub enum ChatReply {
    /// The server answered with an error status and this body.
    Status(u16, String),
    /// The request failed otherwise; the error as text.
    Failed(String),
    /// The reply was not the expected JSON; the error as text.
    Malformed(String),
    /// The content of the model's answer.
    Content(String),
}

/// The polished report, trimmed of surrounding whitespace; or the error.
pub fn chat_result(reply: ChatReply) -> (res: Result<String, String>)
    ensures
        match reply {
            ChatReply::Status(code, body) => res is Err && res->Err_0@ == "Ollama returned "@
                + decimal(code as nat) + ": "@ + body@,
            ChatReply::Failed(e) => res is Err && res->Err_0@ == "Ollama request failed: "@ + e@,
            ChatReply::Malformed(e) => res is Err && res->Err_0@ == e@,
            ChatReply::Content(c) => res is Ok && res->Ok_0@ == trimmed(c@),
        },
{
    match reply {
        ChatReply::Status(code, body) => {
            let mut m = String::from_str("Ollama returned ");
            write_decimal(&mut m, code as u64);
            m.append(": ");
            m.append(body.as_str());
            Err(m)
        },
        ChatReply::Failed(e) => {
            let mut m = String::from_str("Ollama request failed: ");
            m.append(e.as_str());
            Err(m)
        },
        ChatReply::Malformed(e) => Err(e),
        ChatReply::Content(c) => Ok(trim(c.as_str())),
    }
}

} // verus!
