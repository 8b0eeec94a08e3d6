use breadcrumbs::ai::{
    chat_request, chat_result, chat_url, list_models, tags_url, AiSettings, ChatReply, TagsReply,
    DEFAULT_OLLAMA_URL, SYSTEM_PROMPT,
};

#[test]
fn default_settings() {
    let s = AiSettings::default();
    assert!(!s.enabled);
    assert_eq!(s.url, "http://localhost:11434");
    assert_eq!(s.model, "");
    assert_eq!(DEFAULT_OLLAMA_URL, "http://localhost:11434");
}

#[test]
fn endpoints() {
    assert_eq!(tags_url("http://localhost:11434"), "http://localhost:11434/api/tags");
    assert_eq!(chat_url("http://h:1"), "http://h:1/api/chat");
}

#[test]
fn model_listing() {
    let names = vec!["llama3.2:latest".to_string(), "gemma:2b".to_string(), "Zeta".to_string(), "gemma:2b".to_string()];
    assert_eq!(
        list_models("http://x", TagsReply::Models(names)),
        Ok(vec!["Zeta".to_string(), "gemma:2b".to_string(), "gemma:2b".to_string(), "llama3.2:latest".to_string()])
    );
    assert_eq!(list_models("http://x", TagsReply::Models(Vec::new())), Ok(Vec::new()));
    assert_eq!(
        list_models("http://x", TagsReply::Unreachable("connection refused".into())),
        Err("Ollama unreachable at http://x: connection refused".to_string())
    );
    assert_eq!(
        list_models("http://x", TagsReply::Malformed("missing field `models`".into())),
        Err("missing field `models`".to_string())
    );
}

#[test]
fn chat_requests() {
    assert_eq!(chat_request("", "# r"), Err("No Ollama model configured".to_string()));
    let r = chat_request("llama3.2", "# Report").unwrap();
    assert_eq!(r.model, "llama3.2");
    assert!(!r.stream);
    assert_eq!(r.messages.len(), 2);
    assert_eq!(r.messages[0].role, "system");
    assert_eq!(r.messages[0].content, SYSTEM_PROMPT);
    assert!(SYSTEM_PROMPT.starts_with("You are a precise assistant"));
    assert_eq!(r.messages[1].role, "user");
    assert_eq!(r.messages[1].content, "Polish this development report:\n\n# Report");
}

#[test]
fn chat_replies() {
    assert_eq!(chat_result(ChatReply::Content("  \n# Polished\n\n".into())), Ok("# Polished".to_string()));
    assert_eq!(chat_result(ChatReply::Content(" \t ".into())), Ok(String::new()));
    assert_eq!(
        chat_result(ChatReply::Status(500, "model not found".into())),
        Err("Ollama returned 500: model not found".to_string())
    );
    assert_eq!(
        chat_result(ChatReply::Failed("timed out".into())),
        Err("Ollama request failed: timed out".to_string())
    );
    assert_eq!(chat_result(ChatReply::Malformed("bad json".into())), Err("bad json".to_string()));
}

#[test]
fn ollama_list_and_enhance() {
    let url = "http://localhost:11434";
    let models = list_models(url, TagsReply::Models(vec!["llama3.2:latest".to_string()])).expect("list models");
    println!("models: {models:?}");
    assert!(!models.is_empty());

    let model = "llama3.2:latest";
    assert!(models.iter().any(|m| m.starts_with("llama3.2")));

    let report = "# Daily Report — Test\n\n## breadcrumbs\n_1 session, 0 commits, 5 tokens_\n\n- Fixed login bug (12m)\n";
    let req = chat_request(model, report).expect("enhance");
    assert_eq!(req.model, model);
    assert_eq!(req.messages[1].content, format!("Polish this development report:\n\n{report}"));
    assert_eq!(chat_url(url), "http://localhost:11434/api/chat");

    let out = chat_result(ChatReply::Content("\n# Daily Report — Test\n\nA focused day.\n".into())).expect("enhance");
    println!("---ENHANCED---\n{out}\n---");
    assert!(!out.is_empty());
}
