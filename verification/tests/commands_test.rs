use breadcrumbs::ai::AiSettings;
use breadcrumbs::commands::{
    ai_gate, ai_settings_state, daily_title, load_ai_settings, AI_ENABLED_KEY, OLLAMA_MODEL_KEY,
    OLLAMA_URL_KEY,
};

fn pairs(v: &[(&str, &str)]) -> Vec<(String, String)> {
    v.iter().map(|(a, b)| (a.to_string(), b.to_string())).collect()
}

#[test]
fn loading_settings() {
    let none = load_ai_settings(None, None, None);
    assert!(!none.enabled);
    assert_eq!(none.url, "http://localhost:11434");
    assert_eq!(none.model, "");

    let on = load_ai_settings(Some("1".into()), Some("http://box:8080".into()), Some("llama3.2".into()));
    assert!(on.enabled);
    assert_eq!(on.url, "http://box:8080");
    assert_eq!(on.model, "llama3.2");

    assert!(!load_ai_settings(Some("0".into()), None, None).enabled);
    assert!(!load_ai_settings(Some("true".into()), None, None).enabled);
    assert!(!load_ai_settings(Some(" 1".into()), None, None).enabled);
}

#[test]
fn storing_settings() {
    assert_eq!((AI_ENABLED_KEY, OLLAMA_URL_KEY, OLLAMA_MODEL_KEY), ("ai_enabled", "ollama_url", "ollama_model"));
    let s = AiSettings { enabled: true, url: "  http://h:1 \n".into(), model: "\tqwen ".into() };
    assert_eq!(
        ai_settings_state(&s),
        pairs(&[("ai_enabled", "1"), ("ollama_url", "http://h:1"), ("ollama_model", "qwen")])
    );
    let off = AiSettings { enabled: false, url: String::new(), model: String::new() };
    assert_eq!(ai_settings_state(&off), pairs(&[("ai_enabled", "0"), ("ollama_url", ""), ("ollama_model", "")]));
}

#[test]
fn settings_survive_storage() {
    for s in [
        AiSettings { enabled: true, url: " http://a ".into(), model: "m ".into() },
        AiSettings { enabled: false, url: "http://b".into(), model: String::new() },
    ] {
        let st = ai_settings_state(&s);
        let back = load_ai_settings(Some(st[0].1.clone()), Some(st[1].1.clone()), Some(st[2].1.clone()));
        assert_eq!(back.enabled, s.enabled);
        assert_eq!(back.url, s.url.trim());
        assert_eq!(back.model, s.model.trim());
    }
}

#[test]
fn gate_on_enabled() {
    let mut s = AiSettings::default();
    assert_eq!(ai_gate(&s), Err("AI summaries are disabled in Settings".to_string()));
    s.enabled = true;
    assert_eq!(ai_gate(&s), Ok(()));
}

#[test]
fn report_titles() {
    assert_eq!(daily_title("Monday, Mar 03 2025"), "Daily Report — Monday, Mar 03 2025");
}
