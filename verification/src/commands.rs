//! The decisions behind the app's commands: how AI settings are stored and
//! read back, and when an AI summary may be asked for.
use vstd::prelude::*;
use crate::ai::{AiSettings, DEFAULT_OLLAMA_URL};
use crate::models::opt_text;
use crate::text::{same_text, trim, trimmed};

verus! {

pub const AI_ENABLED_KEY: &'static str = "ai_enabled";

pub const OLLAMA_URL_KEY: &'static str = "ollama_url";

pub const OLLAMA_MODEL_KEY: &'static str = "ollama_model";

/// (enabled, url, model) from the stored values: enabled only by `1`; the
/// default url and an empty model where nothing is stored.
pub open spec fn loaded_settings(
    enabled: Option<Seq<char>>,
    url: Option<Seq<char>>,
    model: Option<Seq<char>>,
) -> (bool, Seq<char>, Seq<char>) {
    (
        enabled == Some("1"@),
        match url {
            Some(u) => u,
            None => DEFAULT_OLLAMA_URL@,
        },
        match model {
            Some(m) => m,
            None => Seq::empty(),
        },
    )
}

/// The settings from the values stored under `ai_enabled`, `ollama_url` and
/// `ollama_model`.
pub fn load_ai_settings(enabled: Option<String>, url: Option<String>, model: Option<String>) -> (res:
    AiSettings)
    ensures
        (res.enabled, res.url@, res.model@) == loaded_settings(
            opt_text(enabled),
            opt_text(url),
            opt_text(model),
        ),
{
    let mut s = AiSettings::default();
    if let Some(e) = &enabled {
        if same_text(e.as_str(), "1") {
            s.enabled = true;
        }
    }
    if let Some(u) = url {
        s.url = u;
    }
    if let Some(m) = model {
        s.model = m;
    }
    s
}

/// The (key, value) pairs that store the settings: `1` or `0`, and the url
/// and model without surrounding whitespace.
pub open spec fn stored_settings(enabled: bool, url: Seq<char>, model: Seq<char>) -> Seq<
    (Seq<char>, Seq<char>),
> {
    seq![
        (AI_ENABLED_KEY@, if enabled { "1"@ } else { "0"@ }),
        (OLLAMA_URL_KEY@, trimmed(url)),
        (OLLAMA_MODEL_KEY@, trimmed(model)),
    ]
}

/// The (key, value) pairs to store for `settings`.
pub fn ai_settings_state(settings: &AiSettings) -> (res: Vec<(String, String)>)
    ensures
        res@.map_values(|x: (String, String)| (x.0@, x.1@)) == stored_settings(
            settings.enabled,
            settings.url@,
            settings.model@,
        ),
{
    let mut v: Vec<(String, String)> = Vec::new();
    let flag = if settings.enabled {
        String::from_str("1")
    } else {
        String::from_str("0")
    };
    v.push((String::from_str(AI_ENABLED_KEY), flag));
    v.push((String::from_str(OLLAMA_URL_KEY), trim(settings.url.as_str())));
    v.push((String::from_str(OLLAMA_MODEL_KEY), trim(settings.model.as_str())));
    assert(v@.map_values(|x: (String, String)| (x.0@, x.1@)) =~= stored_settings(
        settings.enabled,
        settings.url@,
        settings.model@,
    ));
    v
}

/// Storing settings and reading them back gives the same settings, with the
/// url and the model trimmed of surrounding whitespace.
pub proof fn lemma_settings_round_trip(enabled: bool, url: Seq<char>, model: Seq<char>)
    ensures
        ({
            let st = stored_settings(enabled, url, model);
            loaded_settings(Some(st[0].1), Some(st[1].1), Some(st[2].1)) == (
                enabled,
                trimmed(url),
                trimmed(model),
            )
        }),
{
    reveal_strlit("1");
    reveal_strlit("0");
    assert("1"@ != "0"@) by {
        assert("1"@[0] != "0"@[0]);
    }
}

/// An AI summary may be asked for only when AI summaries are enabled.
pub fn ai_gate(settings: &AiSettings) -> (res: Result<(), String>)
    ensures
        res is Ok <==> settings.enabled,
        res is Err ==> res->Err_0@ == "AI summaries are disabled in Settings"@,
{
    if !settings.enabled {
        return Err(String::from_str("AI summaries are disabled in Settings"));
    }
    Ok(())
}


/// The title of the daily report for `day` (a date as the app writes it).
pub fn daily_title(day: &str) -> (res: String)
    ensures
        res@ == "Daily Report — "@ + day@,
{
    let mut t = String::from_str("Daily Report — ");
    t.append(day);
    t
}

} // verus!
