use opencode_model_config::document::{load_document, save_document};
use opencode_model_config::editing::{
    all_open, chosen_option, combo_matches, settle_agent_edit, toggle_variant,
    add_new_agent, add_new_model, add_new_provider, agent_matches, copy_agent, copy_provider,
    model_options, provider_matches, reorder_agents, reorder_providers,
};
use opencode_model_config::json::{JsonMap, JsonNumber, JsonValue};
use opencode_model_config::model::{AgentRow, ModelRow, ProviderRow};
use opencode_model_config::ui::{card_highlight, drag_step, hover_target, move_item, DragEvent, DragState};

fn s(x: &str) -> JsonValue {
    JsonValue::Str(x.to_string())
}

fn obj(entries: Vec<(&str, JsonValue)>) -> JsonValue {
    let mut m = JsonMap::new();
    for (k, v) in entries {
        m.insert(k.to_string(), v);
    }
    JsonValue::Object(m)
}

fn agent(key: &str, model: &str) -> AgentRow {
    AgentRow::from(key, &obj(vec![("mode", s("subagent")), ("model", s(model))]))
}

fn provider(key: &str, base_url: &str, models: &[&str]) -> ProviderRow {
    let mut mm = Vec::new();
    for m in models {
        mm.push((*m, obj(vec![("name", s(m))])));
    }
    ProviderRow::from(
        key,
        &obj(vec![
            ("description", s("Desc")),
            ("options", obj(vec![("baseURL", s(base_url))])),
            ("models", obj(mm)),
        ]),
    )
}

fn agent_keys(agents: &[AgentRow]) -> Vec<String> {
    agents.iter().map(|a| a.key.clone()).collect()
}

#[test]
fn haystack_is_lowercase_of_key_mode_description_model() {
    let mut a = AgentRow::new();
    a.key = "Coder".to_string();
    a.description = "Writes CODE".to_string();
    a.model = "GPT-4".to_string();
    a.refresh_haystack();
    assert_eq!(a.haystack, "coder subagent writes code gpt-4");
    let p = provider("OpenAI", "https://API.example", &[]);
    assert_eq!(p.haystack, "openai desc https://api.example");
}

#[test]
fn search_compares_in_lowercase() {
    let agents = vec![agent("one", "gpt-4"), agent("two", "mistral"), agent("three", "GPT-5")];
    assert_eq!(agent_matches(&agents, "GPT"), vec![0, 2]);
    assert_eq!(agent_matches(&agents, "Mistral"), vec![1]);
    assert_eq!(agent_matches(&agents, "nothing"), Vec::<usize>::new());
    let providers = vec![provider("a", "https://one.example", &[]), provider("b", "https://two.example", &[])];
    assert_eq!(provider_matches(&providers, "TWO"), vec![1]);
}

#[test]
fn empty_search_shows_every_row() {
    let agents = vec![agent("one", "x"), agent("two", "y"), agent("three", "z")];
    assert_eq!(agent_matches(&agents, ""), vec![0, 1, 2]);
}

#[test]
fn move_then_move_back_restores_order() {
    let mut v = vec![10, 20, 30, 40];
    move_item(&mut v, 0, 2);
    assert_eq!(v, vec![20, 30, 10, 40]);
    move_item(&mut v, 2, 0);
    assert_eq!(v, vec![10, 20, 30, 40]);
    move_item(&mut v, 1, 9);
    assert_eq!(v, vec![10, 20, 30, 40]);
}

#[test]
fn drop_onto_another_row_moves_it_there() {
    let mut agents = vec![agent("a", "m"), agent("b", "m"), agent("c", "m")];
    reorder_agents(&mut agents, "c", "a");
    assert_eq!(agent_keys(&agents), vec!["c", "a", "b"]);
    reorder_agents(&mut agents, "c", "missing");
    assert_eq!(agent_keys(&agents), vec!["c", "a", "b"]);
    let mut providers = vec![provider("p", "u", &[]), provider("q", "u", &[])];
    reorder_providers(&mut providers, "p", "q");
    assert_eq!(providers[0].key, "q");
    assert_eq!(providers[1].key, "p");
}

#[test]
fn copies_are_appended_with_copy_suffix() {
    let mut agents = vec![agent("Main", "gpt")];
    copy_agent(&mut agents, 0);
    assert_eq!(agent_keys(&agents), vec!["Main", "Main_copy"]);
    assert_eq!(agents[1].model, "gpt");
    assert_eq!(agents[1].haystack, "main_copy subagent  gpt");
    let mut providers = vec![provider("p", "u", &["m1"])];
    copy_provider(&mut providers, 0);
    assert_eq!(providers[1].key, "p_copy");
    assert_eq!(providers[1].models.len(), 1);
    assert_eq!(providers[1].models[0].id, "m1");
}

#[test]
fn blank_keys_are_refused_and_forms_reset() {
    let mut agents: Vec<AgentRow> = Vec::new();
    let mut form = AgentRow::new();
    form.key = "   ".to_string();
    assert!(!add_new_agent(&mut agents, &mut form));
    assert!(agents.is_empty());
    assert_eq!(form.key, "   ");
    form.key = "helper".to_string();
    form.model = "M".to_string();
    assert!(add_new_agent(&mut agents, &mut form));
    assert_eq!(agents[0].key, "helper");
    assert_eq!(agents[0].haystack, "helper subagent  m");
    assert_eq!(form.key, "");
    assert_eq!(form.mode, "subagent");

    let mut providers: Vec<ProviderRow> = Vec::new();
    let mut pform = ProviderRow::new();
    assert!(!add_new_provider(&mut providers, &mut pform));
    pform.key = "p".to_string();
    assert!(add_new_provider(&mut providers, &mut pform));
    assert_eq!(providers.len(), 1);
    assert_eq!(pform.key, "");
}

#[test]
fn new_model_form_is_added_when_id_is_set() {
    let mut p = ProviderRow::new();
    assert!(!add_new_model(&mut p));
    p.new_model.id = "m".to_string();
    p.new_model.name = "Model".to_string();
    assert!(add_new_model(&mut p));
    assert_eq!(p.models.len(), 1);
    assert_eq!(p.models[0].name, "Model");
    assert_eq!(p.new_model.id, "");
}

#[test]
fn model_options_are_sorted_and_unique() {
    let providers = vec![provider("zeta", "u", &["b", "a"]), provider("alpha", "u", &["x", "x"])];
    let opts = model_options(&providers);
    assert_eq!(
        opts,
        vec![
            "alpha/x".to_string(),
            "opencode/deepseek-v4-flash-free".to_string(),
            "opencode/mimo-v2.5-free".to_string(),
            "zeta/a".to_string(),
            "zeta/b".to_string(),
        ]
    );
    let none: Vec<ProviderRow> = Vec::new();
    assert_eq!(model_options(&none).len(), 2);
}

#[test]
fn model_duplicate_is_equal() {
    let m = ModelRow::from("id", &obj(vec![("name", s("N")), ("reasoning", JsonValue::Bool(true))]));
    let d = m.duplicate();
    assert_eq!(d.id, "id");
    assert_eq!(d.name, "N");
    assert!(d.reasoning);
    assert_eq!(d.raw, m.raw);
}

#[test]
fn load_then_save_keeps_document() {
    let doc = obj(vec![
        ("$schema", s("https://opencode.ai/config.json")),
        (
            "agent",
            obj(vec![(
                "a1",
                obj(vec![
                    ("mode", s("subagent")),
                    ("temperature", JsonValue::Number(JsonNumber::Float("0.3".to_string()))),
                    ("extra", s("kept")),
                ]),
            )]),
        ),
        (
            "provider",
            obj(vec![(
                "p1",
                obj(vec![
                    ("npm", s("@ai-sdk/openai")),
                    ("options", obj(vec![("apiKey", s("k")), ("timeout", JsonValue::Number(JsonNumber::PosInt(5)))])),
                    (
                        "models",
                        obj(vec![(
                            "m",
                            obj(vec![
                                ("reasoning", JsonValue::Bool(false)),
                                ("tool_call", JsonValue::Bool(true)),
                                ("limit", obj(vec![("context", JsonValue::Number(JsonNumber::PosInt(8)))])),
                            ]),
                        )]),
                    ),
                ]),
            )]),
        ),
    ]);
    let (root, agents, providers) = load_document(Some(doc.clone()));
    let saved = save_document(root, &agents, &providers);
    assert_eq!(saved, doc);
}

#[test]
fn save_skips_rows_without_key_and_keeps_other_documents() {
    let doc = obj(vec![]);
    let (root, mut agents, providers) = load_document(Some(doc));
    agents.push(AgentRow::new());
    let saved = save_document(root, &agents, &providers);
    assert_eq!(saved, obj(vec![("agent", obj(vec![])), ("provider", obj(vec![]))]));
    let arr = JsonValue::Array(vec![s("x")]);
    assert_eq!(save_document(arr.clone(), &agents, &providers), arr);
}

#[test]
fn toggling_variants() {
    assert_eq!(toggle_variant("", "high", true), "high");
    assert_eq!(toggle_variant("low, high", "high", true), "low, high");
    assert_eq!(toggle_variant("low", "max", true), "low, max");
    assert_eq!(toggle_variant("low, high, low", "low", false), "high");
    assert_eq!(toggle_variant(" , ", "low", false), "");
}

#[test]
fn drag_highlights_only_the_target_and_drops_on_it() {
    let mut s = DragState::new();
    assert_eq!(drag_step(&mut s, DragEvent::Started("a".to_string())), None);
    let h = hover_target(&s, "a", true, None);
    assert_eq!(h, None);
    let h = hover_target(&s, "b", true, h);
    assert_eq!(h, Some("b".to_string()));
    let h = hover_target(&s, "c", true, h);
    assert_eq!(h, Some("b".to_string()));
    assert_eq!(drag_step(&mut s, DragEvent::Settled(h)), None);
    assert_eq!(card_highlight(&s, "a"), 0);
    assert_eq!(card_highlight(&s, "b"), 2);
    assert_eq!(drag_step(&mut s, DragEvent::Stopped("c".to_string())), None);
    assert_eq!(card_highlight(&s, "b"), 0);
    drag_step(&mut s, DragEvent::Started("a".to_string()));
    drag_step(&mut s, DragEvent::Settled(Some("b".to_string())));
    assert_eq!(
        drag_step(&mut s, DragEvent::Stopped("a".to_string())),
        Some(("a".to_string(), "b".to_string()))
    );
    assert!(s.src.is_none() && s.target.is_none());
    let idle = DragState::new();
    assert_eq!(hover_target(&idle, "b", true, None), None);
}

#[test]
fn expand_all_and_combo_filter() {
    let keys = vec!["a".to_string(), "b".to_string()];
    assert!(all_open(&keys, &vec!["b".to_string(), "a".to_string()]));
    assert!(!all_open(&keys, &vec!["a".to_string()]));
    assert!(all_open(&Vec::new(), &Vec::new()));
    let opts = vec!["Alpha", "beta", "ALPINE"];
    assert_eq!(combo_matches(&opts, ""), vec![0, 1, 2]);
    assert_eq!(combo_matches(&opts, "alp"), vec![0, 2]);
    assert_eq!(combo_matches(&opts, "ET"), vec![1]);
}

#[test]
fn search_text_follows_edits() {
    let mut a = agent("one", "m");
    let before = a.clone();
    a.description = "Now DESCRIBED".to_string();
    settle_agent_edit(&mut a, &before);
    assert_eq!(a.haystack, "one subagent now described m");
    let before = a.clone();
    a.color = "red".to_string();
    a.haystack = "stale".to_string();
    settle_agent_edit(&mut a, &before);
    assert_eq!(a.haystack, "stale");
}

#[test]
fn drop_down_keeps_value_unless_clicked() {
    let opts = vec!["a/x".to_string(), "b/y".to_string()];
    assert_eq!(chosen_option(&opts, "custom", None), "custom");
    assert_eq!(chosen_option(&opts, "custom", Some(1)), "b/y");
    assert_eq!(chosen_option(&opts, "a/x", Some(7)), "a/x");
}

#[test]
fn saving_twice_writes_the_same_document() {
    let doc = obj(vec![("agent", obj(vec![("x", obj(vec![("mode", s("m"))]))])), ("theme", s("dark"))]);
    let (root, agents, providers) = load_document(Some(doc));
    let once = save_document(root, &agents, &providers);
    let twice = save_document(once.clone(), &agents, &providers);
    assert_eq!(once, twice);
}
