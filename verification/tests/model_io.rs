use opencode_model_config::document::{load_document, save_document};
use opencode_model_config::json::{JsonMap, JsonNumber, JsonValue};
use opencode_model_config::model::{AgentRow, ModelRow, ProviderRow};
use opencode_model_config::util::{is_wsl_path, win_to_wsl};

fn s(x: &str) -> JsonValue {
    JsonValue::Str(x.to_string())
}

fn uint(n: u64) -> JsonValue {
    JsonValue::Number(JsonNumber::PosInt(n))
}

fn float(t: &str) -> JsonValue {
    JsonValue::Number(JsonNumber::Float(t.to_string()))
}

fn obj(entries: Vec<(&str, JsonValue)>) -> JsonValue {
    let mut m = JsonMap::new();
    for (k, v) in entries {
        m.insert(k.to_string(), v);
    }
    JsonValue::Object(m)
}

fn at<'a>(v: &'a JsonValue, k: &str) -> &'a JsonValue {
    v.get(k).expect("field present")
}

fn item(v: &JsonValue, i: usize) -> &JsonValue {
    match v {
        JsonValue::Array(items) => &items[i],
        _ => panic!("not an array"),
    }
}

#[test]
fn agent_row_roundtrip() {
    let v = obj(vec![
        ("mode", s("subagent")),
        ("description", s("test agent")),
        ("model", s("gpt-4")),
        ("variant", s("turbo")),
        ("color", s("#ff0000")),
        ("system", s("system prompt")),
        ("temperature", float("0.7")),
        ("extra_field", s("preserved")),
    ]);
    let agent = AgentRow::from("my_agent", &v);
    assert_eq!(agent.key, "my_agent");
    assert_eq!(agent.mode, "subagent");
    assert_eq!(agent.description, "test agent");
    assert_eq!(agent.model, "gpt-4");
    assert_eq!(agent.variant, "turbo");
    assert_eq!(agent.color, "#ff0000");
    assert_eq!(agent.system, "system prompt");

    let out = agent.to_value();
    assert_eq!(at(&out, "mode"), &s("subagent"));
    assert_eq!(at(&out, "description"), &s("test agent"));
    assert_eq!(at(&out, "model"), &s("gpt-4"));
    assert_eq!(at(&out, "variant"), &s("turbo"));
    assert_eq!(at(&out, "color"), &s("#ff0000"));
    assert_eq!(at(&out, "system"), &s("system prompt"));
    assert_eq!(at(&out, "temperature"), &float("0.7"));
    assert_eq!(at(&out, "extra_field"), &s("preserved"));
}

#[test]
fn agent_temperature_integer() {
    let v = obj(vec![("temperature", uint(1))]);
    let agent = AgentRow::from("a", &v);
    let out = agent.to_value();
    assert_eq!(at(&out, "temperature"), &uint(1));
}

#[test]
fn agent_temperature_float() {
    let v = obj(vec![("temperature", float("0.7"))]);
    let agent = AgentRow::from("a", &v);
    let out = agent.to_value();
    assert_eq!(at(&out, "temperature"), &float("0.7"));
}

#[test]
fn agent_temperature_empty_removes_field() {
    let v = obj(vec![("temperature", float("0.5"))]);
    let mut agent = AgentRow::from("a", &v);
    agent.temperature = String::new();
    let out = agent.to_value();
    assert!(out.get("temperature").is_none(), "temperature should be removed when empty");
}

#[test]
fn agent_temperature_invalid_removes_field() {
    let v = obj(vec![("temperature", float("0.5"))]);
    let mut agent = AgentRow::from("a", &v);
    agent.temperature = "abc".to_string();
    let out = agent.to_value();
    assert!(out.get("temperature").is_none(), "temperature should be removed for invalid string");
}

#[test]
fn model_row_roundtrip() {
    let v = obj(vec![
        ("name", s("GPT-4o")),
        ("reasoning", JsonValue::Bool(true)),
        ("tool_call", JsonValue::Bool(false)),
        ("limit", obj(vec![("context", uint(128000)), ("output", uint(4096))])),
        (
            "modalities",
            obj(vec![
                ("input", JsonValue::Array(vec![s("text"), s("image")])),
                ("output", JsonValue::Array(vec![s("text")])),
            ]),
        ),
    ]);
    let model = ModelRow::from("gpt-4o", &v);
    assert_eq!(model.id, "gpt-4o");
    assert_eq!(model.name, "GPT-4o");
    assert!(model.reasoning);
    assert!(!model.tool_call);
    assert_eq!(model.context, "128000");
    assert_eq!(model.output, "4096");
    assert_eq!(model.modalities_input, "text, image");
    assert_eq!(model.modalities_output, "text");

    let out = model.to_value();
    assert_eq!(at(&out, "name"), &s("GPT-4o"));
    assert_eq!(at(&out, "reasoning"), &JsonValue::Bool(true));
    assert_eq!(at(&out, "tool_call"), &JsonValue::Bool(false));
    assert_eq!(at(at(&out, "limit"), "context"), &uint(128000));
    assert_eq!(at(at(&out, "limit"), "output"), &uint(4096));
    assert_eq!(item(at(at(&out, "modalities"), "input"), 0), &s("text"));
    assert_eq!(item(at(at(&out, "modalities"), "input"), 1), &s("image"));
    assert_eq!(item(at(at(&out, "modalities"), "output"), 0), &s("text"));
}

#[test]
fn model_modalities_empty_removes_field() {
    let v = obj(vec![
        ("name", s("test")),
        ("reasoning", JsonValue::Bool(false)),
        ("tool_call", JsonValue::Bool(false)),
        ("limit", obj(vec![("context", uint(100)), ("output", uint(50))])),
    ]);
    let mut model = ModelRow::from("m", &v);
    model.modalities_input = String::new();
    model.modalities_output = String::new();
    let out = model.to_value();
    assert!(out.get("modalities").is_none(), "modalities should be removed when both empty");
}

#[test]
fn provider_row_roundtrip() {
    let v = obj(vec![
        ("description", s("OpenAI provider")),
        ("npm", s("@opencode/openai")),
        (
            "options",
            obj(vec![
                ("baseURL", s("https://api.openai.com")),
                ("apiKey", s("sk-xxx")),
                ("timeout", uint(30)),
            ]),
        ),
        (
            "models",
            obj(vec![(
                "gpt-4o",
                obj(vec![
                    ("name", s("GPT-4o")),
                    ("reasoning", JsonValue::Bool(false)),
                    ("tool_call", JsonValue::Bool(true)),
                    ("limit", obj(vec![("context", uint(128000)), ("output", uint(4096))])),
                ]),
            )]),
        ),
    ]);
    let provider = ProviderRow::from("openai", &v);
    assert_eq!(provider.key, "openai");
    assert_eq!(provider.description, "OpenAI provider");
    assert_eq!(provider.npm, "@opencode/openai");
    assert_eq!(provider.base_url, "https://api.openai.com");
    assert_eq!(provider.api_key, "sk-xxx");
    assert_eq!(provider.timeout, "30");
    assert_eq!(provider.models.len(), 1);
    assert_eq!(provider.models[0].id, "gpt-4o");

    let out = provider.to_value();
    assert_eq!(at(&out, "description"), &s("OpenAI provider"));
    assert_eq!(at(&out, "npm"), &s("@opencode/openai"));
    assert_eq!(at(at(&out, "options"), "baseURL"), &s("https://api.openai.com"));
    assert_eq!(at(at(&out, "options"), "apiKey"), &s("sk-xxx"));
    assert_eq!(at(at(&out, "options"), "timeout"), &uint(30));
    assert_eq!(at(at(at(&out, "models"), "gpt-4o"), "name"), &s("GPT-4o"));
}

// A file that does not exist gives no text, so no parse: the load starts from an empty object.
#[test]
fn load_or_empty_nonexistent_path() {
    let (root, agents, providers) = load_document(None);
    match &root {
        JsonValue::Object(m) => assert!(m.entries.is_empty()),
        _ => panic!("root should be an object"),
    }
    assert!(agents.is_empty());
    assert!(providers.is_empty());
}

// The document the file holds, as its parse gives it.
#[test]
fn load_or_empty_real_file() {
    let doc = obj(vec![
        (
            "agent",
            obj(vec![
                ("agent1", obj(vec![("mode", s("subagent")), ("model", s("m1"))])),
                ("agent2", obj(vec![("mode", s("main")), ("model", s("m2"))])),
            ]),
        ),
        ("provider", obj(vec![("prov1", obj(vec![("description", s("p1")), ("npm", s("n1"))]))])),
    ]);
    let (_, agents, providers) = load_document(Some(doc));
    assert_eq!(agents.len(), 2, "should have 2 agents");
    assert_eq!(providers.len(), 1, "should have 1 provider");
}

// Saving writes the document the file will hold; loading it again reads the edit back.
#[test]
fn nested_roundtrip_modify_and_reload() {
    let root = obj(vec![
        (
            "agent",
            obj(vec![(
                "a1",
                obj(vec![
                    ("mode", s("subagent")),
                    ("description", s("old desc")),
                    ("model", s("m1")),
                ]),
            )]),
        ),
        ("provider", obj(vec![])),
    ]);
    let (root_val, mut agents, providers) = load_document(Some(root));
    assert_eq!(agents[0].description, "old desc");

    agents[0].description = "new desc".to_string();

    let saved = save_document(root_val, &agents, &providers);
    let (_, agents2, _) = load_document(Some(saved));
    assert_eq!(agents2[0].description, "new desc");
}

#[test]
fn is_wsl_path_test() {
    assert!(is_wsl_path("/home/user/file.json"));
    assert!(is_wsl_path("/mnt/c/config.json"));
    assert!(!is_wsl_path("C:/Users/test/file.json"));
    assert!(!is_wsl_path("D:/VsPro/project/file.json"));
    assert!(!is_wsl_path(""));
}

#[test]
fn win_to_wsl_test() {
    assert_eq!(win_to_wsl("C:/Users/test"), "/mnt/c/Users/test");
    assert_eq!(win_to_wsl("D:/VsPro/project"), "/mnt/d/VsPro/project");
    assert_eq!(win_to_wsl("/home/user"), "/home/user");
}

#[test]
fn agent_temperature_not_finite_writes_null() {
    for text in ["NaN", "inf", "-infinity", "1e400"] {
        let v = obj(vec![("temperature", float("0.5"))]);
        let mut agent = AgentRow::from("a", &v);
        agent.temperature = text.to_string();
        let out = agent.to_value();
        assert_eq!(out.get("temperature"), Some(&JsonValue::Null));
    }
}

#[test]
fn clearing_a_field_keeps_order_of_the_others() {
    let v = obj(vec![("variant", s("")), ("a", uint(1)), ("b", uint(2))]);
    let agent = AgentRow::from("k", &v);
    let out = agent.to_value();
    match &out {
        JsonValue::Object(m) => {
            let keys: Vec<&str> = m.entries.iter().map(|e| e.0.as_str()).collect();
            assert_eq!(keys, vec!["a", "b"]);
        }
        _ => panic!("not an object"),
    }
}

#[test]
fn model_variants_read_and_written() {
    let v = obj(vec![("variants", obj(vec![("high", obj(vec![("reasoningEffort", s("high"))]))]))]);
    let mut model = ModelRow::from("m", &v);
    assert_eq!(model.variants, "high");
    model.variants = "high, low".to_string();
    let out = model.to_value();
    let expected = obj(vec![
        ("high", obj(vec![("reasoningEffort", s("high"))])),
        ("low", obj(vec![("reasoningEffort", s("low"))])),
    ]);
    assert_eq!(at(&out, "variants"), &expected);
    model.variants = String::new();
    assert!(model.to_value().get("variants").is_none());
}

#[test]
fn provider_timeout_not_finite_writes_null() {
    let v = obj(vec![("options", obj(vec![("timeout", uint(30))]))]);
    let mut provider = ProviderRow::from("p", &v);
    provider.timeout = "1e999".to_string();
    let out = provider.to_value();
    assert_eq!(at(at(&out, "options"), "timeout"), &JsonValue::Null);
}
