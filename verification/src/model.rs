use vstd::prelude::*;
use crate::json::{
    entries_of, entries_view, field, items_view, lemma_entries_view, lemma_items_view_push, obj_get, obj_insert, obj_remove,
    object_or_empty, value_view, Entries, JsonMap, JsonV, JsonValue,
};
use crate::text::{comma_items, join, join_texts, list_items, lowercase, texts_view, to_lower, trim, trim_text};
use crate::util::{
    nested_str, nested_str_spec, bool_at, bool_field, nested_list_spec, nested_list_str, nested_num, nested_num_spec,
    num_at, num_field, parse_number_text, path_view, set_num_opt, set_num_spec, set_str,
    set_str_spec, str_at, str_field, list_sep,
};

verus! {

/// One agent of the configuration, as the editor holds it.
#[derive(Clone)]
pub struct AgentRow {
    pub key: String,
    pub mode: String,
    pub description: String,
    pub model: String,
    pub variant: String,
    pub temperature: String,
    pub color: String,
    pub system: String,
    pub raw: JsonValue,
    pub haystack: String,
}

/// Model of an agent row.
pub ghost struct AgentV {
    pub key: Seq<char>,
    pub mode: Seq<char>,
    pub description: Seq<char>,
    pub model: Seq<char>,
    pub variant: Seq<char>,
    pub temperature: Seq<char>,
    pub color: Seq<char>,
    pub system: Seq<char>,
    pub raw: JsonV,
    pub haystack: Seq<char>,
}

impl View for AgentRow {
    type V = AgentV;

    open spec fn view(&self) -> AgentV {
        AgentV {
            key: self.key@,
            mode: self.mode@,
            description: self.description@,
            model: self.model@,
            variant: self.variant@,
            temperature: self.temperature@,
            color: self.color@,
            system: self.system@,
            raw: self.raw@,
            haystack: self.haystack@,
        }
    }
}

/// The lowercase search text of an agent: key, mode, description and model, space-separated.
pub open spec fn agent_haystack(a: AgentV) -> Seq<char> {
    lowercase(a.key + seq![' '] + a.mode + seq![' '] + a.description + seq![' '] + a.model)
}

/// The agent read from the object `v` under the key `key`.
pub open spec fn agent_from(key: Seq<char>, v: JsonV) -> AgentV {
    let a = AgentV {
        key: key,
        mode: str_field(v, "mode"@),
        description: str_field(v, "description"@),
        model: str_field(v, "model"@),
        variant: str_field(v, "variant"@),
        temperature: num_field(v, "temperature"@),
        color: str_field(v, "color"@),
        system: str_field(v, "system"@),
        raw: v,
        haystack: Seq::empty(),
    };
    AgentV { haystack: agent_haystack(a), ..a }
}

/// A fresh agent: mode "subagent", everything else empty.
pub open spec fn agent_new() -> AgentV {
    let a = AgentV {
        key: Seq::empty(),
        mode: "subagent"@,
        description: Seq::empty(),
        model: Seq::empty(),
        variant: Seq::empty(),
        temperature: Seq::empty(),
        color: Seq::empty(),
        system: Seq::empty(),
        raw: JsonV::Obj(Seq::empty()),
        haystack: Seq::empty(),
    };
    AgentV { haystack: agent_haystack(a), ..a }
}

/// The entries an agent writes: its raw object with each field set, or removed when empty.
pub open spec fn agent_entries(a: AgentV) -> Entries {
    let m0 = entries_of(a.raw);
    let m1 = set_str_spec(m0, "mode"@, a.mode);
    let m2 = set_str_spec(m1, "description"@, a.description);
    let m3 = set_str_spec(m2, "model"@, a.model);
    let m4 = set_str_spec(m3, "variant"@, a.variant);
    let m5 = set_str_spec(m4, "color"@, a.color);
    let m6 = set_str_spec(m5, "system"@, a.system);
    set_num_spec(m6, "temperature"@, a.temperature)
}

/// Concatenation of `parts` with a space between each two.
fn spaced(parts: &[&str]) -> (r: String)
    ensures
        r@ == spaced_spec(parts@.map_values(|p: &str| p@)),
{
    let mut s = String::new();
    let n = parts.len();
    let mut i: usize = 0;
    while i < n
        invariant
            n == parts@.len(),
            i <= n,
            s@ == spaced_spec(parts@.take(i as int).map_values(|p: &str| p@)),
        decreases n - i,
    {
        let ghost before = parts@.take(i as int).map_values(|p: &str| p@);
        let ghost after = parts@.take(i + 1).map_values(|p: &str| p@);
        proof {
            assert(after.drop_last() =~= before);
            assert(after.last() == parts@[i as int]@);
            reveal_strlit(" ");
        }
        if i > 0 {
            s.append(" ");
        }
        s.append(parts[i]);
        i = i + 1;
    }
    assert(parts@.take(n as int) =~= parts@);
    s
}

/// The parts with one space between each two.
pub open spec fn spaced_spec(parts: Seq<Seq<char>>) -> Seq<char>
    decreases parts.len(),
{
    if parts.len() == 0 {
        Seq::empty()
    } else if parts.len() == 1 {
        parts[0]
    } else {
        spaced_spec(parts.drop_last()) + seq![' '] + parts.last()
    }
}

impl AgentRow {
    /// The agent read from the object `v` under the key `key`.
    pub fn from(key: &str, v: &JsonValue) -> (r: AgentRow)
        ensures
            r@ == agent_from(key@, v@),
    {
        let mut row = AgentRow {
            key: String::from_str(key),
            mode: String::from_str(str_at(v, "mode")),
            description: String::from_str(str_at(v, "description")),
            model: String::from_str(str_at(v, "model")),
            variant: String::from_str(str_at(v, "variant")),
            temperature: num_at(v, "temperature"),
            color: String::from_str(str_at(v, "color")),
            system: String::from_str(str_at(v, "system")),
            raw: v.copy(),
            haystack: String::new(),
        };
        row.refresh_haystack();
        row
    }

    /// A fresh agent: mode "subagent", everything else empty.
    pub fn new() -> (r: AgentRow)
        ensures
            r@ == agent_new(),
    {
        let mut r = AgentRow {
            key: String::new(),
            mode: String::from_str("subagent"),
            description: String::new(),
            model: String::new(),
            variant: String::new(),
            temperature: String::new(),
            color: String::new(),
            system: String::new(),
            raw: JsonValue::Object(JsonMap::new()),
            haystack: String::new(),
        };
        r.refresh_haystack();
        r
    }

    /// Recomputes the lowercase search text from key, mode, description and model.
    pub fn refresh_haystack(&mut self)
        ensures
            final(self)@ == (AgentV { haystack: agent_haystack(old(self)@), ..old(self)@ }),
    {
        let parts = [
            self.key.as_str(),
            self.mode.as_str(),
            self.description.as_str(),
            self.model.as_str(),
        ];
        let s = spaced(&parts);
        proof {
            let pv = parts@.map_values(|p: &str| p@);
            assert(pv =~= seq![self.key@, self.mode@, self.description@, self.model@]);
            assert(pv.drop_last().drop_last().drop_last() =~= seq![self.key@]);
            assert(pv.drop_last().drop_last() =~= seq![self.key@, self.mode@]);
            assert(pv.drop_last() =~= seq![self.key@, self.mode@, self.description@]);
            let s1 = spaced_spec(pv.drop_last().drop_last().drop_last());
            assert(s1 == self.key@);
            let s2 = spaced_spec(pv.drop_last().drop_last());
            assert(s2 == s1 + seq![' '] + self.mode@);
            let s3 = spaced_spec(pv.drop_last());
            assert(s3 == s2 + seq![' '] + self.description@);
            assert(spaced_spec(pv) == s3 + seq![' '] + self.model@);
            assert(spaced_spec(pv) =~= self.key@ + seq![' '] + self.mode@ + seq![' ']
                + self.description@ + seq![' '] + self.model@);
        }
        self.haystack = to_lower(s.as_str());
    }

    /// The object this agent writes back.
    pub fn to_value(&self) -> (r: JsonValue)
        ensures
            r@ == JsonV::Obj(agent_entries(self@)),
    {
        let mut m = self.raw.object_copy();
        set_str(&mut m, "mode", self.mode.as_str());
        set_str(&mut m, "description", self.description.as_str());
        set_str(&mut m, "model", self.model.as_str());
        set_str(&mut m, "variant", self.variant.as_str());
        set_str(&mut m, "color", self.color.as_str());
        set_str(&mut m, "system", self.system.as_str());
        match parse_number_text(self.temperature.as_str()) {
            Some(v) => {
                m.insert(String::from_str("temperature"), v);
            },
            None => {
                m.remove("temperature");
            },
        }
        JsonValue::Object(m)
    }
}



/// One model of a provider, as the editor holds it.
#[derive(Clone)]
pub struct ModelRow {
    pub id: String,
    pub name: String,
    pub reasoning: bool,
    pub tool_call: bool,
    pub context: String,
    pub output: String,
    pub modalities_input: String,
    pub modalities_output: String,
    pub variants: String,
    pub raw: JsonValue,
}

/// Model of a model row.
pub ghost struct ModelV {
    pub id: Seq<char>,
    pub name: Seq<char>,
    pub reasoning: bool,
    pub tool_call: bool,
    pub context: Seq<char>,
    pub output: Seq<char>,
    pub modalities_input: Seq<char>,
    pub modalities_output: Seq<char>,
    pub variants: Seq<char>,
    pub raw: JsonV,
}

impl View for ModelRow {
    type V = ModelV;

    open spec fn view(&self) -> ModelV {
        ModelV {
            id: self.id@,
            name: self.name@,
            reasoning: self.reasoning,
            tool_call: self.tool_call,
            context: self.context@,
            output: self.output@,
            modalities_input: self.modalities_input@,
            modalities_output: self.modalities_output@,
            variants: self.variants@,
            raw: self.raw@,
        }
    }
}

/// The model read from the object `v` under the id `id`.
pub open spec fn model_from(id: Seq<char>, v: JsonV) -> ModelV {
    ModelV {
        id: id,
        name: str_field(v, "name"@),
        reasoning: bool_field(v, "reasoning"@),
        tool_call: bool_field(v, "tool_call"@),
        context: nested_num_spec(v, seq!["limit"@, "context"@]),
        output: nested_num_spec(v, seq!["limit"@, "output"@]),
        modalities_input: nested_list_spec(v, seq!["modalities"@, "input"@]),
        modalities_output: nested_list_spec(v, seq!["modalities"@, "output"@]),
        variants: variants_field(v),
        raw: v,
    }
}

/// A fresh model: every field empty or false.
pub open spec fn model_new() -> ModelV {
    ModelV {
        id: Seq::empty(),
        name: Seq::empty(),
        reasoning: false,
        tool_call: false,
        context: Seq::empty(),
        output: Seq::empty(),
        modalities_input: Seq::empty(),
        modalities_output: Seq::empty(),
        variants: Seq::empty(),
        raw: JsonV::Obj(Seq::empty()),
    }
}

/// JSON strings, one for each item.
pub open spec fn str_array(items: Seq<Seq<char>>) -> Seq<JsonV> {
    items.map_values(|s: Seq<char>| JsonV::Str(s))
}

/// The keys of the entries, in order.
pub open spec fn entry_keys(m: Entries) -> Seq<Seq<char>> {
    m.map_values(|e: (Seq<char>, JsonV)| e.0)
}

/// The variants of a model object as the editor shows them: the names of its `variants`
/// object, comma-separated; empty when there is no such object.
pub open spec fn variants_field(v: JsonV) -> Seq<char> {
    match field(v, "variants"@) {
        Some(JsonV::Obj(m)) => join(entry_keys(m), list_sep()),
        _ => Seq::empty(),
    }
}

/// The settings a newly chosen variant gets: its name as the reasoning effort.
pub open spec fn new_variant(name: Seq<char>) -> JsonV {
    JsonV::Obj(seq![("reasoningEffort"@, JsonV::Str(name))])
}

/// The `variants` object for the chosen names: each name once, in order, with the settings
/// it had in `old`, or new settings.
pub open spec fn variants_object(old: Entries, names: Seq<Seq<char>>) -> Entries
    decreases names.len(),
{
    if names.len() == 0 {
        Seq::empty()
    } else {
        let n = names.last();
        obj_insert(
            variants_object(old, names.drop_last()),
            n,
            match obj_get(old, n) {
                Some(x) => x,
                None => new_variant(n),
            },
        )
    }
}

/// The entries a model writes: those of `model_base_entries`, with the `variants` object
/// of the chosen names, or without it when none is chosen.
pub open spec fn model_entries(m: ModelV) -> Entries {
    let e = model_base_entries(m);
    let names = list_items(m.variants);
    if names.len() > 0 {
        obj_insert(
            e,
            "variants"@,
            JsonV::Obj(variants_object(object_or_empty(obj_get(e, "variants"@)), names)),
        )
    } else {
        obj_remove(e, "variants"@)
    }
}

/// The entries a model writes before its variants: its raw object with name, flags, limits
/// and modalities set.
pub open spec fn model_base_entries(m: ModelV) -> Entries {
    let e0 = entries_of(m.raw);
    let e1 = if trim(m.name).len() == 0 {
        obj_remove(e0, "name"@)
    } else {
        set_str_spec(e0, "name"@, m.name)
    };
    let e2 = obj_insert(e1, "reasoning"@, JsonV::Bool(m.reasoning));
    let e3 = obj_insert(e2, "tool_call"@, JsonV::Bool(m.tool_call));
    let l0 = object_or_empty(obj_get(e3, "limit"@));
    let l1 = set_num_spec(l0, "context"@, m.context);
    let l2 = set_num_spec(l1, "output"@, m.output);
    let e4 = obj_insert(e3, "limit"@, JsonV::Obj(l2));
    let ins = list_items(m.modalities_input);
    let outs = list_items(m.modalities_output);
    if ins.len() > 0 && outs.len() > 0 {
        let o0 = object_or_empty(obj_get(e4, "modalities"@));
        let o1 = obj_insert(o0, "input"@, JsonV::Arr(str_array(ins)));
        let o2 = obj_insert(o1, "output"@, JsonV::Arr(str_array(outs)));
        obj_insert(e4, "modalities"@, JsonV::Obj(o2))
    } else {
        obj_remove(e4, "modalities"@)
    }
}

/// JSON strings holding the texts of `items`.
fn str_values(items: &Vec<String>) -> (r: Vec<JsonValue>)
    ensures
        items_view(r@) == str_array(texts_view(items@)),
{
    let mut out: Vec<JsonValue> = Vec::new();
    let n = items.len();
    let mut i: usize = 0;
    while i < n
        invariant
            n == items.len(),
            i <= n,
            items_view(out@) == str_array(texts_view(items@.take(i as int))),
        decreases n - i,
    {
        let v = JsonValue::Str(items[i].clone());
        proof {
            lemma_items_view_push(out@, v);
            assert(str_array(texts_view(items@.take(i + 1))) =~= str_array(
                texts_view(items@.take(i as int)),
            ).push(JsonV::Str(items@[i as int]@)));
        }
        out.push(v);
        i = i + 1;
    }
    assert(items@.take(n as int) =~= items@);
    out
}

/// The variants of a model object as the editor shows them.
fn variants_text(v: &JsonValue) -> (r: String)
    ensures
        r@ == variants_field(v@),
{
    match v.get("variants") {
        Some(JsonValue::Object(m)) => {
            proof {
                lemma_entries_view(m.entries@);
            }
            let mut keys: Vec<String> = Vec::new();
            let n = m.entries.len();
            let mut i: usize = 0;
            while i < n
                invariant
                    n == m.entries.len(),
                    n == m@.len(),
                    i <= n,
                    keys@.len() == i,
                    forall|q: int| 0 <= q < i ==> #[trigger] keys@[q]@ == m@[q].0,
                    forall|q: int| 0 <= q < n ==> #[trigger] m@[q] == (m.entries@[q].0@, value_view(m.entries@[q].1)),
                decreases n - i,
            {
                keys.push(m.entries[i].0.clone());
                i = i + 1;
            }
            assert(texts_view(keys@) =~= entry_keys(m@));
            proof {
                reveal_strlit(", ");
                assert(", "@ =~= list_sep());
            }
            join_texts(&keys, ", ")
        },
        _ => String::new(),
    }
}

/// The `variants` object for the chosen names.
fn variants_object_of(old: &JsonMap, names: &Vec<String>) -> (r: JsonMap)
    ensures
        r@ == variants_object(old@, texts_view(names@)),
{
    let mut out = JsonMap::new();
    let n = names.len();
    let mut i: usize = 0;
    while i < n
        invariant
            n == names.len(),
            i <= n,
            out@ == variants_object(old@, texts_view(names@.take(i as int))),
        decreases n - i,
    {
        let name = &names[i];
        let val = match old.get(name.as_str()) {
            Some(x) => x.copy(),
            None => {
                let mut e = JsonMap::new();
                e.insert(String::from_str("reasoningEffort"), JsonValue::Str(name.clone()));
                proof {
                    assert(e@ =~= seq![("reasoningEffort"@, JsonV::Str(name@))]);
                }
                JsonValue::Object(e)
            },
        };
        proof {
            let t = texts_view(names@.take(i + 1));
            assert(t.drop_last() =~= texts_view(names@.take(i as int)));
            assert(t.last() == name@);
        }
        out.insert(name.clone(), val);
        i = i + 1;
    }
    assert(names@.take(n as int) =~= names@);
    out
}

impl ModelRow {
    /// The model read from the object `v` under the id `id`.
    pub fn from(id: &str, v: &JsonValue) -> (r: ModelRow)
        ensures
            r@ == model_from(id@, v@),
    {
        let limit_context = ["limit", "context"];
        let limit_output = ["limit", "output"];
        let mod_input = ["modalities", "input"];
        let mod_output = ["modalities", "output"];
        proof {
            assert(path_view(limit_context@) =~= seq!["limit"@, "context"@]);
            assert(path_view(limit_output@) =~= seq!["limit"@, "output"@]);
            assert(path_view(mod_input@) =~= seq!["modalities"@, "input"@]);
            assert(path_view(mod_output@) =~= seq!["modalities"@, "output"@]);
        }
        ModelRow {
            id: String::from_str(id),
            name: String::from_str(str_at(v, "name")),
            reasoning: bool_at(v, "reasoning"),
            tool_call: bool_at(v, "tool_call"),
            context: nested_num(v, &limit_context),
            output: nested_num(v, &limit_output),
            modalities_input: nested_list_str(v, &mod_input),
            modalities_output: nested_list_str(v, &mod_output),
            variants: variants_text(v),
            raw: v.copy(),
        }
    }

    /// A fresh model: every field empty or false.
    pub fn new() -> (r: ModelRow)
        ensures
            r@ == model_new(),
    {
        ModelRow {
            id: String::new(),
            name: String::new(),
            reasoning: false,
            tool_call: false,
            context: String::new(),
            output: String::new(),
            modalities_input: String::new(),
            modalities_output: String::new(),
            variants: String::new(),
            raw: JsonValue::Object(JsonMap::new()),
        }
    }

    /// The object this model writes back.
    pub fn to_value(&self) -> (r: JsonValue)
        ensures
            r@ == JsonV::Obj(model_entries(self@)),
    {
        let mut m = self.raw.object_copy();
        let name_trimmed = trim_text(self.name.as_str());
        if name_trimmed.as_str().is_empty() {
            m.remove("name");
        } else {
            set_str(&mut m, "name", self.name.as_str());
        }
        m.insert(String::from_str("reasoning"), JsonValue::Bool(self.reasoning));
        m.insert(String::from_str("tool_call"), JsonValue::Bool(self.tool_call));
        let mut limit = m.object_at("limit");
        set_num_opt(&mut limit, "context", self.context.as_str());
        set_num_opt(&mut limit, "output", self.output.as_str());
        m.insert(String::from_str("limit"), JsonValue::Object(limit));
        let ins = comma_items(self.modalities_input.as_str());
        let outs = comma_items(self.modalities_output.as_str());
        if ins.len() > 0 && outs.len() > 0 {
            let mut mo = m.object_at("modalities");
            mo.insert(String::from_str("input"), JsonValue::Array(str_values(&ins)));
            mo.insert(String::from_str("output"), JsonValue::Array(str_values(&outs)));
            m.insert(String::from_str("modalities"), JsonValue::Object(mo));
        } else {
            m.remove("modalities");
        }
        let names = comma_items(self.variants.as_str());
        if names.len() > 0 {
            let old = m.object_at("variants");
            let vo = variants_object_of(&old, &names);
            m.insert(String::from_str("variants"), JsonValue::Object(vo));
        } else {
            m.remove("variants");
        }
        JsonValue::Object(m)
    }
}



/// One provider of the configuration, as the editor holds it.
#[derive(Clone)]
pub struct ProviderRow {
    pub key: String,
    pub description: String,
    pub npm: String,
    pub base_url: String,
    pub api_key: String,
    pub timeout: String,
    pub models: Vec<ModelRow>,
    pub new_model: ModelRow,
    pub raw: JsonValue,
    pub haystack: String,
}

/// Model of a provider row.
pub ghost struct ProviderV {
    pub key: Seq<char>,
    pub description: Seq<char>,
    pub npm: Seq<char>,
    pub base_url: Seq<char>,
    pub api_key: Seq<char>,
    pub timeout: Seq<char>,
    pub models: Seq<ModelV>,
    pub new_model: ModelV,
    pub raw: JsonV,
    pub haystack: Seq<char>,
}

/// The models of a list of model rows.
pub open spec fn models_view(ms: Seq<ModelRow>) -> Seq<ModelV> {
    ms.map_values(|m: ModelRow| m@)
}

impl View for ProviderRow {
    type V = ProviderV;

    open spec fn view(&self) -> ProviderV {
        ProviderV {
            key: self.key@,
            description: self.description@,
            npm: self.npm@,
            base_url: self.base_url@,
            api_key: self.api_key@,
            timeout: self.timeout@,
            models: models_view(self.models@),
            new_model: self.new_model@,
            raw: self.raw@,
            haystack: self.haystack@,
        }
    }
}

/// The lowercase search text of a provider: key, description and base URL, space-separated.
pub open spec fn provider_haystack(p: ProviderV) -> Seq<char> {
    lowercase(p.key + seq![' '] + p.description + seq![' '] + p.base_url)
}

/// The models read from the entries of a `models` object, in order.
pub open spec fn models_from(m: Entries) -> Seq<ModelV> {
    m.map_values(|e: (Seq<char>, JsonV)| model_from(e.0, e.1))
}

/// The provider read from the object `v` under the key `key`.
pub open spec fn provider_from(key: Seq<char>, v: JsonV) -> ProviderV {
    let p = ProviderV {
        key: key,
        description: str_field(v, "description"@),
        npm: str_field(v, "npm"@),
        base_url: nested_str_spec(v, seq!["options"@, "baseURL"@]),
        api_key: nested_str_spec(v, seq!["options"@, "apiKey"@]),
        timeout: nested_num_spec(v, seq!["options"@, "timeout"@]),
        models: models_from(object_or_empty(field(v, "models"@))),
        new_model: model_new(),
        raw: v,
        haystack: Seq::empty(),
    };
    ProviderV { haystack: provider_haystack(p), ..p }
}

/// A fresh provider: every field empty, no models.
pub open spec fn provider_new() -> ProviderV {
    let p = ProviderV {
        key: Seq::empty(),
        description: Seq::empty(),
        npm: Seq::empty(),
        base_url: Seq::empty(),
        api_key: Seq::empty(),
        timeout: Seq::empty(),
        models: Seq::empty(),
        new_model: model_new(),
        raw: JsonV::Obj(Seq::empty()),
        haystack: Seq::empty(),
    };
    ProviderV { haystack: provider_haystack(p), ..p }
}

/// The `models` object a provider writes: each model under its id, in order;
/// a later model with the same id replaces the earlier one in its place.
pub open spec fn models_entries(ms: Seq<ModelV>) -> Entries
    decreases ms.len(),
{
    if ms.len() == 0 {
        Seq::empty()
    } else {
        obj_insert(
            models_entries(ms.drop_last()),
            ms.last().id,
            JsonV::Obj(model_entries(ms.last())),
        )
    }
}

/// The entries a provider writes: its raw object with description, npm, options and models set.
pub open spec fn provider_entries(p: ProviderV) -> Entries {
    let e0 = entries_of(p.raw);
    let e1 = set_str_spec(e0, "description"@, p.description);
    let e2 = set_str_spec(e1, "npm"@, p.npm);
    let o0 = object_or_empty(obj_get(e2, "options"@));
    let o1 = set_str_spec(o0, "baseURL"@, p.base_url);
    let o2 = set_str_spec(o1, "apiKey"@, p.api_key);
    let o3 = set_num_spec(o2, "timeout"@, p.timeout);
    let e3 = obj_insert(e2, "options"@, JsonV::Obj(o3));
    obj_insert(e3, "models"@, JsonV::Obj(models_entries(p.models)))
}

impl ProviderRow {
    /// The provider read from the object `v` under the key `key`.
    pub fn from(key: &str, v: &JsonValue) -> (r: ProviderRow)
        ensures
            r@ == provider_from(key@, v@),
    {
        let mut models: Vec<ModelRow> = Vec::new();
        match v.get("models") {
            Some(JsonValue::Object(mm)) => {
                let n = mm.entries.len();
                let mut i: usize = 0;
                proof {
                    lemma_entries_view(mm.entries@);
                }
                while i < n
                    invariant
                        n == mm.entries.len(),
                        i <= n,
                        mm@ == entries_view(mm.entries@),
                        mm@.len() == n,
                        forall|j: int|
                            0 <= j < n ==> #[trigger] mm@[j] == (
                                mm.entries@[j].0@,
                                crate::json::value_view(mm.entries@[j].1),
                            ),
                        models_view(models@) == models_from(mm@.take(i as int)),
                        models@.len() == i,
                    decreases n - i,
                {
                    let row = ModelRow::from(mm.entries[i].0.as_str(), &mm.entries[i].1);
                    let ghost before = models@;
                    models.push(row);
                    proof {
                        assert(mm@.take(i + 1)[i as int] == mm@[i as int]);
                        assert(mm@[i as int] == (
                            mm.entries@[i as int].0@,
                            crate::json::value_view(mm.entries@[i as int].1),
                        ));
                        assert forall|j: int| 0 <= j < i + 1 implies models_view(models@)[j]
                            == models_from(mm@.take(i + 1))[j] by {
                            if j < i {
                                assert(models@[j] == before[j]);
                                assert(models_view(before)[j] == models_from(mm@.take(i as int))[j]);
                                assert(mm@.take(i as int)[j] == mm@.take(i + 1)[j]);
                            }
                        }
                        assert(models_view(models@) =~= models_from(mm@.take(i + 1)));
                    }
                    i = i + 1;
                }
                proof {
                    assert(mm@.take(n as int) =~= mm@);
                }
            },
            _ => {
                assert(models_view(models@) =~= models_from(Seq::empty()));
            },
        }
        let options_base_url = ["options", "baseURL"];
        let options_api_key = ["options", "apiKey"];
        let options_timeout = ["options", "timeout"];
        proof {
            assert(path_view(options_base_url@) =~= seq!["options"@, "baseURL"@]);
            assert(path_view(options_api_key@) =~= seq!["options"@, "apiKey"@]);
            assert(path_view(options_timeout@) =~= seq!["options"@, "timeout"@]);
        }
        let mut r = ProviderRow {
            key: String::from_str(key),
            description: String::from_str(str_at(v, "description")),
            npm: String::from_str(str_at(v, "npm")),
            base_url: String::from_str(nested_str(v, &options_base_url)),
            api_key: String::from_str(nested_str(v, &options_api_key)),
            timeout: nested_num(v, &options_timeout),
            models,
            new_model: ModelRow::new(),
            raw: v.copy(),
            haystack: String::new(),
        };
        r.refresh_haystack();
        r
    }

    /// A fresh provider: every field empty, no models.
    pub fn new() -> (r: ProviderRow)
        ensures
            r@ == provider_new(),
    {
        let mut r = ProviderRow {
            key: String::new(),
            description: String::new(),
            npm: String::new(),
            base_url: String::new(),
            api_key: String::new(),
            timeout: String::new(),
            models: Vec::new(),
            new_model: ModelRow::new(),
            raw: JsonValue::Object(JsonMap::new()),
            haystack: String::new(),
        };
        proof {
            assert(models_view(r.models@) =~= Seq::<ModelV>::empty());
        }
        r.refresh_haystack();
        r
    }

    /// Recomputes the lowercase search text from key, description and base URL.
    pub fn refresh_haystack(&mut self)
        ensures
            final(self)@ == (ProviderV { haystack: provider_haystack(old(self)@), ..old(self)@ }),
    {
        let parts = [self.key.as_str(), self.description.as_str(), self.base_url.as_str()];
        let s = spaced(&parts);
        proof {
            let pv = parts@.map_values(|p: &str| p@);
            assert(pv =~= seq![self.key@, self.description@, self.base_url@]);
            assert(pv.drop_last().drop_last() =~= seq![self.key@]);
            assert(pv.drop_last() =~= seq![self.key@, self.description@]);
            let s1 = spaced_spec(pv.drop_last().drop_last());
            assert(s1 == self.key@);
            let s2 = spaced_spec(pv.drop_last());
            assert(s2 == s1 + seq![' '] + self.description@);
            assert(spaced_spec(pv) == s2 + seq![' '] + self.base_url@);
            assert(spaced_spec(pv) =~= self.key@ + seq![' '] + self.description@ + seq![' ']
                + self.base_url@);
        }
        self.haystack = to_lower(s.as_str());
    }

    /// The object this provider writes back.
    pub fn to_value(&self) -> (r: JsonValue)
        ensures
            r@ == JsonV::Obj(provider_entries(self@)),
    {
        let mut m = self.raw.object_copy();
        set_str(&mut m, "description", self.description.as_str());
        set_str(&mut m, "npm", self.npm.as_str());
        let mut options = m.object_at("options");
        set_str(&mut options, "baseURL", self.base_url.as_str());
        set_str(&mut options, "apiKey", self.api_key.as_str());
        set_num_opt(&mut options, "timeout", self.timeout.as_str());
        m.insert(String::from_str("options"), JsonValue::Object(options));
        let mut models = JsonMap::new();
        let n = self.models.len();
        let mut i: usize = 0;
        while i < n
            invariant
                n == self.models.len(),
                i <= n,
                models@ == models_entries(models_view(self.models@.take(i as int))),
            decreases n - i,
        {
            let mdl = &self.models[i];
            proof {
                let mv = models_view(self.models@.take(i + 1));
                assert(mv.drop_last() =~= models_view(self.models@.take(i as int)));
                assert(mv.last() == mdl@);
            }
            models.insert(mdl.id.clone(), mdl.to_value());
            i = i + 1;
        }
        proof {
            assert(self.models@.take(n as int) =~= self.models@);
        }
        m.insert(String::from_str("models"), JsonValue::Object(models));
        JsonValue::Object(m)
    }
}

} // verus!
