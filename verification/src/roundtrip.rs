//! What a read gives back of a write, and a write of a read: the properties that let the
//! editor change a few fields of a configuration and keep everything else.
use vstd::prelude::*;
use crate::document::{agent_map, agents_of, provider_map, providers_of, saved_document};
use crate::json::{
    field, keys_distinct, lemma_find_key, lemma_get_at, law_get_after_insert, law_get_after_remove, law_insert_keeps_distinct,
    law_insert_same_unchanged, law_remove_absent_unchanged, obj_get, obj_insert, obj_remove,
    object_or_empty, entries_of, Entries, JsonV, NumV,
};
use crate::model::{
    agent_entries, agent_from, agent_haystack, entry_keys, model_base_entries, model_entries,
    model_from, model_new, models_entries, new_variant, variants_field, variants_object,
    models_from, provider_entries, provider_from, provider_haystack, str_array, AgentV, ModelV,
    ProviderV,
};
use crate::util::{
    bool_field, int_num, is_i64, is_int_text, lemma_number_reads_back, list_sep, nested_list_spec,
    nested_num_spec, nested_str_spec, num_field, number_shown, parse_number_spec, path_get, reads_back,
    set_num_spec, set_str_spec, str_field, string_items,
};
use crate::text::{
    clean_item, comma_pieces, int_text, join, law_list_items_of_join, list_items, nonempty_trimmed, trim,
};

verus! {

/// The text field `k` of an object survives a read and a write: it is absent, or a non-empty string.
pub open spec fn text_field_kept(m: Entries, k: Seq<char>) -> bool {
    match obj_get(m, k) {
        None => true,
        Some(JsonV::Str(s)) => s.len() > 0,
        _ => false,
    }
}

/// The number field `k` of an object survives a read and a write: it is absent, or a
/// number that reads back.
pub open spec fn number_field_kept(m: Entries, k: Seq<char>) -> bool {
    match obj_get(m, k) {
        None => true,
        Some(JsonV::Num(n)) => reads_back(n),
        _ => false,
    }
}

/// A number text the editor writes and reads back unchanged: empty, or trimmed and a
/// number (not one that std reads as infinite or NaN).
pub open spec fn number_text_kept(t: Seq<char>) -> bool {
    t.len() == 0 || (trim(t) == t && parse_number_spec(t) matches Some(JsonV::Num(_)))
}

proof fn lemma_set_str_kept(m: Entries, k: Seq<char>)
    requires
        text_field_kept(m, k),
    ensures
        set_str_spec(m, k, str_field(JsonV::Obj(m), k)) == m,
{
    match obj_get(m, k) {
        None => law_remove_absent_unchanged(m, k),
        Some(v) => law_insert_same_unchanged(m, k, v),
    }
}

proof fn lemma_set_num_kept(m: Entries, k: Seq<char>)
    requires
        number_field_kept(m, k),
    ensures
        set_num_spec(m, k, num_field(JsonV::Obj(m), k)) == m,
{
    match obj_get(m, k) {
        None => {
            assert(trim(Seq::<char>::empty()) =~= Seq::<char>::empty());
            law_remove_absent_unchanged(m, k);
        },
        Some(v) => {
            if let JsonV::Num(n) = v {
                lemma_number_reads_back(n);
            }
            law_insert_same_unchanged(m, k, v);
        },
    }
}

/// The conditions under which reading an agent object and writing it back gives the same
/// object: each text field absent or a non-empty string, the temperature absent or a number
/// that reads back.
pub open spec fn agent_reads_back(m: Entries) -> bool {
    &&& text_field_kept(m, "mode"@)
    &&& text_field_kept(m, "description"@)
    &&& text_field_kept(m, "model"@)
    &&& text_field_kept(m, "variant"@)
    &&& text_field_kept(m, "color"@)
    &&& text_field_kept(m, "system"@)
    &&& number_field_kept(m, "temperature"@)
}

/// Reading an agent from an object and writing it back gives the same object, when the
/// object reads back.
pub proof fn law_agent_read_write(key: Seq<char>, m: Entries)
    requires
        agent_reads_back(m),
    ensures
        agent_entries(agent_from(key, JsonV::Obj(m))) == m,
{
    lemma_set_str_kept(m, "mode"@);
    lemma_set_str_kept(m, "description"@);
    lemma_set_str_kept(m, "model"@);
    lemma_set_str_kept(m, "variant"@);
    lemma_set_str_kept(m, "color"@);
    lemma_set_str_kept(m, "system"@);
    lemma_set_num_kept(m, "temperature"@);
}

/// Reading after writing a text field: the key gives the text, or nothing when it is empty;
/// every other key gives what it gave before.
pub proof fn law_set_str_get(m: Entries, k: Seq<char>, v: Seq<char>)
    ensures
        forall|k2: Seq<char>|
            #[trigger] obj_get(set_str_spec(m, k, v), k2) == (if k2 == k {
                if v.len() == 0 {
                    None
                } else {
                    Some(JsonV::Str(v))
                }
            } else {
                obj_get(m, k2)
            }),
{
    assert forall|k2: Seq<char>|
        #[trigger] obj_get(set_str_spec(m, k, v), k2) == (if k2 == k {
            if v.len() == 0 {
                None
            } else {
                Some(JsonV::Str(v))
            }
        } else {
            obj_get(m, k2)
        }) by {
        if v.len() == 0 {
            law_get_after_remove(m, k, k2);
        } else {
            law_get_after_insert(m, k, JsonV::Str(v), k2);
        }
    }
}

/// Reading after writing a number field: the key gives the number the text stands for, or
/// nothing when it stands for none; every other key gives what it gave before.
pub proof fn law_set_num_get(m: Entries, k: Seq<char>, t: Seq<char>)
    ensures
        forall|k2: Seq<char>|
            #[trigger] obj_get(set_num_spec(m, k, t), k2) == (if k2 == k {
                parse_number_spec(t)
            } else {
                obj_get(m, k2)
            }),
{
    match parse_number_spec(t) {
        Some(n) => {
            assert forall|k2: Seq<char>|
                #[trigger] obj_get(set_num_spec(m, k, t), k2) == (if k2 == k {
                    parse_number_spec(t)
                } else {
                    obj_get(m, k2)
                }) by {
                law_get_after_insert(m, k, n, k2);
            }
        },
        None => {
            law_get_after_remove(m, k, k);
            assert forall|k2: Seq<char>|
                #[trigger] obj_get(set_num_spec(m, k, t), k2) == (if k2 == k {
                    parse_number_spec(t)
                } else {
                    obj_get(m, k2)
                }) by {
                law_get_after_remove(m, k, k2);
            }
        },
    }
}

/// A number text that is kept reads back as itself.
proof fn lemma_number_text_kept(t: Seq<char>)
    requires
        number_text_kept(t),
    ensures
        match parse_number_spec(t) {
            Some(JsonV::Num(n)) => number_shown(n) == t,
            None => t.len() == 0,
            _ => false,
        },
{
    if t.len() > 0 && is_int_text(t) {
        let c = choose|c: int| is_i64(c) && int_text(c) == t;
        if c >= 0 {
            assert(int_num(c) == NumV::PosInt(c as u64));
            assert(((c as u64) as nat) as int == c);
        }
    }
}

proof fn lemma_agent_keys_differ()
    ensures
        "mode"@ != "description"@,
        "mode"@ != "model"@,
        "mode"@ != "variant"@,
        "mode"@ != "color"@,
        "mode"@ != "system"@,
        "mode"@ != "temperature"@,
        "description"@ != "model"@,
        "description"@ != "variant"@,
        "description"@ != "color"@,
        "description"@ != "system"@,
        "description"@ != "temperature"@,
        "model"@ != "variant"@,
        "model"@ != "color"@,
        "model"@ != "system"@,
        "model"@ != "temperature"@,
        "variant"@ != "color"@,
        "variant"@ != "system"@,
        "variant"@ != "temperature"@,
        "color"@ != "system"@,
        "color"@ != "temperature"@,
        "system"@ != "temperature"@,
{
    reveal_strlit("mode");
    reveal_strlit("description");
    reveal_strlit("model");
    reveal_strlit("variant");
    reveal_strlit("color");
    reveal_strlit("system");
    reveal_strlit("temperature");
    assert("mode"@.len() == 4 && "mode"@[0] == 'm');
    assert("description"@.len() == 11 && "description"@[0] == 'd');
    assert("model"@.len() == 5 && "model"@[0] == 'm');
    assert("variant"@.len() == 7 && "variant"@[0] == 'v');
    assert("color"@.len() == 5 && "color"@[0] == 'c');
    assert("system"@.len() == 6 && "system"@[0] == 's');
    assert("temperature"@.len() == 11 && "temperature"@[0] == 't');
}

/// The agent that reading back a written agent gives: the same fields, its raw object the
/// one written, its search text recomputed.
pub open spec fn agent_written(a: AgentV) -> AgentV {
    AgentV { raw: JsonV::Obj(agent_entries(a)), haystack: agent_haystack(a), ..a }
}

/// The text that the number field written for the text `t` reads back as: the shown form of
/// the number `t` stands for, or empty when it stands for no number (nothing, or null).
pub open spec fn number_read_back(t: Seq<char>) -> Seq<char> {
    match parse_number_spec(t) {
        Some(JsonV::Num(n)) => number_shown(n),
        _ => Seq::empty(),
    }
}

/// Writing an agent to its object and reading it back gives the same key and text fields,
/// and the temperature as the number it stands for shows, empty when it stands for none;
/// when the temperature is empty or a trimmed number text, the same agent.
pub proof fn law_agent_write_read(a: AgentV)
    ensures
        ({
            let b = agent_from(a.key, JsonV::Obj(agent_entries(a)));
            &&& b.key == a.key
            &&& b.mode == a.mode
            &&& b.description == a.description
            &&& b.model == a.model
            &&& b.variant == a.variant
            &&& b.color == a.color
            &&& b.system == a.system
            &&& b.temperature == number_read_back(a.temperature)
        }),
        number_text_kept(a.temperature) ==> agent_from(a.key, JsonV::Obj(agent_entries(a)))
            == agent_written(a),
{
    lemma_agent_keys_differ();
    let m0 = entries_of(a.raw);
    let m1 = set_str_spec(m0, "mode"@, a.mode);
    let m2 = set_str_spec(m1, "description"@, a.description);
    let m3 = set_str_spec(m2, "model"@, a.model);
    let m4 = set_str_spec(m3, "variant"@, a.variant);
    let m5 = set_str_spec(m4, "color"@, a.color);
    let m6 = set_str_spec(m5, "system"@, a.system);
    let m7 = set_num_spec(m6, "temperature"@, a.temperature);
    law_set_str_get(m0, "mode"@, a.mode);
    law_set_str_get(m1, "description"@, a.description);
    law_set_str_get(m2, "model"@, a.model);
    law_set_str_get(m3, "variant"@, a.variant);
    law_set_str_get(m4, "color"@, a.color);
    law_set_str_get(m5, "system"@, a.system);
    law_set_num_get(m6, "temperature"@, a.temperature);
    assert(m7 == agent_entries(a));
    let v = JsonV::Obj(m7);
    assert(str_field(v, "mode"@) == a.mode);
    assert(str_field(v, "description"@) == a.description);
    assert(str_field(v, "model"@) == a.model);
    assert(str_field(v, "variant"@) == a.variant);
    assert(str_field(v, "color"@) == a.color);
    assert(str_field(v, "system"@) == a.system);
    assert(num_field(v, "temperature"@) == number_read_back(a.temperature));
    if number_text_kept(a.temperature) {
        lemma_number_text_kept(a.temperature);
        assert(number_read_back(a.temperature) == a.temperature);
        assert(agent_from(a.key, v) == agent_written(a));
    }
}

/// Keys that a save writes and a load gives back one for one: non-empty and pairwise different.
pub open spec fn keys_usable(keys: Seq<Seq<char>>) -> bool {
    &&& forall|i: int| 0 <= i < keys.len() ==> (#[trigger] keys[i]).len() > 0
    &&& forall|i: int, j: int| 0 <= i < j < keys.len() ==> #[trigger] keys[i] != #[trigger] keys[j]
}

proof fn lemma_agent_map(agents: Seq<AgentV>)
    requires
        keys_usable(agents.map_values(|a: AgentV| a.key)),
    ensures
        agent_map(agents) == agents.map_values(|a: AgentV| (a.key, JsonV::Obj(agent_entries(a)))),
    decreases agents.len(),
{
    if agents.len() > 0 {
        let init = agents.drop_last();
        let keys = agents.map_values(|a: AgentV| a.key);
        assert(init.map_values(|a: AgentV| a.key) =~= keys.drop_last());
        lemma_agent_map(init);
        let m = agent_map(init);
        let a = agents.last();
        assert(keys[agents.len() - 1] == a.key);
        assert(a.key.len() > 0);
        lemma_find_key(m, a.key);
        assert forall|j: int| 0 <= j < m.len() implies m[j].0 != a.key by {
            assert(m[j].0 == init[j].key);
            assert(keys[j] == init[j].key);
        }
        assert(agent_map(agents) =~= agents.map_values(
            |a: AgentV| (a.key, JsonV::Obj(agent_entries(a))),
        ));
    }
}

/// Saving the rows and loading the saved document gives the agents back, each as written,
/// when their keys are non-empty and distinct and each agent reads back as written.
pub proof fn law_save_load_agents(root: Entries, agents: Seq<AgentV>, providers: Seq<ProviderV>)
    requires
        keys_usable(agents.map_values(|a: AgentV| a.key)),
        forall|i: int|
            0 <= i < agents.len() ==> number_text_kept((#[trigger] agents[i]).temperature),
    ensures
        agents_of(saved_document(JsonV::Obj(root), agents, providers)) == agents.map_values(
            |a: AgentV| agent_written(a),
        ),
{
    reveal_strlit("agent");
    reveal_strlit("provider");
    assert("agent"@.len() == 5 && "provider"@.len() == 8);
    let a_map = JsonV::Obj(agent_map(agents));
    let p_map = JsonV::Obj(provider_map(providers));
    let r1 = obj_insert(root, "agent"@, a_map);
    law_get_after_insert(root, "agent"@, a_map, "agent"@);
    law_get_after_insert(r1, "provider"@, p_map, "agent"@);
    lemma_agent_map(agents);
    let doc = saved_document(JsonV::Obj(root), agents, providers);
    assert(field(doc, "agent"@) == Some(a_map));
    assert forall|i: int| 0 <= i < agents.len() implies agents_of(doc)[i] == agent_written(
        agents[i],
    ) by {
        law_agent_write_read(agents[i]);
    }
    assert(agents_of(doc) =~= agents.map_values(|a: AgentV| agent_written(a)));
}

proof fn lemma_insert_get(m: Entries, k: Seq<char>, v: JsonV)
    ensures
        keys_distinct(m) ==> keys_distinct(obj_insert(m, k, v)),
        forall|k2: Seq<char>|
            #[trigger] obj_get(obj_insert(m, k, v), k2) == (if k2 == k {
                Some(v)
            } else {
                obj_get(m, k2)
            }),
{
    if keys_distinct(m) {
        law_insert_keeps_distinct(m, k, v);
    }
    assert forall|k2: Seq<char>|
        #[trigger] obj_get(obj_insert(m, k, v), k2) == (if k2 == k {
            Some(v)
        } else {
            obj_get(m, k2)
        }) by {
        law_get_after_insert(m, k, v, k2);
    }
}

proof fn lemma_remove_get(m: Entries, k: Seq<char>)
    ensures
        forall|k2: Seq<char>|
            #[trigger] obj_get(obj_remove(m, k), k2) == (if k2 == k {
                None
            } else {
                obj_get(m, k2)
            }),
{
    law_get_after_remove(m, k, k);
    assert forall|k2: Seq<char>|
        #[trigger] obj_get(obj_remove(m, k), k2) == (if k2 == k {
            None
        } else {
            obj_get(m, k2)
        }) by {
        law_get_after_remove(m, k, k2);
    }
}

proof fn lemma_path_two(v: JsonV, a: Seq<char>, b: Seq<char>)
    ensures
        path_get(v, seq![a, b]) == (match field(v, a) {
            Some(x) => field(x, b),
            None => None,
        }),
{
    let p2 = seq![a, b];
    let p1 = seq![a];
    assert(p2.drop_last() =~= p1);
    assert(p1.drop_last() =~= Seq::<Seq<char>>::empty());
    assert(p2.last() == b && p1.last() == a);
    assert(path_get(v, Seq::<Seq<char>>::empty()) == Some(v));
    assert(path_get(v, p1) == field(v, a));
}

proof fn lemma_string_items(items: Seq<Seq<char>>)
    ensures
        string_items(str_array(items)) == items,
    decreases items.len(),
{
    if items.len() > 0 {
        lemma_string_items(items.drop_last());
        assert(str_array(items).drop_last() =~= str_array(items.drop_last()));
        assert(items.drop_last().push(items.last()) =~= items);
    }
}

proof fn lemma_list_items_empty()
    ensures
        list_items(Seq::empty()).len() == 0,
{
    let e = Seq::<char>::empty();
    assert(trim(e) =~= e);
    let ps = seq![e];
    assert(comma_pieces(e) == ps);
    assert(ps.drop_last() =~= Seq::<Seq<char>>::empty());
    assert(ps.last() == e);
    assert(nonempty_trimmed(Seq::<Seq<char>>::empty()) == Seq::<Seq<char>>::empty());
    assert(nonempty_trimmed(ps) == nonempty_trimmed(Seq::<Seq<char>>::empty()));
}

proof fn lemma_model_keys_differ()
    ensures
        "name"@ != "reasoning"@,
        "name"@ != "tool_call"@,
        "name"@ != "limit"@,
        "name"@ != "modalities"@,
        "reasoning"@ != "tool_call"@,
        "reasoning"@ != "limit"@,
        "reasoning"@ != "modalities"@,
        "tool_call"@ != "limit"@,
        "tool_call"@ != "modalities"@,
        "limit"@ != "modalities"@,
        "context"@ != "output"@,
        "input"@ != "output"@,
        "variants"@ != "name"@,
        "variants"@ != "reasoning"@,
        "variants"@ != "tool_call"@,
        "variants"@ != "limit"@,
        "variants"@ != "modalities"@,
{
    reveal_strlit("variants");
    assert("variants"@.len() == 8 && "variants"@[0] == 'v');
    reveal_strlit("name");
    reveal_strlit("reasoning");
    reveal_strlit("tool_call");
    reveal_strlit("limit");
    reveal_strlit("modalities");
    reveal_strlit("context");
    reveal_strlit("output");
    reveal_strlit("input");
    assert("name"@.len() == 4);
    assert("reasoning"@.len() == 9 && "reasoning"@[0] == 'r');
    assert("tool_call"@.len() == 9 && "tool_call"@[0] == 't');
    assert("limit"@.len() == 5 && "limit"@[0] == 'l');
    assert("modalities"@.len() == 10);
    assert("context"@.len() == 7);
    assert("output"@.len() == 6);
    assert("input"@.len() == 5);
}

/// A model name that a write and a read keep: empty, or not only white space.
pub open spec fn name_kept(name: Seq<char>) -> bool {
    name.len() == 0 || trim(name).len() > 0
}

/// Modality lists that a write and a read keep: both empty, or both non-empty lists
/// written as the editor shows them, items trimmed and separated by a comma and a space.
pub open spec fn modalities_kept(input: Seq<char>, output: Seq<char>) -> bool {
    ||| input.len() == 0 && output.len() == 0
    ||| list_items(input).len() > 0 && list_items(output).len() > 0
        && join(list_items(input), list_sep()) == input
        && join(list_items(output), list_sep()) == output
}

/// The model that reading back a written model gives: the same fields, its raw object the one written.
pub open spec fn model_written(m: ModelV) -> ModelV {
    ModelV { raw: JsonV::Obj(model_entries(m)), ..m }
}

/// Names pairwise different.
pub open spec fn names_distinct(names: Seq<Seq<char>>) -> bool {
    forall|i: int, j: int| 0 <= i < j < names.len() ==> #[trigger] names[i] != #[trigger] names[j]
}

/// A variants text that a write and a read keep: empty, or distinct names written as the
/// editor shows them, separated by a comma and a space.
pub open spec fn variants_kept(v: Seq<char>) -> bool {
    v.len() == 0 || (join(list_items(v), list_sep()) == v && names_distinct(list_items(v)))
}

proof fn lemma_variants_object_keys(old: Entries, names: Seq<Seq<char>>)
    requires
        names_distinct(names),
    ensures
        entry_keys(variants_object(old, names)) == names,
    decreases names.len(),
{
    if names.len() > 0 {
        let init = names.drop_last();
        lemma_variants_object_keys(old, init);
        let r = variants_object(old, init);
        let n = names.last();
        lemma_find_key(r, n);
        assert forall|j: int| 0 <= j < r.len() implies r[j].0 != n by {
            assert(entry_keys(r)[j] == r[j].0);
            assert(names[j] != names[names.len() - 1]);
        }
        let val = match obj_get(old, n) {
            Some(x) => x,
            None => new_variant(n),
        };
        assert(variants_object(old, names) == r.push((n, val)));
        assert(entry_keys(r.push((n, val))) =~= entry_keys(r).push(n));
        assert(init.push(n) =~= names);
    }
}

proof fn lemma_variants_object_same(old: Entries, m: Entries)
    requires
        keys_distinct(m),
        forall|i: int| 0 <= i < m.len() ==> obj_get(old, #[trigger] m[i].0) == Some(m[i].1),
    ensures
        variants_object(old, entry_keys(m)) == m,
    decreases m.len(),
{
    if m.len() > 0 {
        let init = m.drop_last();
        assert forall|i: int| 0 <= i < init.len() implies obj_get(old, #[trigger] init[i].0) == Some(
            init[i].1,
        ) by {
            assert(init[i] == m[i]);
        }
        lemma_variants_object_same(old, init);
        assert(entry_keys(m).drop_last() =~= entry_keys(init));
        assert(entry_keys(m).last() == m.last().0);
        assert(obj_get(old, m[m.len() - 1].0) == Some(m[m.len() - 1].1));
        lemma_find_key(init, m.last().0);
        assert forall|j: int| 0 <= j < init.len() implies init[j].0 != m.last().0 by {
            assert(m[j].0 != m[m.len() - 1].0);
        }
        assert(init.push(m.last()) =~= m);
    }
}

/// The conditions under which a model reads back as written: fields that a write and a read keep.
pub open spec fn model_writes_back(m: ModelV) -> bool {
    &&& variants_kept(m.variants)
    &&& name_kept(m.name)
    &&& number_text_kept(m.context)
    &&& number_text_kept(m.output)
    &&& modalities_kept(m.modalities_input, m.modalities_output)
}

/// Writing a model to its object and reading it back gives the same fields, when it
/// writes back: distinct keys, and fields that a write and a read keep.
pub proof fn law_model_write_read(m: ModelV)
    requires
        model_writes_back(m),
    ensures
        model_from(m.id, JsonV::Obj(model_entries(m))) == model_written(m),
{
    lemma_model_keys_differ();
    let e0 = entries_of(m.raw);
    let e1 = if trim(m.name).len() == 0 {
        obj_remove(e0, "name"@)
    } else {
        set_str_spec(e0, "name"@, m.name)
    };
    if trim(m.name).len() == 0 {
        lemma_remove_get(e0, "name"@);
        assert(m.name.len() == 0);
    } else {
        law_set_str_get(e0, "name"@, m.name);
        assert(m.name.len() > 0) by {
            if m.name.len() == 0 {
                assert(trim(m.name) =~= m.name);
            }
        }
    }
    let e2 = obj_insert(e1, "reasoning"@, JsonV::Bool(m.reasoning));
    let e3 = obj_insert(e2, "tool_call"@, JsonV::Bool(m.tool_call));
    lemma_insert_get(e1, "reasoning"@, JsonV::Bool(m.reasoning));
    lemma_insert_get(e2, "tool_call"@, JsonV::Bool(m.tool_call));
    let l0 = object_or_empty(obj_get(e3, "limit"@));
    assert(obj_get(e3, "limit"@) == obj_get(e0, "limit"@));
    let l1 = set_num_spec(l0, "context"@, m.context);
    let l2 = set_num_spec(l1, "output"@, m.output);
    law_set_num_get(l0, "context"@, m.context);
    law_set_num_get(l1, "output"@, m.output);
    let e4 = obj_insert(e3, "limit"@, JsonV::Obj(l2));
    lemma_insert_get(e3, "limit"@, JsonV::Obj(l2));
    let ins = list_items(m.modalities_input);
    let outs = list_items(m.modalities_output);
    let e5 = model_base_entries(m);
    lemma_list_items_empty();
    if ins.len() > 0 && outs.len() > 0 {
        let o0 = object_or_empty(obj_get(e4, "modalities"@));
        let o1 = obj_insert(o0, "input"@, JsonV::Arr(str_array(ins)));
        let o2 = obj_insert(o1, "output"@, JsonV::Arr(str_array(outs)));
        lemma_insert_get(o0, "input"@, JsonV::Arr(str_array(ins)));
        lemma_insert_get(o1, "output"@, JsonV::Arr(str_array(outs)));
        lemma_insert_get(e4, "modalities"@, JsonV::Obj(o2));
        assert(e5 == obj_insert(e4, "modalities"@, JsonV::Obj(o2)));
        lemma_string_items(ins);
        lemma_string_items(outs);
        assert(obj_get(o2, "input"@) == Some(JsonV::Arr(str_array(ins))));
        assert(obj_get(e5, "modalities"@) == Some(JsonV::Obj(o2)));
    } else {
        lemma_remove_get(e4, "modalities"@);
        assert(e5 == obj_remove(e4, "modalities"@));
    }
    let e6 = model_entries(m);
    let names = list_items(m.variants);
    if names.len() > 0 {
        let vo = variants_object(object_or_empty(obj_get(e5, "variants"@)), names);
        lemma_insert_get(e5, "variants"@, JsonV::Obj(vo));
        assert(e6 == obj_insert(e5, "variants"@, JsonV::Obj(vo)));
        lemma_variants_object_keys(object_or_empty(obj_get(e5, "variants"@)), names);
        assert(variants_field(JsonV::Obj(e6)) == m.variants);
    } else {
        lemma_remove_get(e5, "variants"@);
        assert(e6 == obj_remove(e5, "variants"@));
        assert(m.variants.len() == 0) by {
            if m.variants.len() > 0 {
                assert(join(names, list_sep()) =~= Seq::<char>::empty());
            }
        }
        assert(variants_field(JsonV::Obj(e6)) == m.variants);
    }
    assert(obj_get(e6, "name"@) == obj_get(e5, "name"@));
    assert(obj_get(e6, "reasoning"@) == obj_get(e5, "reasoning"@));
    assert(obj_get(e6, "tool_call"@) == obj_get(e5, "tool_call"@));
    assert(obj_get(e6, "limit"@) == obj_get(e5, "limit"@));
    assert(obj_get(e6, "modalities"@) == obj_get(e5, "modalities"@));
    let v = JsonV::Obj(e6);
    lemma_path_two(v, "limit"@, "context"@);
    lemma_path_two(v, "limit"@, "output"@);
    lemma_path_two(v, "modalities"@, "input"@);
    lemma_path_two(v, "modalities"@, "output"@);
    lemma_number_text_kept(m.context);
    lemma_number_text_kept(m.output);
    assert(obj_get(e5, "limit"@) == Some(JsonV::Obj(l2)));
    assert(obj_get(e6, "limit"@) == Some(JsonV::Obj(l2)));
    assert(str_field(v, "name"@) == m.name);
    assert(bool_field(v, "reasoning"@) == m.reasoning);
    assert(bool_field(v, "tool_call"@) == m.tool_call);
    assert(nested_num_spec(v, seq!["limit"@, "context"@]) == m.context);
    assert(nested_num_spec(v, seq!["limit"@, "output"@]) == m.output);
    assert(nested_list_spec(v, seq!["modalities"@, "input"@]) == m.modalities_input);
    assert(nested_list_spec(v, seq!["modalities"@, "output"@]) == m.modalities_output);
}

proof fn lemma_provider_keys_differ()
    ensures
        "description"@ != "npm"@,
        "description"@ != "options"@,
        "description"@ != "models"@,
        "npm"@ != "options"@,
        "npm"@ != "models"@,
        "options"@ != "models"@,
        "baseURL"@ != "apiKey"@,
        "baseURL"@ != "timeout"@,
        "apiKey"@ != "timeout"@,
{
    reveal_strlit("description");
    reveal_strlit("npm");
    reveal_strlit("options");
    reveal_strlit("models");
    reveal_strlit("baseURL");
    reveal_strlit("apiKey");
    reveal_strlit("timeout");
    assert("description"@.len() == 11);
    assert("npm"@.len() == 3);
    assert("options"@.len() == 7 && "options"@[0] == 'o');
    assert("models"@.len() == 6);
    assert("baseURL"@.len() == 7 && "baseURL"@[0] == 'b');
    assert("apiKey"@.len() == 6);
    assert("timeout"@.len() == 7 && "timeout"@[0] == 't');
}

/// Model ids pairwise different.
pub open spec fn ids_distinct(models: Seq<ModelV>) -> bool {
    forall|i: int, j: int| 0 <= i < j < models.len() ==> #[trigger] models[i].id != #[trigger] models[j].id
}

proof fn lemma_models_entries(models: Seq<ModelV>)
    requires
        ids_distinct(models),
    ensures
        models_entries(models) == models.map_values(
            |m: ModelV| (m.id, JsonV::Obj(model_entries(m))),
        ),
    decreases models.len(),
{
    if models.len() > 0 {
        let init = models.drop_last();
        lemma_models_entries(init);
        let e = models_entries(init);
        let m = models.last();
        lemma_find_key(e, m.id);
        assert forall|j: int| 0 <= j < e.len() implies e[j].0 != m.id by {
            assert(e[j].0 == init[j].id);
            assert(models[j].id != models[models.len() - 1].id);
        }
        assert(models_entries(models) =~= models.map_values(
            |m: ModelV| (m.id, JsonV::Obj(model_entries(m))),
        ));
    }
}

/// The provider that reading back a written provider gives: the same fields, each model as
/// written, an empty new-model form, its raw object the one written, its search text recomputed.
pub open spec fn provider_written(p: ProviderV) -> ProviderV {
    ProviderV {
        models: p.models.map_values(|m: ModelV| model_written(m)),
        new_model: model_new(),
        raw: JsonV::Obj(provider_entries(p)),
        haystack: provider_haystack(p),
        ..p
    }
}

/// The conditions under which a provider reads back as written: a timeout that a write and
/// a read keep, and models with distinct ids that each read back as written.
pub open spec fn provider_writes_back(p: ProviderV) -> bool {
    &&& number_text_kept(p.timeout)
    &&& ids_distinct(p.models)
    &&& forall|i: int| 0 <= i < p.models.len() ==> model_writes_back(#[trigger] p.models[i])
}

/// Writing a provider to its object and reading it back gives the same fields and models,
/// when it writes back.
pub proof fn law_provider_write_read(p: ProviderV)
    requires
        provider_writes_back(p),
    ensures
        provider_from(p.key, JsonV::Obj(provider_entries(p))) == provider_written(p),
{
    lemma_provider_keys_differ();
    let e0 = entries_of(p.raw);
    let e1 = set_str_spec(e0, "description"@, p.description);
    let e2 = set_str_spec(e1, "npm"@, p.npm);
    law_set_str_get(e0, "description"@, p.description);
    law_set_str_get(e1, "npm"@, p.npm);
    let o0 = object_or_empty(obj_get(e2, "options"@));
    assert(obj_get(e2, "options"@) == obj_get(e0, "options"@));
    let o1 = set_str_spec(o0, "baseURL"@, p.base_url);
    let o2 = set_str_spec(o1, "apiKey"@, p.api_key);
    let o3 = set_num_spec(o2, "timeout"@, p.timeout);
    law_set_str_get(o0, "baseURL"@, p.base_url);
    law_set_str_get(o1, "apiKey"@, p.api_key);
    law_set_num_get(o2, "timeout"@, p.timeout);
    let e3 = obj_insert(e2, "options"@, JsonV::Obj(o3));
    let me = models_entries(p.models);
    let e4 = obj_insert(e3, "models"@, JsonV::Obj(me));
    lemma_insert_get(e2, "options"@, JsonV::Obj(o3));
    lemma_insert_get(e3, "models"@, JsonV::Obj(me));
    assert(e4 == provider_entries(p));
    let v = JsonV::Obj(e4);
    lemma_path_two(v, "options"@, "baseURL"@);
    lemma_path_two(v, "options"@, "apiKey"@);
    lemma_path_two(v, "options"@, "timeout"@);
    lemma_number_text_kept(p.timeout);
    assert(obj_get(e4, "options"@) == Some(JsonV::Obj(o3)));
    assert(str_field(v, "description"@) == p.description);
    assert(str_field(v, "npm"@) == p.npm);
    assert(nested_str_spec(v, seq!["options"@, "baseURL"@]) == p.base_url);
    assert(nested_str_spec(v, seq!["options"@, "apiKey"@]) == p.api_key);
    assert(nested_num_spec(v, seq!["options"@, "timeout"@]) == p.timeout);
    lemma_models_entries(p.models);
    assert(object_or_empty(field(v, "models"@)) == me);
    assert forall|i: int| 0 <= i < p.models.len() implies models_from(me)[i] == model_written(
        p.models[i],
    ) by {
        law_model_write_read(p.models[i]);
    }
    assert(models_from(me) =~= p.models.map_values(|m: ModelV| model_written(m)));
}

proof fn lemma_provider_map(providers: Seq<ProviderV>)
    requires
        keys_usable(providers.map_values(|p: ProviderV| p.key)),
    ensures
        provider_map(providers) == providers.map_values(
            |p: ProviderV| (p.key, JsonV::Obj(provider_entries(p))),
        ),
    decreases providers.len(),
{
    if providers.len() > 0 {
        let init = providers.drop_last();
        let keys = providers.map_values(|p: ProviderV| p.key);
        assert(init.map_values(|p: ProviderV| p.key) =~= keys.drop_last());
        lemma_provider_map(init);
        let m = provider_map(init);
        let p = providers.last();
        assert(keys[providers.len() - 1] == p.key);
        lemma_find_key(m, p.key);
        assert forall|j: int| 0 <= j < m.len() implies m[j].0 != p.key by {
            assert(m[j].0 == init[j].key);
            assert(keys[j] == init[j].key);
        }
        assert(provider_map(providers) =~= providers.map_values(
            |p: ProviderV| (p.key, JsonV::Obj(provider_entries(p))),
        ));
    }
}

/// Saving the rows and loading the saved document gives the providers back, each as
/// written, when their keys are non-empty and distinct and each provider writes back.
pub proof fn law_save_load_providers(root: Entries, agents: Seq<AgentV>, providers: Seq<ProviderV>)
    requires
        keys_usable(providers.map_values(|p: ProviderV| p.key)),
        forall|i: int| 0 <= i < providers.len() ==> provider_writes_back(#[trigger] providers[i]),
    ensures
        providers_of(saved_document(JsonV::Obj(root), agents, providers)) == providers.map_values(
            |p: ProviderV| provider_written(p),
        ),
{
    let a_map = JsonV::Obj(agent_map(agents));
    let p_map = JsonV::Obj(provider_map(providers));
    let r1 = obj_insert(root, "agent"@, a_map);
    law_get_after_insert(r1, "provider"@, p_map, "provider"@);
    lemma_provider_map(providers);
    let doc = saved_document(JsonV::Obj(root), agents, providers);
    assert(field(doc, "provider"@) == Some(p_map));
    assert forall|i: int| 0 <= i < providers.len() implies providers_of(doc)[i] == provider_written(
        providers[i],
    ) by {
        law_provider_write_read(providers[i]);
    }
    assert(providers_of(doc) =~= providers.map_values(|p: ProviderV| provider_written(p)));
}

/// A non-empty array of strings, each a clean list item.
pub open spec fn clean_list(v: Option<JsonV>) -> bool {
    match v {
        Some(JsonV::Arr(xs)) => xs.len() > 0 && forall|i: int|
            0 <= i < xs.len() ==> (#[trigger] xs[i] matches JsonV::Str(s) && clean_item(s)),
        _ => false,
    }
}

proof fn lemma_clean_array(xs: Seq<JsonV>)
    requires
        forall|i: int| 0 <= i < xs.len() ==> (#[trigger] xs[i] matches JsonV::Str(s) && clean_item(s)),
    ensures
        str_array(string_items(xs)) == xs,
        string_items(xs).len() == xs.len(),
        forall|i: int| 0 <= i < xs.len() ==> clean_item(#[trigger] string_items(xs)[i]),
    decreases xs.len(),
{
    if xs.len() > 0 {
        let init = xs.drop_last();
        assert forall|i: int| 0 <= i < init.len() implies (#[trigger] init[i] matches JsonV::Str(
            s,
        ) && clean_item(s)) by {
            assert(init[i] == xs[i]);
        }
        lemma_clean_array(init);
        assert(xs[xs.len() - 1] == xs.last());
        let ss = string_items(xs);
        assert(ss == string_items(init).push(xs.last()->Str_0));
        assert forall|i: int| 0 <= i < xs.len() implies clean_item(#[trigger] ss[i]) by {
            if i < xs.len() - 1 {
                assert(ss[i] == string_items(init)[i]);
            }
        }
        assert(str_array(ss) =~= xs) by {
            assert forall|i: int| 0 <= i < xs.len() implies str_array(ss)[i] == xs[i] by {
                if i < xs.len() - 1 {
                    assert(ss[i] == string_items(init)[i]);
                    assert(str_array(string_items(init))[i] == init[i]);
                }
            }
        }
    }
}

/// The modalities of a model object survive a read and a write: absent, or an object whose
/// `input` and `output` are clean lists.
pub open spec fn modalities_read_kept(m: Entries) -> bool {
    match obj_get(m, "modalities"@) {
        None => true,
        Some(JsonV::Obj(o)) => clean_list(obj_get(o, "input"@)) && clean_list(obj_get(o, "output"@)),
        _ => false,
    }
}

/// The conditions under which reading a model object and writing it back gives the same
/// object: a name absent or not only white space, both flags present, a `limit` object
/// whose numbers read back, and modalities that survive.
pub open spec fn model_reads_back(m: Entries) -> bool {
    &&& match obj_get(m, "name"@) {
        None => true,
        Some(JsonV::Str(s)) => trim(s).len() > 0,
        _ => false,
    }
    &&& obj_get(m, "reasoning"@) matches Some(JsonV::Bool(_))
    &&& obj_get(m, "tool_call"@) matches Some(JsonV::Bool(_))
    &&& match obj_get(m, "limit"@) {
        Some(JsonV::Obj(l)) => number_field_kept(l, "context"@) && number_field_kept(l, "output"@),
        _ => false,
    }
    &&& modalities_read_kept(m)
    &&& variants_read_kept(m)
}

/// The variants of a model object survive a read and a write: absent, or a non-empty
/// object with distinct keys, each a clean list item.
pub open spec fn variants_read_kept(m: Entries) -> bool {
    match obj_get(m, "variants"@) {
        None => true,
        Some(JsonV::Obj(vm)) => vm.len() > 0 && keys_distinct(vm) && forall|i: int|
            0 <= i < vm.len() ==> clean_item(#[trigger] vm[i].0),
        _ => false,
    }
}

/// Reading a model from an object and writing it back gives the same object, when the
/// object reads back.
pub proof fn law_model_read_write(id: Seq<char>, m: Entries)
    requires
        model_reads_back(m),
    ensures
        model_entries(model_from(id, JsonV::Obj(m))) == m,
{
    lemma_model_base_read_write(id, m);
    let mv = model_from(id, JsonV::Obj(m));
    lemma_list_items_empty();
    match obj_get(m, "variants"@) {
        None => {
            law_remove_absent_unchanged(m, "variants"@);
        },
        Some(x) => {
            let vm = x->Obj_0;
            let keys = entry_keys(vm);
            assert forall|i: int| 0 <= i < keys.len() implies clean_item(#[trigger] keys[i]) by {
                assert(keys[i] == vm[i].0);
            }
            assert(list_sep() == seq![',', ' ']);
            law_list_items_of_join(keys);
            assert(list_items(mv.variants) == keys);
            assert forall|i: int| 0 <= i < vm.len() implies obj_get(vm, #[trigger] vm[i].0) == Some(
                vm[i].1,
            ) by {
                lemma_get_at(vm, vm[i].0, i);
            }
            lemma_variants_object_same(vm, vm);
            law_insert_same_unchanged(m, "variants"@, x);
        },
    }
}

proof fn lemma_model_base_read_write(id: Seq<char>, m: Entries)
    requires
        model_reads_back(m),
    ensures
        model_base_entries(model_from(id, JsonV::Obj(m))) == m,
{
    lemma_model_keys_differ();
    let v = JsonV::Obj(m);
    let mv = model_from(id, v);
    match obj_get(m, "name"@) {
        None => {
            assert(trim(Seq::<char>::empty()) =~= Seq::<char>::empty());
            law_remove_absent_unchanged(m, "name"@);
        },
        Some(x) => {
            let s = x->Str_0;
            assert(s.len() > 0) by {
                if s.len() == 0 {
                    assert(trim(s) =~= s);
                }
            }
            law_insert_same_unchanged(m, "name"@, x);
        },
    }
    law_insert_same_unchanged(m, "reasoning"@, JsonV::Bool(mv.reasoning));
    law_insert_same_unchanged(m, "tool_call"@, JsonV::Bool(mv.tool_call));
    let l = obj_get(m, "limit"@)->0->Obj_0;
    lemma_path_two(v, "limit"@, "context"@);
    lemma_path_two(v, "limit"@, "output"@);
    assert(mv.context == num_field(JsonV::Obj(l), "context"@));
    assert(mv.output == num_field(JsonV::Obj(l), "output"@));
    lemma_set_num_kept(l, "context"@);
    lemma_set_num_kept(l, "output"@);
    law_insert_same_unchanged(m, "limit"@, JsonV::Obj(l));
    lemma_path_two(v, "modalities"@, "input"@);
    lemma_path_two(v, "modalities"@, "output"@);
    lemma_list_items_empty();
    match obj_get(m, "modalities"@) {
        None => {
            law_remove_absent_unchanged(m, "modalities"@);
        },
        Some(x) => {
            let o = x->Obj_0;
            let xs = obj_get(o, "input"@)->0->Arr_0;
            let ys = obj_get(o, "output"@)->0->Arr_0;
            lemma_clean_array(xs);
            lemma_clean_array(ys);
            assert(list_sep() == seq![',', ' ']);
            law_list_items_of_join(string_items(xs));
            law_list_items_of_join(string_items(ys));
            assert(list_items(mv.modalities_input) == string_items(xs));
            assert(list_items(mv.modalities_output) == string_items(ys));
            law_insert_same_unchanged(o, "input"@, JsonV::Arr(xs));
            law_insert_same_unchanged(o, "output"@, JsonV::Arr(ys));
            law_insert_same_unchanged(m, "modalities"@, x);
        },
    }
}

/// The conditions under which reading a provider object and writing it back gives the same
/// object: description and npm absent or non-empty strings, an `options` object whose
/// fields survive, and a `models` object with distinct keys whose values are model objects
/// that read back.
pub open spec fn provider_reads_back(m: Entries) -> bool {
    &&& text_field_kept(m, "description"@)
    &&& text_field_kept(m, "npm"@)
    &&& match obj_get(m, "options"@) {
        Some(JsonV::Obj(o)) => text_field_kept(o, "baseURL"@) && text_field_kept(o, "apiKey"@)
            && number_field_kept(o, "timeout"@),
        _ => false,
    }
    &&& match obj_get(m, "models"@) {
        Some(JsonV::Obj(mm)) => keys_distinct(mm) && forall|i: int|
            0 <= i < mm.len() ==> (#[trigger] mm[i].1 matches JsonV::Obj(x) && model_reads_back(x)),
        _ => false,
    }
}

/// Reading a provider from an object and writing it back gives the same object, when the
/// object reads back.
pub proof fn law_provider_read_write(key: Seq<char>, m: Entries)
    requires
        provider_reads_back(m),
    ensures
        provider_entries(provider_from(key, JsonV::Obj(m))) == m,
{
    lemma_provider_keys_differ();
    let v = JsonV::Obj(m);
    let p = provider_from(key, v);
    lemma_set_str_kept(m, "description"@);
    lemma_set_str_kept(m, "npm"@);
    let o = obj_get(m, "options"@)->0->Obj_0;
    lemma_path_two(v, "options"@, "baseURL"@);
    lemma_path_two(v, "options"@, "apiKey"@);
    lemma_path_two(v, "options"@, "timeout"@);
    assert(p.base_url == str_field(JsonV::Obj(o), "baseURL"@));
    assert(p.api_key == str_field(JsonV::Obj(o), "apiKey"@));
    assert(p.timeout == num_field(JsonV::Obj(o), "timeout"@));
    lemma_set_str_kept(o, "baseURL"@);
    lemma_set_str_kept(o, "apiKey"@);
    lemma_set_num_kept(o, "timeout"@);
    law_insert_same_unchanged(m, "options"@, JsonV::Obj(o));
    let mm = obj_get(m, "models"@)->0->Obj_0;
    let ms = models_from(mm);
    assert(p.models == ms);
    assert forall|i: int, j: int| 0 <= i < j < ms.len() implies #[trigger] ms[i].id != #[trigger] ms[j].id by {
        assert(ms[i].id == mm[i].0 && ms[j].id == mm[j].0);
    }
    lemma_models_entries(ms);
    assert forall|i: int| 0 <= i < mm.len() implies (ms[i].id, JsonV::Obj(model_entries(ms[i])))
        == mm[i] by {
        let x = mm[i].1->Obj_0;
        law_model_read_write(mm[i].0, x);
    }
    assert(models_entries(ms) =~= mm);
    law_insert_same_unchanged(m, "models"@, JsonV::Obj(mm));
}

/// The conditions under which loading a document and saving it with no edit gives it
/// back: `agent` and `provider` objects with non-empty, distinct keys, whose values are
/// agent and provider objects that read back.
pub open spec fn document_reads_back(root: Entries) -> bool {
    &&& match obj_get(root, "agent"@) {
        Some(JsonV::Obj(am)) => keys_usable(am.map_values(|e: (Seq<char>, JsonV)| e.0))
            && forall|i: int|
            0 <= i < am.len() ==> (#[trigger] am[i].1 matches JsonV::Obj(x) && agent_reads_back(x)),
        _ => false,
    }
    &&& match obj_get(root, "provider"@) {
        Some(JsonV::Obj(pm)) => keys_usable(pm.map_values(|e: (Seq<char>, JsonV)| e.0))
            && forall|i: int|
            0 <= i < pm.len() ==> (#[trigger] pm[i].1 matches JsonV::Obj(x) && provider_reads_back(x)),
        _ => false,
    }
}

/// Loading a document and saving it with no edit gives the same document, when it reads back.
pub proof fn law_load_save(root: Entries)
    requires
        document_reads_back(root),
    ensures
        saved_document(
            JsonV::Obj(root),
            agents_of(JsonV::Obj(root)),
            providers_of(JsonV::Obj(root)),
        ) == JsonV::Obj(root),
{
    let v = JsonV::Obj(root);
    let am = obj_get(root, "agent"@)->0->Obj_0;
    let pm = obj_get(root, "provider"@)->0->Obj_0;
    let agents = agents_of(v);
    let providers = providers_of(v);
    assert(agents.map_values(|a: AgentV| a.key) =~= am.map_values(|e: (Seq<char>, JsonV)| e.0));
    assert(providers.map_values(|p: ProviderV| p.key) =~= pm.map_values(
        |e: (Seq<char>, JsonV)| e.0,
    ));
    lemma_agent_map(agents);
    lemma_provider_map(providers);
    assert forall|i: int| 0 <= i < am.len() implies (agents[i].key, JsonV::Obj(
        agent_entries(agents[i]),
    )) == am[i] by {
        law_agent_read_write(am[i].0, am[i].1->Obj_0);
    }
    assert forall|i: int| 0 <= i < pm.len() implies (providers[i].key, JsonV::Obj(
        provider_entries(providers[i]),
    )) == pm[i] by {
        law_provider_read_write(pm[i].0, pm[i].1->Obj_0);
    }
    assert(agent_map(agents) =~= am);
    assert(provider_map(providers) =~= pm);
    law_insert_same_unchanged(root, "agent"@, JsonV::Obj(am));
    law_insert_same_unchanged(root, "provider"@, JsonV::Obj(pm));
}

/// Saving the same rows twice writes the same document as saving them once.
pub proof fn law_save_twice(root: JsonV, agents: Seq<AgentV>, providers: Seq<ProviderV>)
    ensures
        saved_document(saved_document(root, agents, providers), agents, providers)
            == saved_document(root, agents, providers),
{
    if let JsonV::Obj(m) = root {
        reveal_strlit("agent");
        reveal_strlit("provider");
        assert("agent"@.len() == 5 && "provider"@.len() == 8);
        let a_map = JsonV::Obj(agent_map(agents));
        let p_map = JsonV::Obj(provider_map(providers));
        let m1 = obj_insert(m, "agent"@, a_map);
        let m2 = obj_insert(m1, "provider"@, p_map);
        law_get_after_insert(m, "agent"@, a_map, "agent"@);
        law_get_after_insert(m1, "provider"@, p_map, "agent"@);
        law_get_after_insert(m1, "provider"@, p_map, "provider"@);
        law_insert_same_unchanged(m2, "agent"@, a_map);
        law_insert_same_unchanged(m2, "provider"@, p_map);
    }
}

/// The value is an array holding exactly the strings `items`, in order.
pub open spec fn holds_strings(v: Option<JsonV>, items: Seq<Seq<char>>) -> bool {
    match v {
        Some(JsonV::Arr(xs)) => xs.len() == items.len() && forall|i: int|
            0 <= i < xs.len() ==> #[trigger] xs[i] == JsonV::Str(items[i]),
        _ => false,
    }
}

/// A model writes its modalities only when both lists have items: then `modalities` holds
/// an `input` and an `output` array of the listed items; when either list is empty the
/// written object has no `modalities`.
pub proof fn law_model_modalities(m: ModelV)
    ensures
        ({
            let ins = list_items(m.modalities_input);
            let outs = list_items(m.modalities_output);
            let got = obj_get(model_entries(m), "modalities"@);
            &&& (ins.len() == 0 || outs.len() == 0) ==> got is None
            &&& (ins.len() > 0 && outs.len() > 0) ==> match got {
                Some(JsonV::Obj(o)) => holds_strings(obj_get(o, "input"@), ins) && holds_strings(
                    obj_get(o, "output"@),
                    outs,
                ),
                _ => false,
            }
        }),
{
    lemma_model_keys_differ();
    let e5 = model_base_entries(m);
    let e6 = model_entries(m);
    let names = list_items(m.variants);
    if names.len() > 0 {
        let vo = variants_object(object_or_empty(obj_get(e5, "variants"@)), names);
        lemma_insert_get(e5, "variants"@, JsonV::Obj(vo));
    } else {
        lemma_remove_get(e5, "variants"@);
    }
    assert(obj_get(e6, "modalities"@) == obj_get(e5, "modalities"@));
    let e0 = entries_of(m.raw);
    let e1 = if trim(m.name).len() == 0 {
        obj_remove(e0, "name"@)
    } else {
        set_str_spec(e0, "name"@, m.name)
    };
    let e2 = obj_insert(e1, "reasoning"@, JsonV::Bool(m.reasoning));
    let e3 = obj_insert(e2, "tool_call"@, JsonV::Bool(m.tool_call));
    let l0 = object_or_empty(obj_get(e3, "limit"@));
    let l1 = set_num_spec(l0, "context"@, m.context);
    let l2 = set_num_spec(l1, "output"@, m.output);
    let e4 = obj_insert(e3, "limit"@, JsonV::Obj(l2));
    let ins = list_items(m.modalities_input);
    let outs = list_items(m.modalities_output);
    if ins.len() > 0 && outs.len() > 0 {
        let o0 = object_or_empty(obj_get(e4, "modalities"@));
        let o1 = obj_insert(o0, "input"@, JsonV::Arr(str_array(ins)));
        let o2 = obj_insert(o1, "output"@, JsonV::Arr(str_array(outs)));
        lemma_insert_get(o0, "input"@, JsonV::Arr(str_array(ins)));
        lemma_insert_get(o1, "output"@, JsonV::Arr(str_array(outs)));
        lemma_insert_get(e4, "modalities"@, JsonV::Obj(o2));
        assert(e5 == obj_insert(e4, "modalities"@, JsonV::Obj(o2)));
        assert(obj_get(o2, "input"@) == Some(JsonV::Arr(str_array(ins))));
        assert(obj_get(o2, "output"@) == Some(JsonV::Arr(str_array(outs))));
    } else {
        lemma_remove_get(e4, "modalities"@);
        assert(e5 == obj_remove(e4, "modalities"@));
    }
}

} // verus!
