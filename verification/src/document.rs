use vstd::prelude::*;
use crate::json::{
    entries_view, field, lemma_entries_view, obj_insert, object_or_empty, value_view, Entries,
    JsonMap, JsonV, JsonValue,
};
use crate::model::{
    agent_entries, agent_from, provider_entries, provider_from, AgentRow, AgentV, ProviderRow,
    ProviderV,
};

verus! {

/// The models of a list of agent rows.
pub open spec fn agents_view(s: Seq<AgentRow>) -> Seq<AgentV> {
    s.map_values(|a: AgentRow| a@)
}

/// The models of a list of provider rows.
pub open spec fn providers_view(s: Seq<ProviderRow>) -> Seq<ProviderV> {
    s.map_values(|p: ProviderRow| p@)
}

/// The agents of a configuration document: the entries of its `agent` object, in order.
pub open spec fn agents_of(root: JsonV) -> Seq<AgentV> {
    object_or_empty(field(root, "agent"@)).map_values(
        |e: (Seq<char>, JsonV)| agent_from(e.0, e.1),
    )
}

/// The providers of a configuration document: the entries of its `provider` object, in order.
pub open spec fn providers_of(root: JsonV) -> Seq<ProviderV> {
    object_or_empty(field(root, "provider"@)).map_values(
        |e: (Seq<char>, JsonV)| provider_from(e.0, e.1),
    )
}

/// The document that a parse gave, or an empty object when it failed.
pub open spec fn document_or_empty(parsed: Option<JsonV>) -> JsonV {
    match parsed {
        Some(v) => v,
        None => JsonV::Obj(Seq::empty()),
    }
}

/// The `agent` object a save writes: each agent with a non-empty key under that key.
pub open spec fn agent_map(agents: Seq<AgentV>) -> Entries
    decreases agents.len(),
{
    if agents.len() == 0 {
        Seq::empty()
    } else {
        let m = agent_map(agents.drop_last());
        let a = agents.last();
        if a.key.len() > 0 {
            obj_insert(m, a.key, JsonV::Obj(agent_entries(a)))
        } else {
            m
        }
    }
}

/// The `provider` object a save writes: each provider with a non-empty key under that key.
pub open spec fn provider_map(providers: Seq<ProviderV>) -> Entries
    decreases providers.len(),
{
    if providers.len() == 0 {
        Seq::empty()
    } else {
        let m = provider_map(providers.drop_last());
        let p = providers.last();
        if p.key.len() > 0 {
            obj_insert(m, p.key, JsonV::Obj(provider_entries(p)))
        } else {
            m
        }
    }
}

/// The document a save writes: when it is an object, its `agent` and `provider`
/// objects replaced by those of the rows; any other document unchanged.
pub open spec fn saved_document(root: JsonV, agents: Seq<AgentV>, providers: Seq<ProviderV>) -> JsonV {
    match root {
        JsonV::Obj(m) => JsonV::Obj(
            obj_insert(
                obj_insert(m, "agent"@, JsonV::Obj(agent_map(agents))),
                "provider"@,
                JsonV::Obj(provider_map(providers)),
            ),
        ),
        _ => root,
    }
}

/// The agent rows of a configuration document.
pub fn agents_in(root: &JsonValue) -> (r: Vec<AgentRow>)
    ensures
        agents_view(r@) == agents_of(root@),
{
    let mut out: Vec<AgentRow> = Vec::new();
    match root.get("agent") {
        Some(JsonValue::Object(m)) => {
            let n = m.entries.len();
            proof {
                lemma_entries_view(m.entries@);
            }
            let mut i: usize = 0;
            while i < n
                invariant
                    n == m.entries.len(),
                    i <= n,
                    m@ == entries_view(m.entries@),
                    m@.len() == n,
                    forall|j: int|
                        0 <= j < n ==> #[trigger] m@[j] == (
                            m.entries@[j].0@,
                            value_view(m.entries@[j].1),
                        ),
                    out@.len() == i,
                    agents_view(out@) == m@.take(i as int).map_values(
                        |e: (Seq<char>, JsonV)| agent_from(e.0, e.1),
                    ),
                decreases n - i,
            {
                let row = AgentRow::from(m.entries[i].0.as_str(), &m.entries[i].1);
                let ghost before = out@;
                out.push(row);
                proof {
                    let want = m@.take(i + 1).map_values(
                        |e: (Seq<char>, JsonV)| agent_from(e.0, e.1),
                    );
                    assert(m@.take(i + 1)[i as int] == m@[i as int]);
                    assert(m@[i as int] == (m.entries@[i as int].0@, value_view(m.entries@[i as int].1)));
                    assert forall|j: int| 0 <= j < i + 1 implies agents_view(out@)[j] == want[j] by {
                        if j < i {
                            assert(out@[j] == before[j]);
                            assert(agents_view(before)[j] == m@.take(i as int).map_values(
                                |e: (Seq<char>, JsonV)| agent_from(e.0, e.1),
                            )[j]);
                            assert(m@.take(i as int)[j] == m@.take(i + 1)[j]);
                        }
                    }
                    assert(agents_view(out@) =~= want);
                }
                i = i + 1;
            }
            proof {
                assert(m@.take(n as int) =~= m@);
            }
        },
        _ => {
            assert(agents_view(out@) =~= agents_of(root@));
        },
    }
    out
}

/// The provider rows of a configuration document.
pub fn providers_in(root: &JsonValue) -> (r: Vec<ProviderRow>)
    ensures
        providers_view(r@) == providers_of(root@),
{
    let mut out: Vec<ProviderRow> = Vec::new();
    match root.get("provider") {
        Some(JsonValue::Object(m)) => {
            let n = m.entries.len();
            proof {
                lemma_entries_view(m.entries@);
            }
            let mut i: usize = 0;
            while i < n
                invariant
                    n == m.entries.len(),
                    i <= n,
                    m@ == entries_view(m.entries@),
                    m@.len() == n,
                    forall|j: int|
                        0 <= j < n ==> #[trigger] m@[j] == (
                            m.entries@[j].0@,
                            value_view(m.entries@[j].1),
                        ),
                    out@.len() == i,
                    providers_view(out@) == m@.take(i as int).map_values(
                        |e: (Seq<char>, JsonV)| provider_from(e.0, e.1),
                    ),
                decreases n - i,
            {
                let row = ProviderRow::from(m.entries[i].0.as_str(), &m.entries[i].1);
                let ghost before = out@;
                out.push(row);
                proof {
                    let want = m@.take(i + 1).map_values(
                        |e: (Seq<char>, JsonV)| provider_from(e.0, e.1),
                    );
                    assert(m@.take(i + 1)[i as int] == m@[i as int]);
                    assert(m@[i as int] == (m.entries@[i as int].0@, value_view(m.entries@[i as int].1)));
                    assert forall|j: int| 0 <= j < i + 1 implies providers_view(out@)[j] == want[j] by {
                        if j < i {
                            assert(out@[j] == before[j]);
                            assert(providers_view(before)[j] == m@.take(i as int).map_values(
                                |e: (Seq<char>, JsonV)| provider_from(e.0, e.1),
                            )[j]);
                            assert(m@.take(i as int)[j] == m@.take(i + 1)[j]);
                        }
                    }
                    assert(providers_view(out@) =~= want);
                }
                i = i + 1;
            }
            proof {
                assert(m@.take(n as int) =~= m@);
            }
        },
        _ => {
            assert(providers_view(out@) =~= providers_of(root@));
        },
    }
    out
}

/// The document, agents and providers that the editor loads from a parse result:
/// a failed parse gives an empty document.
pub fn load_document(parsed: Option<JsonValue>) -> (r: (JsonValue, Vec<AgentRow>, Vec<ProviderRow>))
    ensures
        r.0@ == document_or_empty(match parsed {
            Some(v) => Some(v@),
            None => None,
        }),
        agents_view(r.1@) == agents_of(r.0@),
        providers_view(r.2@) == providers_of(r.0@),
{
    let root = match parsed {
        Some(v) => v,
        None => JsonValue::Object(JsonMap::new()),
    };
    let agents = agents_in(&root);
    let providers = providers_in(&root);
    (root, agents, providers)
}

/// The document with its `agent` and `provider` objects rebuilt from the rows,
/// when it is an object; rows with an empty key are left out.
pub fn save_document(root: JsonValue, agents: &Vec<AgentRow>, providers: &Vec<ProviderRow>) -> (r:
    JsonValue)
    ensures
        r@ == saved_document(root@, agents_view(agents@), providers_view(providers@)),
{
    match root {
        JsonValue::Object(mut o) => {
            let mut am = JsonMap::new();
            let n = agents.len();
            let mut i: usize = 0;
            while i < n
                invariant
                    n == agents.len(),
                    i <= n,
                    am@ == agent_map(agents_view(agents@.take(i as int))),
                decreases n - i,
            {
                let a = &agents[i];
                proof {
                    let av = agents_view(agents@.take(i + 1));
                    assert(av.drop_last() =~= agents_view(agents@.take(i as int)));
                    assert(av.last() == a@);
                }
                if !a.key.as_str().is_empty() {
                    am.insert(a.key.clone(), a.to_value());
                }
                i = i + 1;
            }
            proof {
                assert(agents@.take(n as int) =~= agents@);
            }
            o.insert(String::from_str("agent"), JsonValue::Object(am));
            let mut pm = JsonMap::new();
            let n = providers.len();
            let mut i: usize = 0;
            while i < n
                invariant
                    n == providers.len(),
                    i <= n,
                    pm@ == provider_map(providers_view(providers@.take(i as int))),
                decreases n - i,
            {
                let p = &providers[i];
                proof {
                    let pv = providers_view(providers@.take(i + 1));
                    assert(pv.drop_last() =~= providers_view(providers@.take(i as int)));
                    assert(pv.last() == p@);
                }
                if !p.key.as_str().is_empty() {
                    pm.insert(p.key.clone(), p.to_value());
                }
                i = i + 1;
            }
            proof {
                assert(providers@.take(n as int) =~= providers@);
            }
            o.insert(String::from_str("provider"), JsonValue::Object(pm));
            JsonValue::Object(o)
        },
        other => other,
    }
}

} // verus!
