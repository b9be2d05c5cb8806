use vstd::prelude::*;
use crate::document::{agents_view, providers_view};
use crate::json::{field, object_or_empty, JsonV};
use crate::model::{
    agent_haystack, agent_new, model_new, models_view, provider_from, provider_haystack, provider_new, AgentRow,
    AgentV, ModelRow, ModelV, ProviderRow, ProviderV,
};
use crate::text::{
    comma_items, contains_text, join, join_texts, list_items, lowercase, same_text, sorted_unique, strictly_sorted, text_contains, texts_view, to_lower, trim,
    trim_text,
};
use crate::ui::{move_item, moved};
use crate::util::list_sep;

verus! {

/// A row shows under the search filter `f` (already lowercase): `f` is empty or occurs in its search text.
pub open spec fn shown_by(hay: Seq<char>, f: Seq<char>) -> bool {
    f.len() == 0 || contains_text(hay, f)
}

/// The positions, in order, of the search texts that show under `f`.
pub open spec fn matching(hays: Seq<Seq<char>>, f: Seq<char>) -> Seq<usize>
    decreases hays.len(),
{
    if hays.len() == 0 {
        Seq::empty()
    } else {
        let r = matching(hays.drop_last(), f);
        if shown_by(hays.last(), f) {
            r.push((hays.len() - 1) as usize)
        } else {
            r
        }
    }
}

/// An empty search shows every row, in order.
pub proof fn law_empty_filter_shows_all(hays: Seq<Seq<char>>)
    ensures
        matching(hays, Seq::empty()) == Seq::new(hays.len(), |i: int| i as usize),
    decreases hays.len(),
{
    if hays.len() > 0 {
        law_empty_filter_shows_all(hays.drop_last());
        assert(matching(hays, Seq::empty()) =~= Seq::new(hays.len(), |i: int| i as usize));
    }
}

pub open spec fn agent_hays(s: Seq<AgentRow>) -> Seq<Seq<char>> {
    s.map_values(|a: AgentRow| a.haystack@)
}

pub open spec fn provider_hays(s: Seq<ProviderRow>) -> Seq<Seq<char>> {
    s.map_values(|p: ProviderRow| p.haystack@)
}

/// The matching positions are, in increasing order, exactly the positions of the search
/// texts that show under `f`.
pub proof fn law_matching(hays: Seq<Seq<char>>, f: Seq<char>)
    requires
        hays.len() <= usize::MAX,
    ensures
        forall|k: int|
            0 <= k < matching(hays, f).len() ==> (#[trigger] matching(hays, f)[k]) < hays.len()
                && shown_by(hays[matching(hays, f)[k] as int], f),
        forall|k: int, l: int|
            0 <= k < l < matching(hays, f).len() ==> #[trigger] matching(hays, f)[k]
                < #[trigger] matching(hays, f)[l],
        forall|i: int|
            0 <= i < hays.len() ==> (matching(hays, f).contains(i as usize) <==> shown_by(
                #[trigger] hays[i],
                f,
            )),
    decreases hays.len(),
{
    if hays.len() > 0 {
        let init = hays.drop_last();
        law_matching(init, f);
        let r = matching(init, f);
        let n = hays.len() - 1;
        assert forall|i: int| 0 <= i < n implies hays[i] == init[i] by {}
        let m = matching(hays, f);
        let last_shown = shown_by(hays[n], f);
        assert(hays.last() == hays[n]);
        if last_shown {
            assert(m == r.push(n as usize));
        } else {
            assert(m == r);
        }
        assert forall|k: int| 0 <= k < r.len() implies #[trigger] r[k] < n by {}
        assert forall|k: int, l: int| 0 <= k < l < m.len() implies #[trigger] m[k] < #[trigger] m[l] by {
            if l < r.len() {
                assert(m[k] == r[k] && m[l] == r[l]);
            } else {
                assert(m[k] == r[k]);
                assert(r[k] < n);
            }
        }
        assert forall|i: int| 0 <= i < hays.len() implies (m.contains(i as usize) <==> shown_by(
            #[trigger] hays[i],
            f,
        )) by {
            if m.contains(i as usize) {
                let q = choose|q: int| 0 <= q < m.len() && m[q] == i as usize;
                if q < r.len() {
                    assert(r[q] == m[q]);
                    assert(r[q] < n);
                    assert(r.contains(i as usize));
                    assert(shown_by(init[i], f));
                } else {
                    assert(m[q] == n as usize);
                }
            }
            if shown_by(hays[i], f) {
                if i < n {
                    assert(shown_by(init[i], f));
                    assert(r.contains(i as usize));
                    let q = choose|q: int| 0 <= q < r.len() && r[q] == i as usize;
                    assert(m[q] == r[q]);
                } else {
                    assert(m[r.len() as int] == n as usize);
                }
            }
        }
        assert forall|k: int| 0 <= k < m.len() implies (#[trigger] m[k]) < hays.len() && shown_by(
            hays[m[k] as int],
            f,
        ) by {
            if k < r.len() {
                assert(m[k] == r[k]);
                assert(shown_by(init[r[k] as int], f));
            }
        }
    }
}

/// Agent `i` is listed exactly when the lowercased filter is empty or occurs in its search
/// text, and the list is in increasing order.
pub proof fn law_agent_search(agents: Seq<AgentRow>, filter: Seq<char>)
    requires
        agents.len() <= usize::MAX,
    ensures
        forall|i: int|
            0 <= i < agents.len() ==> (matching(agent_hays(agents), lowercase(filter)).contains(
                i as usize,
            ) <==> shown_by((#[trigger] agents[i]).haystack@, lowercase(filter))),
        forall|k: int, l: int|
            0 <= k < l < matching(agent_hays(agents), lowercase(filter)).len() ==> #[trigger] matching(
                agent_hays(agents),
                lowercase(filter),
            )[k] < #[trigger] matching(agent_hays(agents), lowercase(filter))[l],
{
    law_matching(agent_hays(agents), lowercase(filter));
    assert forall|i: int| 0 <= i < agents.len() implies agent_hays(agents)[i] == (
    #[trigger] agents[i]).haystack@ by {}
}

/// Provider `i` is listed exactly when the lowercased filter is empty or occurs in its
/// search text, and the list is in increasing order.
pub proof fn law_provider_search(providers: Seq<ProviderRow>, filter: Seq<char>)
    requires
        providers.len() <= usize::MAX,
    ensures
        forall|i: int|
            0 <= i < providers.len() ==> (matching(provider_hays(providers), lowercase(filter)).contains(
                i as usize,
            ) <==> shown_by((#[trigger] providers[i]).haystack@, lowercase(filter))),
        forall|k: int, l: int|
            0 <= k < l < matching(provider_hays(providers), lowercase(filter)).len() ==> #[trigger] matching(
                provider_hays(providers),
                lowercase(filter),
            )[k] < #[trigger] matching(provider_hays(providers), lowercase(filter))[l],
{
    law_matching(provider_hays(providers), lowercase(filter));
    assert forall|i: int| 0 <= i < providers.len() implies provider_hays(providers)[i] == (
    #[trigger] providers[i]).haystack@ by {}
}

/// Positions of the search texts that show under the lowercase `f`.
fn matching_positions(hays: &Vec<&str>, f: &str) -> (r: Vec<usize>)
    ensures
        r@ == matching(hays@.map_values(|h: &str| h@), f@),
{
    let mut out: Vec<usize> = Vec::new();
    let n = hays.len();
    let mut i: usize = 0;
    while i < n
        invariant
            n == hays@.len(),
            i <= n,
            out@ == matching(hays@.take(i as int).map_values(|h: &str| h@), f@),
        decreases n - i,
    {
        proof {
            let hv = hays@.take(i + 1).map_values(|h: &str| h@);
            assert(hv.drop_last() =~= hays@.take(i as int).map_values(|h: &str| h@));
            assert(hv.last() == hays@[i as int]@);
        }
        if f.is_empty() || text_contains(hays[i], f) {
            out.push(i);
        }
        i = i + 1;
    }
    assert(hays@.take(n as int) =~= hays@);
    out
}

/// Positions of the agents that the search `filter` shows, compared in lowercase.
pub fn agent_matches(agents: &Vec<AgentRow>, filter: &str) -> (r: Vec<usize>)
    ensures
        r@ == matching(agent_hays(agents@), lowercase(filter@)),
{
    let f = to_lower(filter);
    let mut hays: Vec<&str> = Vec::new();
    let n = agents.len();
    let mut i: usize = 0;
    while i < n
        invariant
            n == agents.len(),
            i <= n,
            hays@.len() == i,
            forall|j: int| 0 <= j < i ==> #[trigger] hays@[j]@ == agents@[j].haystack@,
        decreases n - i,
    {
        hays.push(agents[i].haystack.as_str());
        i = i + 1;
    }
    assert(hays@.map_values(|h: &str| h@) =~= agent_hays(agents@));
    matching_positions(&hays, f.as_str())
}

/// Positions of the providers that the search `filter` shows, compared in lowercase.
pub fn provider_matches(providers: &Vec<ProviderRow>, filter: &str) -> (r: Vec<usize>)
    ensures
        r@ == matching(provider_hays(providers@), lowercase(filter@)),
{
    let f = to_lower(filter);
    let mut hays: Vec<&str> = Vec::new();
    let n = providers.len();
    let mut i: usize = 0;
    while i < n
        invariant
            n == providers.len(),
            i <= n,
            hays@.len() == i,
            forall|j: int| 0 <= j < i ==> #[trigger] hays@[j]@ == providers@[j].haystack@,
        decreases n - i,
    {
        hays.push(providers[i].haystack.as_str());
        i = i + 1;
    }
    assert(hays@.map_values(|h: &str| h@) =~= provider_hays(providers@));
    matching_positions(&hays, f.as_str())
}

/// Index of the first key equal to `k`, or -1.
pub open spec fn first_key(keys: Seq<Seq<char>>, k: Seq<char>) -> int
    decreases keys.len(),
{
    if keys.len() == 0 {
        -1
    } else {
        let r = first_key(keys.drop_last(), k);
        if r >= 0 {
            r
        } else if keys.last() == k {
            keys.len() - 1
        } else {
            -1
        }
    }
}

/// The first key equal to `k` is found: -1 when none is, else its position, no earlier key being `k`.
pub proof fn law_first_key(keys: Seq<Seq<char>>, k: Seq<char>)
    ensures
        -1 <= first_key(keys, k) < keys.len(),
        first_key(keys, k) == -1 <==> (forall|j: int| 0 <= j < keys.len() ==> keys[j] != k),
        first_key(keys, k) >= 0 ==> keys[first_key(keys, k)] == k && (forall|j: int|
            0 <= j < first_key(keys, k) ==> keys[j] != k),
    decreases keys.len(),
{
    if keys.len() > 0 {
        law_first_key(keys.drop_last(), k);
        assert(forall|j: int| 0 <= j < keys.len() - 1 ==> keys.drop_last()[j] == keys[j]);
    }
}

fn key_position(keys: &Vec<&str>, k: &str) -> (r: Option<usize>)
    ensures
        match r {
            Some(i) => i as int == first_key(keys@.map_values(|s: &str| s@), k@),
            None => first_key(keys@.map_values(|s: &str| s@), k@) == -1,
        },
{
    let ghost kv = keys@.map_values(|s: &str| s@);
    proof {
        law_first_key(kv, k@);
    }
    let n = keys.len();
    let mut i: usize = 0;
    while i < n
        invariant
            n == keys@.len(),
            kv == keys@.map_values(|s: &str| s@),
            i <= n,
            forall|j: int| 0 <= j < i ==> kv[j] != k@,
            -1 <= first_key(kv, k@) < kv.len(),
            first_key(kv, k@) == -1 <==> (forall|j: int| 0 <= j < kv.len() ==> kv[j] != k@),
            first_key(kv, k@) >= 0 ==> kv[first_key(kv, k@)] == k@ && (forall|j: int|
                0 <= j < first_key(kv, k@) ==> kv[j] != k@),
        decreases n - i,
    {
        if crate::text::same_text(keys[i], k) {
            assert(kv[i as int] == k@);
            return Some(i);
        }
        i = i + 1;
    }
    None
}

pub open spec fn agent_keys(s: Seq<AgentRow>) -> Seq<Seq<char>> {
    s.map_values(|a: AgentRow| a.key@)
}

pub open spec fn provider_keys(s: Seq<ProviderRow>) -> Seq<Seq<char>> {
    s.map_values(|p: ProviderRow| p.key@)
}

/// The rows after dropping the row keyed `src` onto the row keyed `dst`: the first row
/// with key `src` moves to the place of the first row with key `dst`; unchanged when either is missing.
pub open spec fn dropped_onto<T>(s: Seq<T>, keys: Seq<Seq<char>>, src: Seq<char>, dst: Seq<char>) -> Seq<T> {
    let a = first_key(keys, src);
    let b = first_key(keys, dst);
    if a >= 0 && b >= 0 {
        moved(s, a, b)
    } else {
        s
    }
}

/// Dropping the row keyed `src` onto the row keyed `dst`: when both keys are found, the
/// first row keyed `src` takes the place of the first row keyed `dst` and the rows between
/// shift by one toward the gap it left; else nothing changes.
pub proof fn law_dropped_onto<T>(s: Seq<T>, keys: Seq<Seq<char>>, src: Seq<char>, dst: Seq<char>)
    requires
        keys.len() == s.len(),
    ensures
        ({
            let a = first_key(keys, src);
            let b = first_key(keys, dst);
            let r = dropped_onto(s, keys, src, dst);
            &&& r.len() == s.len()
            &&& (a < 0 || b < 0) ==> r == s
            &&& (a >= 0 && b >= 0) ==> {
                &&& keys[a] == src && keys[b] == dst
                &&& r[b] == s[a]
                &&& a < b ==> forall|k: int| a <= k < b ==> #[trigger] r[k] == s[k + 1]
                &&& b < a ==> forall|k: int| b < k <= a ==> #[trigger] r[k] == s[k - 1]
                &&& forall|k: int|
                    0 <= k < s.len() && (k < a || k > b) && (k < b || k > a) ==> #[trigger] r[k]
                        == s[k]
            }
        }),
{
    law_first_key(keys, src);
    law_first_key(keys, dst);
    let a = first_key(keys, src);
    let b = first_key(keys, dst);
    if a >= 0 && b >= 0 {
        crate::ui::law_move_shifts(s, a, b);
    }
}

/// Moves the agent keyed `src` to the place of the agent keyed `dst`.
pub fn reorder_agents(agents: &mut Vec<AgentRow>, src: &str, dst: &str)
    ensures
        final(agents)@ == dropped_onto(old(agents)@, agent_keys(old(agents)@), src@, dst@),
{
    let mut keys: Vec<&str> = Vec::new();
    let n = agents.len();
    let mut i: usize = 0;
    while i < n
        invariant
            n == agents.len(),
            i <= n,
            keys@.len() == i,
            forall|j: int| 0 <= j < i ==> #[trigger] keys@[j]@ == agents@[j].key@,
        decreases n - i,
    {
        keys.push(agents[i].key.as_str());
        i = i + 1;
    }
    assert(keys@.map_values(|s: &str| s@) =~= agent_keys(agents@));
    let s = key_position(&keys, src);
    let d = key_position(&keys, dst);
    match (s, d) {
        (Some(s), Some(d)) => move_item(agents, s, d),
        _ => {},
    }
}

/// Moves the provider keyed `src` to the place of the provider keyed `dst`.
pub fn reorder_providers(providers: &mut Vec<ProviderRow>, src: &str, dst: &str)
    ensures
        final(providers)@ == dropped_onto(old(providers)@, provider_keys(old(providers)@), src@, dst@),
{
    let mut keys: Vec<&str> = Vec::new();
    let n = providers.len();
    let mut i: usize = 0;
    while i < n
        invariant
            n == providers.len(),
            i <= n,
            keys@.len() == i,
            forall|j: int| 0 <= j < i ==> #[trigger] keys@[j]@ == providers@[j].key@,
        decreases n - i,
    {
        keys.push(providers[i].key.as_str());
        i = i + 1;
    }
    assert(keys@.map_values(|s: &str| s@) =~= provider_keys(providers@));
    let s = key_position(&keys, src);
    let d = key_position(&keys, dst);
    match (s, d) {
        (Some(s), Some(d)) => move_item(providers, s, d),
        _ => {},
    }
}

} // verus!

verus! {

impl AgentRow {
    /// A copy of this agent whose key has "_copy" appended.
    pub fn duplicate(&self) -> (r: AgentRow)
        ensures
            r@ == (AgentV {
                key: self.key@ + "_copy"@,
                haystack: agent_haystack(AgentV { key: self.key@ + "_copy"@, ..self@ }),
                ..self@
            }),
    {
        let mut key = self.key.clone();
        key.append("_copy");
        let mut r = AgentRow {
            key,
            mode: self.mode.clone(),
            description: self.description.clone(),
            model: self.model.clone(),
            variant: self.variant.clone(),
            temperature: self.temperature.clone(),
            color: self.color.clone(),
            system: self.system.clone(),
            raw: self.raw.copy(),
            haystack: self.haystack.clone(),
        };
        r.refresh_haystack();
        r
    }
}

impl ModelRow {
    /// An exact copy of this model.
    pub fn duplicate(&self) -> (r: ModelRow)
        ensures
            r@ == self@,
    {
        ModelRow {
            id: self.id.clone(),
            name: self.name.clone(),
            reasoning: self.reasoning,
            tool_call: self.tool_call,
            context: self.context.clone(),
            output: self.output.clone(),
            modalities_input: self.modalities_input.clone(),
            modalities_output: self.modalities_output.clone(),
            variants: self.variants.clone(),
            raw: self.raw.copy(),
        }
    }
}

impl ProviderRow {
    /// A copy of this provider whose key has "_copy" appended.
    pub fn duplicate(&self) -> (r: ProviderRow)
        ensures
            r@ == (ProviderV {
                key: self.key@ + "_copy"@,
                haystack: provider_haystack(ProviderV { key: self.key@ + "_copy"@, ..self@ }),
                ..self@
            }),
    {
        let mut key = self.key.clone();
        key.append("_copy");
        let mut models: Vec<ModelRow> = Vec::new();
        let n = self.models.len();
        let mut i: usize = 0;
        while i < n
            invariant
                n == self.models.len(),
                i <= n,
                models@.len() == i,
                forall|j: int| 0 <= j < i ==> #[trigger] models@[j]@ == self.models@[j]@,
            decreases n - i,
        {
            models.push(self.models[i].duplicate());
            i = i + 1;
        }
        assert(models_view(models@) =~= models_view(self.models@));
        let mut r = ProviderRow {
            key,
            description: self.description.clone(),
            npm: self.npm.clone(),
            base_url: self.base_url.clone(),
            api_key: self.api_key.clone(),
            timeout: self.timeout.clone(),
            models,
            new_model: self.new_model.duplicate(),
            raw: self.raw.copy(),
            haystack: self.haystack.clone(),
        };
        r.refresh_haystack();
        r
    }
}

/// Appends a copy of the agent at `idx`, its key marked "_copy".
pub fn copy_agent(agents: &mut Vec<AgentRow>, idx: usize)
    requires
        idx < old(agents)@.len(),
    ensures
        final(agents)@.len() == old(agents)@.len() + 1,
        final(agents)@.drop_last() == old(agents)@,
        final(agents)@.last()@ == (AgentV {
            key: old(agents)@[idx as int].key@ + "_copy"@,
            haystack: agent_haystack(
                AgentV { key: old(agents)@[idx as int].key@ + "_copy"@, ..old(agents)@[idx as int]@ },
            ),
            ..old(agents)@[idx as int]@
        }),
{
    let a = agents[idx].duplicate();
    agents.push(a);
    assert(agents@.drop_last() =~= old(agents)@);
}

/// Appends a copy of the provider at `idx`, its key marked "_copy".
pub fn copy_provider(providers: &mut Vec<ProviderRow>, idx: usize)
    requires
        idx < old(providers)@.len(),
    ensures
        final(providers)@.len() == old(providers)@.len() + 1,
        final(providers)@.drop_last() == old(providers)@,
        final(providers)@.last()@ == (ProviderV {
            key: old(providers)@[idx as int].key@ + "_copy"@,
            haystack: provider_haystack(
                ProviderV {
                    key: old(providers)@[idx as int].key@ + "_copy"@,
                    ..old(providers)@[idx as int]@
                },
            ),
            ..old(providers)@[idx as int]@
        }),
{
    let p = providers[idx].duplicate();
    providers.push(p);
    assert(providers@.drop_last() =~= old(providers)@);
}

/// Adds the agent of the new-agent form when its key is not blank, with its search
/// text refreshed, and clears the form; does nothing otherwise.
pub fn add_new_agent(agents: &mut Vec<AgentRow>, form: &mut AgentRow) -> (added: bool)
    ensures
        added == (trim(old(form)@.key).len() > 0),
        added ==> agents_view(final(agents)@) == agents_view(old(agents)@).push(
            AgentV { haystack: agent_haystack(old(form)@), ..old(form)@ },
        ) && final(form)@ == agent_new(),
        !added ==> final(agents)@ == old(agents)@ && final(form)@ == old(form)@,
{
    let t = trim_text(form.key.as_str());
    if t.as_str().is_empty() {
        return false;
    }
    let mut na = AgentRow::new();
    std::mem::swap(&mut na, form);
    na.refresh_haystack();
    agents.push(na);
    assert(agents_view(agents@) =~= agents_view(old(agents)@).push(
        AgentV { haystack: agent_haystack(old(form)@), ..old(form)@ },
    ));
    true
}

/// Adds the provider of the new-provider form when its key is not blank, with its
/// search text refreshed, and clears the form; does nothing otherwise.
pub fn add_new_provider(providers: &mut Vec<ProviderRow>, form: &mut ProviderRow) -> (added: bool)
    ensures
        added == (trim(old(form)@.key).len() > 0),
        added ==> providers_view(final(providers)@) == providers_view(old(providers)@).push(
            ProviderV { haystack: provider_haystack(old(form)@), ..old(form)@ },
        ) && final(form)@ == provider_new(),
        !added ==> final(providers)@ == old(providers)@ && final(form)@ == old(form)@,
{
    let t = trim_text(form.key.as_str());
    if t.as_str().is_empty() {
        return false;
    }
    let mut np = ProviderRow::new();
    std::mem::swap(&mut np, form);
    np.refresh_haystack();
    providers.push(np);
    assert(providers_view(providers@) =~= providers_view(old(providers)@).push(
        ProviderV { haystack: provider_haystack(old(form)@), ..old(form)@ },
    ));
    true
}

/// Adds the provider's new-model form to its models when the id is not blank, and
/// clears the form; does nothing otherwise.
pub fn add_new_model(p: &mut ProviderRow) -> (added: bool)
    ensures
        added == (trim(old(p)@.new_model.id).len() > 0),
        added ==> final(p)@ == (ProviderV {
            models: old(p)@.models.push(old(p)@.new_model),
            new_model: model_new(),
            ..old(p)@
        }),
        !added ==> final(p)@ == old(p)@,
{
    let t = trim_text(p.new_model.id.as_str());
    if t.as_str().is_empty() {
        return false;
    }
    let mut nm = ModelRow::new();
    std::mem::swap(&mut nm, &mut p.new_model);
    p.models.push(nm);
    assert(models_view(p.models@) =~= old(p)@.models.push(old(p)@.new_model));
    true
}

} // verus!

verus! {

/// The model choices a provider offers: its key, a slash and the model's id, for each of its models.
pub open spec fn provider_choices(p: ProviderV) -> Seq<Seq<char>> {
    p.models.map_values(|m: ModelV| p.key + "/"@ + m.id)
}

/// The model choices of the providers, provider by provider.
pub open spec fn choices_of(ps: Seq<ProviderV>) -> Seq<Seq<char>>
    decreases ps.len(),
{
    if ps.len() == 0 {
        Seq::empty()
    } else {
        choices_of(ps.drop_last()) + provider_choices(ps.last())
    }
}

/// Every model an agent can be given: those of the providers, and the two free models
/// that opencode serves itself.
pub open spec fn model_choices(ps: Seq<ProviderV>) -> Seq<Seq<char>> {
    choices_of(ps) + seq!["opencode/mimo-v2.5-free"@, "opencode/deepseek-v4-flash-free"@]
}

proof fn lemma_choices_of(ps: Seq<ProviderV>)
    ensures
        forall|i: int, j: int|
            0 <= i < ps.len() && 0 <= j < ps[i].models.len() ==> choices_of(ps).contains(
                ps[i].key + "/"@ + #[trigger] ps[i].models[j].id,
            ),
        forall|t: Seq<char>|
            choices_of(ps).contains(t) ==> exists|i: int, j: int|
                0 <= i < ps.len() && 0 <= j < ps[i].models.len() && t == ps[i].key + "/"@
                    + #[trigger] ps[i].models[j].id,
    decreases ps.len(),
{
    if ps.len() > 0 {
        let init = ps.drop_last();
        lemma_choices_of(init);
        let p = ps.last();
        let a = choices_of(init);
        let b = provider_choices(p);
        let c = choices_of(ps);
        assert(c == a + b);
        assert forall|i: int, j: int|
            0 <= i < ps.len() && 0 <= j < ps[i].models.len() implies c.contains(
                ps[i].key + "/"@ + #[trigger] ps[i].models[j].id,
            ) by {
            if i < ps.len() - 1 {
                assert(init[i] == ps[i]);
                let w = ps[i].key + "/"@ + ps[i].models[j].id;
                assert(a.contains(w));
                let q = choose|q: int| 0 <= q < a.len() && a[q] == w;
                assert(c[q] == w);
            } else {
                assert(b[j] == ps[i].key + "/"@ + ps[i].models[j].id);
                assert(c[a.len() + j] == b[j]);
            }
        }
        assert forall|t: Seq<char>| c.contains(t) implies exists|i: int, j: int|
            0 <= i < ps.len() && 0 <= j < ps[i].models.len() && t == ps[i].key + "/"@
                + #[trigger] ps[i].models[j].id by {
            let q = choose|q: int| 0 <= q < c.len() && c[q] == t;
            if q < a.len() {
                assert(a[q] == t);
                assert(a.contains(t));
                let (i, j) = choose|i: int, j: int|
                    0 <= i < init.len() && 0 <= j < init[i].models.len() && t == init[i].key
                        + "/"@ + #[trigger] init[i].models[j].id;
                assert(init[i] == ps[i]);
                assert(t == ps[i].key + "/"@ + ps[i].models[j].id);
            } else {
                let j = q - a.len();
                assert(b[j] == t);
                assert(t == ps[ps.len() - 1].key + "/"@ + ps[ps.len() - 1].models[j].id);
            }
        }
    }
}

/// The model choices are exactly the provider key, a slash and a model's id, for every
/// model of every provider, and the two free opencode models.
pub proof fn law_model_choices(ps: Seq<ProviderV>)
    ensures
        forall|i: int, j: int|
            0 <= i < ps.len() && 0 <= j < ps[i].models.len() ==> model_choices(ps).contains(
                ps[i].key + "/"@ + #[trigger] ps[i].models[j].id,
            ),
        model_choices(ps).contains("opencode/mimo-v2.5-free"@),
        model_choices(ps).contains("opencode/deepseek-v4-flash-free"@),
        forall|t: Seq<char>|
            model_choices(ps).contains(t) ==> t == "opencode/mimo-v2.5-free"@ || t
                == "opencode/deepseek-v4-flash-free"@ || exists|i: int, j: int|
                0 <= i < ps.len() && 0 <= j < ps[i].models.len() && t == ps[i].key + "/"@
                    + #[trigger] ps[i].models[j].id,
{
    lemma_choices_of(ps);
    let a = choices_of(ps);
    let f = seq!["opencode/mimo-v2.5-free"@, "opencode/deepseek-v4-flash-free"@];
    let c = model_choices(ps);
    assert(c == a + f);
    assert(c[a.len() as int] == "opencode/mimo-v2.5-free"@);
    assert(c[a.len() as int + 1] == "opencode/deepseek-v4-flash-free"@);
    assert forall|i: int, j: int|
        0 <= i < ps.len() && 0 <= j < ps[i].models.len() implies c.contains(
            ps[i].key + "/"@ + #[trigger] ps[i].models[j].id,
        ) by {
        let w = ps[i].key + "/"@ + ps[i].models[j].id;
        assert(a.contains(w));
        let q = choose|q: int| 0 <= q < a.len() && a[q] == w;
        assert(c[q] == w);
    }
    assert forall|t: Seq<char>| c.contains(t) implies t == "opencode/mimo-v2.5-free"@ || t
        == "opencode/deepseek-v4-flash-free"@ || exists|i: int, j: int|
        0 <= i < ps.len() && 0 <= j < ps[i].models.len() && t == ps[i].key + "/"@
            + #[trigger] ps[i].models[j].id by {
        let q = choose|q: int| 0 <= q < c.len() && c[q] == t;
        if q < a.len() {
            assert(a[q] == t);
            assert(a.contains(t));
        }
    }
}

/// The models of a provider read from an object have the keys of its `models` object as
/// their ids, in order.
pub proof fn law_provider_model_ids(key: Seq<char>, v: JsonV)
    ensures
        provider_from(key, v).models.len() == object_or_empty(field(v, "models"@)).len(),
        forall|j: int|
            0 <= j < provider_from(key, v).models.len() ==> #[trigger] provider_from(
                key,
                v,
            ).models[j].id == object_or_empty(field(v, "models"@))[j].0,
{
}

/// The choices offered for an agent's model: every model choice once, in the order of std's `String`.
pub fn model_options(providers: &Vec<ProviderRow>) -> (r: Vec<String>)
    ensures
        strictly_sorted(texts_view(r@)),
        forall|t: Seq<char>|
            texts_view(r@).contains(t) <==> model_choices(providers_view(providers@)).contains(t),
{
    let ghost pv = providers_view(providers@);
    let mut cands: Vec<String> = Vec::new();
    let n = providers.len();
    let mut i: usize = 0;
    while i < n
        invariant
            n == providers.len(),
            pv == providers_view(providers@),
            i <= n,
            texts_view(cands@) == choices_of(pv.take(i as int)),
        decreases n - i,
    {
        let p = &providers[i];
        let ghost done = choices_of(pv.take(i as int));
        let ghost pc = provider_choices(pv[i as int]);
        let mcount = p.models.len();
        let mut j: usize = 0;
        while j < mcount
            invariant
                mcount == p.models.len(),
                *p == providers@[i as int],
                pv == providers_view(providers@),
                i < n,
                n == providers.len(),
                pc == provider_choices(pv[i as int]),
                j <= mcount,
                texts_view(cands@) == done + pc.take(j as int),
            decreases mcount - j,
        {
            let mut s = p.key.clone();
            s.append("/");
            s.append(p.models[j].id.as_str());
            proof {
                assert(pv[i as int].models[j as int] == p.models@[j as int]@);
                assert(pc.take(j + 1) =~= pc.take(j as int).push(s@));
            }
            let ghost prev = cands@;
            cands.push(s);
            assert(texts_view(cands@) =~= texts_view(prev).push(cands@.last()@));
            j = j + 1;
        }
        proof {
            assert(pc.take(mcount as int) =~= pc);
            assert(pv.take(i + 1).drop_last() =~= pv.take(i as int));
        }
        i = i + 1;
    }
    assert(pv.take(n as int) =~= pv);
    let ghost base = texts_view(cands@);
    cands.push(String::from_str("opencode/mimo-v2.5-free"));
    cands.push(String::from_str("opencode/deepseek-v4-flash-free"));
    assert(texts_view(cands@) =~= model_choices(pv));
    sorted_unique(&cands)
}

} // verus!

verus! {

/// Every key is among the open ones.
pub fn all_open(keys: &Vec<String>, open: &Vec<String>) -> (r: bool)
    ensures
        r == (forall|i: int| 0 <= i < keys.len() ==> texts_view(open@).contains(#[trigger] keys@[i]@)),
{
    let n = keys.len();
    let m = open.len();
    let mut i: usize = 0;
    while i < n
        invariant
            n == keys.len(),
            m == open.len(),
            i <= n,
            forall|q: int| 0 <= q < i ==> texts_view(open@).contains(#[trigger] keys@[q]@),
        decreases n - i,
    {
        let mut j: usize = 0;
        let mut found = false;
        while j < m && !found
            invariant
                m == open.len(),
                i < n,
                n == keys.len(),
                j <= m,
                found ==> texts_view(open@).contains(keys@[i as int]@),
                !found ==> forall|q: int| 0 <= q < j ==> open@[q]@ != keys@[i as int]@,
            decreases m - j,
        {
            if same_text(open[j].as_str(), keys[i].as_str()) {
                assert(texts_view(open@)[j as int] == keys@[i as int]@);
                found = true;
            }
            j = j + 1;
        }
        if !found {
            assert(!texts_view(open@).contains(keys@[i as int]@)) by {
                if texts_view(open@).contains(keys@[i as int]@) {
                    let q = choose|q: int| 0 <= q < m && texts_view(open@)[q] == keys@[i as int]@;
                    assert(open@[q]@ == keys@[i as int]@);
                }
            }
            return false;
        }
        i = i + 1;
    }
    true
}

/// The choices a combo box lists while its text is `v`: all of them while it is empty, else
/// those that hold `v`, compared in lowercase.
pub open spec fn combo_shown(options: Seq<Seq<char>>, v: Seq<char>) -> Seq<usize> {
    if v.len() == 0 {
        Seq::new(options.len(), |i: int| i as usize)
    } else {
        matching(options.map_values(|o: Seq<char>| lowercase(o)), lowercase(v))
    }
}

/// Positions of the choices a combo box lists while its text is `value`.
pub fn combo_matches(options: &Vec<&str>, value: &str) -> (r: Vec<usize>)
    ensures
        r@ == combo_shown(options@.map_values(|o: &str| o@), value@),
{
    let n = options.len();
    if value.is_empty() {
        let mut all: Vec<usize> = Vec::new();
        let mut i: usize = 0;
        while i < n
            invariant
                n == options.len(),
                i <= n,
                all@ == Seq::new(i as nat, |q: int| q as usize),
            decreases n - i,
        {
            all.push(i);
            i = i + 1;
            assert(all@ =~= Seq::new(i as nat, |q: int| q as usize));
        }
        return all;
    }
    let f = to_lower(value);
    let mut lowered: Vec<String> = Vec::new();
    let mut i: usize = 0;
    while i < n
        invariant
            n == options.len(),
            i <= n,
            lowered@.len() == i,
            forall|q: int| 0 <= q < i ==> #[trigger] lowered@[q]@ == lowercase(options@[q]@),
        decreases n - i,
    {
        lowered.push(to_lower(options[i]));
        i = i + 1;
    }
    let mut hays: Vec<&str> = Vec::new();
    let mut j: usize = 0;
    while j < n
        invariant
            n == options.len(),
            n == lowered@.len(),
            j <= n,
            hays@.len() == j,
            forall|q: int| 0 <= q < j ==> #[trigger] hays@[q]@ == lowered@[q]@,
        decreases n - j,
    {
        hays.push(lowered[j].as_str());
        j = j + 1;
    }
    assert(hays@.map_values(|h: &str| h@) =~= options@.map_values(|o: &str| o@).map_values(
        |o: Seq<char>| lowercase(o),
    ));
    matching_positions(&hays, f.as_str())
}

} // verus!

verus! {

/// The chosen names after ticking (`on`) or unticking the name `vn`: ticking adds it at the
/// end unless it is already chosen; unticking drops every copy of it.
pub open spec fn toggled(items: Seq<Seq<char>>, vn: Seq<char>, on: bool) -> Seq<Seq<char>> {
    if on {
        if items.contains(vn) {
            items
        } else {
            items.push(vn)
        }
    } else {
        items.filter(|x: Seq<char>| x != vn)
    }
}

/// Ticking a name that is not chosen appends it, ticking a chosen one changes nothing;
/// unticking keeps, in order, exactly the chosen names other than it.
pub proof fn law_toggled(items: Seq<Seq<char>>, vn: Seq<char>)
    ensures
        !items.contains(vn) ==> toggled(items, vn, true) == items.push(vn),
        items.contains(vn) ==> toggled(items, vn, true) == items,
        forall|x: Seq<char>|
            toggled(items, vn, false).contains(x) <==> (items.contains(x) && x != vn),
        items.len() > 0 && items.last() != vn ==> toggled(items, vn, false) == toggled(
            items.drop_last(),
            vn,
            false,
        ).push(items.last()),
        items.len() > 0 && items.last() == vn ==> toggled(items, vn, false) == toggled(
            items.drop_last(),
            vn,
            false,
        ),
    decreases items.len(),
{
    reveal(Seq::filter);
    if items.len() > 0 {
        let init = items.drop_last();
        law_toggled(init, vn);
        let r = toggled(init, vn, false);
        let t = toggled(items, vn, false);
        if items.last() != vn {
            assert(t == r.push(items.last()));
        } else {
            assert(t == r);
        }
        assert forall|x: Seq<char>| t.contains(x) <==> (items.contains(x) && x != vn) by {
            if t.contains(x) {
                let q = choose|q: int| 0 <= q < t.len() && t[q] == x;
                if q < r.len() {
                    assert(r[q] == x);
                    assert(r.contains(x));
                    assert(init.contains(x));
                    let w = choose|w: int| 0 <= w < init.len() && init[w] == x;
                    assert(items[w] == x);
                } else {
                    assert(items[items.len() - 1] == x);
                }
            }
            if items.contains(x) && x != vn {
                let w = choose|w: int| 0 <= w < items.len() && items[w] == x;
                if w < items.len() - 1 {
                    assert(init[w] == x);
                    assert(init.contains(x));
                    let q = choose|q: int| 0 <= q < r.len() && r[q] == x;
                    assert(t[q] == x);
                } else {
                    assert(t[r.len() as int] == x);
                }
            }
        }
    }
}

/// The variants text after ticking or unticking the variant `vn` in the list `sel`.
pub fn toggle_variant(sel: &str, vn: &str, on: bool) -> (r: String)
    ensures
        r@ == join(toggled(list_items(sel@), vn@, on), list_sep()),
{
    let items = comma_items(sel);
    let ghost iv = texts_view(items@);
    let n = items.len();
    let mut out: Vec<String> = Vec::new();
    if on {
        let mut i: usize = 0;
        let mut found = false;
        while i < n && !found
            invariant
                n == items.len(),
                iv == texts_view(items@),
                i <= n,
                found ==> iv.contains(vn@),
                !found ==> forall|q: int| 0 <= q < i ==> iv[q] != vn@,
            decreases n - i,
        {
            if same_text(items[i].as_str(), vn) {
                assert(iv[i as int] == vn@);
                found = true;
            }
            i = i + 1;
        }
        out = items;
        if !found {
            out.push(String::from_str(vn));
            assert(texts_view(out@) =~= iv.push(vn@));
        }
    } else {
        proof {
            reveal(Seq::filter);
        }
        let mut i: usize = 0;
        while i < n
            invariant
                n == items.len(),
                iv == texts_view(items@),
                i <= n,
                texts_view(out@) == iv.take(i as int).filter(|x: Seq<char>| x != vn@),
            decreases n - i,
        {
            proof {
                reveal(Seq::filter);
                assert(iv.take(i + 1).drop_last() =~= iv.take(i as int));
                assert(iv.take(i + 1).last() == items@[i as int]@);
            }
            if !same_text(items[i].as_str(), vn) {
                let ghost before = out@;
                out.push(items[i].clone());
                assert(texts_view(out@) =~= texts_view(before).push(items@[i as int]@));
            }
            i = i + 1;
        }
        assert(iv.take(n as int) =~= iv);
    }
    proof {
        reveal_strlit(", ");
        assert(", "@ =~= list_sep());
    }
    join_texts(&out, ", ")
}

} // verus!

verus! {

/// The key, mode, description or model of the agent differ from those it had before an edit.
pub open spec fn search_fields_changed(now: AgentV, before: AgentV) -> bool {
    now.key != before.key || now.description != before.description || now.model != before.model
        || now.mode != before.mode
}

/// After the form of an agent was edited, recomputes its search text when one of the fields
/// it is made of changed; a search text that was current before the edit is current after.
pub fn settle_agent_edit(a: &mut AgentRow, before: &AgentRow)
    ensures
        final(a)@ == (AgentV {
            haystack: if search_fields_changed(old(a)@, before@) {
                agent_haystack(old(a)@)
            } else {
                old(a)@.haystack
            },
            ..old(a)@
        }),
        before@.haystack == agent_haystack(before@) && old(a)@.haystack == before@.haystack
            ==> final(a)@.haystack == agent_haystack(final(a)@),
{
    let changed = !same_text(a.key.as_str(), before.key.as_str()) || !same_text(
        a.description.as_str(),
        before.description.as_str(),
    ) || !same_text(a.model.as_str(), before.model.as_str()) || !same_text(
        a.mode.as_str(),
        before.mode.as_str(),
    );
    if changed {
        a.refresh_haystack();
    }
}

} // verus!

verus! {

/// The value a drop-down list leaves after a frame: the option clicked, when one was;
/// else the value it had (which, when listed, is the option it shows as selected).
pub fn chosen_option(options: &Vec<String>, current: &str, clicked: Option<usize>) -> (r: String)
    ensures
        r@ == (match clicked {
            Some(i) => if i < options.len() {
                options@[i as int]@
            } else {
                current@
            },
            None => current@,
        }),
        r@ == current@ || texts_view(options@).contains(r@),
{
    match clicked {
        Some(i) => {
            if i < options.len() {
                assert(texts_view(options@)[i as int] == options@[i as int]@);
                return options[i].clone();
            }
            String::from_str(current)
        },
        None => String::from_str(current),
    }
}

} // verus!
