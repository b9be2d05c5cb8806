use vstd::prelude::*;

verus! {

/// A JSON number as the configuration editor keeps it.
#[derive(Clone, Debug, PartialEq)]
pub enum JsonNumber {
    /// A non-negative integer.
    PosInt(u64),
    /// A negative integer.
    NegInt(i64),
    /// A floating-point number, given by its decimal text.
    Float(String),
}

/// A JSON value; objects keep their entries in insertion order.
#[derive(Debug, PartialEq)]
pub enum JsonValue {
    Null,
    Bool(bool),
    Number(JsonNumber),
    Str(String),
    Array(Vec<JsonValue>),
    Object(JsonMap),
}

/// A JSON object: its entries, in order.
#[derive(Debug, PartialEq)]
pub struct JsonMap {
    pub entries: Vec<(String, JsonValue)>,
}

/// Mathematical model of a JSON number.
pub ghost enum NumV {
    PosInt(u64),
    NegInt(i64),
    Float(Seq<char>),
}

/// Mathematical model of a JSON value.
pub ghost enum JsonV {
    Null,
    Bool(bool),
    Num(NumV),
    Str(Seq<char>),
    Arr(Seq<JsonV>),
    Obj(Seq<(Seq<char>, JsonV)>),
}

/// The entries of an object, as the model sees them.
pub type Entries = Seq<(Seq<char>, JsonV)>;

impl View for JsonNumber {
    type V = NumV;

    open spec fn view(&self) -> NumV {
        match self {
            JsonNumber::PosInt(n) => NumV::PosInt(*n),
            JsonNumber::NegInt(n) => NumV::NegInt(*n),
            JsonNumber::Float(t) => NumV::Float(t@),
        }
    }
}

pub open spec fn value_view(v: JsonValue) -> JsonV
    decreases v,
{
    match v {
        JsonValue::Null => JsonV::Null,
        JsonValue::Bool(b) => JsonV::Bool(b),
        JsonValue::Number(n) => JsonV::Num(n@),
        JsonValue::Str(s) => JsonV::Str(s@),
        JsonValue::Array(items) => JsonV::Arr(items_view(items@)),
        JsonValue::Object(m) => JsonV::Obj(entries_view(m.entries@)),
    }
}

pub open spec fn items_view(s: Seq<JsonValue>) -> Seq<JsonV>
    decreases s,
{
    if s.len() == 0 {
        Seq::empty()
    } else {
        items_view(s.drop_last()).push(value_view(s.last()))
    }
}

pub open spec fn entries_view(s: Seq<(String, JsonValue)>) -> Entries
    decreases s,
{
    if s.len() == 0 {
        Seq::empty()
    } else {
        entries_view(s.drop_last()).push((s.last().0@, value_view(s.last().1)))
    }
}

impl View for JsonValue {
    type V = JsonV;

    open spec fn view(&self) -> JsonV {
        value_view(*self)
    }
}

impl View for JsonMap {
    type V = Entries;

    open spec fn view(&self) -> Entries {
        entries_view(self.entries@)
    }
}

/// Index of the first entry with key `k`, or -1.
pub open spec fn find_key(m: Entries, k: Seq<char>) -> int
    decreases m.len(),
{
    if m.len() == 0 {
        -1
    } else {
        let r = find_key(m.drop_last(), k);
        if r >= 0 {
            r
        } else if m.last().0 == k {
            m.len() - 1
        } else {
            -1
        }
    }
}

/// The value stored under `k`.
pub open spec fn obj_get(m: Entries, k: Seq<char>) -> Option<JsonV> {
    let i = find_key(m, k);
    if i < 0 {
        None
    } else {
        Some(m[i].1)
    }
}

/// `m` with `k` set to `v`: an existing key keeps its place, a new key goes last.
pub open spec fn obj_insert(m: Entries, k: Seq<char>, v: JsonV) -> Entries {
    let i = find_key(m, k);
    if i < 0 {
        m.push((k, v))
    } else {
        m.update(i, (k, v))
    }
}

/// `m` without `k`: the entries under other keys, in their order.
pub open spec fn obj_remove(m: Entries, k: Seq<char>) -> Entries
    decreases m.len(),
{
    if m.len() == 0 {
        m
    } else {
        let r = obj_remove(m.drop_last(), k);
        if m.last().0 == k {
            r
        } else {
            r.push(m.last())
        }
    }
}

/// No key occurs twice.
pub open spec fn keys_distinct(m: Entries) -> bool {
    forall|i: int, j: int| 0 <= i < j < m.len() ==> m[i].0 != m[j].0
}

/// The field `k` of `v`, when `v` is an object.
pub open spec fn field(v: JsonV, k: Seq<char>) -> Option<JsonV> {
    match v {
        JsonV::Obj(m) => obj_get(m, k),
        _ => None,
    }
}

/// The entries of `v` when it is an object, else none.
pub open spec fn object_or_empty(v: Option<JsonV>) -> Entries {
    match v {
        Some(JsonV::Obj(m)) => m,
        _ => Seq::empty(),
    }
}

/// The entries of `v` when it is an object, else none.
pub open spec fn entries_of(v: JsonV) -> Entries {
    match v {
        JsonV::Obj(m) => m,
        _ => Seq::empty(),
    }
}

pub proof fn lemma_find_key(m: Entries, k: Seq<char>)
    ensures
        -1 <= find_key(m, k) < m.len(),
        find_key(m, k) == -1 <==> (forall|j: int| 0 <= j < m.len() ==> m[j].0 != k),
        find_key(m, k) >= 0 ==> m[find_key(m, k)].0 == k && (forall|j: int|
            0 <= j < find_key(m, k) ==> m[j].0 != k),
    decreases m.len(),
{
    if m.len() > 0 {
        lemma_find_key(m.drop_last(), k);
        assert(forall|j: int| 0 <= j < m.len() - 1 ==> m.drop_last()[j] == m[j]);
    }
}

pub proof fn lemma_items_view(s: Seq<JsonValue>)
    ensures
        items_view(s).len() == s.len(),
        forall|i: int| 0 <= i < s.len() ==> #[trigger] items_view(s)[i] == value_view(s[i]),
    decreases s.len(),
{
    if s.len() > 0 {
        lemma_items_view(s.drop_last());
    }
}

pub proof fn lemma_entries_view(s: Seq<(String, JsonValue)>)
    ensures
        entries_view(s).len() == s.len(),
        forall|i: int|
            0 <= i < s.len() ==> #[trigger] entries_view(s)[i] == (s[i].0@, value_view(s[i].1)),
    decreases s.len(),
{
    if s.len() > 0 {
        lemma_entries_view(s.drop_last());
    }
}

pub proof fn lemma_items_view_push(s: Seq<JsonValue>, x: JsonValue)
    ensures
        items_view(s.push(x)) == items_view(s).push(value_view(x)),
{
    assert(s.push(x).drop_last() =~= s);
}

pub proof fn lemma_entries_view_push(s: Seq<(String, JsonValue)>, e: (String, JsonValue))
    ensures
        entries_view(s.push(e)) == entries_view(s).push((e.0@, value_view(e.1))),
{
    assert(s.push(e).drop_last() =~= s);
}

impl JsonMap {
    /// An object with no entries.
    pub fn new() -> (r: JsonMap)
        ensures
            r@ == Seq::<(Seq<char>, JsonV)>::empty(),
    {
        JsonMap { entries: Vec::new() }
    }

    /// Position of the entry with key `k`.
    fn position(&self, k: &str) -> (r: Option<usize>)
        ensures
            match r {
                Some(i) => i == find_key(self@, k@) && i < self.entries@.len(),
                None => find_key(self@, k@) == -1,
            },
    {
        proof {
            lemma_entries_view(self.entries@);
            lemma_find_key(self@, k@);
        }
        let n = self.entries.len();
        let mut i: usize = 0;
        while i < n
            invariant
                n == self.entries.len(),
                n == self@.len(),
                i <= n,
                forall|j: int| 0 <= j < i ==> self@[j].0 != k@,
                forall|j: int|
                    0 <= j < self.entries@.len() ==> #[trigger] self@[j] == (
                    self.entries@[j].0@,
                    value_view(self.entries@[j].1),
                ),
                -1 <= find_key(self@, k@) < n,
                find_key(self@, k@) == -1 <==> (forall|j: int|
                    0 <= j < self@.len() ==> self@[j].0 != k@),
                find_key(self@, k@) >= 0 ==> self@[find_key(self@, k@)].0 == k@ && (forall|j: int|
                    0 <= j < find_key(self@, k@) ==> self@[j].0 != k@),
            decreases n - i,
        {
            if crate::text::same_text(self.entries[i].0.as_str(), k) {
                assert(self@[i as int].0 == k@);
                return Some(i);
            }
            i = i + 1;
        }
        None
    }

    /// The value stored under `k`.
    pub fn get(&self, k: &str) -> (r: Option<&JsonValue>)
        ensures
            match r {
                Some(x) => obj_get(self@, k@) == Some(x@),
                None => obj_get(self@, k@) is None,
            },
    {
        proof {
            lemma_entries_view(self.entries@);
        }
        match self.position(k) {
            Some(i) => Some(&self.entries[i].1),
            None => None,
        }
    }

    /// Sets `k` to `v`; an existing key keeps its place, a new key goes last.
    pub fn insert(&mut self, k: String, v: JsonValue)
        ensures
            final(self)@ == obj_insert(old(self)@, k@, v@),
    {
        proof {
            lemma_entries_view(self.entries@);
        }
        match self.position(k.as_str()) {
            Some(i) => {
                let ghost old_entries = self.entries@;
                let ghost kv = k@;
                let ghost vv = v@;
                self.entries.set(i, (k, v));
                proof {
                    lemma_entries_view(self.entries@);
                    assert(self@ =~= entries_view(old_entries).update(i as int, (kv, vv)));
                }
            },
            None => {
                let ghost old_entries = self.entries@;
                proof {
                    lemma_entries_view_push(old_entries, (k, v));
                }
                self.entries.push((k, v));
            },
        }
    }

    /// Removes every entry under `k`; the other entries keep their order.
    pub fn remove(&mut self, k: &str)
        ensures
            final(self)@ == obj_remove(old(self)@, k@),
    {
        loop
            invariant
                obj_remove(self@, k@) == obj_remove(old(self)@, k@),
            decreases self.entries@.len(),
        {
            proof {
                lemma_entries_view(self.entries@);
                lemma_find_key(self@, k@);
            }
            match self.position(k) {
                Some(i) => {
                    let ghost before = self@;
                    let ghost old_entries = self.entries@;
                    let _ = self.entries.remove(i);
                    proof {
                        lemma_entries_view(self.entries@);
                        lemma_entries_view(old_entries);
                        assert(self@ =~= before.remove(i as int));
                        lemma_remove_at(before, i as int, k@);
                    }
                },
                None => {
                    proof {
                        lemma_remove_none(self@, k@);
                    }
                    return;
                },
            }
        }
    }

    /// A copy of the object stored under `k`, or an empty object.
    pub fn object_at(&self, k: &str) -> (r: JsonMap)
        ensures
            r@ == object_or_empty(obj_get(self@, k@)),
    {
        match self.get(k) {
            Some(JsonValue::Object(m)) => m.copy(),
            _ => JsonMap::new(),
        }
    }

    /// A copy of this object.
    pub fn copy(&self) -> (r: JsonMap)
        ensures
            r@ == self@,
        decreases self, 0nat,
    {
        let mut out: Vec<(String, JsonValue)> = Vec::new();
        let n = self.entries.len();
        let mut i: usize = 0;
        while i < n
            invariant
                n == self.entries.len(),
                i <= n,
                entries_view(out@) == entries_view(self.entries@.take(i as int)),
            decreases n - i,
        {
            let k = self.entries[i].0.clone();
            proof {
                assert(decreases_to!(self => self.entries));
                assert(decreases_to!(self.entries => self.entries@));
                assert(decreases_to!(self.entries@ => self.entries@[i as int]));
            }
            let v = self.entries[i].1.copy();
            proof {
                lemma_entries_view_push(out@, (k, v));
                lemma_entries_view_push(self.entries@.take(i as int), self.entries@[i as int]);
                assert(self.entries@.take(i as int).push(self.entries@[i as int])
                    =~= self.entries@.take(i + 1));
            }
            out.push((k, v));
            i = i + 1;
        }
        proof {
            assert(self.entries@.take(n as int) =~= self.entries@);
        }
        JsonMap { entries: out }
    }
}

impl JsonValue {
    /// The field `k` when this value is an object.
    pub fn get(&self, k: &str) -> (r: Option<&JsonValue>)
        ensures
            match r {
                Some(x) => field(self@, k@) == Some(x@),
                None => field(self@, k@) is None,
            },
    {
        match self {
            JsonValue::Object(m) => m.get(k),
            _ => None,
        }
    }

    /// A copy of the entries when this value is an object, else an empty object.
    pub fn object_copy(&self) -> (r: JsonMap)
        ensures
            r@ == entries_of(self@),
    {
        match self {
            JsonValue::Object(m) => m.copy(),
            _ => JsonMap::new(),
        }
    }

    /// A copy of this value.
    pub fn copy(&self) -> (r: JsonValue)
        ensures
            r@ == self@,
        decreases self, 1nat,
    {
        match self {
            JsonValue::Null => JsonValue::Null,
            JsonValue::Bool(b) => JsonValue::Bool(*b),
            JsonValue::Number(JsonNumber::PosInt(n)) => JsonValue::Number(JsonNumber::PosInt(*n)),
            JsonValue::Number(JsonNumber::NegInt(n)) => JsonValue::Number(JsonNumber::NegInt(*n)),
            JsonValue::Number(JsonNumber::Float(t)) => JsonValue::Number(
                JsonNumber::Float(t.clone()),
            ),
            JsonValue::Str(s) => JsonValue::Str(s.clone()),
            JsonValue::Array(items) => {
                let mut out: Vec<JsonValue> = Vec::new();
                let n = items.len();
                let mut i: usize = 0;
                while i < n
                    invariant
                        n == items.len(),
                        i <= n,
                        *self == JsonValue::Array(*items),
                        items_view(out@) == items_view(items@.take(i as int)),
                    decreases n - i,
                {
                    proof {
                        assert(*self == JsonValue::Array(*items));
                        assert(decreases_to!(*self => (*self)->Array_0));
                        assert(decreases_to!(*items => items@));
                        assert(decreases_to!(items@ => items@[i as int]));
                    }
                    let v = items[i].copy();
                    proof {
                        lemma_items_view_push(out@, v);
                        lemma_items_view_push(items@.take(i as int), items@[i as int]);
                        assert(items@.take(i as int).push(items@[i as int]) =~= items@.take(
                            i + 1,
                        ));
                    }
                    out.push(v);
                    i = i + 1;
                }
                proof {
                    assert(items@.take(n as int) =~= items@);
                }
                JsonValue::Array(out)
            },
            JsonValue::Object(m) => JsonValue::Object(m.copy()),
        }
    }
}

impl Clone for JsonValue {
    fn clone(&self) -> (r: JsonValue)
        ensures
            r@ == self@,
    {
        self.copy()
    }
}

impl Clone for JsonMap {
    fn clone(&self) -> (r: JsonMap)
        ensures
            r@ == self@,
    {
        self.copy()
    }
}

} // verus!

verus! {

/// With distinct keys, the value under `k` is the one at the entry that holds `k`.
pub proof fn lemma_get_at(m: Entries, k: Seq<char>, j: int)
    requires
        keys_distinct(m),
        0 <= j < m.len(),
        m[j].0 == k,
    ensures
        obj_get(m, k) == Some(m[j].1),
{
    lemma_find_key(m, k);
    let f = find_key(m, k);
    if f != j {
        assert(m[f].0 == m[j].0);
    }
}

/// No entry holds `k`: nothing is stored under it.
pub proof fn lemma_get_absent(m: Entries, k: Seq<char>)
    requires
        forall|j: int| 0 <= j < m.len() ==> m[j].0 != k,
    ensures
        obj_get(m, k) is None,
{
    lemma_find_key(m, k);
}

/// Something is stored under `k` exactly when an entry holds `k`, and then it is that
/// entry's value when keys are distinct.
pub proof fn lemma_get_some(m: Entries, k: Seq<char>)
    ensures
        obj_get(m, k) is Some <==> exists|j: int| 0 <= j < m.len() && m[j].0 == k,
        obj_get(m, k) is Some ==> m[find_key(m, k)].0 == k && obj_get(m, k) == Some(
            m[find_key(m, k)].1,
        ) && 0 <= find_key(m, k) < m.len(),
{
    lemma_find_key(m, k);
    if obj_get(m, k) is Some {
        let f = find_key(m, k);
        assert(m[f].0 == k);
    }
}

/// Reading after a write: `k` gives the value written, every other key what it gave before.
pub proof fn law_get_after_insert(m: Entries, k: Seq<char>, v: JsonV, k2: Seq<char>)
    ensures
        obj_get(obj_insert(m, k, v), k2) == (if k2 == k {
            Some(v)
        } else {
            obj_get(m, k2)
        }),
{
    lemma_find_key(m, k);
    lemma_find_key(m, k2);
    let r = obj_insert(m, k, v);
    lemma_find_key(r, k2);
    let i = find_key(m, k);
    let f = find_key(m, k2);
    let g = find_key(r, k2);
    if i < 0 {
        assert(r == m.push((k, v)));
        if k2 == k {
            assert(r[m.len() as int].0 == k2);
            assert(g == m.len()) by {
                if g < m.len() {
                    assert(r[g] == m[g]);
                }
            }
        } else {
            if f >= 0 {
                assert(r[f] == m[f]);
                assert(g == f) by {
                    if g < f {
                        assert(r[g] == m[g]);
                    }
                }
            } else {
                assert forall|j: int| 0 <= j < r.len() implies r[j].0 != k2 by {
                    if j < m.len() {
                        assert(r[j] == m[j]);
                    }
                }
            }
        }
    } else {
        assert(r == m.update(i, (k, v)));
        assert forall|j: int| 0 <= j < r.len() implies r[j].0 == m[j].0 by {}
        if f >= 0 {
            assert(g == f) by {
                if g < f {
                    assert(r[g].0 == m[g].0);
                }
                if f < g {
                    assert(r[f].0 == m[f].0);
                }
            }
            if k2 == k {
                assert(f == i);
            } else {
                assert(f != i);
            }
        } else {
            assert(g == -1);
        }
    }
}

/// What is stored under `k2` in `m` with one more entry `e` at the end.
proof fn lemma_get_push(m: Entries, e: (Seq<char>, JsonV), k2: Seq<char>)
    ensures
        obj_get(m.push(e), k2) == (if obj_get(m, k2) is Some {
            obj_get(m, k2)
        } else if e.0 == k2 {
            Some(e.1)
        } else {
            None
        }),
{
    assert(m.push(e).drop_last() =~= m);
    lemma_find_key(m, k2);
}

/// Reading after a removal: `k` gives nothing, every other key what it gave before.
pub proof fn law_get_after_remove(m: Entries, k: Seq<char>, k2: Seq<char>)
    ensures
        obj_get(obj_remove(m, k), k2) == (if k2 == k {
            None
        } else {
            obj_get(m, k2)
        }),
    decreases m.len(),
{
    if m.len() == 0 {
        lemma_find_key(m, k2);
    } else {
        let init = m.drop_last();
        let x = m.last();
        law_get_after_remove(init, k, k2);
        assert(init.push(x) =~= m);
        lemma_get_push(init, x, k2);
        let r = obj_remove(init, k);
        if x.0 != k {
            lemma_get_push(r, x, k2);
        }
    }
}

/// A removal keeps the other entries in their order and leaves no entry under `k`.
pub proof fn law_remove_keeps_order(m: Entries, k: Seq<char>)
    ensures
        obj_remove(m, k) == m.filter(|e: (Seq<char>, JsonV)| e.0 != k),
    decreases m.len(),
{
    reveal(Seq::filter);
    if m.len() > 0 {
        law_remove_keeps_order(m.drop_last(), k);
    }
}

/// Removing at `i` an entry under `k` leaves a removal of `k` unchanged.
proof fn lemma_remove_at(m: Entries, i: int, k: Seq<char>)
    requires
        0 <= i < m.len(),
        m[i].0 == k,
    ensures
        obj_remove(m.remove(i), k) == obj_remove(m, k),
    decreases m.len(),
{
    if i == m.len() - 1 {
        assert(m.remove(i) =~= m.drop_last());
    } else {
        lemma_remove_at(m.drop_last(), i, k);
        assert(m.remove(i).drop_last() =~= m.drop_last().remove(i));
        assert(m.remove(i).last() == m.last());
    }
}

/// With no entry under `k`, a removal of `k` changes nothing.
proof fn lemma_remove_none(m: Entries, k: Seq<char>)
    requires
        forall|j: int| 0 <= j < m.len() ==> m[j].0 != k,
    ensures
        obj_remove(m, k) == m,
    decreases m.len(),
{
    if m.len() > 0 {
        lemma_remove_none(m.drop_last(), k);
        assert(m.drop_last().push(m.last()) =~= m);
    }
}

/// Writes keep keys distinct.
pub proof fn law_insert_keeps_distinct(m: Entries, k: Seq<char>, v: JsonV)
    requires
        keys_distinct(m),
    ensures
        keys_distinct(obj_insert(m, k, v)),
{
    lemma_find_key(m, k);
    let r = obj_insert(m, k, v);
    if find_key(m, k) >= 0 {
        assert forall|a: int, b: int| 0 <= a < b < r.len() implies r[a].0 != r[b].0 by {
            assert(r[a].0 == m[a].0 && r[b].0 == m[b].0);
        }
    } else {
        assert forall|a: int, b: int| 0 <= a < b < r.len() implies r[a].0 != r[b].0 by {
            if b == m.len() {
                assert(m[a].0 != k);
            } else {
                assert(r[a] == m[a] && r[b] == m[b]);
            }
        }
    }
}

/// Writing the value a key already holds changes nothing.
pub proof fn law_insert_same_unchanged(m: Entries, k: Seq<char>, v: JsonV)
    requires
        obj_get(m, k) == Some(v),
    ensures
        obj_insert(m, k, v) == m,
{
    lemma_get_some(m, k);
    let i = find_key(m, k);
    assert(m.update(i, (k, v)) =~= m);
}

/// Removing a key that is not there changes nothing.
pub proof fn law_remove_absent_unchanged(m: Entries, k: Seq<char>)
    requires
        obj_get(m, k) is None,
    ensures
        obj_remove(m, k) == m,
{
    lemma_find_key(m, k);
    lemma_remove_none(m, k);
}

} // verus!
