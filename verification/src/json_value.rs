use vstd::prelude::*;

verus! {

/// A parsed JSON value.
///
/// This is the tree produced by [`parse`](crate::parse). Each variant maps
/// to one of the JSON value types. Numbers are split into [`Int`] and
/// [`Float`] depending on whether the source contained a fraction or
/// exponent.
///
/// [`Int`]: JsonValue::Int
/// [`Float`]: JsonValue::Float
#[derive(Debug, PartialEq)]
pub enum JsonValue {
    /// The JSON literal `null`.
    Null,
    /// A JSON boolean (`true` or `false`).
    Bool(bool),
    /// A JSON number with no fraction or exponent, parsed as an `i64`.
    Int(i64),
    /// A JSON number with a fraction or exponent, held as its source text,
    /// which `f64::from_str` accepts.
    Float(String),
    /// A JSON string, with escape sequences already decoded.
    String(String),
    /// A JSON array, in source order.
    Array(Vec<JsonValue>),
    /// A JSON object: its members in the order in which their names first
    /// appear, each name once, with the value given last for it.
    Object(Vec<(String, JsonValue)>),
}

/// The mathematical value of a [`JsonValue`].
pub enum SpecJson {
    Null,
    Bool(bool),
    Int(i64),
    Float(Seq<char>),
    Str(Seq<char>),
    Array(Seq<SpecJson>),
    Object(Seq<(Seq<char>, SpecJson)>),
}

impl JsonValue {
    pub open spec fn model(self) -> SpecJson
        decreases self,
    {
        match self {
            JsonValue::Null => SpecJson::Null,
            JsonValue::Bool(b) => SpecJson::Bool(b),
            JsonValue::Int(i) => SpecJson::Int(i),
            JsonValue::Float(s) => SpecJson::Float(s@),
            JsonValue::String(s) => SpecJson::Str(s@),
            JsonValue::Array(a) => SpecJson::Array(
                Seq::new(
                    a@.len(),
                    |i: int|
                        if 0 <= i < a@.len() {
                            a@[i].model()
                        } else {
                            SpecJson::Null
                        },
                ),
            ),
            JsonValue::Object(m) => SpecJson::Object(
                Seq::new(
                    m@.len(),
                    |i: int|
                        if 0 <= i < m@.len() {
                            (m@[i].0@, m@[i].1.model())
                        } else {
                            (Seq::empty(), SpecJson::Null)
                        },
                ),
            ),
        }
    }
}


impl View for JsonValue {
    type V = SpecJson;

    open spec fn view(&self) -> SpecJson {
        self.model()
    }
}

/// The values of the items of an array.
pub open spec fn items_model(a: Seq<JsonValue>) -> Seq<SpecJson> {
    Seq::new(a.len(), |i: int| a[i].model())
}

/// The names and values of the members of an object.
pub open spec fn members_model(m: Seq<(String, JsonValue)>) -> Seq<(Seq<char>, SpecJson)> {
    Seq::new(m.len(), |i: int| (m[i].0@, m[i].1.model()))
}

pub proof fn lemma_model_array(a: Vec<JsonValue>)
    ensures
        JsonValue::Array(a).model() == SpecJson::Array(items_model(a@)),
{
    let v = JsonValue::Array(a).model();
    assert(v->Array_0 =~= items_model(a@));
}

pub proof fn lemma_model_object(m: Vec<(String, JsonValue)>)
    ensures
        JsonValue::Object(m).model() == SpecJson::Object(members_model(m@)),
{
    let v = JsonValue::Object(m).model();
    assert(v->Object_0 =~= members_model(m@));
}

/// The index of the first member named `key`, or `-1` when there is none.
pub open spec fn key_index(m: Seq<(Seq<char>, SpecJson)>, key: Seq<char>) -> int
    decreases m.len(),
{
    if m.len() == 0 {
        -1
    } else {
        let i = key_index(m.drop_last(), key);
        if i >= 0 {
            i
        } else if m.last().0 == key {
            m.len() - 1
        } else {
            -1
        }
    }
}

/// The members after `key` has been set to `value`: the value of the
/// member named `key` is replaced in place, or a new member is appended.
pub open spec fn obj_insert(m: Seq<(Seq<char>, SpecJson)>, key: Seq<char>, value: SpecJson) -> Seq<
    (Seq<char>, SpecJson),
> {
    let i = key_index(m, key);
    if i >= 0 {
        m.update(i, (key, value))
    } else {
        m.push((key, value))
    }
}

/// No two members share a name.
pub open spec fn distinct_names(m: Seq<(Seq<char>, SpecJson)>) -> bool {
    forall|i: int, j: int| 0 <= i < j < m.len() ==> m[i].0 != m[j].0
}

pub proof fn lemma_key_index(m: Seq<(Seq<char>, SpecJson)>, key: Seq<char>)
    ensures
        -1 <= key_index(m, key) < m.len(),
        key_index(m, key) >= 0 ==> m[key_index(m, key)].0 == key,
        key_index(m, key) >= 0 ==> forall|j: int| 0 <= j < key_index(m, key) ==> m[j].0 != key,
        key_index(m, key) < 0 ==> forall|j: int| 0 <= j < m.len() ==> m[j].0 != key,
    decreases m.len(),
{
    if m.len() > 0 {
        let d = m.drop_last();
        lemma_key_index(d, key);
        let i = key_index(d, key);
        if i >= 0 {
            assert(m[i] == d[i]);
            assert forall|j: int| 0 <= j < i implies m[j].0 != key by {
                assert(d[j] == m[j]);
            }
        } else if m.last().0 == key {
            assert forall|j: int| 0 <= j < m.len() - 1 implies m[j].0 != key by {
                assert(d[j] == m[j]);
            }
        } else {
            assert forall|j: int| 0 <= j < m.len() implies m[j].0 != key by {
                if j < m.len() - 1 {
                    assert(d[j] == m[j]);
                }
            }
        }
    }
}

/// A key found in a prefix is the key found in the whole.
pub proof fn lemma_key_index_prefix(m: Seq<(Seq<char>, SpecJson)>, key: Seq<char>, n: int)
    requires
        0 <= n <= m.len(),
        key_index(m.take(n), key) >= 0,
    ensures
        key_index(m, key) == key_index(m.take(n), key),
    decreases m.len() - n,
{
    if n == m.len() {
        assert(m.take(n) =~= m);
    } else {
        assert(m.take(n + 1).drop_last() =~= m.take(n));
        lemma_key_index_prefix(m, key, n + 1);
    }
}

/// Inserting keeps the names distinct.
pub proof fn lemma_obj_insert_distinct(m: Seq<(Seq<char>, SpecJson)>, key: Seq<char>, value: SpecJson)
    requires
        distinct_names(m),
    ensures
        distinct_names(obj_insert(m, key, value)),
        key_index(obj_insert(m, key, value), key) >= 0,
{
    lemma_key_index(m, key);
    let r = obj_insert(m, key, value);
    lemma_key_index(r, key);
    let i = key_index(m, key);
    if i >= 0 {
        assert(r[i].0 == key);
        assert forall|a: int, b: int| 0 <= a < b < r.len() implies r[a].0 != r[b].0 by {
            assert(r[a].0 == m[a].0);
            assert(r[b].0 == m[b].0);
        }
    } else {
        assert(r[m.len() as int].0 == key);
        assert forall|a: int, b: int| 0 <= a < b < r.len() implies r[a].0 != r[b].0 by {
            if b < m.len() {
                assert(r[a] == m[a]);
                assert(r[b] == m[b]);
            } else {
                assert(r[a] == m[a]);
            }
        }
    }
}

/// The value of the member named `key`, if there is one.
pub open spec fn member_value(m: Seq<(Seq<char>, SpecJson)>, key: Seq<char>) -> Option<SpecJson> {
    let i = key_index(m, key);
    if i >= 0 {
        Some(m[i].1)
    } else {
        None
    }
}

/// Setting a member reads back as with a map: the member named `key` then
/// has `value`, the value given last for it, and every other name keeps its
/// value.
pub proof fn law_object_insert_lookup(
    m: Seq<(Seq<char>, SpecJson)>,
    key: Seq<char>,
    value: SpecJson,
    other: Seq<char>,
)
    requires
        other != key,
    ensures
        member_value(obj_insert(m, key, value), key) == Some(value),
        member_value(obj_insert(m, key, value), other) == member_value(m, other),
{
    let r = obj_insert(m, key, value);
    let i = key_index(m, key);
    lemma_key_index(m, key);
    lemma_key_index(m, other);
    lemma_key_index(r, key);
    lemma_key_index(r, other);
    let n = if i >= 0 {
        i
    } else {
        m.len() as int
    };
    assert(r[n].0 == key && r[n].1 == value);
    assert forall|j: int| 0 <= j < r.len() && j != n implies #[trigger] r[j] == m[j] by {}
    let ir = key_index(r, key);
    if ir != n {
        assert(r[ir] == m[ir]);
    }
    let io = key_index(m, other);
    let iro = key_index(r, other);
    if io >= 0 {
        assert(r[io] == m[io]);
        if iro != io {
            assert(r[iro] == m[iro]);
        }
    } else if iro >= 0 {
        assert(r[iro] == m[iro]);
    }
}

/// Sets the member `key` of `members` to `value`: the value of an existing
/// member with that name is replaced, otherwise the member is appended.
pub fn object_insert(members: &mut Vec<(String, JsonValue)>, key: String, value: JsonValue)
    ensures
        members_model(final(members)@) == obj_insert(members_model(old(members)@), key@, value.model()),
{
    let ghost m = members_model(members@);
    let mut j: usize = 0;
    assert(m.take(0) =~= Seq::<(Seq<char>, SpecJson)>::empty());
    while j < members.len()
        invariant
            j <= members@.len(),
            members@ == old(members)@,
            m == members_model(members@),
            key_index(m.take(j as int), key@) == -1,
        decreases members.len() - j,
    {
        assert(m.take(j + 1).drop_last() =~= m.take(j as int));
        if members[j].0 == key {
            proof {
                lemma_key_index_prefix(m, key@, j + 1);
            }
            members.set(j, (key, value));
            assert(members_model(members@) =~= obj_insert(m, key@, value.model()));
            return ;
        }
        j = j + 1;
    }
    assert(m.take(j as int) =~= m);
    members.push((key, value));
    assert(members_model(members@) =~= obj_insert(m, key@, value.model()));
}


/// Every object in `v`, at any depth, names each member once.
pub open spec fn json_wf(v: SpecJson) -> bool
    decreases v,
{
    match v {
        SpecJson::Array(a) => forall|i: int| 0 <= i < a.len() ==> json_wf(#[trigger] a[i]),
        SpecJson::Object(m) => distinct_names(m) && forall|i: int|
            0 <= i < m.len() ==> json_wf(#[trigger] m[i].1),
        _ => true,
    }
}

impl JsonValue {
    /// The invariant of the type: every object, at any depth, names each
    /// member once.
    pub open spec fn wf(&self) -> bool {
        json_wf(self.model())
    }
}

} // verus!
