//! The JSON value type of the library and its mathematical model.

use vstd::prelude::*;

verus! {

/// A JSON number, kept in the three shapes that a JSON parser tells apart:
/// a non-negative integer, a negative integer, or a finite binary64 float,
/// held by the text that `serde_json` writes for it.
#[derive(Debug)]
pub enum JsonNumber {
    PosInt(u64),
    NegInt(i64),
    Float(String),
}

/// The mathematical model of a JSON number.
pub enum Num {
    PosInt(u64),
    NegInt(i64),
    Float(Seq<char>),
}

impl View for JsonNumber {
    type V = Num;

    open spec fn view(&self) -> Num {
        match self {
            JsonNumber::PosInt(u) => Num::PosInt(*u),
            JsonNumber::NegInt(i) => Num::NegInt(*i),
            JsonNumber::Float(t) => Num::Float(t@),
        }
    }
}

impl JsonNumber {
    /// A copy of this number.
    pub fn copy(&self) -> (c: JsonNumber)
        ensures
            c@ == self@,
    {
        match self {
            JsonNumber::PosInt(u) => JsonNumber::PosInt(*u),
            JsonNumber::NegInt(i) => JsonNumber::NegInt(*i),
            JsonNumber::Float(t) => JsonNumber::Float(t.clone()),
        }
    }
}

/// A JSON value. Object members keep their order; a well-formed object
/// holds each key once (see [`Json::well_formed`]).
#[derive(Debug)]
pub enum JsonValue {
    Null,
    Bool(bool),
    Number(JsonNumber),
    String(String),
    Array(Vec<JsonValue>),
    Object(Vec<(String, JsonValue)>),
}

/// The mathematical model of a JSON value.
pub enum Json {
    Null,
    Bool(bool),
    Number(Num),
    Str(Seq<char>),
    Array(Seq<Json>),
    Object(Seq<(Seq<char>, Json)>),
}

impl JsonValue {
    /// The model of this value.
    pub open spec fn model(self) -> Json
        decreases self,
    {
        match self {
            JsonValue::Null => Json::Null,
            JsonValue::Bool(b) => Json::Bool(b),
            JsonValue::Number(n) => Json::Number(n@),
            JsonValue::String(s) => Json::Str(s@),
            JsonValue::Array(items) => Json::Array(
                Seq::new(
                    items@.len(),
                    |i: int|
                        if 0 <= i < items@.len() {
                            items@[i].model()
                        } else {
                            Json::Null
                        },
                ),
            ),
            JsonValue::Object(members) => Json::Object(
                Seq::new(
                    members@.len(),
                    |i: int|
                        if 0 <= i < members@.len() {
                            (members@[i].0@, members@[i].1.model())
                        } else {
                            (Seq::empty(), Json::Null)
                        },
                ),
            ),
        }
    }
}

impl Json {
    /// Every object in this value, at any depth, holds each key at most once.
    pub open spec fn well_formed(self) -> bool
        decreases self,
    {
        match self {
            Json::Array(items) => forall|i: int|
                0 <= i < items.len() ==> (#[trigger] items[i]).well_formed(),
            Json::Object(members) => {
                &&& keys_distinct(members)
                &&& forall|i: int| 0 <= i < members.len() ==> (#[trigger] members[i]).1.well_formed()
            },
            _ => true,
        }
    }
}

/// Every number in this value is an integer in the shape a JSON parser
/// gives it: non-negative integers as `PosInt`, negative ones as `NegInt`.
/// No float occurs.
pub open spec fn integer_numbers(v: Json) -> bool
    decreases v,
{
    match v {
        Json::Number(n) => match n {
            Num::PosInt(_) => true,
            Num::NegInt(i) => i < 0,
            Num::Float(_) => false,
        },
        Json::Array(items) => forall|i: int|
            0 <= i < items.len() ==> integer_numbers(#[trigger] items[i]),
        Json::Object(members) => forall|i: int|
            0 <= i < members.len() ==> integer_numbers((#[trigger] members[i]).1),
        _ => true,
    }
}

/// Arrays and objects are nested in this value at most `n` deep (a value
/// that is an array or an object is one deep).
pub open spec fn nesting_within(v: Json, n: nat) -> bool
    decreases v,
{
    match v {
        Json::Array(items) => n > 0 && forall|i: int|
            0 <= i < items.len() ==> nesting_within(#[trigger] items[i], (n - 1) as nat),
        Json::Object(members) => n > 0 && forall|i: int|
            0 <= i < members.len() ==> nesting_within((#[trigger] members[i]).1, (n - 1) as nat),
        _ => true,
    }
}

/// No two members of `members` have the same key.
pub open spec fn keys_distinct(members: Seq<(Seq<char>, Json)>) -> bool {
    forall|i: int, j: int|
        0 <= i < members.len() && 0 <= j < members.len() && i != j ==> members[i].0
            != members[j].0
}

/// The value of the first member of `members` with key `key`.
pub open spec fn get_member(members: Seq<(Seq<char>, Json)>, key: Seq<char>) -> Option<Json> {
    match index_of_key(members, key) {
        Some(i) => Some(members[i].1),
        None => None,
    }
}

/// The model of an object's members.
pub open spec fn members_model(members: Seq<(String, JsonValue)>) -> Seq<(Seq<char>, Json)> {
    Seq::new(members.len(), |i: int| (members[i].0@, members[i].1@))
}

/// The model of an array's items.
pub open spec fn items_model(items: Seq<JsonValue>) -> Seq<Json> {
    Seq::new(items.len(), |i: int| items[i]@)
}

/// The position of the first member of `members` whose key is `key`.
pub open spec fn index_of_key(members: Seq<(Seq<char>, Json)>, key: Seq<char>) -> Option<int>
    decreases members.len(),
{
    if members.len() == 0 {
        None
    } else if members[0].0 == key {
        Some(0)
    } else {
        match index_of_key(members.drop_first(), key) {
            Some(i) => Some(i + 1),
            None => None,
        }
    }
}

/// `index_of_key` finds the first member with the key, and finds none
/// exactly when no member has it.
pub proof fn lemma_index_of_key(members: Seq<(Seq<char>, Json)>, key: Seq<char>)
    ensures
        match index_of_key(members, key) {
            Some(i) => {
                &&& 0 <= i < members.len()
                &&& members[i].0 == key
                &&& forall|j: int| 0 <= j < i ==> members[j].0 != key
            },
            None => forall|j: int| 0 <= j < members.len() ==> members[j].0 != key,
        },
    decreases members.len(),
{
    if members.len() > 0 && members[0].0 != key {
        lemma_index_of_key(members.drop_first(), key);
        let rest = members.drop_first();
        match index_of_key(rest, key) {
            Some(i) => {
                assert forall|j: int| 0 <= j < i + 1 implies members[j].0 != key by {
                    if j > 0 {
                        assert(members[j] == rest[j - 1]);
                    }
                }
            },
            None => {
                assert forall|j: int| 0 <= j < members.len() implies members[j].0 != key by {
                    if j > 0 {
                        assert(members[j] == rest[j - 1]);
                    }
                }
            },
        }
    }
}

/// The first position of a key depends on the keys alone.
pub proof fn lemma_index_of_key_same_keys(
    a: Seq<(Seq<char>, Json)>,
    b: Seq<(Seq<char>, Json)>,
    key: Seq<char>,
)
    requires
        a.len() == b.len(),
        forall|i: int| 0 <= i < a.len() ==> #[trigger] a[i].0 == b[i].0,
    ensures
        index_of_key(a, key) == index_of_key(b, key),
{
    lemma_index_of_key(a, key);
    lemma_index_of_key(b, key);
    match (index_of_key(a, key), index_of_key(b, key)) {
        (Some(i), Some(j)) => {
            if i < j {
                assert(b[i].0 == key);
            } else if j < i {
                assert(a[j].0 == key);
            }
        },
        (Some(i), None) => {
            assert(b[i].0 == key);
        },
        (None, Some(j)) => {
            assert(a[j].0 == key);
        },
        (None, None) => {},
    }
}

/// Appending a member leaves the first position of every key that was
/// already present, and gives the new member's key its position otherwise.
pub proof fn lemma_index_of_key_push(
    members: Seq<(Seq<char>, Json)>,
    member: (Seq<char>, Json),
    key: Seq<char>,
)
    ensures
        index_of_key(members.push(member), key) == match index_of_key(members, key) {
            Some(i) => Some(i),
            None => if member.0 == key {
                Some(members.len() as int)
            } else {
                None
            },
        },
{
    let pushed = members.push(member);
    lemma_index_of_key(members, key);
    lemma_index_of_key(pushed, key);
    assert forall|j: int| 0 <= j < members.len() implies #[trigger] pushed[j] == members[j] by {}
    assert(pushed[members.len() as int] == member);
    match (index_of_key(members, key), index_of_key(pushed, key)) {
        (Some(i), Some(j)) => {
            if j < i {
                assert(members[j].0 == key);
            } else if i < j {
                assert(pushed[i].0 == key);
            }
        },
        (Some(i), None) => {
            assert(pushed[i].0 == key);
        },
        (None, Some(j)) => {
            if j < members.len() {
                assert(members[j].0 == key);
            }
        },
        (None, None) => {},
    }
}

/// In members with distinct keys, the position of a member's key is the
/// member's own position.
pub proof fn lemma_index_of_key_distinct(members: Seq<(Seq<char>, Json)>, i: int)
    requires
        keys_distinct(members),
        0 <= i < members.len(),
    ensures
        index_of_key(members, members[i].0) == Some(i),
{
    let key = members[i].0;
    lemma_index_of_key(members, key);
    match index_of_key(members, key) {
        Some(j) => {
            if j != i {
                assert(members[j].0 == members[i].0);
            }
        },
        None => {
            assert(members[i].0 == key);
        },
    }
}

impl JsonValue {
    /// The model of an object is the model of its members, and that of an
    /// array the model of its items.
    pub proof fn lemma_model_unfold(self)
        ensures
            self matches JsonValue::Object(m) ==> self@ == Json::Object(members_model(m@)),
            self matches JsonValue::Array(a) ==> self@ == Json::Array(items_model(a@)),
    {
        match self {
            JsonValue::Object(m) => {
                assert(self@ == Json::Object(members_model(m@))) by {
                    if let Json::Object(ms) = self@ {
                        assert(ms =~= members_model(m@));
                    }
                }
            },
            JsonValue::Array(a) => {
                assert(self@ == Json::Array(items_model(a@))) by {
                    if let Json::Array(items) = self@ {
                        assert(items =~= items_model(a@));
                    }
                }
            },
            _ => {},
        }
    }

    /// A copy of this value with the same model.
    #[verifier::loop_isolation(false)]
    pub fn deep_copy(&self) -> (copy: JsonValue)
        ensures
            copy@ == self@,
        decreases self,
    {
        proof {
            self.lemma_model_unfold();
        }
        match self {
            JsonValue::Null => JsonValue::Null,
            JsonValue::Bool(b) => JsonValue::Bool(*b),
            JsonValue::Number(n) => JsonValue::Number(n.copy()),
            JsonValue::String(s) => JsonValue::String(s.clone()),
            JsonValue::Array(items) => {
                let mut out: Vec<JsonValue> = Vec::new();
                let mut i: usize = 0;
                while i < items.len()
                    invariant
                        i <= items@.len(),
                        out@.len() == i,
                        forall|j: int| 0 <= j < i ==> out@[j]@ == items@[j]@,
                    decreases items@.len() - i,
                {
                    proof {
                        assert(decreases_to!(*self => items@[i as int]));
                    }
                    let c = items[i].deep_copy();
                    out.push(c);
                    i = i + 1;
                }
                let copy = JsonValue::Array(out);
                proof {
                    copy.lemma_model_unfold();
                    assert(items_model(out@) =~= items_model(items@));
                }
                copy
            },
            JsonValue::Object(members) => {
                let mut out: Vec<(String, JsonValue)> = Vec::new();
                let mut i: usize = 0;
                while i < members.len()
                    invariant
                        i <= members@.len(),
                        out@.len() == i,
                        forall|j: int|
                            0 <= j < i ==> out@[j].0@ == members@[j].0@ && out@[j].1@
                                == members@[j].1@,
                    decreases members@.len() - i,
                {
                    proof {
                        assert(decreases_to!(*self => members@[i as int].1));
                    }
                    let key = members[i].0.clone();
                    let value = members[i].1.deep_copy();
                    out.push((key, value));
                    i = i + 1;
                }
                let copy = JsonValue::Object(out);
                proof {
                    copy.lemma_model_unfold();
                    assert(members_model(out@) =~= members_model(members@));
                }
                copy
            },
        }
    }
}

impl View for JsonValue {
    type V = Json;

    open spec fn view(&self) -> Json {
        self.model()
    }
}

} // verus!
