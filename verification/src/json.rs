//! JSON values as the library holds them: task arguments, results and
//! trigger parameters.

use vstd::prelude::*;

verus! {

/// The mathematical value of a [`Json`].
pub enum JsonValue {
    Null,
    Bool(bool),
    Unsigned(u64),
    Signed(i64),
    /// A number that is no integer of 64 bits, by its JSON text.
    Decimal(Seq<char>),
    Str(Seq<char>),
    Array(Seq<JsonValue>),
    /// The fields in the order in which they are held.
    Object(Seq<(Seq<char>, JsonValue)>),
}

/// A JSON value.
#[derive(Debug, PartialEq, Eq)]
pub enum Json {
    Null,
    Bool(bool),
    Unsigned(u64),
    Signed(i64),
    /// A number that is no integer of 64 bits, by its JSON text.
    Decimal(String),
    Str(String),
    Array(Vec<Json>),
    /// The fields in the order in which they are held.
    Object(Vec<(String, Json)>),
}

/// The value that `j` stands for.
pub open spec fn value_of(j: Json) -> JsonValue
    decreases j,
{
    match j {
        Json::Null => JsonValue::Null,
        Json::Bool(b) => JsonValue::Bool(b),
        Json::Unsigned(n) => JsonValue::Unsigned(n),
        Json::Signed(n) => JsonValue::Signed(n),
        Json::Decimal(t) => JsonValue::Decimal(t@),
        Json::Str(s) => JsonValue::Str(s@),
        Json::Array(items) => JsonValue::Array(
            Seq::new(
                items@.len(),
                |i: int|
                    if 0 <= i < items@.len() {
                        value_of(items@[i])
                    } else {
                        JsonValue::Null
                    },
            ),
        ),
        Json::Object(fields) => JsonValue::Object(
            Seq::new(
                fields@.len(),
                |i: int|
                    if 0 <= i < fields@.len() {
                        (fields@[i].0@, value_of(fields@[i].1))
                    } else {
                        (Seq::empty(), JsonValue::Null)
                    },
            ),
        ),
    }
}

impl View for Json {
    type V = JsonValue;

    open spec fn view(&self) -> JsonValue {
        value_of(*self)
    }
}

/// The views of a vector of values, item by item.
pub open spec fn items_view(items: Seq<Json>) -> Seq<JsonValue> {
    Seq::new(items.len(), |i: int| items[i]@)
}

/// The views of an object's fields, field by field.
pub open spec fn fields_view(fields: Seq<(String, Json)>) -> Seq<(Seq<char>, JsonValue)> {
    Seq::new(fields.len(), |i: int| (fields[i].0@, fields[i].1@))
}

pub proof fn lemma_array_view(items: Vec<Json>)
    ensures
        Json::Array(items)@ == JsonValue::Array(items_view(items@)),
{
    let a = Json::Array(items);
    let s = a@->Array_0;
    assert(s =~= items_view(items@));
}

pub proof fn lemma_object_view(fields: Vec<(String, Json)>)
    ensures
        Json::Object(fields)@ == JsonValue::Object(fields_view(fields@)),
{
    let a = Json::Object(fields);
    let s = a@->Object_0;
    assert(s =~= fields_view(fields@));
}

/// The value of the first field named `key`, if there is one.
pub open spec fn field_of(fields: Seq<(Seq<char>, JsonValue)>, key: Seq<char>) -> Option<
    JsonValue,
>
    decreases fields.len(),
{
    if fields.len() == 0 {
        None
    } else if fields[0].0 == key {
        Some(fields[0].1)
    } else {
        field_of(fields.drop_first(), key)
    }
}

/// `k` is where the first dot of `s` stands, or the length of `s` if it has
/// none.
pub open spec fn is_first_dot(s: Seq<char>, k: int) -> bool {
    &&& 0 <= k <= s.len()
    &&& k < s.len() ==> s[k] == '.'
    &&& forall|j: int| 0 <= j < k ==> s[j] != '.'
}

pub open spec fn first_dot(s: Seq<char>) -> int {
    choose|k: int| is_first_dot(s, k)
}

/// The segments of a dotted path: `a.b` is `a` then `b`. A path without a dot
/// is one segment.
pub open spec fn split_dots(s: Seq<char>) -> Seq<Seq<char>>
    decreases s.len(),
{
    let k = first_dot(s);
    if 0 <= k < s.len() {
        seq![s.subrange(0, k)] + split_dots(s.subrange(k + 1, s.len() as int))
    } else {
        seq![s]
    }
}

/// The value reached from `v` by descending through the named fields.
pub open spec fn value_at(v: JsonValue, path: Seq<Seq<char>>) -> Option<JsonValue>
    decreases path.len(),
{
    if path.len() == 0 {
        Some(v)
    } else {
        match v {
            JsonValue::Object(fields) => match field_of(fields, path[0]) {
                Some(child) => value_at(child, path.drop_first()),
                None => None,
            },
            _ => None,
        }
    }
}

/// Null and `false` are falsy; every other value is truthy.
pub open spec fn truthy(v: JsonValue) -> bool {
    !(v is Null) && v != JsonValue::Bool(false)
}

proof fn lemma_first_dot(s: Seq<char>, k: int)
    requires
        is_first_dot(s, k),
    ensures
        first_dot(s) == k,
{
    let c = first_dot(s);
    assert(is_first_dot(s, c));
    if c < k {
        assert(s[c] != '.');
    }
    if k < c {
        assert(s[k] != '.');
    }
}

impl Json {
    /// A copy of the value.
    pub fn duplicate(&self) -> (r: Json)
        ensures
            r@ == self@,
        decreases self,
    {
        match self {
            Json::Null => Json::Null,
            Json::Bool(b) => Json::Bool(*b),
            Json::Unsigned(n) => Json::Unsigned(*n),
            Json::Signed(n) => Json::Signed(*n),
            Json::Decimal(t) => Json::Decimal(t.clone()),
            Json::Str(s) => Json::Str(s.clone()),
            Json::Array(items) => {
                let mut out: Vec<Json> = Vec::new();
                let mut i: usize = 0;
                while i < items.len()
                    invariant
                        i <= items.len(),
                        out@.len() == i,
                        forall|k: int| 0 <= k < i ==> out@[k]@ == items@[k]@,
                        *self == Json::Array(*items),
                    decreases items.len() - i,
                {
                    proof {
                        vstd::std_specs::vec::axiom_vec_index_decreases(*items, i as int);
                        assert(decreases_to!(*self => self->Array_0));
                    }
                    let c = items[i].duplicate();
                    out.push(c);
                    i += 1;
                }
                let r = Json::Array(out);
                proof {
                    assert(r@->Array_0 =~= self@->Array_0);
                }
                r
            },
            Json::Object(fields) => {
                let mut out: Vec<(String, Json)> = Vec::new();
                let mut i: usize = 0;
                while i < fields.len()
                    invariant
                        i <= fields.len(),
                        out@.len() == i,
                        forall|k: int|
                            0 <= k < i ==> out@[k].1@ == fields@[k].1@ && out@[k].0@
                                == fields@[k].0@,
                        *self == Json::Object(*fields),
                    decreases fields.len() - i,
                {
                    proof {
                        vstd::std_specs::vec::axiom_vec_index_decreases(*fields, i as int);
                        assert(decreases_to!(*self => self->Object_0));
                        assert(decreases_to!(fields[i as int] => fields[i as int].1));
                    }
                    let c = fields[i].1.duplicate();
                    out.push((fields[i].0.clone(), c));
                    i += 1;
                }
                let r = Json::Object(out);
                proof {
                    assert(r@->Object_0 =~= self@->Object_0);
                }
                r
            },
        }
    }

    /// A JSON string with the given text.
    pub fn text(s: &str) -> (r: Json)
        ensures
            r@ == JsonValue::Str(s@),
    {
        Json::Str(s.to_owned())
    }

    /// The value of the first field named `key`, where `self` is an object
    /// that has one.
    pub fn get_field<'a>(&'a self, key: &str) -> (r: Option<&'a Json>)
        ensures
            match r {
                Some(j) => self@ is Object && field_of(self@->Object_0, key@) == Some(j@),
                None => !(self@ is Object) || field_of(self@->Object_0, key@) is None,
            },
    {
        match self {
            Json::Object(fields) => {
                let wanted = key.to_owned();
                let ghost all = fields_view(fields@);
                proof {
                    lemma_object_view(*fields);
                    assert(all.subrange(0, all.len() as int) =~= all);
                }
                let mut i: usize = 0;
                while i < fields.len()
                    invariant
                        i <= fields.len(),
                        wanted@ == key@,
                        *self == Json::Object(*fields),
                        all == self@->Object_0,
                        all.len() == fields@.len(),
                        field_of(all, key@) == field_of(all.subrange(i as int, all.len() as int),
                            key@),
                    decreases fields.len() - i,
                {
                    let ghost rest = all.subrange(i as int, all.len() as int);
                    proof {
                        assert(rest[0] == all[i as int]);
                        assert(rest.drop_first() =~= all.subrange(i + 1, all.len() as int));
                    }
                    if fields[i].0 == wanted {
                        return Some(&fields[i].1);
                    }
                    i += 1;
                }
                None
            },
            _ => None,
        }
    }

    /// The value at a dotted path of field names: `a.b` is the field `b` of
    /// the field `a`. `None` where a field on the way is missing or a value on
    /// the way is no object.
    pub fn get_path<'a>(&'a self, path: &str) -> (r: Option<&'a Json>)
        ensures
            match r {
                Some(j) => value_at(self@, split_dots(path@)) == Some(j@),
                None => value_at(self@, split_dots(path@)) is None,
            },
    {
        let n = path.unicode_len();
        let mut cur: &'a Json = self;
        let mut start: usize = 0;
        let mut i: usize = 0;
        proof {
            assert(path@.subrange(0, n as int) =~= path@);
        }
        while i < n
            invariant
                n == path@.len(),
                start <= i <= n,
                forall|j: int| start <= j < i ==> path@[j] != '.',
                value_at(self@, split_dots(path@)) == value_at(
                    cur@,
                    split_dots(path@.subrange(start as int, n as int)),
                ),
            decreases n - i,
        {
            let c = path.get_char(i);
            if c == '.' {
                let segment = path.substring_char(start, i);
                let ghost rest = path@.subrange(start as int, n as int);
                proof {
                    lemma_first_dot(rest, i - start);
                    assert(rest.subrange(0, i - start) =~= segment@);
                    assert(rest.subrange(i - start + 1, rest.len() as int) =~= path@.subrange(
                        i + 1,
                        n as int,
                    ));
                    let segments = split_dots(rest);
                    assert(segments[0] == segment@);
                    assert(segments.drop_first() =~= split_dots(path@.subrange(i + 1, n as int)));
                }
                match cur.get_field(segment) {
                    Some(child) => {
                        cur = child;
                    },
                    None => {
                        return None;
                    },
                }
                start = i + 1;
            }
            i += 1;
        }
        let segment = path.substring_char(start, n);
        proof {
            let rest = path@.subrange(start as int, n as int);
            lemma_first_dot(rest, rest.len() as int);
            assert(rest =~= segment@);
            let segments = split_dots(rest);
            assert(segments =~= seq![segment@]);
            assert(segments.drop_first().len() == 0);
            assert(segments[0] == segment@);
            reveal_with_fuel(value_at, 3);
        }
        cur.get_field(segment)
    }

    /// The items, where `self` is an array.
    pub fn as_array(&self) -> (r: Option<&Vec<Json>>)
        ensures
            match r {
                Some(items) => self@ == JsonValue::Array(items_view(items@)),
                None => !(self@ is Array),
            },
    {
        match self {
            Json::Array(items) => {
                proof {
                    lemma_array_view(*items);
                }
                Some(items)
            },
            _ => None,
        }
    }

    /// The text, where `self` is a string.
    pub fn as_str(&self) -> (r: Option<&str>)
        ensures
            match r {
                Some(s) => self@ == JsonValue::Str(s@),
                None => !(self@ is Str),
            },
    {
        match self {
            Json::Str(s) => Some(s.as_str()),
            _ => None,
        }
    }

    /// The number, where `self` is a non-negative integer that fits a `usize`.
    pub fn as_usize(&self) -> (r: Option<usize>)
        ensures
            match r {
                Some(n) => self@ == JsonValue::Unsigned(n as u64),
                None => !(self@ is Unsigned) || self@->Unsigned_0 > usize::MAX,
            },
    {
        match self {
            Json::Unsigned(n) => {
                if *n <= usize::MAX as u64 {
                    Some(*n as usize)
                } else {
                    None
                }
            },
            _ => None,
        }
    }

    /// Whether a sensor that returned this value has seen what it waits for.
    pub fn is_truthy(&self) -> (r: bool)
        ensures
            r == truthy(self@),
    {
        match self {
            Json::Null => false,
            Json::Bool(b) => *b,
            _ => true,
        }
    }
}

} // verus!
