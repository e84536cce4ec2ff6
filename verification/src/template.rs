//! Template arguments: JSON in which a placeholder stands for the result of
//! an upstream task, and how the placeholders are replaced.
//!
//! A placeholder is an object with the fields `upstream_task_id`, a task id,
//! and `key`, a dotted path into the result; an empty path stands for the
//! whole result.

use crate::json::{
    field_of, fields_view, items_view, lemma_array_view, lemma_object_view, split_dots, value_at,
    Json, JsonValue,
};
use vstd::prelude::*;

verus! {

pub const UPSTREAM_TASK_ID_KEY: &'static str = "upstream_task_id";

pub const UPSTREAM_TASK_RESULT_KEY: &'static str = "key";

/// Why the placeholders of a template could not be replaced.
#[derive(Clone, Copy, Debug, PartialEq, Eq, Structural)]
pub enum ResolveError {
    /// The task that a placeholder names has no result to give.
    MissingResult { task: usize },
    /// The result of the task has no value at the placeholder's path.
    MissingField { task: usize },
}

pub open spec fn id_key() -> Seq<char> {
    "upstream_task_id"@
}

pub open spec fn path_key() -> Seq<char> {
    "key"@
}

/// The task and the path that a placeholder names, where `v` is one.
pub open spec fn as_reference(v: JsonValue) -> Option<(usize, Seq<char>)> {
    match v {
        JsonValue::Object(fields) => match (field_of(fields, id_key()), field_of(fields,
            path_key())) {
            (Some(JsonValue::Unsigned(n)), Some(JsonValue::Str(path))) => if n <= usize::MAX {
                Some((n as usize, path))
            } else {
                None
            },
            _ => None,
        },
        _ => None,
    }
}

/// The placeholder for the value at `path` of the result of `task`.
pub open spec fn reference_value(task: usize, path: Seq<char>) -> JsonValue {
    JsonValue::Object(
        seq![(id_key(), JsonValue::Unsigned(task as u64)), (path_key(), JsonValue::Str(path))],
    )
}

/// What stands in for a placeholder with this path, given the result.
pub open spec fn substituted(result: JsonValue, path: Seq<char>) -> Option<JsonValue> {
    if path.len() == 0 {
        Some(result)
    } else {
        value_at(result, split_dots(path))
    }
}

/// The values by task, as a list of pairs gives them; of two pairs for one
/// task the later one counts.
pub open spec fn lookup_of(values: Seq<(usize, JsonValue)>) -> Map<usize, JsonValue>
    decreases values.len(),
{
    if values.len() == 0 {
        Map::empty()
    } else {
        lookup_of(values.drop_last()).insert(values.last().0, values.last().1)
    }
}

/// The template with every placeholder replaced, or the first reason, in
/// the order of the text, why one could not be.
pub open spec fn resolved(template: JsonValue, values: Map<usize, JsonValue>) -> Result<
    JsonValue,
    ResolveError,
>
    decreases template, 0nat,
{
    match as_reference(template) {
        Some((task, path)) => if values.dom().contains(task) {
            match substituted(values[task], path) {
                Some(v) => Ok(v),
                None => Err(ResolveError::MissingField { task }),
            }
        } else {
            Err(ResolveError::MissingResult { task })
        },
        None => match template {
            JsonValue::Array(items) => match resolved_items(items, values, items.len()) {
                Ok(s) => Ok(JsonValue::Array(s)),
                Err(e) => Err(e),
            },
            JsonValue::Object(fields) => match resolved_fields(fields, values, fields.len()) {
                Ok(s) => Ok(JsonValue::Object(s)),
                Err(e) => Err(e),
            },
            other => Ok(other),
        },
    }
}

/// The first `n` items, each resolved.
pub open spec fn resolved_items(items: Seq<JsonValue>, values: Map<usize, JsonValue>,
    n: nat) -> Result<
    Seq<JsonValue>,
    ResolveError,
>
    decreases items, n,
{
    if n == 0 || n > items.len() {
        Ok(Seq::empty())
    } else {
        match resolved_items(items, values, (n - 1) as nat) {
            Err(e) => Err(e),
            Ok(front) => match resolved(items[n - 1], values) {
                Err(e) => Err(e),
                Ok(v) => Ok(front.push(v)),
            },
        }
    }
}

/// The first `n` fields, the value of each resolved.
pub open spec fn resolved_fields(
    fields: Seq<(Seq<char>, JsonValue)>,
    values: Map<usize, JsonValue>,
    n: nat,
) -> Result<Seq<(Seq<char>, JsonValue)>, ResolveError>
    decreases fields, n,
{
    if n == 0 || n > fields.len() {
        Ok(Seq::empty())
    } else {
        match resolved_fields(fields, values, (n - 1) as nat) {
            Err(e) => Err(e),
            Ok(front) => match resolved(fields[n - 1].1, values) {
                Err(e) => Err(e),
                Ok(v) => Ok(front.push((fields[n - 1].0, v))),
            },
        }
    }
}

pub open spec fn values_view(values: Seq<(usize, Json)>) -> Seq<(usize, JsonValue)> {
    Seq::new(values.len(), |i: int| (values[i].0, values[i].1@))
}

/// The placeholder for the value at `path` of the result of `task`; the
/// empty path stands for the whole result.
pub fn make_reference(task: usize, path: &str) -> (r: Json)
    ensures
        r@ == reference_value(task, path@),
{
    let mut fields: Vec<(String, Json)> = Vec::new();
    fields.push((UPSTREAM_TASK_ID_KEY.to_owned(), Json::Unsigned(task as u64)));
    fields.push((UPSTREAM_TASK_RESULT_KEY.to_owned(), Json::Str(path.to_owned())));
    proof {
        lemma_object_view(fields);
        assert(fields_view(fields@) =~= seq![
            (id_key(), JsonValue::Unsigned(task as u64)),
            (path_key(), JsonValue::Str(path@)),
        ]);
    }
    Json::Object(fields)
}

/// The task and the path that a placeholder names, where `j` is one.
pub fn reference_of(j: &Json) -> (r: Option<(usize, &str)>)
    ensures
        match r {
            Some((task, path)) => as_reference(j@) == Some((task, path@)),
            None => as_reference(j@) is None,
        },
{
    let id = match j.get_field(UPSTREAM_TASK_ID_KEY) {
        Some(v) => v,
        None => {
            return None;
        },
    };
    let key = match j.get_field(UPSTREAM_TASK_RESULT_KEY) {
        Some(v) => v,
        None => {
            return None;
        },
    };
    match (id.as_usize(), key.as_str()) {
        (Some(task), Some(path)) => Some((task, path)),
        _ => None,
    }
}

/// The value given for the task, if there is one.
fn find_value(values: &Vec<(usize, Json)>, task: usize) -> (r: Option<&Json>)
    ensures
        match r {
            Some(v) => lookup_of(values_view(values@)).dom().contains(task) && lookup_of(
                values_view(values@),
            )[task] == v@,
            None => !lookup_of(values_view(values@)).dom().contains(task),
        },
{
    let ghost all = values_view(values@);
    let mut i: usize = values.len();
    proof {
        assert(all.subrange(0, i as int) =~= all);
    }
    while i > 0
        invariant
            i <= values.len(),
            all == values_view(values@),
            lookup_of(all).dom().contains(task) == lookup_of(all.subrange(0,
                i as int)).dom().contains(
                task,
            ),
            lookup_of(all).dom().contains(task) ==> lookup_of(all)[task] == lookup_of(
                all.subrange(0, i as int),
            )[task],
        decreases i,
    {
        let ghost prefix = all.subrange(0, i as int);
        proof {
            assert(prefix.drop_last() =~= all.subrange(0, i - 1));
            assert(prefix.last() == all[i - 1]);
        }
        if values[i - 1].0 == task {
            return Some(&values[i - 1].1);
        }
        i -= 1;
    }
    proof {
        assert(all.subrange(0, 0).len() == 0);
    }
    None
}

/// Replaces every placeholder of the template by the value that it names:
/// the value given for its task, or the value at its path within that. Fails
/// at the first placeholder, in the order of the text, whose task has no
/// value given or whose path leads nowhere.
pub fn resolve(template: &Json, values: &Vec<(usize, Json)>) -> (r: Result<Json, ResolveError>)
    ensures
        match r {
            Ok(j) => resolved(template@, lookup_of(values_view(values@))) == Ok::<
                JsonValue,
                ResolveError,
            >(j@),
            Err(e) => resolved(template@, lookup_of(values_view(values@))) == Err::<
                JsonValue,
                ResolveError,
            >(e),
        },
    decreases template,
{
    let ghost lookup = lookup_of(values_view(values@));
    if let Some((task, path)) = reference_of(template) {
        return match find_value(values, task) {
            None => Err(ResolveError::MissingResult { task }),
            Some(v) => {
                if path.unicode_len() == 0 {
                    Ok(v.duplicate())
                } else {
                    match v.get_path(path) {
                        Some(x) => Ok(x.duplicate()),
                        None => Err(ResolveError::MissingField { task }),
                    }
                }
            },
        };
    }
    match template {
        Json::Array(items) => {
            proof {
                lemma_array_view(*items);
            }
            let ghost all = items_view(items@);
            let mut out: Vec<Json> = Vec::new();
            let mut i: usize = 0;
            proof {
                assert(items_view(out@) =~= Seq::empty());
            }
            while i < items.len()
                invariant
                    i <= items.len(),
                    *template == Json::Array(*items),
                    all == items_view(items@),
                    template@ == JsonValue::Array(all),
                    as_reference(template@) is None,
                    lookup == lookup_of(values_view(values@)),
                    resolved_items(all, lookup, i as nat) == Ok::<Seq<JsonValue>, ResolveError>(
                        items_view(out@),
                    ),
                decreases items.len() - i,
            {
                proof {
                    vstd::std_specs::vec::axiom_vec_index_decreases(*items, i as int);
                    assert(decreases_to!(*template => template->Array_0));
                }
                match resolve(&items[i], values) {
                    Ok(v) => {
                        proof {
                            assert(all[i as int] == items@[i as int]@);
                            assert(items_view(out@.push(v)) =~= items_view(out@).push(v@));
                        }
                        out.push(v);
                    },
                    Err(e) => {
                        proof {
                            assert(all[i as int] == items@[i as int]@);
                            assert(resolved_items(all, lookup, (i + 1) as nat) == Err::<
                                Seq<JsonValue>,
                                ResolveError,
                            >(e));
                            lemma_items_fail(all, lookup, (i + 1) as nat, items.len() as nat);
                        }
                        return Err(e);
                    },
                }
                i += 1;
            }
            proof {
                lemma_array_view(out);
            }
            Ok(Json::Array(out))
        },
        Json::Object(fields) => {
            proof {
                lemma_object_view(*fields);
            }
            let ghost all = fields_view(fields@);
            let mut out: Vec<(String, Json)> = Vec::new();
            let mut i: usize = 0;
            proof {
                assert(fields_view(out@) =~= Seq::empty());
            }
            while i < fields.len()
                invariant
                    i <= fields.len(),
                    *template == Json::Object(*fields),
                    all == fields_view(fields@),
                    template@ == JsonValue::Object(all),
                    as_reference(template@) is None,
                    lookup == lookup_of(values_view(values@)),
                    resolved_fields(all, lookup, i as nat) == Ok::<
                        Seq<(Seq<char>, JsonValue)>,
                        ResolveError,
                    >(fields_view(out@)),
                decreases fields.len() - i,
            {
                proof {
                    vstd::std_specs::vec::axiom_vec_index_decreases(*fields, i as int);
                    assert(decreases_to!(*template => template->Object_0));
                    assert(decreases_to!(fields[i as int] => fields[i as int].1));
                }
                match resolve(&fields[i].1, values) {
                    Ok(v) => {
                        let name = fields[i].0.clone();
                        proof {
                            assert(all[i as int] == (fields@[i as int].0@, fields@[i as int].1@));
                            assert(fields_view(out@.push((name, v))) =~= fields_view(out@).push(
                                (name@, v@),
                            ));
                        }
                        out.push((name, v));
                    },
                    Err(e) => {
                        proof {
                            assert(all[i as int] == (fields@[i as int].0@, fields@[i as int].1@));
                            assert(resolved_fields(all, lookup, (i + 1) as nat) == Err::<
                                Seq<(Seq<char>, JsonValue)>,
                                ResolveError,
                            >(e));
                            lemma_fields_fail(all, lookup, (i + 1) as nat, fields.len() as nat);
                        }
                        return Err(e);
                    },
                }
                i += 1;
            }
            proof {
                lemma_object_view(out);
            }
            Ok(Json::Object(out))
        },
        _ => Ok(template.duplicate()),
    }
}

/// A failure among the first items is the failure of any longer run of them.
proof fn lemma_items_fail(items: Seq<JsonValue>, values: Map<usize, JsonValue>, n: nat, m: nat)
    requires
        resolved_items(items, values, n) is Err,
        n <= m <= items.len(),
    ensures
        resolved_items(items, values, m) == resolved_items(items, values, n),
    decreases m,
{
    if n < m {
        lemma_items_fail(items, values, n, (m - 1) as nat);
    }
}

/// A failure among the first fields is the failure of any longer run of
/// them.
proof fn lemma_fields_fail(
    fields: Seq<(Seq<char>, JsonValue)>,
    values: Map<usize, JsonValue>,
    n: nat,
    m: nat,
)
    requires
        resolved_fields(fields, values, n) is Err,
        n <= m <= fields.len(),
    ensures
        resolved_fields(fields, values, m) == resolved_fields(fields, values, n),
    decreases m,
{
    if n < m {
        lemma_fields_fail(fields, values, n, (m - 1) as nat);
    }
}

/// A placeholder with a path is replaced by the value at that path of the
/// result it names, and cannot be replaced where the result has no such
/// value.
pub proof fn lemma_reference_resolves(task: usize, path: Seq<char>, values: Map<usize, JsonValue>)
    requires
        values.dom().contains(task),
        path.len() > 0,
    ensures
        match value_at(values[task], split_dots(path)) {
            Some(v) => resolved(reference_value(task, path), values) == Ok::<JsonValue,
                ResolveError>(v),
            None => resolved(reference_value(task, path), values) == Err::<JsonValue, ResolveError>(
                ResolveError::MissingField { task },
            ),
        },
{
    lemma_reference_is_one(task, path);
}

/// A placeholder names the task and the path that it was made of.
pub proof fn lemma_reference_is_one(task: usize, path: Seq<char>)
    ensures
        as_reference(reference_value(task, path)) == Some((task, path)),
{
    let fields = seq![(id_key(), JsonValue::Unsigned(task as u64)), (path_key(),
        JsonValue::Str(path))];
    reveal_strlit("upstream_task_id");
    reveal_strlit("key");
    assert(id_key() != path_key()) by {
        assert(id_key().len() == 16);
        assert(path_key().len() == 3);
    }
    reveal_with_fuel(field_of, 3);
    assert(fields.drop_first()[0] == fields[1]);
    assert(field_of(fields, id_key()) == Some(JsonValue::Unsigned(task as u64)));
    assert(field_of(fields, path_key()) == Some(JsonValue::Str(path)));
}

} // verus!
