//! The builder of a pipeline: tasks are added one by one, each with edges
//! from the tasks whose results its arguments name, and the edges never come
//! to hold a cycle.

use crate::graph::{acyclic, has_path, lemma_edge_keeps_acyclic, lemma_sink_reaches_itself, reaches};
use crate::json::{fields_view, items_view, lemma_array_view, lemma_object_view, Json, JsonValue};
use crate::lists::lemma_pushed_contains;
use crate::task::{tasks_view, Task, TaskOptions, TaskView};
use crate::template::{
    as_reference, lemma_reference_is_one, make_reference, reference_of, reference_value,
};
use vstd::prelude::*;

verus! {

/// Why a task or an edge could not be added.
#[derive(Clone, Copy, Debug, PartialEq, Eq, Structural)]
pub enum BuildError {
    /// The edge would close a cycle.
    CycleDetected,
    /// Names are to be unique and the name is taken.
    DuplicateName,
    /// A task is named that has not been added.
    InvalidReference,
}

/// A handle to a task that was added, by which later tasks name its result.
#[derive(Clone, Copy, Debug, PartialEq, Eq, Structural)]
pub struct TaskRef {
    pub id: usize,
}

impl TaskRef {
    /// The placeholder for the whole result of the task.
    pub fn value(&self) -> (r: Json)
        ensures
            r@ == reference_value(self.id, Seq::empty()),
    {
        let r = make_reference(self.id, "");
        proof {
            reveal_strlit("");
            assert(""@ =~= Seq::<char>::empty());
        }
        r
    }

    /// The placeholder for the value at a dotted path of field names within
    /// the result of the task.
    pub fn get(&self, path: &str) -> (r: Json)
        ensures
            r@ == reference_value(self.id, path@),
    {
        make_reference(self.id, path)
    }
}

/// The template holds a placeholder for the result of `task`.
pub open spec fn referenced(template: JsonValue, task: usize) -> bool
    decreases template,
{
    match as_reference(template) {
        Some((id, _)) => id == task,
        None => match template {
            JsonValue::Array(items) => exists|i: int|
                0 <= i < items.len() && referenced(#[trigger] items[i], task),
            JsonValue::Object(fields) => exists|i: int|
                0 <= i < fields.len() && referenced((#[trigger] fields[i]).1, task),
            _ => false,
        },
    }
}

/// One of the first `upto` items holds a placeholder for `task`.
spec fn items_reference(items: Seq<JsonValue>, upto: int, task: usize) -> bool {
    exists|k: int| 0 <= k < upto && k < items.len() && referenced(#[trigger] items[k], task)
}

/// The value of one of the first `upto` fields holds a placeholder for
/// `task`.
spec fn fields_reference(fields: Seq<(Seq<char>, JsonValue)>, upto: int, task: usize) -> bool {
    exists|k: int| 0 <= k < upto && k < fields.len() && referenced((#[trigger] fields[k]).1, task)
}

proof fn lemma_items_reference_step(items: Seq<JsonValue>, upto: int, task: usize)
    requires
        0 <= upto < items.len(),
    ensures
        items_reference(items, upto + 1, task) <==> items_reference(items, upto, task)
            || referenced(items[upto], task),
{
    if items_reference(items, upto + 1, task) {
        let k = choose|k: int| 0 <= k < upto + 1 && k < items.len()
            && referenced(#[trigger] items[k], task);
        if k < upto {
            assert(items_reference(items, upto, task));
        }
    }
    if items_reference(items, upto, task) {
        let k = choose|k: int| 0 <= k < upto && k < items.len()
            && referenced(#[trigger] items[k], task);
        assert(0 <= k < upto + 1 && referenced(items[k], task));
    }
    if referenced(items[upto], task) {
        assert(items_reference(items, upto + 1, task));
    }
}

proof fn lemma_fields_reference_step(fields: Seq<(Seq<char>, JsonValue)>, upto: int, task: usize)
    requires
        0 <= upto < fields.len(),
    ensures
        fields_reference(fields, upto + 1, task) <==> fields_reference(fields, upto, task)
            || referenced(fields[upto].1, task),
{
    if fields_reference(fields, upto + 1, task) {
        let k = choose|k: int| 0 <= k < upto + 1 && k < fields.len()
            && referenced((#[trigger] fields[k]).1, task);
        if k < upto {
            assert(fields_reference(fields, upto, task));
        }
    }
    if fields_reference(fields, upto, task) {
        let k = choose|k: int| 0 <= k < upto && k < fields.len()
            && referenced((#[trigger] fields[k]).1, task);
        assert(0 <= k < upto + 1 && referenced(fields[k].1, task));
    }
    if referenced(fields[upto].1, task) {
        assert(fields_reference(fields, upto + 1, task));
    }
}

/// Adds to `out` the tasks for whose results the template holds
/// placeholders.
fn collect_references(template: &Json, out: &mut Vec<usize>)
    ensures
        forall|id: usize|
            #[trigger] final(out)@.contains(id) <==> old(out)@.contains(id)
                || referenced(template@, id),
    decreases template,
{
    let ghost start = out@;
    if let Some((id, _)) = reference_of(template) {
        out.push(id);
        proof {
            lemma_pushed_contains(start, id);
        }
        return ;
    }
    match template {
        Json::Array(items) => {
            proof {
                lemma_array_view(*items);
            }
            let ghost all = items_view(items@);
            let mut i: usize = 0;
            while i < items.len()
                invariant
                    i <= items.len(),
                    *template == Json::Array(*items),
                    all == items_view(items@),
                    forall|id: usize|
                        #[trigger] out@.contains(id) <==> start.contains(id)
                            || items_reference(all, i as int, id),
                decreases items.len() - i,
            {
                proof {
                    vstd::std_specs::vec::axiom_vec_index_decreases(*items, i as int);
                    assert(decreases_to!(*template => template->Array_0));
                    assert(all[i as int] == items@[i as int]@);
                }
                let ghost before = out@;
                collect_references(&items[i], out);
                proof {
                    assert forall|id: usize|
                        #[trigger] out@.contains(id) <==> start.contains(id)
                            || items_reference(all, i + 1, id) by {
                        lemma_items_reference_step(all, i as int, id);
                        assert(before.contains(id) <==> start.contains(id)
                            || items_reference(all, i as int, id));
                    }
                }
                i += 1;
            }
            proof {
                assert(template@ == JsonValue::Array(all));
                assert(as_reference(template@) is None);
                assert forall|id: usize| items_reference(all, all.len() as int, id)
                    == referenced(template@, id) by {
                    if referenced(template@, id) {
                        let k = choose|k: int| 0 <= k < all.len()
                            && referenced(#[trigger] all[k], id);
                        assert(items_reference(all, all.len() as int, id));
                    }
                    if items_reference(all, all.len() as int, id) {
                        let k = choose|k: int| 0 <= k < all.len() && k < all.len()
                            && referenced(#[trigger] all[k], id);
                        assert(0 <= k < all.len() && referenced(all[k], id));
                        assert(template@->Array_0 == all);
                        assert(exists|i: int| 0 <= i < all.len()
                            && referenced(#[trigger] all[i], id));
                        assert(referenced(JsonValue::Array(all), id));
                    }
                }
            }
        },
        Json::Object(fields) => {
            proof {
                lemma_object_view(*fields);
            }
            let ghost all = fields_view(fields@);
            let mut i: usize = 0;
            while i < fields.len()
                invariant
                    i <= fields.len(),
                    *template == Json::Object(*fields),
                    all == fields_view(fields@),
                    forall|id: usize|
                        #[trigger] out@.contains(id) <==> start.contains(id)
                            || fields_reference(all, i as int, id),
                decreases fields.len() - i,
            {
                proof {
                    vstd::std_specs::vec::axiom_vec_index_decreases(*fields, i as int);
                    assert(decreases_to!(*template => template->Object_0));
                    assert(decreases_to!(fields[i as int] => fields[i as int].1));
                    assert(all[i as int] == (fields@[i as int].0@, fields@[i as int].1@));
                }
                let ghost before = out@;
                collect_references(&fields[i].1, out);
                proof {
                    assert forall|id: usize|
                        #[trigger] out@.contains(id) <==> start.contains(id)
                            || fields_reference(all, i + 1, id) by {
                        lemma_fields_reference_step(all, i as int, id);
                        assert(before.contains(id) <==> start.contains(id)
                            || fields_reference(all, i as int, id));
                    }
                }
                i += 1;
            }
            proof {
                assert(template@ == JsonValue::Object(all));
                assert(as_reference(template@) is None);
                assert forall|id: usize| fields_reference(all, all.len() as int, id)
                    == referenced(template@, id) by {
                    if fields_reference(all, all.len() as int, id) {
                        let k = choose|k: int| 0 <= k < all.len() && k < all.len()
                            && referenced((#[trigger] all[k]).1, id);
                        assert(0 <= k < all.len() && referenced(all[k].1, id));
                        assert(referenced(template@, id));
                    }
                    if referenced(template@, id) {
                        let k = choose|k: int| 0 <= k < all.len()
                            && referenced((#[trigger] all[k]).1, id);
                        assert(fields_reference(all, all.len() as int, id));
                    }
                }
            }
        },
        _ => {},
    }
}

/// The tasks for whose results the template holds placeholders.
pub fn references(template: &Json) -> (r: Vec<usize>)
    ensures
        forall|id: usize| #[trigger] r@.contains(id) <==> referenced(template@, id),
{
    let mut out: Vec<usize> = Vec::new();
    collect_references(template, &mut out);
    out
}

/// A pipeline under construction.
pub struct Dag {
    tasks: Vec<Task>,
    edges: Vec<(usize, usize)>,
    functions: Vec<String>,
    unique_names: bool,
}

pub open spec fn strings_view(names: Seq<String>) -> Seq<Seq<char>> {
    Seq::new(names.len(), |i: int| names[i]@)
}

impl Dag {
    /// The tasks, by id.
    pub closed spec fn tasks(&self) -> Seq<TaskView> {
        tasks_view(self.tasks@)
    }

    /// The pairs (upstream, downstream).
    pub closed spec fn edges(&self) -> Set<(usize, usize)> {
        self.edges@.to_set()
    }

    /// The names of the functions that the tasks run.
    pub closed spec fn functions(&self) -> Seq<Seq<char>> {
        strings_view(self.functions@)
    }

    /// Whether no two tasks may have one name.
    pub closed spec fn unique_names(&self) -> bool {
        self.unique_names
    }

    /// Some task has the name.
    pub open spec fn name_taken(&self, name: Seq<char>) -> bool {
        exists|i: int| 0 <= i < self.tasks().len() && (#[trigger] self.tasks()[i]).name == name
    }

    /// The tasks carry their place as id and have at least one attempt; the
    /// edges join tasks and hold no cycle; what a task's arguments name is
    /// upstream of the task; and names are unique where they are to be.
    pub open spec fn wf(&self) -> bool {
        &&& self.inner_wf()
        &&& forall|i: int|
            0 <= i < self.tasks().len() ==> (#[trigger] self.tasks()[i]).id == i
                && self.tasks()[i].options.max_attempts >= 1
        &&& forall|e: (usize, usize)| #[trigger]
            self.edges().contains(e) ==> e.0 < self.tasks().len() && e.1 < self.tasks().len()
        &&& acyclic(self.edges())
        &&& forall|i: int, up: usize|
            0 <= i < self.tasks().len()
                && referenced((#[trigger] self.tasks()[i]).template_args, up)
                ==> #[trigger] self.edges().contains((up, i as usize))
        &&& self.unique_names() ==> forall|i: int, j: int|
            0 <= i < j < self.tasks().len() ==> (#[trigger] self.tasks()[i]).name != (
            #[trigger] self.tasks()[j]).name
    }

    /// No edge is held twice.
    pub closed spec fn inner_wf(&self) -> bool {
        self.edges@.no_duplicates()
    }

    /// A pipeline without tasks.
    pub fn new(unique_names: bool) -> (r: Dag)
        ensures
            r.wf(),
            r.tasks().len() == 0,
            r.edges() == Set::<(usize, usize)>::empty(),
            r.unique_names() == unique_names,
    {
        let r = Dag { tasks: Vec::new(), edges: Vec::new(), functions: Vec::new(), unique_names };
        proof {
            assert(r.edges() =~= Set::empty());
            let rank = |x: usize| 0nat;
            assert(crate::graph::ranked(r.edges(), rank));
        }
        r
    }

    /// How many tasks there are.
    pub fn len(&self) -> (r: usize)
        ensures
            r == self.tasks().len(),
    {
        self.tasks.len()
    }

    fn has_name(&self, name: &str) -> (r: bool)
        ensures
            r == self.name_taken(name@),
    {
        let wanted = name.to_owned();
        let mut i: usize = 0;
        while i < self.tasks.len()
            invariant
                i <= self.tasks.len(),
                wanted@ == name@,
                forall|k: int| 0 <= k < i ==> (#[trigger] self.tasks()[k]).name != name@,
            decreases self.tasks.len() - i,
        {
            if self.tasks[i].name == wanted {
                assert(self.tasks()[i as int].name == name@);
                return true;
            }
            i += 1;
        }
        false
    }

    fn has_edge(&self, edge: (usize, usize)) -> (r: bool)
        ensures
            r == self.edges().contains(edge),
    {
        let mut i: usize = 0;
        while i < self.edges.len()
            invariant
                i <= self.edges.len(),
                forall|k: int| 0 <= k < i ==> self.edges@[k] != edge,
            decreases self.edges.len() - i,
        {
            let e = self.edges[i];
            if e.0 == edge.0 && e.1 == edge.1 {
                assert(self.edges@.contains(edge));
                return true;
            }
            i += 1;
        }
        false
    }
}

/// The task that the builder makes of what it is given.
pub open spec fn new_task(
    id: usize,
    name: Seq<char>,
    function: Seq<char>,
    args: JsonValue,
    options: crate::task::TaskOptionsView,
    lazy_expand: bool,
    is_branch: bool,
    use_trigger_params: bool,
) -> TaskView {
    TaskView {
        id,
        name,
        function,
        template_args: args,
        options,
        lazy_expand,
        is_dynamic: false,
        is_branch,
        use_trigger_params,
    }
}

/// The edges that lead to `task` from the tasks that `args` names.
pub open spec fn edges_into(args: JsonValue, task: usize) -> Set<(usize, usize)> {
    Set::new(|e: (usize, usize)| e.1 == task && referenced(args, e.0))
}

impl Dag {
    /// Why a task of this name with these arguments cannot be added: the name
    /// is taken where names are unique; or the arguments name the task itself,
    /// which would close a cycle; or they name a task that is not there.
    pub open spec fn add_error(&self, name: Seq<char>, args: JsonValue) -> Option<BuildError> {
        if self.unique_names() && self.name_taken(name) {
            Some(BuildError::DuplicateName)
        } else if referenced(args, self.tasks().len() as usize) {
            Some(BuildError::CycleDetected)
        } else if exists|id: usize| id > self.tasks().len() && referenced(args, id) {
            Some(BuildError::InvalidReference)
        } else {
            None
        }
    }

    /// The functions once `function` is among them.
    pub open spec fn with_function(functions: Seq<Seq<char>>,
        function: Seq<char>) -> Seq<Seq<char>> {
        if functions.contains(function) {
            functions
        } else {
            functions.push(function)
        }
    }

    /// `self` is `before` with one task added, and with the edges that its
    /// arguments ask for.
    pub open spec fn added(&self, before: &Dag, task: TaskView) -> bool {
        &&& self.tasks() == before.tasks().push(task)
        &&& self.edges() == before.edges().union(edges_into(task.template_args, task.id))
        &&& self.functions() == Self::with_function(before.functions(), task.function)
        &&& self.unique_names() == before.unique_names()
    }

    fn register(&mut self, function: &str)
        ensures
            final(self).functions() == Self::with_function(old(self).functions(), function@),
            final(self).tasks == old(self).tasks,
            final(self).edges == old(self).edges,
            final(self).unique_names == old(self).unique_names,
    {
        let wanted = function.to_owned();
        let mut i: usize = 0;
        while i < self.functions.len()
            invariant
                i <= self.functions.len(),
                *self == *old(self),
                wanted@ == function@,
                forall|k: int| 0 <= k < i ==> (#[trigger] self.functions()[k]) != function@,
            decreases self.functions.len() - i,
        {
            if self.functions[i] == wanted {
                proof {
                    assert(self.functions()[i as int] == function@);
                    assert(self.functions().contains(function@));
                }
                return ;
            }
            i += 1;
        }
        proof {
            if self.functions().contains(function@) {
                let k = choose|k: int| 0 <= k < self.functions().len()
                    && self.functions()[k] == function@;
                assert(false);
            }
        }
        self.functions.push(wanted);
        proof {
            assert(self.functions() =~= old(self).functions().push(function@));
        }
    }

    /// Adds a task and the edges that its arguments ask for.
    fn add_node(
        &mut self,
        name: &str,
        function: &str,
        args: Json,
        options: TaskOptions,
        lazy_expand: bool,
        is_branch: bool,
        use_trigger_params: bool,
    ) -> (r: Result<TaskRef, BuildError>)
        requires
            old(self).wf(),
            options.wf(),
        ensures
            final(self).wf(),
            match r {
                Ok(t) => {
                    &&& old(self).add_error(name@, args@) is None
                    &&& t.id == old(self).tasks().len()
                    &&& final(self).added(
                        old(self),
                        new_task(
                            t.id,
                            name@,
                            function@,
                            args@,
                            options@,
                            lazy_expand,
                            is_branch,
                            use_trigger_params,
                        ),
                    )
                },
                Err(e) => old(self).add_error(name@, args@) == Some(e)
                    && *final(self) == *old(self),
            },
    {
        let id = self.tasks.len();
        if self.unique_names && self.has_name(name) {
            return Err(BuildError::DuplicateName);
        }
        let refs = references(&args);
        let mut i: usize = 0;
        while i < refs.len()
            invariant
                i <= refs.len(),
                *self == *old(self),
                self.wf(),
                id == self.tasks().len(),
                !(self.unique_names() && self.name_taken(name@)),
                forall|x: usize| #[trigger] refs@.contains(x) <==> referenced(args@, x),
                forall|k: int| 0 <= k < i ==> refs@[k] != id,
            decreases refs.len() - i,
        {
            if refs[i] == id {
                proof {
                    assert(refs@.contains(refs@[i as int]));
                }
                return Err(BuildError::CycleDetected);
            }
            i += 1;
        }
        proof {
            if referenced(args@, id) {
                assert(refs@.contains(id));
                let k = choose|k: int| 0 <= k < refs@.len() && refs@[k] == id;
                assert(false);
            }
        }
        let mut i: usize = 0;
        while i < refs.len()
            invariant
                i <= refs.len(),
                *self == *old(self),
                self.wf(),
                id == self.tasks().len(),
                !(self.unique_names() && self.name_taken(name@)),
                !referenced(args@, id),
                forall|x: usize| #[trigger] refs@.contains(x) <==> referenced(args@, x),
                forall|k: int| 0 <= k < i ==> refs@[k] <= id,
            decreases refs.len() - i,
        {
            if refs[i] > id {
                proof {
                    assert(refs@.contains(refs@[i as int]));
                    assert(referenced(args@, refs@[i as int]));
                }
                return Err(BuildError::InvalidReference);
            }
            i += 1;
        }
        proof {
            if exists|x: usize| x > id && referenced(args@, x) {
                let x = choose|x: usize| x > id && referenced(args@, x);
                assert(refs@.contains(x));
                let k = choose|k: int| 0 <= k < refs@.len() && refs@[k] == x;
                assert(false);
            }
        }
        let ghost view = new_task(
            id,
            name@,
            function@,
            args@,
            options@,
            lazy_expand,
            is_branch,
            use_trigger_params,
        );
        let task = Task {
            id,
            name: name.to_owned(),
            function: function.to_owned(),
            template_args: args,
            options,
            lazy_expand,
            is_dynamic: false,
            is_branch,
            use_trigger_params,
        };
        self.tasks.push(task);
        proof {
            assert(self.tasks() =~= old(self).tasks().push(view));
            assert forall|x: int| 0 <= x < id implies self.tasks()[x] == old(self).tasks()[x] by {}
        }
        let mut i: usize = 0;
        while i < refs.len()
            invariant
                i <= refs.len(),
                id == old(self).tasks().len(),
                self.tasks() == old(self).tasks().push(view),
                self.functions == old(self).functions,
                self.unique_names == old(self).unique_names,
                self.edges@.no_duplicates(),
                forall|k: int| 0 <= k < refs@.len() ==> #[trigger] refs@[k] < id,
                forall|e: (usize, usize)|
                    self.edges().contains(e) <==> old(self).edges().contains(e) || (e.1 == id
                        && exists|k: int| 0 <= k < i && #[trigger] refs@[k] == e.0),
                acyclic(self.edges()),
                forall|e: (usize, usize)| #[trigger] old(self).edges().contains(e) ==> e.0 < id
                    && e.1 < id,
            decreases refs.len() - i,
        {
            let e = (refs[i], id);
            let ghost before = self.edges();
            if !self.has_edge(e) {
                let ghost old_edges = self.edges@;
                self.edges.push(e);
                proof {
                    assert forall|x: (usize, usize)| self.edges@.contains(x)
                        <==> old_edges.contains(x) || x == e by {
                        if old_edges.contains(x) {
                            let m = choose|m: int| 0 <= m < old_edges.len() && old_edges[m] == x;
                            assert(self.edges@[m] == x);
                        }
                        if x == e {
                            assert(self.edges@[old_edges.len() as int] == x);
                        }
                        if self.edges@.contains(x) {
                            let m = choose|m: int| 0 <= m < self.edges@.len()
                                && self.edges@[m] == x;
                            if m < old_edges.len() {
                                assert(old_edges[m] == x);
                            }
                        }
                    }
                    assert(self.edges() =~= before.insert(e));
                    assert forall|x: usize| !before.contains((id, x)) by {
                        if before.contains((id, x)) {
                            if old(self).edges().contains((id, x)) {
                                assert(id < id);
                            }
                        }
                    }
                    if reaches(before, id, e.0) {
                        lemma_sink_reaches_itself(before, id, e.0);
                    }
                    lemma_edge_keeps_acyclic(before, e.0, id);
                }
            }
            proof {
                assert forall|x: (usize, usize)|
                    self.edges().contains(x) <==> old(self).edges().contains(x) || (x.1 == id
                        && exists|k: int| 0 <= k < i + 1 && #[trigger] refs@[k] == x.0) by {
                    if x.1 == id && exists|k: int| 0 <= k < i + 1 && #[trigger] refs@[k] == x.0 {
                        let k = choose|k: int| 0 <= k < i + 1 && #[trigger] refs@[k] == x.0;
                        if k < i {
                            assert(before.contains(x));
                        }
                    }
                    if x == e {
                        assert(refs@[i as int] == x.0);
                    }
                }
            }
            i += 1;
        }
        proof {
            assert(self.edges() =~= old(self).edges().union(edges_into(args@, id))) by {
                assert forall|x: (usize, usize)| self.edges().contains(x)
                    == old(self).edges().union(edges_into(args@, id)).contains(x) by {
                    if x.1 == id && exists|k: int| 0 <= k < refs@.len()
                        && #[trigger] refs@[k] == x.0 {
                        let k = choose|k: int| 0 <= k < refs@.len() && #[trigger] refs@[k] == x.0;
                        assert(refs@.contains(x.0));
                    }
                    if edges_into(args@, id).contains(x) {
                        assert(refs@.contains(x.0));
                        let k = choose|k: int| 0 <= k < refs@.len() && refs@[k] == x.0;
                        assert(refs@[k] == x.0);
                    }
                }
            }
        }
        self.register(function);
        proof {
            assert forall|e: (usize, usize)| #[trigger] self.edges().contains(e) implies
                e.0 < self.tasks().len() && e.1 < self.tasks().len() by {
                if !old(self).edges().contains(e) {
                    assert(refs@.contains(e.0));
                    let k = choose|k: int| 0 <= k < refs@.len() && refs@[k] == e.0;
                    assert(refs@[k] < id);
                }
            }
            assert forall|t: int, up: usize|
                0 <= t < self.tasks().len()
                    && referenced((#[trigger] self.tasks()[t]).template_args, up)
                    implies #[trigger] self.edges().contains((up, t as usize)) by {
                if t < id {
                    assert(self.tasks()[t] == old(self).tasks()[t]);
                    assert(old(self).edges().contains((up, t as usize)));
                } else {
                    assert(edges_into(args@, id).contains((up, id)));
                }
            }
            if self.unique_names() {
                assert forall|a: int, b: int| 0 <= a < b < self.tasks().len() implies
                    (#[trigger] self.tasks()[a]).name != (#[trigger] self.tasks()[b]).name by {
                    if b < id {
                        assert(self.tasks()[a] == old(self).tasks()[a]);
                        assert(self.tasks()[b] == old(self).tasks()[b]);
                    } else {
                        assert(self.tasks()[a] == old(self).tasks()[a]);
                    }
                }
            }
            assert forall|t: int| 0 <= t < self.tasks().len() implies
                (#[trigger] self.tasks()[t]).id == t
                && self.tasks()[t].options.max_attempts >= 1 by {
                if t < id {
                    assert(self.tasks()[t] == old(self).tasks()[t]);
                }
            }
        }
        Ok(TaskRef { id })
    }

    /// Adds a task that runs the function on the arguments. Every task whose
    /// result the arguments name becomes an upstream of the new task.
    pub fn add_task(&mut self, function: &str, args: Json, options: TaskOptions) -> (r: Result<
        TaskRef,
        BuildError,
    >)
        requires
            old(self).wf(),
            options.wf(),
        ensures
            final(self).wf(),
            match r {
                Ok(t) => {
                    &&& old(self).add_error(function@, args@) is None
                    &&& t.id == old(self).tasks().len()
                    &&& final(self).added(
                        old(self),
                        new_task(t.id, function@, function@, args@, options@, false, false, false),
                    )
                },
                Err(e) => old(self).add_error(function@, args@) == Some(e) && *final(self) == *old(
                    self,
                ),
            },
    {
        self.add_node(function, function, args, options, false, false, false)
    }

    /// Adds a task that runs the function on the whole result of the given
    /// task. Fails with CycleDetected where the given task is the one that
    /// would be added, and with InvalidReference where it is not there.
    pub fn add_task_with_upstream(
        &mut self,
        function: &str,
        upstream: &TaskRef,
        options: TaskOptions,
    ) -> (r: Result<TaskRef, BuildError>)
        requires
            old(self).wf(),
            options.wf(),
        ensures
            final(self).wf(),
            match r {
                Ok(t) => {
                    &&& t.id == old(self).tasks().len()
                    &&& upstream.id < t.id
                    &&& final(self).added(
                        old(self),
                        new_task(
                            t.id,
                            function@,
                            function@,
                            reference_value(upstream.id, Seq::empty()),
                            options@,
                            false,
                            false,
                            false,
                        ),
                    )
                    &&& final(self).edges() == old(self).edges().insert((upstream.id, t.id))
                },
                Err(e) => *final(self) == *old(self) && e == if old(self).unique_names() && old(
                    self,
                ).name_taken(function@) {
                    BuildError::DuplicateName
                } else if upstream.id == old(self).tasks().len() {
                    BuildError::CycleDetected
                } else {
                    BuildError::InvalidReference
                },
            },
            r is Err <==> (old(self).unique_names() && old(self).name_taken(function@))
                || upstream.id
                >= old(self).tasks().len(),
    {
        let args = upstream.value();
        proof {
            lemma_names_one(upstream.id, Seq::empty());
        }
        let ghost refval = reference_value(upstream.id, Seq::empty());
        let n = self.tasks.len();
        let r = self.add_node(function, function, args, options, false, false, false);
        proof {
            assert(n == old(self).tasks().len());
            assert(referenced(refval, upstream.id));
            if upstream.id > n {
                let w = upstream.id;
                assert(w > old(self).tasks().len() && referenced(refval, w));
            }
            if r is Ok {
                let id = old(self).tasks().len() as usize;
                assert(edges_into(reference_value(upstream.id, Seq::empty()),
                    id) =~= Set::empty().insert((upstream.id, id)));
                assert(self.edges() =~= old(self).edges().insert((upstream.id, id)));
            }
        }
        r
    }

    /// Adds a task that runs a command. The arguments are the list of the
    /// command's words, which may hold placeholders.
    pub fn add_command(&mut self, argv: Json, options: TaskOptions) -> (r: Result<TaskRef,
        BuildError>)
        requires
            old(self).wf(),
            options.wf(),
        ensures
            final(self).wf(),
            match r {
                Ok(t) => {
                    &&& old(self).add_error(crate::task::command_function(), argv@) is None
                    &&& t.id == old(self).tasks().len()
                    &&& final(self).added(
                        old(self),
                        new_task(
                            t.id,
                            crate::task::command_function(),
                            crate::task::command_function(),
                            argv@,
                            options@,
                            false,
                            false,
                            false,
                        ),
                    )
                },
                Err(e) => old(self).add_error(crate::task::command_function(), argv@) == Some(e)
                    && *final(self) == *old(self),
            },
    {
        self.add_node("command", "command", argv, options, false, false, false)
    }

    /// Adds a task that is expanded at run time: it stands for one run of
    /// the function on each item of the list that the given task results in.
    pub fn expand(&mut self, function: &str, upstream: &TaskRef,
        options: TaskOptions) -> (r: Result<
        TaskRef,
        BuildError,
    >)
        requires
            old(self).wf(),
            options.wf(),
        ensures
            final(self).wf(),
            match r {
                Ok(t) => {
                    &&& old(self).add_error(function@, reference_value(upstream.id,
                        Seq::empty())) is None
                    &&& t.id == old(self).tasks().len()
                    &&& final(self).added(
                        old(self),
                        new_task(
                            t.id,
                            function@,
                            function@,
                            reference_value(upstream.id, Seq::empty()),
                            options@,
                            true,
                            false,
                            false,
                        ),
                    )
                },
                Err(e) => old(self).add_error(function@, reference_value(upstream.id, Seq::empty()))
                    == Some(e) && *final(self) == *old(self),
            },
    {
        let args = upstream.value();
        self.add_node(function, function, args, options, true, false, false)
    }

    /// Why a branch cannot be added: for the reasons that keep its first task
    /// from being added, or because names are unique and the three names are
    /// not three, or one of them is taken.
    pub open spec fn branch_error(
        &self,
        function: Seq<char>,
        args: JsonValue,
        then_function: Seq<char>,
        else_function: Seq<char>,
    ) -> Option<BuildError> {
        match self.add_error(function, args) {
            Some(e) => Some(e),
            None => if self.unique_names() && (then_function == function || else_function
                == function || then_function == else_function || self.name_taken(then_function)
                || self.name_taken(else_function)) {
                Some(BuildError::DuplicateName)
            } else {
                None
            },
        }
    }

    /// Adds a branch: a task that runs `function` on the arguments and
    /// chooses one of two downstreams, and those two, which run
    /// `then_function` and `else_function` on its result. All three run under
    /// the given options. Gives the three handles: branch, then, else.
    pub fn add_branch(
        &mut self,
        function: &str,
        args: Json,
        then_function: &str,
        else_function: &str,
        options: TaskOptions,
    ) -> (r: Result<(TaskRef, TaskRef, TaskRef), BuildError>)
        requires
            old(self).wf(),
            options.wf(),
        ensures
            final(self).wf(),
            match r {
                Ok((b, t, e)) => {
                    let n = old(self).tasks().len();
                    let whole = reference_value(b.id, Seq::empty());
                    &&& old(self).branch_error(function@, args@, then_function@,
                        else_function@) is None
                    &&& b.id == n && t.id == n + 1 && e.id == n + 2
                    &&& final(self).tasks() == old(self).tasks().push(
                        new_task(b.id, function@, function@, args@, options@, false, true, false),
                    ).push(
                        new_task(t.id, then_function@, then_function@, whole, options@, false,
                            false, false),
                    ).push(
                        new_task(e.id, else_function@, else_function@, whole, options@, false,
                            false, false),
                    )
                    &&& final(self).edges() == old(self).edges().union(edges_into(args@,
                        b.id)).insert(
                        (b.id, t.id),
                    ).insert((b.id, e.id))
                },
                Err(e) => old(self).branch_error(function@, args@, then_function@, else_function@)
                    == Some(e) && *final(self) == *old(self),
            },
    {
        let ghost before = *self;
        if self.unique_names {
            let f = function.to_owned();
            let t = then_function.to_owned();
            let e = else_function.to_owned();
            let clash = t == f || e == f || t == e || self.has_name(then_function) || self.has_name(
                else_function,
            );
            if clash {
                // the reasons that keep the first task out come first
                if self.has_name(function) {
                    return Err(BuildError::DuplicateName);
                }
                let refs = references(&args);
                let n = self.tasks.len();
                let mut i: usize = 0;
                let mut own = false;
                let mut beyond = false;
                while i < refs.len()
                    invariant
                        i <= refs.len(),
                        *self == *old(self),
                        own == exists|k: int| 0 <= k < i && refs@[k] == n,
                        beyond == exists|k: int| 0 <= k < i && refs@[k] > n,
                    decreases refs.len() - i,
                {
                    if refs[i] == n {
                        own = true;
                    }
                    if refs[i] > n {
                        beyond = true;
                    }
                    i += 1;
                }
                proof {
                    if referenced(args@, n) {
                        assert(refs@.contains(n));
                    }
                    if own {
                        let k = choose|k: int| 0 <= k < refs@.len() && refs@[k] == n;
                        assert(refs@.contains(refs@[k]));
                    }
                    if exists|id: usize| id > n && referenced(args@, id) {
                        let id = choose|id: usize| id > n && referenced(args@, id);
                        assert(refs@.contains(id));
                        let k = choose|k: int| 0 <= k < refs@.len() && refs@[k] == id;
                        assert(refs@[k] > n);
                    }
                    if beyond {
                        let k = choose|k: int| 0 <= k < refs@.len() && refs@[k] > n;
                        assert(refs@.contains(refs@[k]));
                        assert(refs@[k] > n && referenced(args@, refs@[k]));
                    }
                }
                if own {
                    return Err(BuildError::CycleDetected);
                }
                if beyond {
                    return Err(BuildError::InvalidReference);
                }
                return Err(BuildError::DuplicateName);
            }
        }
        let then_options = options.duplicate();
        let else_options = options.duplicate();
        let b = match self.add_node(function, function, args, options, false, true, false) {
            Ok(b) => b,
            Err(e) => {
                return Err(e);
            },
        };
        let ghost with_branch = *self;
        let n1 = self.tasks.len();
        proof {
            assert(n1 == with_branch.tasks().len());
            lemma_names_one(b.id, Seq::empty());
            assert forall|name: Seq<char>| with_branch.name_taken(name)
                <==> before.name_taken(name) || name == function@ by {
                if before.name_taken(name) {
                    let i = choose|i: int| 0 <= i < before.tasks().len()
                        && (#[trigger] before.tasks()[i]).name == name;
                    assert(with_branch.tasks()[i] == before.tasks()[i]);
                }
                if name == function@ {
                    assert(with_branch.tasks()[before.tasks().len() as int].name == name);
                }
                if with_branch.name_taken(name) {
                    let i = choose|i: int| 0 <= i < with_branch.tasks().len()
                        && (#[trigger] with_branch.tasks()[i]).name == name;
                    if i < before.tasks().len() {
                        assert(before.tasks()[i] == with_branch.tasks()[i]);
                    }
                }
            }
            let whole = reference_value(b.id, Seq::empty());
            assert(with_branch.tasks().len() == before.tasks().len() + 1);
            assert(with_branch.tasks().len() == with_branch.tasks@.len());
            assert(!(with_branch.unique_names() && with_branch.name_taken(then_function@)));
            assert(!referenced(whole, with_branch.tasks().len() as usize));
            assert(!(exists|id: usize| id > with_branch.tasks().len() && referenced(whole, id)));
            assert(with_branch.add_error(then_function@, whole) is None);
        }
        let t = match self.add_node(
            then_function,
            then_function,
            b.value(),
            then_options,
            false,
            false,
            false,
        ) {
            Ok(t) => t,
            Err(e) => {
                // the name is free and the branch is there to be named
                proof {
                    assert(false);
                }
                return Err(e);
            },
        };
        let ghost with_then = *self;
        let n2 = self.tasks.len();
        proof {
            assert(n2 == with_then.tasks().len());
            assert forall|name: Seq<char>| with_then.name_taken(name)
                <==> with_branch.name_taken(name) || name == then_function@ by {
                if with_branch.name_taken(name) {
                    let i = choose|i: int| 0 <= i < with_branch.tasks().len()
                        && (#[trigger] with_branch.tasks()[i]).name == name;
                    assert(with_then.tasks()[i] == with_branch.tasks()[i]);
                }
                if name == then_function@ {
                    assert(with_then.tasks()[with_branch.tasks().len() as int].name == name);
                }
                if with_then.name_taken(name) {
                    let i = choose|i: int| 0 <= i < with_then.tasks().len()
                        && (#[trigger] with_then.tasks()[i]).name == name;
                    if i < with_branch.tasks().len() {
                        assert(with_branch.tasks()[i] == with_then.tasks()[i]);
                    }
                }
            }
            let whole = reference_value(b.id, Seq::empty());
            assert(with_then.tasks().len() == before.tasks().len() + 2);
            assert(with_then.tasks().len() == with_then.tasks@.len());
            assert(!(with_then.unique_names() && with_then.name_taken(else_function@)));
            assert(!referenced(whole, with_then.tasks().len() as usize));
            assert(!(exists|id: usize| id > with_then.tasks().len() && referenced(whole, id)));
            assert(with_then.add_error(else_function@, whole) is None);
        }
        let e = match self.add_node(
            else_function,
            else_function,
            b.value(),
            else_options,
            false,
            false,
            false,
        ) {
            Ok(e) => e,
            Err(err) => {
                // the name is free and the branch is there to be named
                proof {
                    assert(false);
                }
                return Err(err);
            },
        };
        proof {
            let whole = reference_value(b.id, Seq::empty());
            assert(edges_into(whole, t.id) =~= Set::empty().insert((b.id, t.id)));
            assert(edges_into(whole, e.id) =~= Set::empty().insert((b.id, e.id)));
            assert(self.edges() =~= before.edges().union(edges_into(args@, b.id)).insert((b.id,
                t.id)).insert((b.id, e.id)));
        }
        Ok((b, t, e))
    }

    /// Adds an edge from `upstream` to `downstream`. Fails with
    /// InvalidReference where one of the two is not there, and with
    /// CycleDetected where the edge would close a cycle: where a path leads
    /// from `downstream` to `upstream` already, or the two are one task.
    pub fn add_dependency(&mut self, upstream: &TaskRef, downstream: &TaskRef) -> (r: Result<
        (),
        BuildError,
    >)
        requires
            old(self).wf(),
        ensures
            final(self).wf(),
            final(self).tasks() == old(self).tasks(),
            final(self).functions() == old(self).functions(),
            final(self).unique_names() == old(self).unique_names(),
            match r {
                Ok(()) => final(self).edges() == old(self).edges().insert(
                    (upstream.id, downstream.id),
                ),
                Err(_) => final(self).edges() == old(self).edges(),
            },
            r == Err::<(), BuildError>(BuildError::InvalidReference) <==> upstream.id >= old(
                self,
            ).tasks().len() || downstream.id >= old(self).tasks().len(),
            r == Err::<(), BuildError>(BuildError::CycleDetected) <==> upstream.id < old(
                self,
            ).tasks().len() && downstream.id < old(self).tasks().len() && reaches(
                old(self).edges(),
                downstream.id,
                upstream.id,
            ),
    {
        let n = self.tasks.len();
        if upstream.id >= n || downstream.id >= n {
            return Err(BuildError::InvalidReference);
        }
        proof {
            assert forall|i: int| 0 <= i < self.edges@.len() implies
                (#[trigger] self.edges@[i]).0 < n && self.edges@[i].1 < n by {
                assert(self.edges@.contains(self.edges@[i]));
                assert(self.edges().contains(self.edges@[i]));
            }
        }
        if has_path(&self.edges, n, downstream.id, upstream.id) {
            return Err(BuildError::CycleDetected);
        }
        let e = (upstream.id, downstream.id);
        let ghost before = self.edges();
        if !self.has_edge(e) {
            let ghost old_edges = self.edges@;
            self.edges.push(e);
            proof {
                assert forall|x: (usize, usize)| self.edges@.contains(x)
                    <==> old_edges.contains(x) || x == e by {
                    if old_edges.contains(x) {
                        let m = choose|m: int| 0 <= m < old_edges.len() && old_edges[m] == x;
                        assert(self.edges@[m] == x);
                    }
                    if x == e {
                        assert(self.edges@[old_edges.len() as int] == x);
                    }
                    if self.edges@.contains(x) {
                        let m = choose|m: int| 0 <= m < self.edges@.len() && self.edges@[m] == x;
                        if m < old_edges.len() {
                            assert(old_edges[m] == x);
                        }
                    }
                }
                assert(self.edges() =~= before.insert(e));
            }
        } else {
            proof {
                assert(before.insert(e) =~= before);
            }
        }
        proof {
            lemma_edge_keeps_acyclic(before, e.0, e.1);
            assert forall|t: int, up: usize|
                0 <= t < self.tasks().len()
                    && referenced((#[trigger] self.tasks()[t]).template_args, up)
                    implies #[trigger] self.edges().contains((up, t as usize)) by {
                assert(before.contains((up, t as usize)));
            }
        }
        Ok(())
    }

    /// What was built: the tasks by id, the edges, each once, and the names of
    /// the functions that the tasks run.
    pub fn export(&self) -> (r: (Vec<Task>, Vec<(usize, usize)>, Vec<String>))
        requires
            self.wf(),
        ensures
            tasks_view(r.0@) == self.tasks(),
            r.1@.no_duplicates(),
            r.1@.to_set() == self.edges(),
            strings_view(r.2@) == self.functions(),
    {
        let mut tasks: Vec<Task> = Vec::new();
        let mut i: usize = 0;
        while i < self.tasks.len()
            invariant
                i <= self.tasks.len(),
                tasks@.len() == i,
                forall|k: int| 0 <= k < i ==> tasks@[k]@ == self.tasks@[k]@,
            decreases self.tasks.len() - i,
        {
            tasks.push(self.tasks[i].duplicate());
            i += 1;
        }
        let mut edges: Vec<(usize, usize)> = Vec::new();
        let mut i: usize = 0;
        while i < self.edges.len()
            invariant
                i <= self.edges.len(),
                edges@ == self.edges@.subrange(0, i as int),
            decreases self.edges.len() - i,
        {
            edges.push(self.edges[i]);
            proof {
                assert(edges@ =~= self.edges@.subrange(0, i + 1));
            }
            i += 1;
        }
        let mut functions: Vec<String> = Vec::new();
        let mut i: usize = 0;
        while i < self.functions.len()
            invariant
                i <= self.functions.len(),
                functions@.len() == i,
                forall|k: int| 0 <= k < i ==> functions@[k]@ == self.functions@[k]@,
            decreases self.functions.len() - i,
        {
            functions.push(self.functions[i].clone());
            i += 1;
        }
        proof {
            assert(tasks_view(tasks@) =~= self.tasks());
            assert(edges@ =~= self.edges@);
            assert(strings_view(functions@) =~= self.functions());
        }
        (tasks, edges, functions)
    }
}

/// A placeholder names its task and no other.
proof fn lemma_names_one(task: usize, path: Seq<char>)
    ensures
        forall|id: usize| referenced(reference_value(task, path), id) <==> id == task,
{
    lemma_reference_is_one(task, path);
}

/// Every pipeline that the builder holds is without a cycle: no path of one
/// edge or more ends where it began.
pub proof fn lemma_built_has_no_cycle(dag: &Dag, p: Seq<usize>)
    requires
        dag.wf(),
        crate::graph::is_path(dag.edges(), p),
        p.len() >= 2,
    ensures
        p[0] != p.last(),
{
    crate::graph::lemma_acyclic_has_no_cycle(dag.edges(), p);
}

} // verus!
