use thepipelinetool::dag::{references, BuildError, Dag, TaskRef};
use thepipelinetool::graph::has_path;
use thepipelinetool::json::Json;
use thepipelinetool::task::TaskOptions;

#[test]
fn upstream_that_is_the_task_itself_closes_a_cycle() {
    let mut dag = Dag::new(false);
    let a = dag.add_task("a", Json::Null, TaskOptions::new()).unwrap();
    assert_eq!(a.id, 0);
    let itself = TaskRef { id: 1 };
    assert_eq!(
        dag.add_task_with_upstream("b", &itself, TaskOptions::new()),
        Err(BuildError::CycleDetected)
    );
    assert_eq!(dag.len(), 1);
}

#[test]
fn upstream_that_is_not_there_is_an_invalid_reference() {
    let mut dag = Dag::new(false);
    let nowhere = TaskRef { id: 5 };
    assert_eq!(
        dag.add_task_with_upstream("b", &nowhere, TaskOptions::new()),
        Err(BuildError::InvalidReference)
    );
    assert_eq!(dag.add_task("c", nowhere.get("x"), TaskOptions::new()), Err(BuildError::InvalidReference));
}

#[test]
fn dependency_that_closes_a_cycle_is_refused() {
    let mut dag = Dag::new(false);
    let a = dag.add_task("a", Json::Null, TaskOptions::new()).unwrap();
    let b = dag.add_task_with_upstream("b", &a, TaskOptions::new()).unwrap();
    let c = dag.add_task_with_upstream("c", &b, TaskOptions::new()).unwrap();
    assert_eq!(dag.add_dependency(&c, &a), Err(BuildError::CycleDetected));
    assert_eq!(dag.add_dependency(&b, &b), Err(BuildError::CycleDetected));
    assert_eq!(dag.add_dependency(&a, &c), Ok(()));
    assert_eq!(dag.add_dependency(&a, &TaskRef { id: 9 }), Err(BuildError::InvalidReference));
    let (_, mut edges, _) = dag.export();
    edges.sort();
    assert_eq!(edges, vec![(0, 1), (0, 2), (1, 2)]);
}

#[test]
fn names_clash_only_where_they_are_unique() {
    let mut free = Dag::new(false);
    free.add_task("f", Json::Null, TaskOptions::new()).unwrap();
    assert!(free.add_task("f", Json::Null, TaskOptions::new()).is_ok());

    let mut strict = Dag::new(true);
    strict.add_task("f", Json::Null, TaskOptions::new()).unwrap();
    assert_eq!(strict.add_task("f", Json::Null, TaskOptions::new()), Err(BuildError::DuplicateName));
    assert_eq!(
        strict.add_branch("b", Json::Null, "t", "t", TaskOptions::new()),
        Err(BuildError::DuplicateName)
    );
    assert!(strict.add_branch("b", Json::Null, "t", "e", TaskOptions::new()).is_ok());
}

#[test]
fn arguments_give_the_edges() {
    let mut dag = Dag::new(false);
    let a = dag.add_task("a", Json::Null, TaskOptions::new()).unwrap();
    let b = dag.add_task("b", Json::Null, TaskOptions::new()).unwrap();
    let args = Json::Array(vec![a.value(), Json::Object(vec![("x".to_string(), b.get("hello"))])]);
    let mut named = references(&args);
    named.sort();
    assert_eq!(named, vec![0, 1]);
    let c = dag.add_task("c", args, TaskOptions::new()).unwrap();
    let (tasks, mut edges, functions) = dag.export();
    edges.sort();
    assert_eq!(edges, vec![(a.id, c.id), (b.id, c.id)]);
    assert_eq!(tasks.len(), 3);
    assert_eq!(tasks[2].id, 2);
    assert_eq!(tasks[2].function, "c");
    assert_eq!(functions, vec!["a".to_string(), "b".to_string(), "c".to_string()]);
}

#[test]
fn branch_and_expansion_set_their_flags() {
    let mut dag = Dag::new(false);
    let (b, t, e) = dag.add_branch("choose", Json::Null, "left", "right", TaskOptions::new()).unwrap();
    let x = dag.expand("each", &t, TaskOptions::new()).unwrap();
    let command = dag.add_command(Json::Array(vec![Json::text("ls")]), TaskOptions::new()).unwrap();
    let (tasks, mut edges, _) = dag.export();
    edges.sort();
    assert_eq!(edges, vec![(b.id, t.id), (b.id, e.id), (t.id, x.id)]);
    assert!(tasks[b.id].is_branch && !tasks[t.id].is_branch);
    assert!(tasks[x.id].lazy_expand);
    assert_eq!(tasks[x.id].template_args, t.value());
    assert!(tasks[command.id].is_command());
    assert!(!tasks[b.id].is_command());
}

#[test]
fn paths_are_found_along_the_edges_only() {
    let edges = vec![(0, 1), (1, 2), (3, 2)];
    assert!(has_path(&edges, 4, 0, 2));
    assert!(has_path(&edges, 4, 1, 1));
    assert!(!has_path(&edges, 4, 2, 0));
    assert!(!has_path(&edges, 4, 0, 3));
}
