use synalog::annotations::IterationDef;
use synalog::concertina::{understand_iterations, sort_actions, update_state_for_iterative_action, build_config, rename_predicate, Action, ActionType, Launcher, RunState};
use synalog::strmap::{NameSet, StrMap};

fn action(name: &str, requires: Vec<&str>) -> Action {
    Action {
        name: name.to_string(),
        action_type: ActionType::Intermediate,
        requires: requires.into_iter().map(|s| s.to_string()).collect(),
        launcher: Launcher::Idle,
    }
}

#[test]
fn test_understand_iterations() {
    // Iteration It runs A0, B0 (upper half) then A1, B1 (lower half).
    let actions = vec![
        action("Base", vec![]),
        action("A0", vec!["Base"]),
        action("B0", vec!["A0"]),
        action("A1", vec!["B0"]),
        action("B1", vec!["A1", "Other"]),
        action("Other", vec![]),
        action("Final", vec!["B1"]),
    ];
    let its = vec![(
        "It".to_string(),
        IterationDef {
            predicates: vec!["A0".to_string(), "B0".to_string(), "A1".to_string(), "B1".to_string()],
            repetitions: 3,
            stop_signal: Some("Stop".to_string()),
        },
    )];
    let m = understand_iterations(&actions, &its);
    assert_eq!(m.iteration_repetitions, vec![("It".to_string(), 3)]);
    assert_eq!(m.iteration_stop_signal, vec![("It".to_string(), Some("Stop".to_string()))]);
    assert_eq!(m.iteration_actions[0].1.len(), 4);
    assert_eq!(m.action_iteration.get("A1").map(|s| s.as_str()), Some("It"));
    assert!(m.action_iteration.get("Base").is_none());
    assert_eq!(m.half_iteration_actions.len(), 2);
    assert_eq!(m.half_iteration_actions[0].0, "It_upper");
    assert!(m.half_iteration_actions[0].1.contains("A0") && m.half_iteration_actions[0].1.contains("B0"));
    assert_eq!(m.half_iteration_actions[1].0, "It_lower");
    assert_eq!(m.action_half_iteration.get("B1").map(|s| s.as_str()), Some("It_lower"));
    assert_eq!(m.action_half_iteration.get("A0").map(|s| s.as_str()), Some("It_upper"));
    // The upper half needs Base from outside it; A0 already waits for that.
    let req = |n: &str| m.action_requires.iter().find(|e| e.0 == n).unwrap().1.names.clone();
    let a0 = req("A0");
    assert!(a0.contains(&"Base".to_string()));
    assert_eq!(a0.len(), 1);
    // The lower half needs B0 (from A1) and Other (from B1): both A1 and B1 wait for them.
    let a1 = req("A1");
    assert!(a1.contains(&"B0".to_string()) && a1.contains(&"Other".to_string()));
    assert_eq!(a1.len(), 2);
    let b1 = req("B1");
    assert!(b1.contains(&"A1".to_string()) && b1.contains(&"Other".to_string()) && b1.contains(&"B0".to_string()));
    assert_eq!(b1.len(), 3);
    assert_eq!(req("Final"), vec!["B1".to_string()]);
}

#[test]
fn test_sort_actions_follows_requirements() {
    let actions = vec![action("Final", vec!["B"]), action("B", vec!["A"]), action("A", vec![])];
    let m = understand_iterations(&actions, &vec![]);
    let order = sort_actions(&actions, &m);
    assert_eq!(order, vec!["A".to_string(), "B".to_string(), "Final".to_string()]);
}

#[test]
fn test_sort_actions_keeps_iteration_together() {
    let actions = vec![
        action("Base", vec![]),
        action("Other", vec![]),
        action("A0", vec!["Base"]),
        action("B0", vec!["A0"]),
        action("A1", vec!["B0"]),
        action("B1", vec!["A1", "Other"]),
        action("Final", vec!["B1"]),
    ];
    let its = vec![(
        "It".to_string(),
        IterationDef {
            predicates: vec!["A0".to_string(), "B0".to_string(), "A1".to_string(), "B1".to_string()],
            repetitions: 3,
            stop_signal: None,
        },
    )];
    let m = understand_iterations(&actions, &its);
    let order = sort_actions(&actions, &m);
    let expected: Vec<String> = ["Base", "Other", "A0", "B0", "A1", "B1", "Final"].iter().map(|s| s.to_string()).collect();
    assert_eq!(order, expected);
}

fn looped() -> (Vec<Action>, Vec<(String, IterationDef)>) {
    let actions = vec![action("A0", vec![]), action("B0", vec!["A0"]), action("Final", vec!["B0"])];
    let its = vec![(
        "It".to_string(),
        IterationDef { predicates: vec!["A0".to_string(), "B0".to_string()], repetitions: 3, stop_signal: None },
    )];
    (actions, its)
}

fn run_state(to_run: Vec<&str>, counts: Vec<(&str, i64)>) -> RunState {
    RunState {
        actions_to_run: to_run.into_iter().map(|s| s.to_string()).collect(),
        complete_actions: NameSet::new(),
        action_iterations_complete: counts.into_iter().map(|(k, v)| (k.to_string(), v)).collect(),
        action_stopped: NameSet::new(),
    }
}

#[test]
fn test_iterative_action_runs_again_after_its_group() {
    let (actions, its) = looped();
    let m = understand_iterations(&actions, &its);
    let mut st = run_state(vec!["B0", "Final"], vec![("A0", 0), ("B0", 0)]);
    update_state_for_iterative_action(&mut st, &m, "A0", false);
    assert_eq!(st.actions_to_run, vec!["B0".to_string(), "A0".to_string(), "Final".to_string()]);
    assert_eq!(st.action_iterations_complete[0], ("A0".to_string(), 1));
    assert!(!st.complete_actions.contains("A0"));
}

#[test]
fn test_iterative_action_completes_at_repetitions() {
    let (actions, its) = looped();
    let m = understand_iterations(&actions, &its);
    let mut st = run_state(vec!["B0", "Final"], vec![("A0", 2), ("B0", 2)]);
    update_state_for_iterative_action(&mut st, &m, "A0", false);
    assert!(st.complete_actions.contains("A0"));
    assert!(!st.action_stopped.contains("A0"));
    assert_eq!(st.actions_to_run, vec!["B0".to_string(), "Final".to_string()]);
    assert_eq!(st.action_iterations_complete[0], ("A0".to_string(), 3));
}

#[test]
fn test_iterative_action_stops_on_request() {
    let (actions, its) = looped();
    let m = understand_iterations(&actions, &its);
    let mut st = run_state(vec!["B0", "Final"], vec![("A0", 0), ("B0", 0)]);
    update_state_for_iterative_action(&mut st, &m, "A0", true);
    assert!(st.complete_actions.contains("A0"));
    assert!(st.action_stopped.contains("A0"));
    assert_eq!(st.actions_to_run, vec!["B0".to_string(), "Final".to_string()]);
}

#[test]
fn test_build_config_orders_data_then_queries() {
    let mut tables = StrMap::new();
    tables.insert("base".to_string(), "SELECT 1".to_string());
    tables.insert("final_pred".to_string(), "SELECT * FROM base, ext".to_string());
    let deps = vec![("base".to_string(), "final_pred".to_string()), ("lookup".to_string(), "base".to_string())];
    let data = vec![("ext".to_string(), "final_pred".to_string())];
    let mut finals = NameSet::new();
    finals.insert("final_pred".to_string());
    let config = build_config(&tables, &deps, &data, &finals, "sqlite");
    let names: Vec<&str> = config.iter().map(|a| a.name.as_str()).collect();
    assert_eq!(names, vec!["ext", "lookup", "base", "final_pred"]);
    assert_eq!(config[0].action_type, ActionType::Data);
    assert!(config[0].requires.is_empty());
    assert_eq!(config[2].action_type, ActionType::Intermediate);
    assert_eq!(config[2].requires, vec!["lookup".to_string()]);
    assert_eq!(config[3].action_type, ActionType::Final);
    assert_eq!(config[3].requires, vec!["base".to_string(), "ext".to_string()]);
    match &config[3].launcher {
        Launcher::Query { predicate, engine, sql } => {
            assert_eq!(predicate, "final_pred");
            assert_eq!(engine, "sqlite");
            assert_eq!(sql, "SELECT * FROM base, ext");
        },
        Launcher::Idle => panic!("a query was expected"),
    }
}

#[test]
fn test_rename_predicate_moves_sql_and_edges() {
    let mut tables = StrMap::new();
    tables.insert("p".to_string(), "SELECT 1".to_string());
    tables.insert("q".to_string(), "SELECT * FROM p".to_string());
    let mut deps = vec![("p".to_string(), "q".to_string()), ("p_1".to_string(), "q".to_string())];
    let mut data = vec![("ext".to_string(), "p".to_string())];
    rename_predicate(&mut tables, &mut deps, &mut data, "p", "p_1");
    assert!(tables.get("p").is_none());
    assert_eq!(tables.get("p_1").map(|s| s.as_str()), Some("SELECT 1"));
    assert_eq!(tables.get("q").map(|s| s.as_str()), Some("SELECT * FROM p"));
    // Both edges become p_1 -> q, kept once.
    assert_eq!(deps, vec![("p_1".to_string(), "q".to_string())]);
    assert_eq!(data, vec![("ext".to_string(), "p_1".to_string())]);
}
