//! The storage protocol: planning stores, write-once identity, loads,
//! listing order, and inspect lookups.

use runstore::config::{serialize_config, RunConfig};
use runstore::listing::list_runs;
use runstore::run::{
    dir_name, find_block_dir, parse_block_files, FsAction, IdGenerator, Run,
};
use runstore::trace::{serialize_execs, BlockExecution};
use runstore::RunError;

fn b(s: &str) -> Vec<u8> {
    s.as_bytes().to_vec()
}

fn cfg(start_time: u64, app_hash: &str, blocks: Vec<(&str, &str)>) -> RunConfig {
    RunConfig {
        start_time,
        app_hash: b(app_hash),
        blocks: blocks.into_iter().map(|(k, v)| (b(k), b(v))).collect(),
    }
}

fn run_with(run_id: &str, c: RunConfig) -> Run {
    let stored = serialize_config(&c);
    Run::load(&b(run_id), true, true, Some(stored)).expect("storable config must load")
}

#[test]
fn successive_ids_differ() {
    let mut ids = IdGenerator::new(b("node7"));
    let a = ids.next_id();
    let c = ids.next_id();
    assert_ne!(a, c);
    assert_eq!(a, b("node7-0"));
    assert_eq!(c, b("node7-1"));
}

#[test]
fn new_runs_get_distinct_ids() {
    let mut ids = IdGenerator::new(b("p"));
    let r1 = Run::new(cfg(1, "h", vec![]), &mut ids);
    let r2 = Run::new(cfg(1, "h", vec![]), &mut ids);
    assert_ne!(r1.run_id(), r2.run_id());
}

#[test]
fn store_plan_layout() {
    let c = cfg(5, "h", vec![("b1", "1")]);
    let mut run = run_with("r1", c);
    run.traces.push((
        (b("code"), b("b1")),
        vec![vec![BlockExecution::Skipped], vec![BlockExecution::Failure(b("no"))]],
    ));
    let plan = run.store(true, false).expect("fresh run must be storable");
    assert_eq!(plan.len(), 5);
    assert_eq!(plan[0], FsAction::CreateDir(b("r1")));
    assert_eq!(
        plan[1],
        FsAction::WriteFile(
            b("r1/config.json"),
            b(r#"{"start_time":5,"app_hash":"h","blocks":{"b1":1}}"#),
        )
    );
    assert_eq!(plan[2], FsAction::CreateDir(b("r1/0-code_b1")));
    assert_eq!(
        plan[3],
        FsAction::WriteFile(
            b("r1/0-code_b1/0.json"),
            serialize_execs(&vec![BlockExecution::Skipped]),
        )
    );
    assert_eq!(
        plan[4],
        FsAction::WriteFile(
            b("r1/0-code_b1/1.json"),
            serialize_execs(&vec![BlockExecution::Failure(b("no"))]),
        )
    );
}

#[test]
fn store_is_write_once() {
    let run = run_with("r9", cfg(1, "h", vec![]));
    assert!(run.store(true, false).is_ok());
    // the directory now exists: the second store must fail and plan nothing
    match run.store(true, true) {
        Err(RunError::AlreadyExists(id)) => assert_eq!(id, b("r9")),
        other => panic!("expected AlreadyExists, got {:?}", other),
    }
}

#[test]
fn store_requires_initialized_workspace() {
    let run = run_with("r1", cfg(1, "h", vec![]));
    assert_eq!(run.store(false, false), Err(RunError::WorkspaceUninitialized));
}

#[test]
fn aborted_run_plans_only_reached_blocks() {
    // three blocks in the pipeline, the engine aborted after the second
    let mut run = run_with("r2", cfg(1, "h", vec![]));
    run.traces.push(((b("input"), b("a")), vec![vec![BlockExecution::Skipped]]));
    run.traces.push(((b("code"), b("c")), vec![vec![BlockExecution::Failure(b("stop"))]]));
    let plan = run.store(true, false).unwrap();
    let dirs: Vec<&FsAction> = plan
        .iter()
        .filter(|a| matches!(a, FsAction::CreateDir(_)))
        .collect();
    // the run directory itself plus exactly the two reached blocks
    assert_eq!(dirs.len(), 3);
    assert_eq!(*dirs[1], FsAction::CreateDir(b("r2/0-input_a")));
    assert_eq!(*dirs[2], FsAction::CreateDir(b("r2/1-code_c")));
}

#[test]
fn duplicate_block_names_get_distinct_directories() {
    let mut run = run_with("r3", cfg(1, "h", vec![]));
    run.traces.push(((b("code"), b("dup")), vec![]));
    run.traces.push(((b("code"), b("dup")), vec![]));
    let plan = run.store(true, false).unwrap();
    match (&plan[2], &plan[3]) {
        (FsAction::CreateDir(d1), FsAction::CreateDir(d2)) => {
            assert_ne!(d1, d2);
            assert_eq!(*d1, b("r3/0-code_dup"));
            assert_eq!(*d2, b("r3/1-code_dup"));
        },
        other => panic!("expected two block directories, got {:?}", other),
    }
    assert_ne!(dir_name(0, &b("code"), &b("dup")), dir_name(1, &b("code"), &b("dup")));
}

#[test]
fn load_not_found() {
    let r = Run::load(&b("nonexistent-id"), true, false, None);
    match r {
        Err(RunError::NotFound(id)) => assert_eq!(id, b("nonexistent-id")),
        Err(other) => panic!("expected NotFound, got {:?}", other),
        Ok(_) => panic!("expected NotFound, got a run"),
    }
}

#[test]
fn load_error_cases() {
    assert!(matches!(
        Run::load(&b("x"), false, false, None),
        Err(RunError::WorkspaceUninitialized)
    ));
    match Run::load(&b("x"), true, true, None) {
        Err(RunError::IOFailure(id)) => assert_eq!(id, b("x")),
        _ => panic!("expected IOFailure naming the run"),
    }
    match Run::load(&b("x"), true, true, Some(b("broken"))) {
        Err(RunError::MalformedData(id)) => assert_eq!(id, b("x")),
        _ => panic!("expected MalformedData naming the run"),
    }
}

#[test]
fn store_refuses_unstorable_runs() {
    // no plan may write bytes that cannot be read back: a success value
    // must be one whole JSON value
    let mut bad = run_with("r8", cfg(2, "hh", vec![]));
    bad.traces.push(((b("code"), b("x")), vec![vec![BlockExecution::Success(b("{broken"))]]));
    match bad.store(true, false) {
        Err(RunError::MalformedData(id)) => assert_eq!(id, b("r8")),
        _ => panic!("expected MalformedData for an unstorable trace row"),
    }
    // text content never blocks a store: quotes and newlines escape
    let mut ok = run_with("r7", cfg(1, "h", vec![]));
    ok.traces.push(((b("code"), b("x")), vec![vec![BlockExecution::Failure(b("has \" quote\n"))]]));
    assert!(ok.store(true, false).is_ok());
}

#[test]
fn store_then_load_round_trips() {
    let c = cfg(77, "abc", vec![("m", r#"{"k":[1,"two"]}"#)]);
    let run = run_with("rid", c);
    let plan = run.store(true, false).unwrap();
    let stored = match &plan[1] {
        FsAction::WriteFile(_, bytes) => bytes.clone(),
        other => panic!("expected the config write, got {:?}", other),
    };
    let back = Run::load(&b("rid"), true, true, Some(stored)).unwrap();
    assert_eq!(*back.run_id(), b("rid"));
    assert_eq!(*back.config(), cfg(77, "abc", vec![("m", r#"{"k":[1,"two"]}"#)]));
    assert!(back.traces.is_empty());
}

#[test]
fn listing_orders_most_recent_first() {
    let input = vec![
        (b("r1"), cfg(100, "h1", vec![])),
        (b("r2"), cfg(300, "h2", vec![])),
        (b("r3"), cfg(200, "h3", vec![])),
    ];
    let out = list_runs(input);
    let times: Vec<u64> = out.iter().map(|p| p.1.start_time).collect();
    assert_eq!(times, vec![300, 200, 100]);
    assert_eq!(out[0].0, b("r2"));
    assert_eq!(out[1].0, b("r3"));
    assert_eq!(out[2].0, b("r1"));
}

#[test]
fn listing_keeps_ties_and_empties() {
    assert!(list_runs(Vec::new()).is_empty());
    let out = list_runs(vec![(b("a"), cfg(9, "x", vec![])), (b("c"), cfg(9, "y", vec![]))]);
    assert_eq!(out.len(), 2);
    let mut ids: Vec<Vec<u8>> = out.into_iter().map(|p| p.0).collect();
    ids.sort();
    assert_eq!(ids, vec![b("a"), b("c")]);
}

#[test]
fn config_for_block_lookup() {
    let c = cfg(1, "h", vec![("alpha", "1"), ("beta", "{}")]);
    assert_eq!(c.config_for_block(&b("beta")), Some(&b("{}")));
    assert_eq!(c.config_for_block(&b("missing")), None);
}

#[test]
fn find_block_dir_matches_name_component() {
    let dirs = vec![b("0-code_x"), b("1-llm_why"), b("2-map_na_me")];
    assert_eq!(find_block_dir(&dirs, &b("why")), Some(1));
    assert_eq!(find_block_dir(&dirs, &b("na_me")), Some(2));
    assert_eq!(find_block_dir(&dirs, &b("absent")), None);
}

#[test]
fn parse_block_files_reads_rows_back() {
    let row0 = vec![BlockExecution::Success(b("3"))];
    let row1 = vec![BlockExecution::Skipped, BlockExecution::Failure(b("e"))];
    let files = vec![serialize_execs(&row0), serialize_execs(&row1)];
    let rows = parse_block_files(&files).unwrap();
    assert_eq!(rows, vec![row0, row1]);
    let broken = vec![b("oops")];
    assert_eq!(parse_block_files(&broken), None);
}
