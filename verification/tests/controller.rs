use task_maker::controller::{
    controller_keeper, format_keeper_line, keeper_output_name, parse_keeper_line, pipes_reply, read_from_controller_fifo,
    record_pipes, reported_pipes, write_to_controller_fifo, ControllerRequest, KeeperAction,
    KeeperEvent, KeeperLine, KeeperState, SolutionCounter, SolutionRun, merge_solution,
};

fn started(index: usize, pid: u32, pipes: Option<(i32, i32)>) -> KeeperLine {
    KeeperLine::Started { index, pid, pipes }
}

fn assert_started(line: Option<KeeperLine>, index: usize, pid: u32, pipes: Option<(i32, i32)>) {
    match line {
        Some(KeeperLine::Started { index: i, pid: p, pipes: q }) => {
            assert_eq!(i, index);
            assert_eq!(p, pid);
            assert_eq!(q, pipes);
        }
        _ => panic!("expected a start report"),
    }
}

fn assert_done(line: Option<KeeperLine>, index: usize, path: &str) {
    match line {
        Some(KeeperLine::Done { index: i, path: p }) => {
            assert_eq!(i, index);
            assert_eq!(p, path);
        }
        _ => panic!("expected an exit report"),
    }
}

#[test]
fn fifo_names() {
    assert_eq!(write_to_controller_fifo(), "write_to_controller");
    assert_eq!(read_from_controller_fifo(), "read_from_controller");
}

#[test]
fn output_names() {
    assert_eq!(keeper_output_name(0), "controller");
    assert_eq!(keeper_output_name(1), "sol0");
    assert_eq!(keeper_output_name(12), "sol11");
}

#[test]
fn lines_are_printed_as_the_reader_expects() {
    assert_eq!(format_keeper_line(&started(0, 4242, None)), "0: 4242");
    assert_eq!(format_keeper_line(&started(3, 17, Some((5, -1)))), "3: 17 5 -1");
    assert_eq!(
        format_keeper_line(&KeeperLine::Done { index: 2, path: "/tmp/x/sol1".to_string() }),
        "DONE 2: /tmp/x/sol1"
    );
}

#[test]
fn lines_are_read_back() {
    assert_started(parse_keeper_line("0: 4242"), 0, 4242, None);
    assert_started(parse_keeper_line("3: 17 5 6"), 3, 17, Some((5, 6)));
    assert_started(parse_keeper_line(" 7 :\t99   -3 +4  extra"), 7, 99, Some((-3, 4)));
    assert_done(parse_keeper_line("DONE 2: /tmp/x/sol1"), 2, "/tmp/x/sol1");
    assert_done(parse_keeper_line("DONE 5:  with: colon  "), 5, "with: colon");
}

#[test]
fn roundtrip_of_printed_lines() {
    let lines = vec![
        started(0, 1, None),
        started(usize::MAX, u32::MAX, Some((i32::MIN, i32::MAX))),
        KeeperLine::Done { index: 41, path: "res dir/controller".to_string() },
    ];
    for line in lines {
        let text = format_keeper_line(&line);
        let back = parse_keeper_line(&text);
        assert_eq!(format_keeper_line(&back.expect("line not read back")), text);
    }
}

#[test]
fn malformed_lines_are_refused() {
    assert!(parse_keeper_line("DONE").is_none());
    assert!(parse_keeper_line("DONE 3 no colon").is_none());
    assert!(parse_keeper_line("DONE x: path").is_none());
    assert!(parse_keeper_line("no colon").is_none());
    assert!(parse_keeper_line("1:").is_none());
    assert!(parse_keeper_line("1: 2 3").is_none());
    assert!(parse_keeper_line("1: 2 3 x").is_none());
    assert!(parse_keeper_line("1: 4294967296").is_none());
    assert!(parse_keeper_line("1: 2 3 2147483648").is_none());
    assert!(parse_keeper_line("-1: 2").is_none());
}

#[test]
fn keeper_starts_controller_then_solutions() {
    let mut state = KeeperState::new(2);
    assert!(matches!(controller_keeper(&mut state, KeeperEvent::NoInput), KeeperAction::Wait));
    assert!(matches!(
        controller_keeper(&mut state, KeeperEvent::Configuration { output: "/r/controller".to_string() }),
        KeeperAction::StartController
    ));
    match controller_keeper(&mut state, KeeperEvent::Configuration { output: "/r/sol0".to_string() }) {
        KeeperAction::StartSolution { index, pipe } => {
            assert_eq!(index, 1);
            assert_eq!(pipe, 0);
        }
        _ => panic!("expected a solution start"),
    }
    assert_eq!(state.started, 2);
    assert_eq!(state.running.len(), 2);
    assert!(matches!(controller_keeper(&mut state, KeeperEvent::InputClosed), KeeperAction::Wait));
    match controller_keeper(&mut state, KeeperEvent::Exited { position: 0, success: false }) {
        KeeperAction::Report { position, failed, line } => {
            assert_eq!(position, 0);
            assert!(failed);
            assert_eq!(format_keeper_line(&line), "DONE 0: /r/controller");
        }
        _ => panic!("expected a report"),
    }
    // the last running sandbox took the place of the removed one
    assert_eq!(state.running[0].index, 1);
    match controller_keeper(&mut state, KeeperEvent::Exited { position: 0, success: true }) {
        KeeperAction::Report { failed, line, .. } => {
            assert!(!failed);
            assert_eq!(format_keeper_line(&line), "DONE 1: /r/sol0");
        }
        _ => panic!("expected a report"),
    }
    assert!(matches!(controller_keeper(&mut state, KeeperEvent::InputClosed), KeeperAction::Stop));
}

#[test]
fn pipes_table_grows() {
    let mut table = Vec::new();
    record_pipes(&mut table, 2, Some((7, 8)));
    assert_eq!(table, vec![None, None, Some(Some((7, 8)))]);
    record_pipes(&mut table, 0, None);
    assert_eq!(table, vec![Some(None), None, Some(Some((7, 8)))]);
    assert_eq!(reported_pipes(&table, 2), Some(Some((7, 8))));
    assert_eq!(reported_pipes(&table, 1), None);
    assert_eq!(reported_pipes(&table, 9), None);
}

#[test]
fn controller_requests() {
    let mut counter = SolutionCounter::new(2);
    assert!(matches!(counter.request("START_SOLUTION"), ControllerRequest::StartSolution { index: 0 }));
    assert!(matches!(counter.request("START_SOLUTION"), ControllerRequest::StartSolution { index: 1 }));
    assert!(matches!(counter.request("START_SOLUTION"), ControllerRequest::TooManySolutions));
    assert!(matches!(counter.request("STOP"), ControllerRequest::Unknown));
    assert_eq!(counter.started, 2);
    assert_eq!(pipes_reply(12, -7), "12 -7");
}

#[test]
fn solution_runs_merge() {
    let mut acc = SolutionRun { status: "ok", success: true, was_killed: false, memory: 10 };
    merge_solution(&mut acc, SolutionRun { status: "ok", success: true, was_killed: false, memory: 30 }, false);
    assert_eq!((acc.status, acc.success, acc.was_killed, acc.memory), ("ok", true, false, 30));
    merge_solution(&mut acc, SolutionRun { status: "tle", success: false, was_killed: true, memory: 5 }, true);
    assert_eq!((acc.status, acc.success, acc.was_killed, acc.memory), ("tle", false, true, 35));
    merge_solution(&mut acc, SolutionRun { status: "ok", success: true, was_killed: false, memory: 1 }, false);
    assert_eq!((acc.status, acc.success, acc.was_killed, acc.memory), ("tle", false, true, 35));
}
