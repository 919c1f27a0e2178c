use airbyte_to_flow::errors::{create_custom_error, Error};
use airbyte_to_flow::interceptor::{Operation, Response};
use airbyte_to_flow::json::Json;
use airbyte_to_flow::runner::{
    answer_of, check_exit_status, parse_run_interval, run_interval_remainder, skip_interval,
    synthetic_checkpoint, Action, Answer, Event, ExitStatus, Phase, Supervisor,
    FLUSH_TIMEOUT_SECS, IDLE_TIMEOUT_SECS,
};

fn run(op: Operation, events: Vec<Event>) -> (Supervisor, Vec<Action>) {
    let mut s = Supervisor::new(op);
    let actions = events.into_iter().map(|e| s.step(e)).collect();
    (s, actions)
}

#[test]
fn a_capture_of_records_only_ends_with_a_made_up_checkpoint() {
    let (s, actions) = run(
        Operation::Capture,
        vec![
            Event::Spawned,
            Event::ReadyWritten,
            Event::Answered { answer: Answer::Record },
            Event::Answered { answer: Answer::Record },
            Event::Answered { answer: Answer::Record },
            Event::Exited(Ok(())),
            Event::AnswersEnded,
            Event::CheckpointWritten,
            Event::Flushed,
            Event::Rested,
        ],
    );
    assert_eq!(
        actions,
        vec![
            Action::Wait,
            Action::Wait,
            Action::Wait,
            Action::Wait,
            Action::Wait,
            Action::Wait,
            Action::WriteCheckpoint,
            Action::AwaitFlush,
            Action::Rest,
            Action::Finish(Ok(())),
        ]
    );
    assert_eq!(s.phase, Phase::Done);
    assert_eq!(
        synthetic_checkpoint(),
        Response::Checkpoint {
            updated_json: "{}".to_string(),
            merge_patch: true
        }
    );
}

#[test]
fn a_capture_that_ends_with_a_state_gets_no_checkpoint() {
    let (_, actions) = run(
        Operation::Capture,
        vec![
            Event::Spawned,
            Event::ReadyWritten,
            Event::Answered { answer: Answer::Record },
            Event::Answered { answer: Answer::Checkpoint },
            Event::AnswersEnded,
            Event::Exited(Ok(())),
            Event::Flushed,
            Event::Rested,
        ],
    );
    assert_eq!(
        actions,
        vec![
            Action::Wait,
            Action::Wait,
            Action::Wait,
            Action::Wait,
            Action::Wait,
            Action::AwaitFlush,
            Action::Rest,
            Action::Finish(Ok(())),
        ]
    );
}

#[test]
fn a_checkpoint_is_made_up_once_at_most() {
    let (_, actions) = run(
        Operation::Capture,
        vec![
            Event::Spawned,
            Event::ReadyWritten,
            Event::Answered { answer: Answer::Record },
            Event::AnswersEnded,
            Event::Exited(Ok(())),
            Event::AnswersEnded,
            Event::Exited(Ok(())),
            Event::Answered { answer: Answer::Record },
            Event::AnswersEnded,
        ],
    );
    let made: usize = actions
        .iter()
        .filter(|a| **a == Action::WriteCheckpoint)
        .count();
    assert_eq!(made, 1);
    assert_eq!(actions[4], Action::WriteCheckpoint);
}

#[test]
fn other_operations_make_up_no_checkpoint() {
    for op in [
        Operation::Spec,
        Operation::Discover,
        Operation::Validate,
        Operation::Apply,
    ] {
        let (s, actions) = run(
            op,
            vec![
                Event::Spawned,
                Event::ReadyWritten,
                Event::Answered { answer: Answer::Record },
                Event::AnswersEnded,
                Event::Exited(Ok(())),
                Event::Flushed,
            ],
        );
        assert_eq!(
            actions,
            vec![
                Action::Wait,
                Action::Wait,
                Action::Wait,
                Action::Wait,
                Action::AwaitFlush,
                Action::Finish(Ok(())),
            ]
        );
        assert_eq!(s.phase, Phase::Done);
    }
}

#[test]
fn failures_and_silence_end_the_run() {
    let (s, actions) = run(
        Operation::Capture,
        vec![
            Event::Spawned,
            Event::ReadyWritten,
            Event::Answered { answer: Answer::Record },
            Event::Exited(Err(Error::ExitCode(3))),
            Event::AnswersEnded,
        ],
    );
    assert_eq!(actions[3], Action::Finish(Err(Error::ExitCode(3))));
    assert_eq!(actions[4], Action::Wait);
    assert_eq!(s.phase, Phase::Done);

    let (s, actions) = run(
        Operation::Capture,
        vec![
            Event::Spawned,
            Event::ReadyWritten,
            Event::StreamingFailed(Error::InvalidPullResponse),
            Event::Exited(Ok(())),
        ],
    );
    assert_eq!(
        actions[2],
        Action::Finish(Err(Error::InvalidPullResponse))
    );
    assert_eq!(actions[3], Action::Wait);
    assert_eq!(s.phase, Phase::Done);

    let (s, actions) = run(
        Operation::Capture,
        vec![Event::Spawned, Event::ReadyWritten, Event::Idle, Event::Rested],
    );
    assert_eq!(actions[2], Action::Kill);
    assert_eq!(actions[3], Action::Wait);
    assert_eq!(s.phase, Phase::Done);
}

#[test]
fn phases_follow_each_other() {
    let mut s = Supervisor::new(Operation::Capture);
    assert_eq!(s.phase, Phase::Init);
    s.step(Event::ReadyWritten);
    assert_eq!(s.phase, Phase::Init);
    s.step(Event::Spawned);
    assert_eq!(s.phase, Phase::SpawnedGate);
    s.step(Event::ReadyWritten);
    assert_eq!(s.phase, Phase::Running);
    s.step(Event::Exited(Ok(())));
    assert_eq!(s.phase, Phase::Draining);
    s.step(Event::AnswersEnded);
    s.step(Event::Flushed);
    assert_eq!(s.phase, Phase::Draining);
    s.step(Event::Rested);
    assert_eq!(s.phase, Phase::Done);
}

#[test]
fn check_exit_status_reads_the_code() {
    assert_eq!(check_exit_status("connector", ExitStatus::Code(0)), Ok(()));
    assert_eq!(
        check_exit_status("connector", ExitStatus::Code(2)),
        Err(Error::CommandExecutionError(
            "connector failed with code 2.".to_string()
        ))
    );
    assert_eq!(
        check_exit_status("connector", ExitStatus::Code(-15)),
        Err(Error::CommandExecutionError(
            "connector failed with code -15.".to_string()
        ))
    );
    assert_eq!(
        check_exit_status("connector", ExitStatus::Code(i32::MIN)),
        Err(Error::CommandExecutionError(
            "connector failed with code -2147483648.".to_string()
        ))
    );
    assert_eq!(
        check_exit_status("connector", ExitStatus::Signal),
        Err(Error::CommandExecutionError(
            "connector process terminated by signal".to_string()
        ))
    );
    assert_eq!(
        check_exit_status("connector", ExitStatus::Unknown(create_custom_error("gone"))),
        Err(Error::IOError(create_custom_error("gone")))
    );
}

#[test]
fn run_interval_is_read_from_digits() {
    assert_eq!(parse_run_interval("5"), Ok(5));
    assert_eq!(parse_run_interval("+15"), Ok(15));
    assert_eq!(parse_run_interval("007"), Ok(7));
    assert_eq!(parse_run_interval("18446744073709551615"), Ok(u64::MAX));
    for bad in ["", "+", "5\n", " 5", "-5", "5.0", "18446744073709551616", "five"] {
        assert_eq!(parse_run_interval(bad), Err(Error::ParseIntError), "{:?}", bad);
    }
}

#[test]
fn run_interval_remainder_is_what_is_left() {
    assert_eq!(run_interval_remainder(5, 0), 300_000);
    assert_eq!(run_interval_remainder(5, 120_500), 179_500);
    assert_eq!(run_interval_remainder(5, 300_000), 0);
    assert_eq!(run_interval_remainder(5, 900_000), 0);
    assert_eq!(run_interval_remainder(0, 0), 0);
    assert_eq!(run_interval_remainder(u64::MAX, 0), u64::MAX);
}

#[test]
fn skip_interval_reads_the_flag() {
    let config = |v: Json| Json::Object(vec![("_atf_skip_interval".to_string(), v)]);
    assert!(skip_interval(&config(Json::Bool(true))));
    assert!(!skip_interval(&config(Json::Bool(false))));
    assert!(!skip_interval(&config(Json::String("true".to_string()))));
    assert!(!skip_interval(&Json::Object(vec![])));
    assert!(!skip_interval(&Json::Null));
}

#[test]
fn timeouts() {
    assert_eq!(IDLE_TIMEOUT_SECS, 4 * 3600);
    assert_eq!(FLUSH_TIMEOUT_SECS, 5);
}

#[test]
fn a_capture_without_records_gets_no_checkpoint() {
    let (s, actions) = run(
        Operation::Capture,
        vec![
            Event::Spawned,
            Event::ReadyWritten,
            Event::Answered { answer: Answer::Other },
            Event::Exited(Ok(())),
            Event::AnswersEnded,
            Event::Flushed,
            Event::Rested,
        ],
    );
    assert_eq!(
        actions,
        vec![
            Action::Wait,
            Action::Wait,
            Action::Wait,
            Action::Wait,
            Action::AwaitFlush,
            Action::Rest,
            Action::Finish(Ok(())),
        ]
    );
    assert!(!s.pending);
    assert!(!s.checkpointed);
}

#[test]
fn another_answer_leaves_what_is_pending() {
    let (s, _) = run(
        Operation::Capture,
        vec![
            Event::Answered { answer: Answer::Record },
            Event::Answered { answer: Answer::Other },
        ],
    );
    assert!(s.pending);
    let (s, _) = run(
        Operation::Capture,
        vec![
            Event::Answered { answer: Answer::Record },
            Event::Answered { answer: Answer::Checkpoint },
            Event::Answered { answer: Answer::Other },
        ],
    );
    assert!(!s.pending);
}

#[test]
fn answers_are_told_apart() {
    assert_eq!(answer_of(&Response::Opened), Answer::Other);
    assert_eq!(answer_of(&synthetic_checkpoint()), Answer::Checkpoint);
    assert_eq!(
        answer_of(&Response::Captured {
            binding: 0,
            doc: Json::Null
        }),
        Answer::Record
    );
}
