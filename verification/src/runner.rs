//! The decisions by which the adaptor runs a connector: what each thing
//! that happens means for the run, and what is to be done next.

use crate::errors::{describe, Error, IoError};
use crate::interceptor::{Operation, Response};
use crate::json::{lemma_view_kind, Json, JsonView};
use crate::pointer::{parse_pointer, query, Pointer};
use crate::text::{
    all_digits, chars_of, decimal, decimal_text, digits_value, is_digit, is_digit_char, owned,
};
use vstd::prelude::*;

verus! {

/// After this many seconds without an answer from the connector the run is ended.
pub const IDLE_TIMEOUT_SECS: u64 = 14400;

/// For this many seconds the adaptor waits, after the connector has ended,
/// for the answers to be written.
pub const FLUSH_TIMEOUT_SECS: u64 = 5;

/// How far a run has come.
#[derive(Clone, Copy, Debug, PartialEq, Eq, Structural)]
pub enum Phase {
    /// Nothing is started.
    Init,
    /// The connector's shell is started and waits for its files.
    SpawnedGate,
    /// The files are written, and the connector runs.
    Running,
    /// The connector has ended, and what it wrote is still being passed on.
    Draining,
    /// The run is over.
    Done,
}

/// How the connector ended.
#[derive(Debug, PartialEq, Eq)]
pub enum ExitStatus {
    /// It ended by itself, with this code.
    Code(i32),
    /// A signal ended it.
    Signal,
    /// The adaptor could not wait for it.
    Unknown(IoError),
}

/// What an answer that was passed on to the runtime is.
#[derive(Clone, Copy, Debug, PartialEq, Eq, Structural)]
pub enum Answer {
    /// A document of a record that the connector wrote.
    Record,
    /// A checkpoint: a state that the connector wrote.
    Checkpoint,
    /// Any other answer, such as the one that says that the capture is open.
    Other,
}

/// Something that happens during a run.
#[derive(Debug, PartialEq, Eq)]
pub enum Event {
    /// The shell that will start the connector runs.
    Spawned,
    /// The connector's files are written, and the shell is told so.
    ReadyWritten,
    /// An answer was passed on to the runtime.
    Answered { answer: Answer },
    /// The connector has no more answers.
    AnswersEnded,
    /// The connector ended, well or with the failure.
    Exited(Result<(), Error>),
    /// Passing requests or answers on has failed.
    StreamingFailed(Error),
    /// The connector has been silent for too long.
    Idle,
    /// The checkpoint that the adaptor makes up is written.
    CheckpointWritten,
    /// The answers are all written, or the time to wait for that is over.
    Flushed,
    /// The least time that a run takes is over.
    Rested,
}

/// What is to be done next.
#[derive(Debug, PartialEq, Eq)]
pub enum Action {
    /// Nothing but to wait for what happens next.
    Wait,
    /// A checkpoint is to be made up and written: an empty object, as a merge patch.
    WriteCheckpoint,
    /// The writing of the answers is to be waited for, `FLUSH_TIMEOUT_SECS` at most.
    AwaitFlush,
    /// The rest of the least time that a run takes is to be waited for.
    Rest,
    /// The connector is to be killed, and the run ends well.
    Kill,
    /// The run ends, well or with the failure.
    Finish(Result<(), Error>),
}

/// The state of a run.
#[derive(Clone, Copy, Debug, PartialEq, Eq, Structural)]
pub struct Supervisor {
    pub op: Operation,
    pub phase: Phase,
    /// A record was passed on, and no checkpoint after it.
    pub pending: bool,
    /// The connector has no more answers.
    pub ended: bool,
    /// The connector ended well.
    pub exited: bool,
    /// The checkpoint that the adaptor makes up has been asked for.
    pub checkpointed: bool,
}

/// The numeral of a whole number with its sign.
pub open spec fn signed_decimal(n: int) -> Seq<char> {
    if n < 0 {
        seq!['-'] + decimal((-n) as nat)
    } else {
        decimal(n as nat)
    }
}

/// The words that say how a connector failed.
pub open spec fn exit_words(message: Seq<char>, status: ExitStatus) -> Seq<char> {
    match status {
        ExitStatus::Code(code) => message + " failed with code "@ + signed_decimal(code as int)
            + "."@,
        ExitStatus::Signal => message + " process terminated by signal"@,
        ExitStatus::Unknown(e) => e.message@,
    }
}

/// Writes a whole number with its sign.
fn signed_decimal_text(n: i32) -> (r: String)
    ensures
        r@ == signed_decimal(n as int),
{
    if n < 0 {
        let magnitude: usize = (-(n as i64)) as usize;
        let mut out = String::new();
        out.push('-');
        out.append(decimal_text(magnitude).as_str());
        assert(out@ =~= seq!['-'] + decimal((-(n as int)) as nat));
        out
    } else {
        decimal_text(n as usize)
    }
}

/// Tells from the way a connector ended whether it ended well. It ended
/// well if it ended by itself with the code zero. `message` names the
/// connector in the words of the failure.
pub fn check_exit_status(message: &str, status: ExitStatus) -> (r: Result<(), Error>)
    ensures
        match r {
            Ok(_) => status == ExitStatus::Code(0),
            Err(Error::CommandExecutionError(words)) => (status is Signal || (status is Code
                && status->Code_0 != 0)) && words@ == exit_words(message@, status),
            Err(Error::IOError(e)) => status == ExitStatus::Unknown(e),
            Err(_) => false,
        },
{
    match status {
        ExitStatus::Code(code) => {
            if code == 0 {
                Ok(())
            } else {
                let mut words = owned(message);
                words.append(" failed with code ");
                words.append(signed_decimal_text(code).as_str());
                words.append(".");
                Err(Error::CommandExecutionError(words))
            }
        },
        ExitStatus::Signal => Err(
            Error::CommandExecutionError(describe(message, " process terminated by signal")),
        ),
        ExitStatus::Unknown(e) => Err(Error::IOError(e)),
    }
}

impl Supervisor {
    /// The state of a run that has not begun.
    pub fn new(op: Operation) -> (r: Supervisor)
        ensures
            r == (Supervisor {
                op,
                phase: Phase::Init,
                pending: false,
                ended: false,
                exited: false,
                checkpointed: false,
            }),
    {
        Supervisor {
            op,
            phase: Phase::Init,
            pending: false,
            ended: false,
            exited: false,
            checkpointed: false,
        }
    }
}

/// What is to be done once the connector has ended well. For a capture
/// the end of the answers is waited for; if a record was passed on and no
/// checkpoint after it, one is made up, once. Then the writing of the answers is
/// waited for.
pub open spec fn settled(s: Supervisor) -> (Supervisor, Action) {
    if !s.exited {
        (s, Action::Wait)
    } else if s.op == Operation::Capture {
        if !s.ended {
            (s, Action::Wait)
        } else if s.pending && !s.checkpointed {
            (Supervisor { checkpointed: true, ..s }, Action::WriteCheckpoint)
        } else {
            (s, Action::AwaitFlush)
        }
    } else {
        (s, Action::AwaitFlush)
    }
}

/// Whether a checkpoint is pending after an answer was passed on: it is
/// after a record, it is not after a checkpoint, and any other answer leaves
/// it as it was.
pub open spec fn pending_after(pending: bool, answer: Answer) -> bool {
    match answer {
        Answer::Record => true,
        Answer::Checkpoint => false,
        Answer::Other => pending,
    }
}

/// The state of a run after something has happened, and what is to be done next.
pub open spec fn stepped(s: Supervisor, e: Event) -> (Supervisor, Action) {
    if s.phase == Phase::Done {
        (s, Action::Wait)
    } else {
        match e {
            Event::Spawned => if s.phase == Phase::Init {
                (Supervisor { phase: Phase::SpawnedGate, ..s }, Action::Wait)
            } else {
                (s, Action::Wait)
            },
            Event::ReadyWritten => if s.phase == Phase::SpawnedGate {
                (Supervisor { phase: Phase::Running, ..s }, Action::Wait)
            } else {
                (s, Action::Wait)
            },
            Event::Answered { answer } => if s.op == Operation::Capture {
                (Supervisor { pending: pending_after(s.pending, answer), ..s }, Action::Wait)
            } else {
                (s, Action::Wait)
            },
            Event::AnswersEnded => settled(Supervisor { ended: true, ..s }),
            Event::Exited(Ok(_)) => settled(
                Supervisor { exited: true, phase: Phase::Draining, ..s },
            ),
            Event::Exited(Err(err)) => (
                Supervisor { phase: Phase::Done, ..s },
                Action::Finish(Err(err)),
            ),
            Event::StreamingFailed(err) => (
                Supervisor { phase: Phase::Done, ..s },
                Action::Finish(Err(err)),
            ),
            Event::Idle => (Supervisor { phase: Phase::Done, ..s }, Action::Kill),
            Event::CheckpointWritten => if s.phase == Phase::Draining && s.checkpointed {
                (s, Action::AwaitFlush)
            } else {
                (s, Action::Wait)
            },
            Event::Flushed => if s.phase == Phase::Draining {
                if s.op == Operation::Capture {
                    (s, Action::Rest)
                } else {
                    (Supervisor { phase: Phase::Done, ..s }, Action::Finish(Ok(())))
                }
            } else {
                (s, Action::Wait)
            },
            Event::Rested => if s.phase == Phase::Draining {
                (Supervisor { phase: Phase::Done, ..s }, Action::Finish(Ok(())))
            } else {
                (s, Action::Wait)
            },
        }
    }
}

impl Supervisor {
    fn settle(&mut self) -> (r: Action)
        ensures
            (*final(self), r) == settled(*old(self)),
    {
        if !self.exited {
            Action::Wait
        } else if self.op == Operation::Capture {
            if !self.ended {
                Action::Wait
            } else if self.pending && !self.checkpointed {
                self.checkpointed = true;
                Action::WriteCheckpoint
            } else {
                Action::AwaitFlush
            }
        } else {
            Action::AwaitFlush
        }
    }

    /// Takes in what has happened, and says what is to be done next.
    pub fn step(&mut self, event: Event) -> (r: Action)
        ensures
            (*final(self), r) == stepped(*old(self), event),
    {
        if self.phase == Phase::Done {
            return Action::Wait;
        }
        match event {
            Event::Spawned => {
                if self.phase == Phase::Init {
                    self.phase = Phase::SpawnedGate;
                }
                Action::Wait
            },
            Event::ReadyWritten => {
                if self.phase == Phase::SpawnedGate {
                    self.phase = Phase::Running;
                }
                Action::Wait
            },
            Event::Answered { answer } => {
                if self.op == Operation::Capture {
                    match answer {
                        Answer::Record => {
                            self.pending = true;
                        },
                        Answer::Checkpoint => {
                            self.pending = false;
                        },
                        Answer::Other => {},
                    }
                }
                Action::Wait
            },
            Event::AnswersEnded => {
                self.ended = true;
                self.settle()
            },
            Event::Exited(Ok(_)) => {
                self.exited = true;
                self.phase = Phase::Draining;
                self.settle()
            },
            Event::Exited(Err(err)) => {
                self.phase = Phase::Done;
                Action::Finish(Err(err))
            },
            Event::StreamingFailed(err) => {
                self.phase = Phase::Done;
                Action::Finish(Err(err))
            },
            Event::Idle => {
                self.phase = Phase::Done;
                Action::Kill
            },
            Event::CheckpointWritten => {
                if self.phase == Phase::Draining && self.checkpointed {
                    Action::AwaitFlush
                } else {
                    Action::Wait
                }
            },
            Event::Flushed => {
                if self.phase == Phase::Draining {
                    if self.op == Operation::Capture {
                        Action::Rest
                    } else {
                        self.phase = Phase::Done;
                        Action::Finish(Ok(()))
                    }
                } else {
                    Action::Wait
                }
            },
            Event::Rested => {
                if self.phase == Phase::Draining {
                    self.phase = Phase::Done;
                    Action::Finish(Ok(()))
                } else {
                    Action::Wait
                }
            },
        }
    }
}

/// The state of a run after the first `n` of the things that happen.
pub open spec fn ran(s: Supervisor, events: Seq<Event>, n: int) -> Supervisor
    decreases n,
{
    if n <= 0 || n > events.len() {
        s
    } else {
        stepped(ran(s, events, n - 1), events[n - 1]).0
    }
}

/// What is to be done after the thing at place `k` has happened.
pub open spec fn action_at(s: Supervisor, events: Seq<Event>, k: int) -> Action {
    stepped(ran(s, events, k), events[k]).1
}

/// Whether the last of the records and checkpoints passed on among the
/// first `n` things that happen was a checkpoint; none where neither a
/// record nor a checkpoint was passed on.
pub open spec fn last_answer(events: Seq<Event>, n: int) -> Option<bool>
    decreases n,
{
    if n <= 0 || n > events.len() {
        None
    } else {
        match events[n - 1] {
            Event::Answered { answer: Answer::Checkpoint } => Some(true),
            Event::Answered { answer: Answer::Record } => Some(false),
            _ => last_answer(events, n - 1),
        }
    }
}

/// The state that a run is in from its beginning on.
pub open spec fn fresh(op: Operation) -> Supervisor {
    Supervisor {
        op,
        phase: Phase::Init,
        pending: false,
        ended: false,
        exited: false,
        checkpointed: false,
    }
}

proof fn lemma_ran_facts(op: Operation, events: Seq<Event>, n: int)
    requires
        0 <= n <= events.len(),
    ensures
        ran(fresh(op), events, n).op == op,
        ran(fresh(op), events, n).pending && ran(fresh(op), events, n).phase != Phase::Done
            ==> last_answer(events, n) == Some(false),
        ran(fresh(op), events, n).pending ==> op == Operation::Capture,
    decreases n,
{
    if n > 0 {
        lemma_ran_facts(op, events, n - 1);
    }
}

proof fn lemma_checkpointed_stays(s: Supervisor, events: Seq<Event>, n: int, m: int)
    requires
        0 <= n <= m <= events.len(),
        ran(s, events, n).checkpointed,
    ensures
        ran(s, events, m).checkpointed,
    decreases m - n,
{
    if n < m {
        lemma_checkpointed_stays(s, events, n, m - 1);
    }
}

/// A run that is over stays over.
proof fn lemma_done_stays(s: Supervisor, events: Seq<Event>, n: int, m: int)
    requires
        0 <= n <= m <= events.len(),
        ran(s, events, n).phase == Phase::Done,
    ensures
        ran(s, events, m).phase == Phase::Done,
    decreases m - n,
{
    if n < m {
        lemma_done_stays(s, events, n, m - 1);
    }
}

/// While a capture runs, a checkpoint is pending exactly if a record was
/// passed on and no checkpoint after it.
pub proof fn lemma_pending_is_last_answer(events: Seq<Event>, n: int)
    requires
        0 <= n <= events.len(),
        ran(fresh(Operation::Capture), events, n).phase != Phase::Done,
    ensures
        ran(fresh(Operation::Capture), events, n).pending <==> last_answer(events, n) == Some(
            false,
        ),
    decreases n,
{
    let s = fresh(Operation::Capture);
    if n > 0 {
        if ran(s, events, n - 1).phase == Phase::Done {
            lemma_done_stays(s, events, n - 1, n);
        }
        lemma_pending_is_last_answer(events, n - 1);
        lemma_ran_facts(Operation::Capture, events, n - 1);
    }
}

/// In a run, whatever happens and in whatever order, the adaptor makes up
/// a checkpoint once at most.
pub proof fn lemma_one_checkpoint_at_most(op: Operation, events: Seq<Event>, i: int, j: int)
    requires
        0 <= i < j < events.len(),
        action_at(fresh(op), events, i) == Action::WriteCheckpoint,
    ensures
        action_at(fresh(op), events, j) != Action::WriteCheckpoint,
{
    let s = fresh(op);
    assert(ran(s, events, i + 1) == stepped(ran(s, events, i), events[i]).0);
    assert(ran(s, events, i + 1).checkpointed);
    lemma_checkpointed_stays(s, events, i + 1, j);
}

/// The adaptor makes up a checkpoint only in a capture, only after the
/// connector has ended well and has no more answers, and only if a record
/// was passed on and no checkpoint after it.
pub proof fn lemma_checkpoint_only_if_pending(op: Operation, events: Seq<Event>, k: int)
    requires
        0 <= k < events.len(),
        action_at(fresh(op), events, k) == Action::WriteCheckpoint,
    ensures
        op == Operation::Capture,
        last_answer(events, k) == Some(false),
        ran(fresh(op), events, k + 1).exited,
        ran(fresh(op), events, k + 1).ended,
{
    lemma_ran_facts(op, events, k);
    assert(ran(fresh(op), events, k + 1) == stepped(ran(fresh(op), events, k), events[k]).0);
}

/// What an answer is, as the state of a run takes it in.
pub fn answer_of(response: &Response) -> (r: Answer)
    ensures
        r == (match *response {
            Response::Captured { .. } => Answer::Record,
            Response::Checkpoint { .. } => Answer::Checkpoint,
            Response::Opened => Answer::Other,
        }),
{
    match response {
        Response::Captured { .. } => Answer::Record,
        Response::Checkpoint { .. } => Answer::Checkpoint,
        Response::Opened => Answer::Other,
    }
}

/// The checkpoint that the adaptor makes up for a connector that ended
/// well without writing a last state: an empty object, as a merge patch, so
/// that nothing of the state before is lost.
pub fn synthetic_checkpoint() -> (r: Response)
    ensures
        r matches Response::Checkpoint { updated_json, merge_patch } && updated_json@ == "{}"@
            && merge_patch,
{
    Response::Checkpoint { updated_json: owned("{}"), merge_patch: true }
}

/// Whether the configuration of a capture asks that the least time of a
/// run be passed over: its member `_atf_skip_interval` is `true`.
pub open spec fn skips_interval(config: JsonView) -> bool {
    query(config, parse_pointer("/_atf_skip_interval"@)) == Some(JsonView::Bool(true))
}

/// Whether the configuration of a capture asks that the least time of a
/// run be passed over.
pub fn skip_interval(config: &Json) -> (r: bool)
    requires
        config.wf(),
    ensures
        r == skips_interval(config@),
{
    let ptr = Pointer::from_str("/_atf_skip_interval");
    match ptr.query(config) {
        Some(Json::Bool(b)) => *b,
        Some(other) => {
            proof {
                lemma_view_kind(*other);
            }
            false
        },
        None => false,
    }
}

/// The number that a text of digits stands for, if it is one that fits
/// into 64 bits. The text may begin with `+`.
pub open spec fn minutes_of(text: Seq<char>) -> Option<u64> {
    let digits = if text.len() > 0 && text[0] == '+' {
        text.skip(1)
    } else {
        text
    };
    if digits.len() > 0 && all_digits(digits) && digits_value(digits) <= u64::MAX {
        Some(digits_value(digits) as u64)
    } else {
        None
    }
}

/// Reads the least time that a run is to take, in minutes, from the text
/// of the file that holds it.
pub fn parse_run_interval(text: &str) -> (r: Result<u64, Error>)
    ensures
        match r {
            Ok(minutes) => minutes_of(text@) == Some(minutes),
            Err(e) => minutes_of(text@) is None && e == Error::ParseIntError,
        },
{
    let chars = chars_of(text);
    let n: usize = chars.len();
    let start: usize = if n > 0 && chars[0] == '+' {
        1
    } else {
        0
    };
    let ghost digits = chars@.skip(start as int);
    if start == n {
        return Err(Error::ParseIntError);
    }
    proof {
        assert(chars@.skip(0) =~= chars@);
    }
    let mut value: u64 = 0;
    let mut i: usize = start;
    proof {
        assert(digits.take(0) =~= Seq::<char>::empty());
    }
    while i < n
        invariant
            n == chars@.len(),
            start <= i <= n,
            start < n,
            digits == chars@.skip(start as int),
            chars@ == text@,
            digits == (if text@.len() > 0 && text@[0] == '+' {
                text@.skip(1)
            } else {
                text@
            }),
            all_digits(digits.take(i - start)),
            value == digits_value(digits.take(i - start)),
        decreases n - i,
    {
        let c = chars[i];
        let ghost prefix = digits.take(i - start);
        proof {
            assert(digits[i - start] == c);
            assert(digits.take(i - start + 1) =~= prefix.push(c));
            crate::text::lemma_digits_value_push(prefix, c);
        }
        if !is_digit_char(c) {
            proof {
                assert(!is_digit(digits[i - start]));
                assert(!all_digits(digits));
            }
            return Err(Error::ParseIntError);
        }
        let d: u64 = (c as u32 - 48) as u64;
        if value > (u64::MAX - d) / 10 {
            proof {
                assert(digits_value(digits.take(i - start + 1)) > u64::MAX) by (nonlinear_arith)
                    requires
                        value > (u64::MAX - d) / 10,
                        digits_value(digits.take(i - start + 1)) == value * 10 + d,
                        d < 10,
                ;
                crate::text::lemma_digits_value_grows(digits, i - start + 1);
            }
            return Err(Error::ParseIntError);
        }
        assert(value * 10 + d <= u64::MAX) by (nonlinear_arith)
            requires
                value <= (u64::MAX - d) / 10,
                d <= u64::MAX,
        ;
        value = value * 10 + d;
        assert forall|j: int| 0 <= j < i - start + 1 implies is_digit(
            #[trigger] digits.take(i - start + 1)[j],
        ) by {
            if j < i - start {
                assert(digits.take(i - start + 1)[j] == prefix[j]);
            }
        }
        i = i + 1;
    }
    assert(digits.take(n - start) =~= digits);
    Ok(value)
}

/// For how many milliseconds a run that has taken `elapsed` milliseconds
/// is still to rest, so that it takes `minutes` minutes at least.
pub open spec fn rest_of_interval(minutes: u64, elapsed: u64) -> int {
    if minutes * 60000 > elapsed {
        if minutes * 60000 - elapsed > u64::MAX {
            u64::MAX as int
        } else {
            minutes * 60000 - elapsed
        }
    } else {
        0
    }
}

/// For how many milliseconds a run is still to rest.
pub fn run_interval_remainder(minutes: u64, elapsed_millis: u64) -> (r: u64)
    ensures
        r == rest_of_interval(minutes, elapsed_millis),
{
    let total: u128 = (minutes as u128) * 60000;
    if total > elapsed_millis as u128 {
        let rest: u128 = total - elapsed_millis as u128;
        if rest > 0xffff_ffff_ffff_ffff {
            0xffff_ffff_ffff_ffff
        } else {
            rest as u64
        }
    } else {
        0
    }
}

} // verus!
