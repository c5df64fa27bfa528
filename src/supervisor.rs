//! The decisions of the privileged helper: who may be started, what a start,
//! a stop or a watchdog check does to the one managed process, and the log of
//! that process. Spawning, killing and waiting are done by the caller, as the
//! returned decisions say.

use vstd::prelude::*;
use vstd::string::StringExecFns;
use crate::logbuf::{joined, log_message, pushed, LogBuffer};
use crate::watchdog::{after_check, check_result, CheckResult, Watchdog};

verus! {

/// What `POST /start` carries: the executable, and its one argument.
pub struct StartParams {
    pub path: String,
    pub arg: String,
}

/// Lower-case hexadecimal SHA-256 digest of `data`.
pub uninterp spec fn sha256_hex(data: Seq<u8>) -> Seq<char>;

/// Relies on `sha2::Sha256::digest` and the `{:x}` formatting of its output:
/// the digest of `data` in lower-case hexadecimal, a function of `data` alone.
#[verifier::external_body]
fn sha256_hex_of(data: &[u8]) -> (r: String)
    ensures
        r@ == sha256_hex(data@),
{
    format!("{:x}", <sha2::Sha256 as sha2::Digest>::digest(data))
}

/// The digest that an executable's contents are checked by; an executable
/// that could not be read has the empty digest, which matches nothing real.
pub open spec fn file_digest_of(contents: Option<Seq<u8>>) -> Seq<char> {
    match contents {
        Some(b) => sha256_hex(b),
        None => Seq::empty(),
    }
}

/// The digest of an executable's contents (`None`: it could not be read).
pub fn file_digest(contents: Option<&[u8]>) -> (r: String)
    ensures
        r@ == file_digest_of(
            match contents {
                Some(b) => Some(b@),
                None => None,
            },
        ),
{
    match contents {
        Some(b) => sha256_hex_of(b),
        None => String::new(),
    }
}

/// The refusal that names both the digest presented and the one allowed.
pub open spec fn rejection_text(actual: Seq<char>, expected: Seq<char>) -> Seq<char> {
    "The SHA256 hash of the program requesting execution is: "@ + actual
        + ". The helper program only allows execution of applications with the SHA256 hash: "@
        + expected + "."@
}

/// What the caller does for a start request.
pub enum StartDecision {
    /// Answer with this text; spawn nothing.
    Rejected(String),
    /// Stop the managed process first when `stop_previous`, then spawn.
    Launch { stop_previous: bool },
}

/// `r` refuses the start with exactly the text `text`.
pub open spec fn is_rejection(r: StartDecision, text: Seq<char>) -> bool {
    match r {
        StartDecision::Rejected(msg) => msg@ == text,
        _ => false,
    }
}

/// What the caller does after a watchdog check.
#[derive(Debug, Clone, Copy, PartialEq, Eq, Structural)]
pub enum CheckAction {
    /// Nothing.
    Nothing,
    /// Kill the managed process and wait for it.
    KillManaged,
}

/// The helper's state, mathematically.
pub struct SupervisorView {
    pub expected_digest: Seq<char>,
    pub running: bool,
    pub logs: Seq<Seq<char>>,
    pub watchdog: Watchdog,
}

/// The one managed process (whether there is one), its log, and the watchdog.
pub struct Supervisor {
    expected_digest: String,
    running: bool,
    logs: LogBuffer,
    watchdog: Watchdog,
}

impl View for Supervisor {
    type V = SupervisorView;

    closed spec fn view(&self) -> SupervisorView {
        SupervisorView {
            expected_digest: self.expected_digest@,
            running: self.running,
            logs: self.logs@,
            watchdog: self.watchdog,
        }
    }
}

/// The state after a stop: no managed process.
pub open spec fn after_stop(v: SupervisorView) -> SupervisorView {
    SupervisorView { running: false, ..v }
}

/// The state after a check at `now`: a timeout leaves no managed process.
pub open spec fn after_supervised_check(v: SupervisorView, now: u64) -> SupervisorView {
    SupervisorView {
        running: v.running && check_result(v.watchdog, now) != CheckResult::TimedOut,
        watchdog: after_check(v.watchdog, now),
        ..v
    }
}

/// What a check at `now` asks of the caller.
pub open spec fn check_action(v: SupervisorView, now: u64) -> CheckAction {
    if v.running && check_result(v.watchdog, now) == CheckResult::TimedOut {
        CheckAction::KillManaged
    } else {
        CheckAction::Nothing
    }
}

impl Supervisor {
    pub open spec fn wf(&self) -> bool {
        self@.logs.len() <= crate::logbuf::LOG_CAPACITY
    }

    /// A helper that allows only executables whose digest is `expected_digest`,
    /// with no managed process and an empty log, its clock started at `now`.
    pub fn new(expected_digest: String, now: u64) -> (r: Supervisor)
        ensures
            r.wf(),
            r@ == (SupervisorView {
                expected_digest: expected_digest@,
                running: false,
                logs: Seq::empty(),
                watchdog: Watchdog { last_alive_ms: now, last_check_ms: now },
            }),
    {
        Supervisor {
            expected_digest,
            running: false,
            logs: LogBuffer::new(),
            watchdog: Watchdog::new(now),
        }
    }

    /// `GET /ping`: the allowed digest, proving which helper answers.
    pub fn ping(&self) -> (r: String)
        ensures
            r@ == self@.expected_digest,
    {
        self.expected_digest.clone()
    }

    /// Whether a managed process is recorded.
    pub fn is_running(&self) -> (r: bool)
        ensures
            r == self@.running,
    {
        self.running
    }

    /// `POST /heartbeat` at `now`.
    pub fn heartbeat(&mut self, now: u64)
        requires
            old(self).wf(),
        ensures
            final(self).wf(),
            final(self)@ == (SupervisorView {
                watchdog: Watchdog { last_alive_ms: now, ..old(self)@.watchdog },
                ..old(self)@
            }),
    {
        self.watchdog.heartbeat(now);
    }

    /// `POST /start` for an executable whose digest is `digest`, at `now`.
    /// A digest other than the allowed one is refused with a text naming
    /// both, and changes nothing. Otherwise the heartbeat clock restarts and
    /// the previous process, if any, is to be stopped before the spawn.
    pub fn start_with_digest(&mut self, digest: &str, now: u64) -> (r: StartDecision)
        requires
            old(self).wf(),
        ensures
            final(self).wf(),
            digest@ != old(self)@.expected_digest ==> is_rejection(
                r,
                rejection_text(digest@, old(self)@.expected_digest),
            ) && final(self)@ == old(self)@,
            digest@ == old(self)@.expected_digest ==> r == (StartDecision::Launch {
                stop_previous: old(self)@.running,
            }) && final(self)@ == (SupervisorView {
                running: false,
                watchdog: Watchdog { last_alive_ms: now, ..old(self)@.watchdog },
                ..old(self)@
            }),
    {
        let presented = String::from_str(digest);
        if presented != self.expected_digest {
            let mut msg = String::from_str("The SHA256 hash of the program requesting execution is: ");
            msg.append(digest);
            msg.append(". The helper program only allows execution of applications with the SHA256 hash: ");
            msg.append(self.expected_digest.as_str());
            msg.append(".");
            return StartDecision::Rejected(msg);
        }
        let stop_previous = self.running;
        self.running = false;
        self.watchdog.heartbeat(now);
        StartDecision::Launch { stop_previous }
    }

    /// `POST /start` for an executable with these contents (`None`: it could
    /// not be read), at `now`: as `start_with_digest` on its digest.
    pub fn start(&mut self, contents: Option<&[u8]>, now: u64) -> (r: StartDecision)
        requires
            old(self).wf(),
        ensures
            final(self).wf(),
            ({
                let d = file_digest_of(
                    match contents {
                        Some(b) => Some(b@),
                        None => None,
                    },
                );
                &&& d != old(self)@.expected_digest ==> is_rejection(
                    r,
                    rejection_text(d, old(self)@.expected_digest),
                ) && final(self)@ == old(self)@
                &&& d == old(self)@.expected_digest ==> r == (StartDecision::Launch {
                    stop_previous: old(self)@.running,
                }) && final(self)@ == (SupervisorView {
                    running: false,
                    watchdog: Watchdog { last_alive_ms: now, ..old(self)@.watchdog },
                    ..old(self)@
                })
            }),
    {
        let digest = file_digest(contents);
        self.start_with_digest(digest.as_str(), now)
    }

    /// Records how the spawn after a `Launch` went, and gives the response
    /// text: empty on success; on failure the error, which is also logged.
    pub fn finish_start(&mut self, spawned: Result<(), String>) -> (r: String)
        requires
            old(self).wf(),
        ensures
            final(self).wf(),
            match spawned {
                Ok(()) => r@ == Seq::<char>::empty() && final(self)@ == (SupervisorView {
                    running: true,
                    ..old(self)@
                }),
                Err(e) => r@ == e@ && final(self)@ == (SupervisorView {
                    logs: pushed(old(self)@.logs, e@ + seq!['\n']),
                    ..old(self)@
                }),
            },
    {
        match spawned {
            Ok(()) => {
                self.running = true;
                String::new()
            },
            Err(e) => {
                let copy = e.clone();
                log_message(&mut self.logs, copy);
                e
            },
        }
    }

    /// `POST /stop`: whether there was a managed process, which the caller
    /// kills and waits for. Afterwards there is none; a second stop is a no-op.
    pub fn stop(&mut self) -> (r: bool)
        requires
            old(self).wf(),
        ensures
            final(self).wf(),
            r == old(self)@.running,
            final(self)@ == after_stop(old(self)@),
    {
        let was = self.running;
        self.running = false;
        was
    }

    /// The periodic watchdog check at `now`.
    pub fn check(&mut self, now: u64) -> (r: CheckAction)
        requires
            old(self).wf(),
        ensures
            final(self).wf(),
            r == check_action(old(self)@, now),
            final(self)@ == after_supervised_check(old(self)@, now),
    {
        let result = self.watchdog.check(now);
        if result == CheckResult::TimedOut && self.running {
            self.running = false;
            CheckAction::KillManaged
        } else {
            CheckAction::Nothing
        }
    }

    /// Records one line of the managed process's output, or a message.
    pub fn log_message(&mut self, message: String)
        requires
            old(self).wf(),
        ensures
            final(self).wf(),
            final(self)@ == (SupervisorView {
                logs: pushed(old(self)@.logs, message@ + seq!['\n']),
                ..old(self)@
            }),
    {
        log_message(&mut self.logs, message);
    }

    /// `GET /logs`: the log lines joined by newlines, oldest first.
    pub fn get_logs(&self) -> (r: String)
        ensures
            r@ == joined(self@.logs, seq!['\n']),
    {
        self.logs.joined()
    }
}

/// Stopping twice is stopping once, and the second stop finds nothing to kill.
pub proof fn lemma_stop_idempotent(v: SupervisorView)
    ensures
        after_stop(after_stop(v)) == after_stop(v),
        !after_stop(v).running,
{
}

/// Once no process is managed, no check asks for a kill: a long silence
/// ends the managed process exactly once.
pub proof fn lemma_no_kill_without_process(v: SupervisorView, now: u64)
    requires
        !v.running,
    ensures
        check_action(v, now) == CheckAction::Nothing,
        !after_supervised_check(v, now).running,
{
}

/// A check after a timeout leaves no managed process behind.
pub proof fn lemma_kill_clears(v: SupervisorView, now: u64)
    requires
        check_action(v, now) == CheckAction::KillManaged,
    ensures
        !after_supervised_check(v, now).running,
        check_action(after_supervised_check(v, now), now) == CheckAction::Nothing,
{
}

} // verus!
