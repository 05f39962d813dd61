//! Sending SIGTERM or SIGKILL to a PID, plus confirming the process is
//! actually gone afterward rather than just trusting that the signal landed.
//!
//! A [`KillAttempt`] says what to do next and is told what came of it. After
//! the signal is sent, the process is looked for every [`POLL_MILLIS`] until it
//! is gone or [`CONFIRM_MILLIS`] have passed, and then once more.

use nix::errno::Errno;

use vstd::prelude::*;

use crate::proctree::ProcTree;

verus! {

/// How long to look for the process after sending a signal before giving up
/// on confirming that it exited, in milliseconds.
pub const CONFIRM_MILLIS: u128 = 3000;

/// How long to wait between two looks, in milliseconds.
pub const POLL_MILLIS: u64 = 50;

/// How an attempt to stop a process ended.
#[derive(Debug, Clone, PartialEq)]
pub enum KillOutcome {
    /// Signal sent, and the process was confirmed gone (its `/proc/<pid>`
    /// directory disappeared) within the timeout.
    ConfirmedDead,
    /// Signal sent successfully, but the process was still alive when the
    /// confirmation window ran out (common for a plain SIGTERM against a
    /// process that ignores or slow-handles it).
    SentButStillRunning,
    /// The PID no longer existed even before we tried (`ESRCH`), or is one that
    /// no process can have. Not a failure: the end state (process gone) is what
    /// was wanted anyway.
    AlreadyGone,
    /// We don't have permission to signal this PID (`EPERM`).
    PermissionDenied,
    /// Any other OS-level failure sending the signal.
    Error(String),
}

/// What a [`KillOutcome`] says.
#[verifier::ext_equal]
pub enum KillOutcomeView {
    ConfirmedDead,
    SentButStillRunning,
    AlreadyGone,
    PermissionDenied,
    Error(Seq<char>),
}

impl View for KillOutcome {
    type V = KillOutcomeView;

    open spec fn view(&self) -> KillOutcomeView {
        match *self {
            KillOutcome::ConfirmedDead => KillOutcomeView::ConfirmedDead,
            KillOutcome::SentButStillRunning => KillOutcomeView::SentButStillRunning,
            KillOutcome::AlreadyGone => KillOutcomeView::AlreadyGone,
            KillOutcome::PermissionDenied => KillOutcomeView::PermissionDenied,
            KillOutcome::Error(text) => KillOutcomeView::Error(text@),
        }
    }
}

/// The signal to send.
#[derive(Debug, Clone, Copy, PartialEq, Eq, Structural)]
pub enum KillSignal {
    Term,
    Kill,
}

/// What to do next in an attempt.
#[derive(Debug, Clone, Copy, PartialEq, Eq, Structural)]
pub enum KillAction {
    /// Send `signal` to `target`, and note the time once it is sent.
    Send { target: i32, signal: KillSignal },
    /// Tell how long ago the signal was sent.
    ReadClock,
    /// Look whether the process is still there.
    Look,
    /// Wait this long.
    Wait { millis: u64 },
    /// Nothing: the attempt is over.
    Nothing,
}

/// What came of an action.
#[derive(Debug, Clone, Copy, PartialEq, Eq, Structural)]
pub enum KillEvent {
    /// The signal was sent.
    Sent,
    /// It was refused, with this error number.
    Refused { errno: i32 },
    /// This many milliseconds have passed since the signal was sent.
    Clock { millis: u128 },
    /// The process is still there, or not.
    Running { yes: bool },
    /// The wait is over.
    Waited,
}

/// What an error number says of a refused signal.
#[derive(Debug, Clone, Copy, PartialEq, Eq, Structural)]
pub enum Refusal {
    /// `ESRCH`: there is no such process.
    NoSuchProcess,
    /// `EPERM`: we may not signal it.
    NotPermitted,
    /// Anything else.
    Other,
}

/// The error numbers that mean something: `ESRCH` is 3 and `EPERM` is 1.
pub open spec fn refusal_of(errno: i32) -> Refusal {
    if errno == 3 {
        Refusal::NoSuchProcess
    } else if errno == 1 {
        Refusal::NotPermitted
    } else {
        Refusal::Other
    }
}

/// How `nix` describes an error number.
pub uninterp spec fn errno_text(errno: i32) -> Seq<char>;

/// How an attempt ends whose signal was refused.
pub open spec fn refused(refusal: Refusal, description: Seq<char>) -> KillOutcomeView {
    match refusal {
        Refusal::NoSuchProcess => KillOutcomeView::AlreadyGone,
        Refusal::NotPermitted => KillOutcomeView::PermissionDenied,
        Refusal::Other => KillOutcomeView::Error(description),
    }
}

/// What an error number says, by [`Errno::from_raw`] of `nix`, which gives
/// `ESRCH` for the number 3 and `EPERM` for the number 1, the numbers that
/// Linux gives them, and neither for any other number.
#[verifier::external_body]
fn read_errno(errno: i32) -> (refusal: Refusal)
    ensures
        refusal == refusal_of(errno),
{
    match Errno::from_raw(errno) {
        Errno::ESRCH => Refusal::NoSuchProcess,
        Errno::EPERM => Refusal::NotPermitted,
        _ => Refusal::Other,
    }
}

/// The text that `nix` displays for an error number: the name of the error and
/// a fixed description. It depends on the number alone, by the table of error
/// numbers that `nix` has for the system it is built for; the table itself is
/// not spelled out.
#[verifier::external_body]
fn describe_errno(errno: i32) -> (text: String)
    ensures
        text@ == errno_text(errno),
{
    Errno::from_raw(errno).to_string()
}

/// How an attempt ends whose signal was refused.
pub fn refused_outcome(refusal: Refusal, description: String) -> (outcome: KillOutcome)
    ensures
        outcome@ == refused(refusal, description@),
{
    match refusal {
        Refusal::NoSuchProcess => KillOutcome::AlreadyGone,
        Refusal::NotPermitted => KillOutcome::PermissionDenied,
        Refusal::Other => KillOutcome::Error(description),
    }
}

/// The signal for a plain or a forced attempt.
pub open spec fn signal_for(force: bool) -> KillSignal {
    if force {
        KillSignal::Kill
    } else {
        KillSignal::Term
    }
}

/// Whether a process can have this PID. A signal to 0 would go to a whole
/// process group, and the numbers above `i32::MAX` would be taken for negative
/// ones, which stand for groups too, or for every process.
pub open spec fn can_be_process(pid: u32) -> bool {
    0 < pid <= i32::MAX
}

/// What a [`KillAttempt`] waits for.
#[derive(Debug, Clone, Copy, PartialEq, Eq, Structural)]
pub enum KillStage {
    /// The signal to be sent.
    Send,
    /// The time.
    Clock,
    /// A look at the process.
    Look,
    /// The end of a wait.
    Wait,
    /// The look after the time is up.
    LastLook,
    /// Nothing.
    Done,
}

/// An attempt under way.
pub struct KillAttempt {
    pid: u32,
    force: bool,
    stage: KillStage,
    outcome: Option<KillOutcome>,
}

/// What a [`KillAttempt`] has come to.
#[verifier::ext_equal]
pub struct KillAttemptView {
    pub pid: u32,
    pub force: bool,
    pub stage: KillStage,
    pub outcome: Option<KillOutcomeView>,
}

impl KillAttemptView {
    /// An attempt that has yet to begin. Where no process can have this PID
    /// there is none to signal, and it is over at once.
    pub open spec fn start(pid: u32, force: bool) -> Self {
        let idle = KillAttemptView { pid, force, stage: KillStage::Send, outcome: None };
        if can_be_process(pid) {
            idle
        } else {
            idle.ended(KillOutcomeView::AlreadyGone)
        }
    }

    /// What to do next.
    pub open spec fn action(self) -> KillAction {
        match self.stage {
            KillStage::Send => KillAction::Send {
                target: self.pid as i32,
                signal: signal_for(self.force),
            },
            KillStage::Clock => KillAction::ReadClock,
            KillStage::Look | KillStage::LastLook => KillAction::Look,
            KillStage::Wait => KillAction::Wait { millis: POLL_MILLIS },
            KillStage::Done => KillAction::Nothing,
        }
    }

    /// The attempt, waiting for something else.
    pub open spec fn at(self, stage: KillStage) -> Self {
        KillAttemptView { stage, ..self }
    }

    /// The attempt, ended with `outcome`.
    pub open spec fn ended(self, outcome: KillOutcomeView) -> Self {
        KillAttemptView { stage: KillStage::Done, outcome: Some(outcome), ..self }
    }

    /// The attempt once it knows what came of its action. An event that does
    /// not belong to the action leaves it as it is.
    pub open spec fn step(self, event: KillEvent) -> Self {
        match (self.stage, event) {
            (KillStage::Send, KillEvent::Sent) => self.at(KillStage::Clock),
            (KillStage::Send, KillEvent::Refused { errno }) => self.ended(
                refused(refusal_of(errno), errno_text(errno)),
            ),
            (KillStage::Clock, KillEvent::Clock { millis }) => if millis < CONFIRM_MILLIS {
                self.at(KillStage::Look)
            } else {
                self.at(KillStage::LastLook)
            },
            (KillStage::Look, KillEvent::Running { yes }) => if yes {
                self.at(KillStage::Wait)
            } else {
                self.ended(KillOutcomeView::ConfirmedDead)
            },
            (KillStage::Wait, KillEvent::Waited) => self.at(KillStage::Clock),
            (KillStage::LastLook, KillEvent::Running { yes }) => if yes {
                self.ended(KillOutcomeView::SentButStillRunning)
            } else {
                self.ended(KillOutcomeView::ConfirmedDead)
            },
            _ => self,
        }
    }

    /// The attempt after all of `events`.
    pub open spec fn run(self, events: Seq<KillEvent>) -> Self
        decreases events.len(),
    {
        if events.len() == 0 {
            self
        } else {
            self.run(events.drop_last()).step(events.last())
        }
    }

    /// Whether an attempt has an outcome exactly when it is over, and is about
    /// to send a signal only to what can be a process.
    pub open spec fn well_formed(self) -> bool {
        &&& self.stage is Done <==> self.outcome is Some
        &&& self.stage is Send ==> can_be_process(self.pid)
    }
}

impl View for KillAttempt {
    type V = KillAttemptView;

    closed spec fn view(&self) -> KillAttemptView {
        KillAttemptView {
            pid: self.pid,
            force: self.force,
            stage: self.stage,
            outcome: match self.outcome {
                Some(outcome) => Some(outcome@),
                None => None,
            },
        }
    }
}

/// Checks whether `<pid>` still exists in `tree`.
pub fn is_running(tree: &ProcTree, pid: u32) -> (yes: bool)
    ensures
        yes == tree@.has_process(pid),
{
    tree.has_process(pid)
}

/// Begins an attempt to send SIGTERM (or SIGKILL if `force`) to `pid` and to
/// see whether the process is then actually gone. Where no process can have
/// this PID, nothing is sent: it is already gone.
pub fn kill_and_confirm(pid: u32, force: bool) -> (attempt: KillAttempt)
    ensures
        attempt@ == KillAttemptView::start(pid, force),
{
    if 0 < pid && pid <= i32::MAX as u32 {
        KillAttempt { pid, force, stage: KillStage::Send, outcome: None }
    } else {
        KillAttempt { pid, force, stage: KillStage::Done, outcome: Some(KillOutcome::AlreadyGone) }
    }
}

impl KillAttempt {
    /// Only what can be a process is signaled.
    #[verifier::type_invariant]
    spec fn keeps_to_processes(self) -> bool {
        self.stage is Send ==> can_be_process(self.pid)
    }

    /// What to do next. A signal is only ever sent to the process itself.
    pub fn action(&self) -> (out: KillAction)
        ensures
            out == self@.action(),
            out matches KillAction::Send { target, .. } ==> 0 < target && target == self@.pid,
    {
        proof {
            use_type_invariant(self);
        }
        match self.stage {
            KillStage::Send => {
                let target: i32 = self.pid as i32;
                let signal = if self.force {
                    KillSignal::Kill
                } else {
                    KillSignal::Term
                };
                KillAction::Send { target, signal }
            },
            KillStage::Clock => KillAction::ReadClock,
            KillStage::Look | KillStage::LastLook => KillAction::Look,
            KillStage::Wait => KillAction::Wait { millis: POLL_MILLIS },
            KillStage::Done => KillAction::Nothing,
        }
    }

    /// Takes note of what came of the action. An event that does not belong to
    /// it leaves the attempt as it is.
    pub fn observe(&mut self, event: KillEvent)
        ensures
            final(self)@ == old(self)@.step(event),
    {
        match (self.stage, event) {
            (KillStage::Send, KillEvent::Sent) => {
                self.stage = KillStage::Clock;
            },
            (KillStage::Send, KillEvent::Refused { errno }) => {
                self.end(refused_outcome(read_errno(errno), describe_errno(errno)));
            },
            (KillStage::Clock, KillEvent::Clock { millis }) => {
                self.stage = if millis < CONFIRM_MILLIS {
                    KillStage::Look
                } else {
                    KillStage::LastLook
                };
            },
            (KillStage::Look, KillEvent::Running { yes }) => {
                if yes {
                    self.stage = KillStage::Wait;
                } else {
                    self.end(KillOutcome::ConfirmedDead);
                }
            },
            (KillStage::Wait, KillEvent::Waited) => {
                self.stage = KillStage::Clock;
            },
            (KillStage::LastLook, KillEvent::Running { yes }) => {
                if yes {
                    self.end(KillOutcome::SentButStillRunning);
                } else {
                    self.end(KillOutcome::ConfirmedDead);
                }
            },
            _ => {},
        }
    }

    fn end(&mut self, outcome: KillOutcome)
        ensures
            final(self)@ == old(self)@.ended(outcome@),
    {
        self.stage = KillStage::Done;
        self.outcome = Some(outcome);
    }

    /// How the attempt ended, once it is over.
    pub fn outcome(&self) -> (out: Option<&KillOutcome>)
        ensures
            match out {
                Some(outcome) => self@.outcome == Some(outcome@),
                None => self@.outcome is None,
            },
    {
        match &self.outcome {
            Some(outcome) => Some(outcome),
            None => None,
        }
    }
}

/// An attempt has an outcome exactly when it is over, whatever happens, and
/// is about to send a signal only to what can be a process.
pub proof fn law_outcome_when_done(pid: u32, force: bool, events: Seq<KillEvent>)
    ensures
        KillAttemptView::start(pid, force).run(events).well_formed(),
    decreases events.len(),
{
    if events.len() > 0 {
        law_outcome_when_done(pid, force, events.drop_last());
    }
}

/// Whatever happens, an attempt stays one on the same process with the same
/// signal.
proof fn lemma_run_keeps(attempt: KillAttemptView, events: Seq<KillEvent>)
    ensures
        attempt.run(events).pid == attempt.pid,
        attempt.run(events).force == attempt.force,
    decreases events.len(),
{
    if events.len() > 0 {
        lemma_run_keeps(attempt, events.drop_last());
    }
}

/// Whatever happens, the only signal that an attempt sends is the one asked
/// for, and it goes to the process itself: never to a process group, and never
/// to every process.
pub proof fn law_signals_only_the_process(pid: u32, force: bool, events: Seq<KillEvent>)
    ensures
        KillAttemptView::start(pid, force).run(events).action() matches KillAction::Send {
            target,
            signal,
        } ==> 0 < target && target == pid && signal == signal_for(force),
{
    law_outcome_when_done(pid, force, events);
    lemma_run_keeps(KillAttemptView::start(pid, force), events);
}

/// An attempt on a PID that no process can have asks for nothing at all, and
/// counts as one on a process that is gone.
pub proof fn law_no_process_no_signal(pid: u32, force: bool, events: Seq<KillEvent>)
    requires
        pid == 0 || pid > i32::MAX,
    ensures
        KillAttemptView::start(pid, force).run(events).action() is Nothing,
        KillAttemptView::start(pid, force).run(events).outcome == Some(
            KillOutcomeView::AlreadyGone,
        ),
{
    law_over_is_over(KillAttemptView::start(pid, force), events);
}

/// Once the signal is sent, or refused, no other is sent: one attempt sends
/// one signal, and does not turn to a stronger one by itself.
pub proof fn law_one_signal(attempt: KillAttemptView, events: Seq<KillEvent>)
    requires
        !(attempt.stage is Send),
    ensures
        !(attempt.run(events).stage is Send),
        !(attempt.run(events).action() is Send),
    decreases events.len(),
{
    if events.len() > 0 {
        law_one_signal(attempt, events.drop_last());
    }
}

/// An attempt that is over stays as it is.
pub proof fn law_over_is_over(attempt: KillAttemptView, events: Seq<KillEvent>)
    requires
        attempt.stage is Done,
    ensures
        attempt.run(events) == attempt,
    decreases events.len(),
{
    if events.len() > 0 {
        law_over_is_over(attempt, events.drop_last());
    }
}

/// Whether event `i` is one that the attempt waited for at `stage`.
pub open spec fn heard(
    start: KillAttemptView,
    events: Seq<KillEvent>,
    i: int,
    stage: KillStage,
    event: KillEvent,
) -> bool {
    &&& 0 <= i < events.len()
    &&& start.run(events.take(i)).stage == stage
    &&& events[i] == event
}

/// Whether the signal was reported as sent.
pub open spec fn was_sent(start: KillAttemptView, events: Seq<KillEvent>) -> bool {
    exists|i: int| #[trigger] heard(start, events, i, KillStage::Send, KillEvent::Sent)
}

/// Whether the process was looked for and not found.
pub open spec fn seen_gone(start: KillAttemptView, events: Seq<KillEvent>) -> bool {
    exists|i: int, stage: KillStage| #[trigger]
        heard(start, events, i, stage, KillEvent::Running { yes: false }) && (stage is Look
            || stage is LastLook)
}

/// Whether the process was looked for after the time was up, and found.
pub open spec fn seen_running_at_last(start: KillAttemptView, events: Seq<KillEvent>) -> bool {
    exists|i: int| #[trigger]
        heard(start, events, i, KillStage::LastLook, KillEvent::Running { yes: true })
}

/// Whether the clock showed that the time was up.
pub open spec fn time_was_up(start: KillAttemptView, events: Seq<KillEvent>) -> bool {
    exists|i: int, millis: u128| #[trigger]
        heard(start, events, i, KillStage::Clock, KillEvent::Clock { millis }) && millis
            >= CONFIRM_MILLIS
}

/// Whether the signal was refused in a way that ends in `outcome`.
pub open spec fn was_refused(
    start: KillAttemptView,
    events: Seq<KillEvent>,
    outcome: KillOutcomeView,
) -> bool {
    exists|i: int, errno: i32| #[trigger]
        heard(start, events, i, KillStage::Send, KillEvent::Refused { errno }) && outcome
            == refused(refusal_of(errno), errno_text(errno))
}

/// What must have happened for an attempt to be where it is.
pub open spec fn explained(start: KillAttemptView, events: Seq<KillEvent>) -> bool {
    let now = start.run(events);
    &&& !(now.stage is Send || now.stage is Done) ==> was_sent(start, events)
    &&& now.stage is LastLook ==> time_was_up(start, events)
    &&& match now.outcome {
        None => true,
        Some(KillOutcomeView::ConfirmedDead) => was_sent(start, events) && seen_gone(start, events),
        Some(KillOutcomeView::SentButStillRunning) => was_sent(start, events) && time_was_up(
            start,
            events,
        ) && seen_running_at_last(start, events),
        Some(outcome) => was_refused(start, events, outcome) || (outcome is AlreadyGone
            && !can_be_process(start.pid)),
    }
}

/// What was heard is not unheard by what follows.
proof fn lemma_still_heard(
    start: KillAttemptView,
    events: Seq<KillEvent>,
    i: int,
    stage: KillStage,
    event: KillEvent,
)
    requires
        events.len() > 0,
        heard(start, events.drop_last(), i, stage, event),
    ensures
        heard(start, events, i, stage, event),
{
    assert(events.drop_last().take(i) == events.take(i));
}

/// No outcome comes without its reason. A process is called dead only if the
/// signal was sent and the process was then looked for and not found; still
/// running only if it was found after the time was up; and the other outcomes
/// only if the signal was refused for that very reason, or, for a process
/// called already gone, if no process can have its PID.
pub proof fn law_outcome_has_its_reason(pid: u32, force: bool, events: Seq<KillEvent>)
    ensures
        explained(KillAttemptView::start(pid, force), events),
    decreases events.len(),
{
    let start = KillAttemptView::start(pid, force);
    if events.len() > 0 {
        let init = events.drop_last();
        let event = events.last();
        let n = events.len() - 1;
        let before = start.run(init);
        law_outcome_has_its_reason(pid, force, init);
        law_outcome_when_done(pid, force, init);
        assert(events.take(n) == init);
        match (before.stage, event) {
            (KillStage::Send, KillEvent::Sent) => {
                assert(heard(start, events, n, KillStage::Send, KillEvent::Sent));
            },
            (KillStage::Send, KillEvent::Refused { errno }) => {
                assert(heard(start, events, n, KillStage::Send, KillEvent::Refused { errno }));
            },
            (KillStage::Clock, KillEvent::Clock { millis }) => {
                assert(heard(start, events, n, KillStage::Clock, KillEvent::Clock { millis }));
            },
            (stage, KillEvent::Running { yes }) => {
                assert(heard(start, events, n, stage, KillEvent::Running { yes }));
            },
            _ => {},
        }
        if was_sent(start, init) {
            let i = choose|i: int| #[trigger]
                heard(start, init, i, KillStage::Send, KillEvent::Sent);
            lemma_still_heard(start, events, i, KillStage::Send, KillEvent::Sent);
        }
        if time_was_up(start, init) {
            let (i, millis) = choose|i: int, millis: u128| #[trigger]
                heard(start, init, i, KillStage::Clock, KillEvent::Clock { millis }) && millis
                    >= CONFIRM_MILLIS;
            lemma_still_heard(start, events, i, KillStage::Clock, KillEvent::Clock { millis });
        }
        if seen_gone(start, init) {
            let (i, stage) = choose|i: int, stage: KillStage| #[trigger]
                heard(start, init, i, stage, KillEvent::Running { yes: false }) && (stage is Look
                    || stage is LastLook);
            lemma_still_heard(start, events, i, stage, KillEvent::Running { yes: false });
        }
        if seen_running_at_last(start, init) {
            let i = choose|i: int| #[trigger]
                heard(start, init, i, KillStage::LastLook, KillEvent::Running { yes: true });
            lemma_still_heard(
                start,
                events,
                i,
                KillStage::LastLook,
                KillEvent::Running { yes: true },
            );
        }
        if let Some(outcome) = before.outcome {
            if was_refused(start, init, outcome) {
                let (i, errno) = choose|i: int, errno: i32| #[trigger]
                    heard(start, init, i, KillStage::Send, KillEvent::Refused { errno })
                        && outcome == refused(refusal_of(errno), errno_text(errno));
                lemma_still_heard(start, events, i, KillStage::Send, KillEvent::Refused { errno });
            }
        }
    }
}

/// Once the time is up, the next look ends the attempt, whichever way it
/// turns out.
pub proof fn law_time_ends_the_attempt(attempt: KillAttemptView, millis: u128, yes: bool)
    requires
        attempt.stage is Clock,
        millis >= CONFIRM_MILLIS,
    ensures
        attempt.run(seq![KillEvent::Clock { millis }, KillEvent::Running { yes }]) == attempt.ended(
            if yes {
                KillOutcomeView::SentButStillRunning
            } else {
                KillOutcomeView::ConfirmedDead
            },
        ),
{
    let events = seq![KillEvent::Clock { millis }, KillEvent::Running { yes }];
    reveal_with_fuel(KillAttemptView::run, 3);
    assert(events.drop_last().drop_last() == Seq::<KillEvent>::empty());
}

/// Before the time is up, a process that is found is waited for and looked for
/// again.
pub proof fn law_polling_goes_on(attempt: KillAttemptView, millis: u128)
    requires
        attempt.stage is Clock,
        millis < CONFIRM_MILLIS,
    ensures
        attempt.run(
            seq![KillEvent::Clock { millis }, KillEvent::Running { yes: true }, KillEvent::Waited],
        ) == attempt,
{
    let events = seq![
        KillEvent::Clock { millis },
        KillEvent::Running { yes: true },
        KillEvent::Waited,
    ];
    reveal_with_fuel(KillAttemptView::run, 4);
    assert(events.drop_last().drop_last().drop_last() == Seq::<KillEvent>::empty());
}

/// Whether `event` is something that can come of `action`.
pub open spec fn answers(action: KillAction, event: KillEvent) -> bool {
    match action {
        KillAction::Send { .. } => event is Sent || event is Refused,
        KillAction::ReadClock => event is Clock,
        KillAction::Look => event is Running,
        KillAction::Wait { .. } => event is Waited,
        KillAction::Nothing => false,
    }
}

/// How many waits there are among `events`.
pub open spec fn waits(events: Seq<KillEvent>) -> nat {
    events.filter(|event: KillEvent| event is Waited).len()
}

/// How many looks at the process there are among `events`.
pub open spec fn looks(events: Seq<KillEvent>) -> nat {
    events.filter(|event: KillEvent| event is Running).len()
}

/// Whether each of `events` is what came of the action that the attempt asked
/// for, with a clock that shows at least the time spent waiting.
pub open spec fn carried_out(attempt: KillAttemptView, events: Seq<KillEvent>) -> bool {
    forall|i: int|
        0 <= i < events.len() ==> {
            &&& answers(attempt.run(events.take(i)).action(), #[trigger] events[i])
            &&& events[i] matches KillEvent::Clock { millis } ==> millis >= POLL_MILLIS * waits(
                events.take(i),
            )
        }
}

/// Where an attempt stands after so many waits, looks and events since the
/// signal was sent.
spec fn in_step(stage: KillStage, waited: nat, looked: nat, count: nat) -> bool {
    match stage {
        KillStage::Send => false,
        KillStage::Clock => waited <= 60 && looked == waited && count == 3 * waited,
        KillStage::Look => waited < 60 && looked == waited && count == 3 * waited + 1,
        KillStage::LastLook => waited <= 60 && looked == waited && count == 3 * waited + 1,
        KillStage::Wait => waited < 60 && looked == waited + 1 && count == 3 * waited + 2,
        KillStage::Done => waited <= 60 && looked == waited + 1 && count == 3 * waited + 2,
    }
}

/// What one more event adds to the waits and looks.
proof fn lemma_one_more_event(events: Seq<KillEvent>)
    requires
        events.len() > 0,
    ensures
        waits(events) == waits(events.drop_last()) + if events.last() is Waited {
            1nat
        } else {
            0
        },
        looks(events) == looks(events.drop_last()) + if events.last() is Running {
            1nat
        } else {
            0
        },
{
    let init = events.drop_last();
    init.lemma_filter_push(events.last(), |event: KillEvent| event is Waited);
    init.lemma_filter_push(events.last(), |event: KillEvent| event is Running);
    assert(init.push(events.last()) == events);
}

/// One event that answers the action asked for keeps an attempt in step.
proof fn lemma_stays_in_step(
    before: KillAttemptView,
    event: KillEvent,
    waited: nat,
    looked: nat,
    count: nat,
)
    requires
        in_step(before.stage, waited, looked, count),
        answers(before.action(), event),
        event matches KillEvent::Clock { millis } ==> millis >= POLL_MILLIS * waited,
    ensures
        in_step(
            before.step(event).stage,
            if event is Waited {
                waited + 1
            } else {
                waited
            },
            if event is Running {
                looked + 1
            } else {
                looked
            },
            count + 1,
        ),
{
}

/// What came of the actions asked for up to some event is carried out too.
proof fn lemma_carried_out_before(attempt: KillAttemptView, events: Seq<KillEvent>)
    requires
        events.len() > 0,
        carried_out(attempt, events),
    ensures
        carried_out(attempt, events.drop_last()),
{
    let init = events.drop_last();
    assert forall|i: int| 0 <= i < init.len() implies {
        &&& answers(attempt.run(init.take(i)).action(), #[trigger] init[i])
        &&& init[i] matches KillEvent::Clock { millis } ==> millis >= POLL_MILLIS * waits(
            init.take(i),
        )
    } by {
        assert(init.take(i) == events.take(i));
        assert(init[i] == events[i]);
    }
}

/// An attempt that is carried out keeps in step.
proof fn lemma_progress(attempt: KillAttemptView, events: Seq<KillEvent>)
    requires
        attempt.stage is Clock,
        carried_out(attempt, events),
    ensures
        in_step(attempt.run(events).stage, waits(events), looks(events), events.len()),
    decreases events.len(),
{
    if events.len() == 0 {
        reveal(Seq::filter);
    } else {
        let init = events.drop_last();
        let n = events.len() - 1;
        lemma_carried_out_before(attempt, events);
        lemma_progress(attempt, init);
        assert(events.take(n) == init);
        assert(answers(attempt.run(events.take(n)).action(), events[n]));
        lemma_one_more_event(events);
        lemma_stays_in_step(
            attempt.run(init),
            events.last(),
            waits(init),
            looks(init),
            init.len(),
        );
    }
}

/// An attempt comes to an end. Once the signal is sent there are at most 60
/// waits and 61 looks, and after 182 events at the latest it is over; and it
/// does not end without a look.
pub proof fn law_attempt_ends(attempt: KillAttemptView, events: Seq<KillEvent>)
    requires
        attempt.stage is Clock,
        carried_out(attempt, events),
    ensures
        waits(events) <= 60,
        looks(events) <= 61,
        events.len() <= 182,
        events.len() == 182 ==> attempt.run(events).stage is Done,
        attempt.run(events).stage is Done ==> looks(events) >= 1,
{
    lemma_progress(attempt, events);
}

/// An outcome is seen as it is.
pub proof fn law_outcomes_are_seen_whole(outcome: KillOutcome)
    ensures
        outcome is ConfirmedDead ==> outcome@ is ConfirmedDead,
        outcome is SentButStillRunning ==> outcome@ is SentButStillRunning,
        outcome is AlreadyGone ==> outcome@ is AlreadyGone,
        outcome is PermissionDenied ==> outcome@ is PermissionDenied,
        outcome matches KillOutcome::Error(text) ==> outcome@ == KillOutcomeView::Error(text@),
{
}

/// Events come one after the other.
pub proof fn law_events_follow_each_other(
    attempt: KillAttemptView,
    events: Seq<KillEvent>,
    event: KillEvent,
)
    ensures
        attempt.run(Seq::empty()) == attempt,
        attempt.run(events.push(event)) == attempt.run(events).step(event),
{
    assert(events.push(event).drop_last() == events);
}

/// An attempt on a process begins with the signal: SIGKILL where it is forced
/// and SIGTERM otherwise, to that very process. Nothing is decided before.
pub proof fn law_attempt_begins_with_the_signal(pid: u32, force: bool)
    requires
        0 < pid <= 2147483647,
    ensures
        KillAttemptView::start(pid, force).outcome is None,
        KillAttemptView::start(pid, force).action() == (KillAction::Send {
            target: pid as i32,
            signal: if force {
                KillSignal::Kill
            } else {
                KillSignal::Term
            },
        }),
        pid as i32 == pid,
{
}

/// A signal that is refused ends the attempt, for the reason that was given:
/// there is no such process, it may not be signaled, or whatever else the
/// error number stands for. One that is sent leaves the outcome open.
pub proof fn law_reply_to_the_signal(pid: u32, force: bool, errno: i32)
    requires
        0 < pid <= 2147483647,
    ensures
        ({
            let refused = KillAttemptView::start(pid, force).step(KillEvent::Refused { errno });
            &&& refused.action() is Nothing
            &&& errno == 3 ==> refused.outcome == Some(KillOutcomeView::AlreadyGone)
            &&& errno == 1 ==> refused.outcome == Some(KillOutcomeView::PermissionDenied)
            &&& errno != 3 && errno != 1 ==> refused.outcome == Some(
                KillOutcomeView::Error(errno_text(errno)),
            )
        }),
        KillAttemptView::start(pid, force).step(KillEvent::Sent).action() is ReadClock,
        KillAttemptView::start(pid, force).step(KillEvent::Sent).outcome is None,
{
}

/// A refusal is told by its reason, and a description only where there is no
/// other.
pub proof fn law_refusals_are_told(description: Seq<char>)
    ensures
        refused(Refusal::NoSuchProcess, description) is AlreadyGone,
        refused(Refusal::NotPermitted, description) is PermissionDenied,
        refused(Refusal::Other, description) == KillOutcomeView::Error(description),
{
}

/// Before three seconds have passed, the process is looked for: gone, it is
/// confirmed dead; still there, it is waited for, 50 milliseconds, and then the
/// clock is read again.
pub proof fn law_polling_within_the_time(attempt: KillAttemptView, millis: u128)
    requires
        attempt.action() is ReadClock,
        attempt.outcome is None,
        millis < 3000,
    ensures
        ({
            let read = attempt.step(KillEvent::Clock { millis });
            let gone = read.step(KillEvent::Running { yes: false });
            let there = read.step(KillEvent::Running { yes: true });
            let waited = there.step(KillEvent::Waited);
            &&& read.action() is Look
            &&& read.outcome is None
            &&& gone.action() is Nothing
            &&& gone.outcome == Some(KillOutcomeView::ConfirmedDead)
            &&& there.action() == (KillAction::Wait { millis: 50 })
            &&& there.outcome is None
            &&& waited == attempt
        }),
{
}

/// Once three seconds have passed, the process is looked for a last time: gone,
/// it is confirmed dead; still there, it is reported as running.
pub proof fn law_last_look_after_the_time(attempt: KillAttemptView, millis: u128)
    requires
        attempt.action() is ReadClock,
        attempt.outcome is None,
        millis >= 3000,
    ensures
        ({
            let read = attempt.step(KillEvent::Clock { millis });
            let gone = read.step(KillEvent::Running { yes: false });
            let there = read.step(KillEvent::Running { yes: true });
            &&& read.action() is Look
            &&& read.outcome is None
            &&& gone.action() is Nothing
            &&& gone.outcome == Some(KillOutcomeView::ConfirmedDead)
            &&& there.action() is Nothing
            &&& there.outcome == Some(KillOutcomeView::SentButStillRunning)
        }),
{
}

/// An event that cannot have come of the action asked for changes nothing.
pub proof fn law_other_events_change_nothing(attempt: KillAttemptView, event: KillEvent)
    requires
        attempt.action() is Send ==> !(event is Sent) && !(event is Refused),
        attempt.action() is ReadClock ==> !(event is Clock),
        attempt.action() is Look ==> !(event is Running),
        attempt.action() is Wait ==> !(event is Waited),
    ensures
        attempt.step(event) == attempt,
{
}

} // verus!
