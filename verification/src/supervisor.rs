use vstd::prelude::*;
use crate::forward::{
    info_with_id, updated, ForwardConfig, ForwardConfigView, ForwardInfo, ForwardInfoView,
    ForwardState, ForwardStatus, MAX_BACKOFF_SECS,
};
use crate::text::{decimal, decimal_string};
use crate::forward::{evolves, lemma_position_of, lemma_update_evolves, unique_ids};
use vstd::arithmetic::power::pow;
use vstd::arithmetic::power2::{lemma_pow2, lemma_pow2_pos, lemma_pow2_unfold, pow2};

verus! {

/// The arguments of the `ssh` process that keeps a forward up:
/// no remote command, keep-alives so that a dead peer ends the process, no
/// shared master connection (it would take the forward and exit at once),
/// then `-R` for a remote forward or `-L` otherwise, the
/// `local_port:remote_host:remote_port` spec and the host alias.
pub open spec fn ssh_arguments(c: ForwardConfigView) -> Seq<Seq<char>> {
    seq![
        "-N"@,
        "-o"@,
        "ServerAliveInterval=10"@,
        "-o"@,
        "ServerAliveCountMax=3"@,
        "-o"@,
        "ControlMaster=no"@,
        "-o"@,
        "ControlPath=none"@,
        if c.direction == "remote"@ { "-R"@ } else { "-L"@ },
        forward_spec(c),
        c.alias,
    ]
}

pub open spec fn forward_spec(c: ForwardConfigView) -> Seq<char> {
    decimal(c.local_port as nat) + ":"@ + c.remote_host + ":"@ + decimal(c.remote_port as nat)
}

/// The arguments of `ssh` for a forward.
pub fn ssh_forward_args(c: &ForwardConfig) -> (r: Vec<String>)
    ensures
        r@.map_values(|a: String| a@) == ssh_arguments(c@),
{
    let mut spec = decimal_string(c.local_port as u64);
    spec.append(":");
    spec.append(c.remote_host.as_str());
    spec.append(":");
    let rp = decimal_string(c.remote_port as u64);
    spec.append(rp.as_str());
    let flag = if c.direction == "remote".to_owned() {
        "-R".to_owned()
    } else {
        "-L".to_owned()
    };
    let mut r: Vec<String> = Vec::new();
    r.push("-N".to_owned());
    r.push("-o".to_owned());
    r.push("ServerAliveInterval=10".to_owned());
    r.push("-o".to_owned());
    r.push("ServerAliveCountMax=3".to_owned());
    r.push("-o".to_owned());
    r.push("ControlMaster=no".to_owned());
    r.push("-o".to_owned());
    r.push("ControlPath=none".to_owned());
    r.push(flag);
    r.push(spec);
    r.push(c.alias.clone());
    proof {
        assert(r@.map_values(|a: String| a@) =~= ssh_arguments(c@));
    }
    r
}

/// The `ssh` command of a forward always ends with the forward's host alias,
/// the one from ~/.ssh/config, in both directions; before it stands the
/// `local_port:remote_host:remote_port` spec, and before that `-R` for a
/// remote forward and `-L` for any other. Two forwards that differ only in
/// direction get the same arguments but for that flag.
pub proof fn lemma_forward_command(c: ForwardConfigView, d: ForwardConfigView)
    ensures
        ssh_arguments(c).len() == 12,
        ssh_arguments(c).last() == c.alias,
        ssh_arguments(c)[10] == decimal(c.local_port as nat) + ":"@ + c.remote_host + ":"@ + decimal(
            c.remote_port as nat,
        ),
        ssh_arguments(c)[9] == if c.direction == "remote"@ {
            "-R"@
        } else {
            "-L"@
        },
        ssh_arguments(c)[0] == "-N"@,
        (c.alias == d.alias && c.local_port == d.local_port && c.remote_host == d.remote_host
            && c.remote_port == d.remote_port) ==> forall|i: int|
            0 <= i < 12 && i != 9 ==> #[trigger] ssh_arguments(c)[i] == ssh_arguments(d)[i],
{
}

/// Whether a forward is a local (`-L`) one, whose local port can be probed.
pub open spec fn is_local(c: ForwardConfigView) -> bool {
    c.direction != "remote"@
}

/// The next delay between attempts: doubled, up to the ceiling.
pub open spec fn next_backoff(b: u64) -> u64 {
    if 2 * b < MAX_BACKOFF_SECS {
        (2 * b) as u64
    } else {
        MAX_BACKOFF_SECS
    }
}

/// How long a freshly started local forward may leave its port silent
/// before that counts as a failure: ten seconds, in nanoseconds.
pub const GRACE_PERIOD_NANOS: u128 = 10_000_000_000;

/// Whether the grace period of a forward started `elapsed_nanos` ago is over.
pub fn grace_elapsed(elapsed_nanos: u128) -> (r: bool)
    ensures
        r == (elapsed_nanos > GRACE_PERIOD_NANOS),
{
    elapsed_nanos > GRACE_PERIOD_NANOS
}

/// Where the supervisor of one forward stands.
pub enum Phase {
    /// About to (re)start the ssh process.
    Starting,
    /// The ssh process was asked for.
    Spawning,
    /// The ssh process runs and is watched.
    Watching { reported_active: bool },
    /// The watch ended, with the failure that ended it (if any); the process
    /// is being killed.
    Ending { failure: Option<String> },
    /// The supervisor is done.
    Finished,
}

pub enum PhaseView {
    Starting,
    Spawning,
    Watching { reported_active: bool },
    Ending { failure: Option<Seq<char>> },
    Finished,
}

impl View for Phase {
    type V = PhaseView;

    open spec fn view(&self) -> PhaseView {
        match self {
            Phase::Starting => PhaseView::Starting,
            Phase::Spawning => PhaseView::Spawning,
            Phase::Watching { reported_active } => PhaseView::Watching {
                reported_active: *reported_active,
            },
            Phase::Ending { failure } => PhaseView::Ending { failure: failure.deep_view() },
            Phase::Finished => PhaseView::Finished,
        }
    }
}

/// What the supervisor asks its runner to do next.
pub enum SupervisorAction {
    /// Stop supervising.
    Exit,
    /// Start `ssh` with these arguments.
    Spawn { args: Vec<String> },
    /// Kill the process just started, then stop supervising.
    KillAndExit,
    /// Wait this many seconds, then look at the process again.
    Poll { delay_secs: u64 },
    /// Kill and reap the process.
    KillChild,
    /// Wait this many seconds, then start over.
    Sleep { secs: u64 },
}

/// An action, and whether the forward's new status is to be announced first.
pub struct Step {
    pub action: SupervisorAction,
    pub emit: bool,
}

/// Keeps one forward alive: (re)connects on failure with exponential backoff
/// until the forward is stopped. It decides; its runner spawns, probes,
/// kills and sleeps, and reports back.
pub struct Supervisor {
    pub id: String,
    pub backoff: u64,
    /// Failed attempts since the start or since the forward was last found
    /// healthy; the backoff is determined by it.
    pub failures: Ghost<nat>,
    pub phase: Phase,
    /// Whether the watched forward is a local one (its port is probed).
    pub probe_port: bool,
    pub local_port: u16,
}

impl Supervisor {
    /// The delay always lies between 1 s and the ceiling.
    pub open spec fn wf(&self) -> bool {
        &&& 1 <= self.backoff <= MAX_BACKOFF_SECS
        &&& self.backoff == backoff_after(self.failures@)
    }

    /// A supervisor for the forward with this id, about to start it.
    pub fn new(id: String) -> (r: Supervisor)
        ensures
            r.id@ == id@,
            r.backoff == 1,
            r.failures@ == 0,
            r.phase@ == PhaseView::Starting,
            r.probe_port,
            r.local_port == 0,
            r.wf(),
    {
        Supervisor {
            id,
            backoff: 1,
            failures: Ghost(0),
            phase: Phase::Starting,
            probe_port: true,
            local_port: 0,
        }
    }

    fn advance_backoff(&mut self)
        requires
            old(self).wf(),
        ensures
            final(self).backoff == next_backoff(old(self).backoff) && final(self).failures@ == old(self).failures@ + 1,
            final(self).wf(),
            final(self).id == old(self).id,
            final(self).phase == old(self).phase,
            final(self).probe_port == old(self).probe_port,
            final(self).local_port == old(self).local_port,
    {
        if self.backoff * 2 < MAX_BACKOFF_SECS {
            self.backoff = self.backoff * 2;
        } else {
            self.backoff = MAX_BACKOFF_SECS;
        }
        self.failures = Ghost(self.failures@ + 1);
    }

    /// Top of the loop: stop if the forward is gone or its stop was asked
    /// for; otherwise mark it connecting and start `ssh`.
    pub fn on_begin(&mut self, state: &mut ForwardState, stop_requested: bool) -> (r: Step)
        requires
            old(self).wf(),
            old(state).wf(),
            old(self).phase@ == PhaseView::Starting,
        ensures
            final(self).wf(),
            final(state).wf(),
            evolves(old(state)@, final(state)@, old(self).id@),
            r.emit ==> info_with_id(final(state)@, old(self).id@) is Some,
            info_with_id(old(state)@, old(self).id@) is None ==> !r.emit && final(state)@ == old(state)@,
            old(self).tracks(old(state)@) ==> final(self).tracks(final(state)@) && status_moves(
                old(state)@,
                final(state)@,
                old(self).id@,
            ),
            stop_requested ==> stop_rank(final(self).phase@) < stop_rank(old(self).phase@),
            stop_requested ==> r.action is Exit,
            final(self).id == old(self).id,
            final(self).backoff == old(self).backoff && final(self).failures@ == old(self).failures@,
            match info_with_id(old(state)@, old(self).id@) {
                None => {
                    &&& r.action is Exit
                    &&& !r.emit
                    &&& final(self).phase@ == PhaseView::Finished
                    &&& final(self).probe_port == old(self).probe_port
                    &&& final(self).local_port == old(self).local_port
                    &&& final(state)@ == old(state)@
                },
                Some(e) => if stop_requested {
                    &&& r.action is Exit
                    &&& !r.emit
                    &&& final(self).phase@ == PhaseView::Finished
                    &&& final(self).probe_port == old(self).probe_port
                    &&& final(self).local_port == old(self).local_port
                    &&& final(state)@ == old(state)@
                } else {
                    &&& r.action matches SupervisorAction::Spawn { args } && args@.map_values(
                        |a: String| a@,
                    ) == ssh_arguments(e.config)
                    &&& r.emit
                    &&& final(self).phase@ == PhaseView::Spawning
                    &&& final(self).probe_port == is_local(e.config)
                    &&& final(self).local_port == e.config.local_port
                    &&& final(state)@ == updated(
                        old(state)@,
                        old(self).id@,
                        ForwardInfoView { status: ForwardStatus::Connecting, ..e },
                    )
                },
            },
    {
        proof {
            lemma_steps_evolve(old(state)@, self.id@, ForwardStatus::Connecting);
        }
        let found = state.info_of(&self.id);
        match found {
            None => {
                self.phase = Phase::Finished;
                Step { action: SupervisorAction::Exit, emit: false }
            },
            Some(mut info) => {
                if stop_requested {
                    self.phase = Phase::Finished;
                    return Step { action: SupervisorAction::Exit, emit: false };
                }
                proof {
                    crate::forward::lemma_position_of(old(state)@, self.id@);
                }
                info.status = ForwardStatus::Connecting;
                let args = ssh_forward_args(&info.config);
                self.probe_port = !(info.config.direction == "remote".to_owned());
                self.local_port = info.config.local_port;
                state.update_forward(&self.id, info);
                self.phase = Phase::Spawning;
                Step { action: SupervisorAction::Spawn { args }, emit: true }
            },
        }
    }

    /// Records a failure on the forward: one more retry, the error, and the
    /// retrying status; then backs off.
    fn record_failure(&mut self, state: &mut ForwardState, info: ForwardInfo, error: String) -> (r: Step)
        requires
            old(self).wf(),
            old(state).wf(),
            info_with_id(old(state)@, old(self).id@) == Some(info@),
            info@.retry_count < u32::MAX,
        ensures
            final(self).wf(),
            final(state).wf(),
            final(self).id == old(self).id,
            final(self).backoff == next_backoff(old(self).backoff) && final(self).failures@ == old(self).failures@ + 1,
            final(self).phase@ == PhaseView::Starting,
            final(self).probe_port == old(self).probe_port,
            final(self).local_port == old(self).local_port,
            r.action == (SupervisorAction::Sleep { secs: old(self).backoff }),
            r.emit,
            final(state)@ == updated(
                old(state)@,
                old(self).id@,
                ForwardInfoView {
                    status: ForwardStatus::Retrying,
                    last_error: Some(error@),
                    retry_count: (info@.retry_count + 1) as u32,
                    ..info@
                },
            ),
    {
        let mut info = info;
        info.retry_count = info.retry_count + 1;
        info.last_error = Some(error);
        info.status = ForwardStatus::Retrying;
        proof {
            crate::forward::lemma_position_of(old(state)@, self.id@);
        }
        state.update_forward(&self.id, info);
        let secs = self.backoff;
        self.advance_backoff();
        self.phase = Phase::Starting;
        Step { action: SupervisorAction::Sleep { secs }, emit: true }
    }
}


/// The forward with this id, if present, can count one more retry.
pub open spec fn can_count_retry(s: Seq<ForwardInfoView>, id: Seq<char>) -> bool {
    info_with_id(s, id) matches Some(e) ==> e.retry_count < u32::MAX
}

/// The forwards after a status change of the one with this id, if present.
pub open spec fn with_status(s: Seq<ForwardInfoView>, id: Seq<char>, st: ForwardStatus) -> Seq<ForwardInfoView> {
    match info_with_id(s, id) {
        Some(e) => updated(s, id, ForwardInfoView { status: st, ..e }),
        None => s,
    }
}

/// The forwards after the one with this id, if present, was found healthy:
/// active, with no error.
pub open spec fn with_active(s: Seq<ForwardInfoView>, id: Seq<char>) -> Seq<ForwardInfoView> {
    match info_with_id(s, id) {
        Some(e) => updated(s, id, ForwardInfoView { status: ForwardStatus::Active, last_error: None, ..e }),
        None => s,
    }
}

/// The forwards after a failure of the one with this id, if present: one
/// more retry, the error, and the retrying status.
pub open spec fn with_failure(s: Seq<ForwardInfoView>, id: Seq<char>, error: Seq<char>) -> Seq<ForwardInfoView> {
    match info_with_id(s, id) {
        Some(e) => updated(
            s,
            id,
            ForwardInfoView {
                status: ForwardStatus::Retrying,
                last_error: Some(error),
                retry_count: (e.retry_count + 1) as u32,
                ..e
            },
        ),
        None => s,
    }
}

pub open spec fn spawn_error_message(error: Seq<char>) -> Seq<char> {
    "Failed to spawn ssh: "@ + error
}

pub open spec fn exit_message(status: Seq<char>) -> Seq<char> {
    "ssh exited unexpectedly ("@ + status + ")"@
}

pub open spec fn port_message(port: u16) -> Seq<char> {
    "local port "@ + decimal(port as nat) + " is not accepting connections"@
}

/// Whether an action ends supervision, at once or once the process is killed.
pub open spec fn winding_down(a: SupervisorAction) -> bool {
    a is Exit || a is KillAndExit || a is KillChild
}

/// The status changes that supervision makes: connecting to active,
/// retrying or stopped; active to retrying or stopped; retrying back to
/// connecting. Stopped is final.
pub open spec fn status_edge(a: ForwardStatus, b: ForwardStatus) -> bool {
    ||| a == b
    ||| a == ForwardStatus::Connecting && b != ForwardStatus::Connecting
    ||| a == ForwardStatus::Active && (b == ForwardStatus::Retrying || b == ForwardStatus::Stopped)
    ||| a == ForwardStatus::Retrying && b == ForwardStatus::Connecting
}

/// A step of supervision moves the status of its forward along an edge.
pub open spec fn status_moves(old: Seq<ForwardInfoView>, new: Seq<ForwardInfoView>, id: Seq<char>) -> bool {
    (info_with_id(old, id) is Some && info_with_id(new, id) is Some) ==> status_edge(
        info_with_id(old, id)->0.status,
        info_with_id(new, id)->0.status,
    )
}

/// The statuses that a forward can have while its supervisor is in a phase:
/// a stopped forward's supervisor is finished.
pub open spec fn status_fits(phase: PhaseView, st: ForwardStatus) -> bool {
    match phase {
        PhaseView::Starting => st == ForwardStatus::Connecting || st == ForwardStatus::Retrying,
        PhaseView::Spawning => st == ForwardStatus::Connecting,
        PhaseView::Watching { reported_active } => if reported_active {
            st == ForwardStatus::Active
        } else {
            st == ForwardStatus::Connecting
        },
        PhaseView::Ending { .. } => st == ForwardStatus::Connecting || st == ForwardStatus::Active,
        PhaseView::Finished => true,
    }
}

/// How many more steps a supervisor takes once a stop is asked for.
pub open spec fn stop_rank(phase: PhaseView) -> nat {
    match phase {
        PhaseView::Finished => 0,
        PhaseView::Watching { .. } => 2,
        _ => 1,
    }
}

impl Supervisor {
    /// The status of the supervised forward, if present, fits the phase.
    pub open spec fn tracks(&self, s: Seq<ForwardInfoView>) -> bool {
        info_with_id(s, self.id@) matches Some(e) ==> status_fits(self.phase@, e.status)
    }
}

/// A stopped forward is never touched again: its supervisor is finished.
pub proof fn lemma_stopped_is_final(sup: &Supervisor, s: Seq<ForwardInfoView>)
    requires
        sup.tracks(s),
        info_with_id(s, sup.id@) matches Some(e) && e.status == ForwardStatus::Stopped,
    ensures
        sup.phase@ == PhaseView::Finished,
{
}

proof fn lemma_steps_evolve(s: Seq<ForwardInfoView>, id: Seq<char>, st: ForwardStatus)
    requires
        unique_ids(s),
    ensures
        evolves(s, s, id),
        evolves(s, with_status(s, id, st), id),
        evolves(s, with_active(s, id), id),
        (info_with_id(with_status(s, id, st), id) is Some) == (info_with_id(s, id) is Some),
        (info_with_id(with_active(s, id), id) is Some) == (info_with_id(s, id) is Some),
        info_with_id(s, id) matches Some(o) ==> info_with_id(with_status(s, id, st), id) == Some(
            ForwardInfoView { status: st, ..o },
        ),
        info_with_id(s, id) matches Some(o) ==> info_with_id(with_active(s, id), id) == Some(
            ForwardInfoView { status: ForwardStatus::Active, last_error: None, ..o },
        ),
{
    lemma_position_of(s, id);
    if info_with_id(s, id) is Some {
        let o = info_with_id(s, id)->0;
        lemma_update_evolves(s, id, ForwardInfoView { status: st, ..o });
        lemma_update_evolves(s, id, ForwardInfoView { status: ForwardStatus::Active, last_error: None, ..o });
    }
}

proof fn lemma_failure_evolves(s: Seq<ForwardInfoView>, id: Seq<char>, err: Seq<char>)
    requires
        unique_ids(s),
        can_count_retry(s, id),
    ensures
        evolves(s, with_failure(s, id, err), id),
        (info_with_id(with_failure(s, id, err), id) is Some) == (info_with_id(s, id) is Some),
        info_with_id(with_failure(s, id, err), id) matches Some(n) ==> n.status == ForwardStatus::Retrying,
{
    if info_with_id(s, id) is Some {
        let o = info_with_id(s, id)->0;
        lemma_update_evolves(
            s,
            id,
            ForwardInfoView {
                status: ForwardStatus::Retrying,
                last_error: Some(err),
                retry_count: (o.retry_count + 1) as u32,
                ..o
            },
        );
    }
}

impl Supervisor {
    /// `ssh` could not be started: stop if asked to or if the forward is
    /// gone, otherwise record the failure and back off.
    pub fn on_spawn_failed(&mut self, state: &mut ForwardState, stop_requested: bool, error: String) -> (r: Step)
        requires
            old(self).wf(),
            old(state).wf(),
            old(self).phase@ == PhaseView::Spawning,
            can_count_retry(old(state)@, old(self).id@),
        ensures
            final(self).wf(),
            final(state).wf(),
            evolves(old(state)@, final(state)@, old(self).id@),
            r.emit ==> info_with_id(final(state)@, old(self).id@) is Some,
            info_with_id(old(state)@, old(self).id@) is None ==> !r.emit && final(state)@ == old(state)@,
            old(self).tracks(old(state)@) ==> final(self).tracks(final(state)@) && status_moves(
                old(state)@,
                final(state)@,
                old(self).id@,
            ),
            stop_requested ==> stop_rank(final(self).phase@) < stop_rank(old(self).phase@),
            stop_requested ==> r.action is Exit,
            final(self).id == old(self).id,
            final(self).probe_port == old(self).probe_port,
            final(self).local_port == old(self).local_port,
            (stop_requested || info_with_id(old(state)@, old(self).id@) is None) ==> {
                &&& r.action is Exit
                &&& !r.emit
                &&& final(self).phase@ == PhaseView::Finished
                &&& final(self).backoff == old(self).backoff && final(self).failures@ == old(self).failures@
                &&& final(state)@ == old(state)@
            },
            (!stop_requested && info_with_id(old(state)@, old(self).id@) is Some) ==> {
                &&& r.action == (SupervisorAction::Sleep { secs: old(self).backoff })
                &&& r.emit
                &&& final(self).phase@ == PhaseView::Starting
                &&& final(self).backoff == next_backoff(old(self).backoff) && final(self).failures@ == old(self).failures@ + 1
                &&& final(state)@ == with_failure(old(state)@, old(self).id@, spawn_error_message(error@))
            },
    {
        proof {
            lemma_steps_evolve(old(state)@, self.id@, ForwardStatus::Connecting);
            lemma_failure_evolves(old(state)@, self.id@, spawn_error_message(error@));
        }
        if stop_requested {
            self.phase = Phase::Finished;
            return Step { action: SupervisorAction::Exit, emit: false };
        }
        match state.info_of(&self.id) {
            None => {
                self.phase = Phase::Finished;
                Step { action: SupervisorAction::Exit, emit: false }
            },
            Some(info) => {
                let mut msg = "Failed to spawn ssh: ".to_owned();
                msg.append(error.as_str());
                self.record_failure(state, info, msg)
            },
        }
    }

    /// `ssh` started: watch it, unless the forward is gone meanwhile.
    pub fn on_spawned(&mut self, state: &ForwardState) -> (r: Step)
        requires
            old(self).wf(),
            old(self).phase@ == PhaseView::Spawning,
        ensures
            final(self).wf(),
            final(self).id == old(self).id,
            final(self).backoff == old(self).backoff && final(self).failures@ == old(self).failures@,
            final(self).probe_port == old(self).probe_port,
            final(self).local_port == old(self).local_port,
            !r.emit,
            old(self).tracks(state@) ==> final(self).tracks(state@),
            info_with_id(state@, old(self).id@) is None ==> stop_rank(final(self).phase@) < stop_rank(
                old(self).phase@,
            ),
            info_with_id(state@, old(self).id@) is None ==> r.action is KillAndExit
                && final(self).phase@ == PhaseView::Finished,
            info_with_id(state@, old(self).id@) is Some ==> r.action == (SupervisorAction::Poll {
                delay_secs: 0,
            }) && final(self).phase@ == (PhaseView::Watching { reported_active: false }),
    {
        match state.info_of(&self.id) {
            None => {
                self.phase = Phase::Finished;
                Step { action: SupervisorAction::KillAndExit, emit: false }
            },
            Some(_) => {
                self.phase = Phase::Watching { reported_active: false };
                Step { action: SupervisorAction::Poll { delay_secs: 0 }, emit: false }
            },
        }
    }

    /// One look at the running process. The watch ends when a stop is asked
    /// for, the process is gone or has exited, or (for a local forward) the
    /// port does not answer once the grace period is over or after it had
    /// answered. The first healthy look marks the forward active, clears its
    /// error and resets the backoff.
    pub fn on_polled(
        &mut self,
        state: &mut ForwardState,
        stop_requested: bool,
        child_present: bool,
        exit_status: Option<String>,
        probe_ok: bool,
        grace_elapsed: bool,
    ) -> (r: Step)
        requires
            old(self).wf(),
            old(state).wf(),
            old(self).phase@ is Watching,
        ensures
            final(self).wf(),
            final(state).wf(),
            evolves(old(state)@, final(state)@, old(self).id@),
            r.emit ==> info_with_id(final(state)@, old(self).id@) is Some,
            info_with_id(old(state)@, old(self).id@) is None ==> !r.emit && final(state)@ == old(state)@,
            old(self).tracks(old(state)@) ==> final(self).tracks(final(state)@) && status_moves(
                old(state)@,
                final(state)@,
                old(self).id@,
            ),
            stop_requested ==> stop_rank(final(self).phase@) < stop_rank(old(self).phase@),
            stop_requested ==> winding_down(r.action) && final(self).phase@ is Ending,
            final(self).id == old(self).id,
            final(self).probe_port == old(self).probe_port,
            final(self).local_port == old(self).local_port,
            ({
                let reported = old(self).phase@->reported_active;
                let healthy = !old(self).probe_port || probe_ok;
                if stop_requested || !child_present {
                    &&& r.action is KillChild
                    &&& !r.emit
                    &&& final(self).phase@ == (PhaseView::Ending { failure: None })
                    &&& final(self).backoff == old(self).backoff && final(self).failures@ == old(self).failures@
                    &&& final(state)@ == old(state)@
                } else if exit_status is Some {
                    &&& r.action is KillChild
                    &&& !r.emit
                    &&& final(self).phase@ == (PhaseView::Ending {
                        failure: Some(exit_message(exit_status->0@)),
                    })
                    &&& final(self).backoff == old(self).backoff && final(self).failures@ == old(self).failures@
                    &&& final(state)@ == old(state)@
                } else if healthy && !reported {
                    &&& r.action == (SupervisorAction::Poll { delay_secs: 3 })
                    &&& r.emit == (info_with_id(old(state)@, old(self).id@) is Some)
                    &&& final(self).phase@ == (PhaseView::Watching { reported_active: true })
                    &&& final(self).backoff == 1 && final(self).failures@ == 0
                    &&& final(state)@ == with_active(old(state)@, old(self).id@)
                } else if healthy || !(grace_elapsed || reported) {
                    &&& r.action == (SupervisorAction::Poll { delay_secs: 3 })
                    &&& !r.emit
                    &&& final(self).phase@ == old(self).phase@
                    &&& final(self).backoff == old(self).backoff && final(self).failures@ == old(self).failures@
                    &&& final(state)@ == old(state)@
                } else {
                    &&& r.action is KillChild
                    &&& !r.emit
                    &&& final(self).phase@ == (PhaseView::Ending {
                        failure: Some(port_message(old(self).local_port)),
                    })
                    &&& final(self).backoff == old(self).backoff && final(self).failures@ == old(self).failures@
                    &&& final(state)@ == old(state)@
                }
            }),
    {
        proof {
            lemma_steps_evolve(old(state)@, self.id@, ForwardStatus::Active);
        }
        let reported = match &self.phase {
            Phase::Watching { reported_active } => *reported_active,
            _ => false,
        };
        if stop_requested || !child_present {
            self.phase = Phase::Ending { failure: None };
            return Step { action: SupervisorAction::KillChild, emit: false };
        }
        match exit_status {
            Some(st) => {
                let mut msg = "ssh exited unexpectedly (".to_owned();
                msg.append(st.as_str());
                msg.append(")");
                self.phase = Phase::Ending { failure: Some(msg) };
                return Step { action: SupervisorAction::KillChild, emit: false };
            },
            None => {},
        }
        let healthy = !self.probe_port || probe_ok;
        if healthy {
            if !reported {
                self.phase = Phase::Watching { reported_active: true };
                self.backoff = 1;
                self.failures = Ghost(0);
                let mut emit = false;
                match state.info_of(&self.id) {
                    Some(mut info) => {
                        proof {
                            crate::forward::lemma_position_of(old(state)@, self.id@);
                        }
                        info.status = ForwardStatus::Active;
                        info.last_error = None;
                        state.update_forward(&self.id, info);
                        emit = true;
                    },
                    None => {},
                }
                return Step { action: SupervisorAction::Poll { delay_secs: 3 }, emit };
            }
            return Step { action: SupervisorAction::Poll { delay_secs: 3 }, emit: false };
        }
        if grace_elapsed || reported {
            let mut msg = "local port ".to_owned();
            let p = decimal_string(self.local_port as u64);
            msg.append(p.as_str());
            msg.append(" is not accepting connections");
            self.phase = Phase::Ending { failure: Some(msg) };
            return Step { action: SupervisorAction::KillChild, emit: false };
        }
        Step { action: SupervisorAction::Poll { delay_secs: 3 }, emit: false }
    }

    /// The process was killed. If a stop was asked for, or the watch ended
    /// without a failure, the forward is marked stopped and supervision ends;
    /// otherwise the failure is recorded and the supervisor backs off.
    pub fn on_child_killed(&mut self, state: &mut ForwardState, stop_requested: bool) -> (r: Step)
        requires
            old(self).wf(),
            old(state).wf(),
            old(self).phase@ is Ending,
            can_count_retry(old(state)@, old(self).id@),
        ensures
            final(self).wf(),
            final(state).wf(),
            evolves(old(state)@, final(state)@, old(self).id@),
            r.emit ==> info_with_id(final(state)@, old(self).id@) is Some,
            info_with_id(old(state)@, old(self).id@) is None ==> !r.emit && final(state)@ == old(state)@,
            old(self).tracks(old(state)@) ==> final(self).tracks(final(state)@) && status_moves(
                old(state)@,
                final(state)@,
                old(self).id@,
            ),
            stop_requested ==> stop_rank(final(self).phase@) < stop_rank(old(self).phase@),
            stop_requested ==> r.action is Exit,
            final(self).id == old(self).id,
            final(self).probe_port == old(self).probe_port,
            final(self).local_port == old(self).local_port,
            ({
                let failure = old(self).phase@->failure;
                let present = info_with_id(old(state)@, old(self).id@) is Some;
                if stop_requested || failure is None {
                    &&& r.action is Exit
                    &&& r.emit == present
                    &&& final(self).phase@ == PhaseView::Finished
                    &&& final(self).backoff == old(self).backoff && final(self).failures@ == old(self).failures@
                    &&& final(state)@ == with_status(old(state)@, old(self).id@, ForwardStatus::Stopped)
                } else if !present {
                    &&& r.action is Exit
                    &&& !r.emit
                    &&& final(self).phase@ == PhaseView::Finished
                    &&& final(self).backoff == old(self).backoff && final(self).failures@ == old(self).failures@
                    &&& final(state)@ == old(state)@
                } else {
                    &&& r.action == (SupervisorAction::Sleep { secs: old(self).backoff })
                    &&& r.emit
                    &&& final(self).phase@ == PhaseView::Starting
                    &&& final(self).backoff == next_backoff(old(self).backoff) && final(self).failures@ == old(self).failures@ + 1
                    &&& final(state)@ == with_failure(old(state)@, old(self).id@, failure->0)
                }
            }),
    {
        proof {
            lemma_steps_evolve(old(state)@, self.id@, ForwardStatus::Stopped);
            if old(self).phase@->failure is Some {
                lemma_failure_evolves(old(state)@, self.id@, old(self).phase@->failure->0);
            }
        }
        let failure = match &self.phase {
            Phase::Ending { failure } => copy_failure(failure),
            _ => None,
        };
        match failure {
            Some(msg) if !stop_requested => {
                match state.info_of(&self.id) {
                    None => {
                        self.phase = Phase::Finished;
                        Step { action: SupervisorAction::Exit, emit: false }
                    },
                    Some(info) => self.record_failure(state, info, msg),
                }
            },
            _ => {
                self.phase = Phase::Finished;
                let mut emit = false;
                match state.info_of(&self.id) {
                    Some(mut info) => {
                        proof {
                            crate::forward::lemma_position_of(old(state)@, self.id@);
                        }
                        info.status = ForwardStatus::Stopped;
                        state.update_forward(&self.id, info);
                        emit = true;
                    },
                    None => {},
                }
                Step { action: SupervisorAction::Exit, emit }
            },
        }
    }
}

/// The delay before the `k`-th retry of a forward that has not been
/// healthy since its last reset.
pub open spec fn backoff_after(k: nat) -> u64
    decreases k,
{
    if k == 0 {
        1
    } else {
        next_backoff(backoff_after((k - 1) as nat))
    }
}

/// The reconnection delay doubles from 1 s up to a 30 s ceiling:
/// after `k` failures it is `min(2^k, 30)`.
pub proof fn lemma_backoff_schedule(k: nat)
    ensures
        backoff_after(k) == if pow2(k) < MAX_BACKOFF_SECS {
            pow2(k)
        } else {
            MAX_BACKOFF_SECS as nat
        },
        1 <= backoff_after(k) <= MAX_BACKOFF_SECS,
    decreases k,
{
    if k == 0 {
        lemma_pow2(0);
        reveal(pow);
    } else {
        lemma_backoff_schedule((k - 1) as nat);
        lemma_pow2_unfold(k);
        lemma_pow2_pos((k - 1) as nat);
    }
}

/// The delay that a supervisor sleeps on its next failure: after `k`
/// failures since it started or last found its forward healthy (the only
/// reset), it is `min(2^k, 30)` s, so the delays run 1, 2, 4, 8, 16, 30, 30, ...
pub proof fn lemma_next_delay(sup: &Supervisor)
    requires
        sup.wf(),
    ensures
        sup.backoff == if pow2(sup.failures@) < MAX_BACKOFF_SECS {
            pow2(sup.failures@)
        } else {
            MAX_BACKOFF_SECS as nat
        },
{
    lemma_backoff_schedule(sup.failures@);
}

fn copy_failure(f: &Option<String>) -> (r: Option<String>)
    ensures
        r.deep_view() == f.deep_view(),
{
    match f {
        Some(s) => Some(s.clone()),
        None => None,
    }
}

} // verus!
