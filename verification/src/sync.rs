//! How a changed file gets to the server in the background.
//!
//! A job remembers how often its file had been written when it began. The
//! server is told that it has the change only where a connection took it and
//! the file has not been written since; else the file stays locked until a
//! later job.
use vstd::prelude::*;
use crate::cache::base_path;
use crate::cache::to_base_path;
use crate::link::delivery;
use crate::link::first;
use crate::link::first_step;
use crate::link::next;
use crate::link::next_step;
use crate::link::Kept;
use crate::link::Purpose;
use crate::link::Step;
use crate::path::components;
use crate::pathset::without_path;
use crate::pathset::PathSet;
use crate::pathset::Versions;
use crate::protocol::clean_line;
use crate::protocol::make_clean_line;
use crate::protocol::make_patch_line;
use crate::protocol::patch_line;
use crate::rsync::make_delta;
use crate::rsync::rsync_apply;
use crate::rsync::sent_delta;
use crate::rsync::BLOCK_SIZE;

verus! {

/// How many seconds a job waits first, for those who want to watch the server
/// refuse a locked file.
pub const TEST_DELAY: u64 = 15;

/// How many seconds a job waits first.
pub fn sync_delay(test_delay: bool) -> (r: u64)
    ensures
        r == if test_delay {
            TEST_DELAY
        } else {
            0
        },
{
    if test_delay {
        TEST_DELAY
    } else {
        0
    }
}

/// A file on its way to the server.
pub struct SyncJob {
    /// The file's path on the remote side.
    pub remote: Vec<u8>,
    /// Where its server's version is kept.
    pub base: Vec<u8>,
    /// How often the file had been written when the job began.
    pub version: u64,
}

/// A change to hand over: a line, and the delta that follows it.
pub struct Patch {
    /// The line that says what follows.
    pub line: Vec<u8>,
    /// The delta.
    pub delta: Vec<u8>,
}

/// Whether a file is clean once a job has handed its change over: it has been
/// written as often as when the job began.
pub open spec fn clean_after(started: u64, now: u64) -> bool {
    started == now
}

impl SyncJob {
    /// Begins the job of the file `remote`, which is cached at `local`.
    pub fn begin(remote: Vec<u8>, local: &[u8], versions: &Versions) -> (r: Self)
        ensures
            r.remote == remote,
            r.base@ == base_path(local@),
            r.version == versions.version(remote@),
    {
        let version = versions.get(remote.as_slice());
        SyncJob { remote, base: to_base_path(local), version }
    }

    /// The change from the server's version to the present one: applied to the
    /// former it gives the latter.
    pub fn patch(&self, root: &[u8], old_data: &[u8], new_data: &[u8]) -> (r: Patch)
        ensures
            rsync_apply(old_data@, r.delta@) == Some(new_data@),
            r.delta@ == sent_delta(old_data@, new_data@),
            r.line@ == patch_line(root@, self.remote@, r.delta@.len()),
            old_data@.len() == 0 || new_data@.len() < BLOCK_SIZE ==> forall|b: Seq<u8>|
                #[trigger] rsync_apply(b, r.delta@) == Some(new_data@),
    {
        let delta = make_delta(old_data, new_data);
        let line = make_patch_line(root, self.remote.as_slice(), delta.len());
        Patch { line, delta }
    }

    /// Ends a job whose change was handed over: where the file has not been
    /// written since, it is clean, and the line says so to the server.
    pub fn finish(&self, root: &[u8], versions: &Versions, dirty: &mut PathSet) -> (r: Option<
        Vec<u8>,
    >)
        ensures
            r is Some == clean_after(self.version, versions.version(self.remote@)),
            match r {
                Some(line) => {
                    &&& versions.version(self.remote@) == self.version
                    &&& line@ == clean_line(root@, self.remote@)
                    &&& final(dirty)@ == old(dirty)@.remove(components(self.remote@))
                    &&& final(dirty).texts() == without_path(old(dirty).texts(), self.remote@)
                },
                None => {
                    &&& versions.version(self.remote@) != self.version
                    &&& *final(dirty) == *old(dirty)
                },
            },
    {
        if versions.get(self.remote.as_slice()) == self.version {
            let _ = dirty.remove(self.remote.as_slice());
            Some(make_clean_line(root, self.remote.as_slice()))
        } else {
            None
        }
    }
}

// ---------------------------------------------------------------------------
// The steps of a job
// ---------------------------------------------------------------------------

/// What a job does next.
#[derive(Clone, Copy, Debug, PartialEq, Eq, Structural)]
pub enum SyncStep {
    /// Waits, begins the job, reads the file and its server's version, and
    /// makes the change.
    Prepare,
    /// Hands the change over.
    Send(Step),
    /// Keeps what was handed over as the server's version.
    Save,
    /// Ends the job, which tells whether the file is clean.
    Check,
    /// Tells the server that the file is clean.
    Tell(Step),
    /// Nothing.
    Finished,
}

/// A job under way: its next step, and whether there is a connection.
#[derive(Clone, Copy, Debug, PartialEq, Eq, Structural)]
pub struct SyncRun {
    pub step: SyncStep,
    pub connected: bool,
}

/// Whether there is a connection after a message.
pub open spec fn still_connected(connected: bool, kept: Kept) -> bool {
    match kept {
        Kept::Same => connected,
        Kept::Fresh => true,
        Kept::Nothing => false,
    }
}

/// What follows a step: `ok` tells whether a write or a new connection went
/// well, or whether the file is clean.
pub open spec fn sync_next(run: SyncRun, ok: bool) -> SyncRun {
    match run.step {
        SyncStep::Prepare => SyncRun { step: SyncStep::Send(first(run.connected)), ..run },
        SyncStep::Send(s) => match next(Purpose::Patch, s, ok) {
            Step::Done(kept, sent) => SyncRun {
                step: if sent {
                    SyncStep::Save
                } else {
                    SyncStep::Finished
                },
                connected: still_connected(run.connected, kept),
            },
            t => SyncRun { step: SyncStep::Send(t), ..run },
        },
        SyncStep::Save => SyncRun { step: SyncStep::Check, ..run },
        SyncStep::Check => SyncRun {
            step: if ok {
                SyncStep::Tell(first(run.connected))
            } else {
                SyncStep::Finished
            },
            ..run
        },
        SyncStep::Tell(s) => match next(Purpose::Unlock, s, ok) {
            Step::Done(kept, _) => SyncRun {
                step: SyncStep::Finished,
                connected: still_connected(run.connected, kept),
            },
            t => SyncRun { step: SyncStep::Tell(t), ..run },
        },
        SyncStep::Finished => run,
    }
}

/// Which connection is kept, where a message ends with a step.
pub open spec fn settles(step: SyncStep, ok: bool) -> Option<Kept> {
    match step {
        SyncStep::Send(s) => match next(Purpose::Patch, s, ok) {
            Step::Done(kept, _) => Some(kept),
            _ => None,
        },
        SyncStep::Tell(s) => match next(Purpose::Unlock, s, ok) {
            Step::Done(kept, _) => Some(kept),
            _ => None,
        },
        _ => None,
    }
}

fn is_connected(connected: bool, kept: Kept) -> (r: bool)
    ensures
        r == still_connected(connected, kept),
{
    match kept {
        Kept::Same => connected,
        Kept::Fresh => true,
        Kept::Nothing => false,
    }
}

impl SyncRun {
    /// A job before its first step.
    pub fn start(connected: bool) -> (r: Self)
        ensures
            r == (SyncRun { step: SyncStep::Prepare, connected }),
    {
        SyncRun { step: SyncStep::Prepare, connected }
    }

    /// Which connection is kept, where a message ends with the present step.
    pub fn settled(self, ok: bool) -> (r: Option<Kept>)
        ensures
            r == settles(self.step, ok),
    {
        let after = match self.step {
            SyncStep::Send(s) => next_step(Purpose::Patch, s, ok),
            SyncStep::Tell(s) => next_step(Purpose::Unlock, s, ok),
            _ => Step::Connect,
        };
        match after {
            Step::Done(kept, _) => Some(kept),
            _ => None,
        }
    }

    /// What follows the present step.
    pub fn advance(self, ok: bool) -> (r: Self)
        ensures
            r == sync_next(self, ok),
    {
        let connected = self.connected;
        match self.step {
            SyncStep::Prepare => SyncRun { step: SyncStep::Send(first_step(connected)), connected },
            SyncStep::Send(s) => match next_step(Purpose::Patch, s, ok) {
                Step::Done(kept, sent) => {
                    let step = if sent {
                        SyncStep::Save
                    } else {
                        SyncStep::Finished
                    };
                    SyncRun { step, connected: is_connected(connected, kept) }
                },
                t => SyncRun { step: SyncStep::Send(t), connected },
            },
            SyncStep::Save => SyncRun { step: SyncStep::Check, connected },
            SyncStep::Check => {
                let step = if ok {
                    SyncStep::Tell(first_step(connected))
                } else {
                    SyncStep::Finished
                };
                SyncRun { step, connected }
            },
            SyncStep::Tell(s) => match next_step(Purpose::Unlock, s, ok) {
                Step::Done(kept, _) => SyncRun {
                    step: SyncStep::Finished,
                    connected: is_connected(connected, kept),
                },
                t => SyncRun { step: SyncStep::Tell(t), connected },
            },
            SyncStep::Finished => self,
        }
    }
}

/// What happens around a job: whether the connection at hand and a new one
/// take the change, whether the file is clean then, and whether the connection
/// at hand and a new one take the line that says so.
pub struct Weather {
    pub patch_here: bool,
    pub patch_connect: bool,
    pub patch_there: bool,
    pub clean: bool,
    pub tell_here: bool,
    pub tell_connect: bool,
    pub tell_there: bool,
}

/// What comes of a step.
pub open spec fn outcome(step: SyncStep, w: Weather) -> bool {
    match step {
        SyncStep::Send(Step::WriteHere) => w.patch_here,
        SyncStep::Send(Step::Connect) => w.patch_connect,
        SyncStep::Send(_) => w.patch_there,
        SyncStep::Check => w.clean,
        SyncStep::Tell(Step::WriteHere) => w.tell_here,
        SyncStep::Tell(Step::Connect) => w.tell_connect,
        SyncStep::Tell(_) => w.tell_there,
        _ => true,
    }
}

/// The run of a job after `n` steps.
pub open spec fn run_after(run: SyncRun, w: Weather, n: nat) -> SyncRun
    decreases n,
{
    if n == 0 {
        run
    } else {
        run_after(sync_next(run, outcome(run.step, w)), w, (n - 1) as nat)
    }
}

/// Whether a job gets to a step within `n` steps.
pub open spec fn gets_to(run: SyncRun, w: Weather, step: SyncStep, n: nat) -> bool
    decreases n,
{
    run.step == step || (n > 0 && gets_to(
        sync_next(run, outcome(run.step, w)),
        w,
        step,
        (n - 1) as nat,
    ))
}

/// A job knows of a connection exactly where one is kept.
pub proof fn law_connection_is_known(run: SyncRun, ok: bool)
    ensures
        sync_next(run, ok).connected == match settles(run.step, ok) {
            Some(kept) => still_connected(run.connected, kept),
            None => run.connected,
        },
{
}

/// Nine steps are enough for any job, whatever fails. What was handed over is
/// kept as the server's version exactly where it was written to a connection;
/// and the connection that is left is the one that the messages leave.
pub proof fn law_sync_run(connected: bool, w: Weather)
    ensures
        ({
            let start = SyncRun { step: SyncStep::Prepare, connected };
            let patch = delivery(
                Purpose::Patch,
                connected,
                w.patch_here,
                w.patch_connect,
                w.patch_there,
            );
            let between = still_connected(connected, patch.0);
            let tell = delivery(
                Purpose::Unlock,
                between,
                w.tell_here,
                w.tell_connect,
                w.tell_there,
            );
            &&& run_after(start, w, 9) == (SyncRun {
                step: SyncStep::Finished,
                connected: if patch.1 && w.clean {
                    still_connected(between, tell.0)
                } else {
                    between
                },
            })
            &&& gets_to(start, w, SyncStep::Save, 9) == patch.1
        }),
{
    reveal_with_fuel(run_after, 10);
    reveal_with_fuel(gets_to, 10);
}

/// A file is declared clean only after its change was handed over: a job comes
/// to the step that may do so exactly where a connection took the change.
pub proof fn law_unlock_follows_delivery(connected: bool, w: Weather)
    ensures
        gets_to(SyncRun { step: SyncStep::Prepare, connected }, w, SyncStep::Check, 9)
            == delivery(
            Purpose::Patch,
            connected,
            w.patch_here,
            w.patch_connect,
            w.patch_there,
        ).1,
{
    reveal_with_fuel(gets_to, 10);
}

/// The server is told that it has a change only after a connection took the
/// change, and only where the file is clean then.
pub proof fn law_tell_follows_check(connected: bool, w: Weather, s: Step)
    ensures
        gets_to(SyncRun { step: SyncStep::Prepare, connected }, w, SyncStep::Tell(s), 9)
            ==> w.clean && delivery(
            Purpose::Patch,
            connected,
            w.patch_here,
            w.patch_connect,
            w.patch_there,
        ).1,
{
    reveal_with_fuel(gets_to, 10);
}

/// A job comes to its end by way of the step that may declare the file clean
/// exactly where the connection at hand took the change, or a new one did; and
/// it tells the server exactly where the file is clean then.
pub proof fn law_job_in_full(connected: bool, w: Weather)
    ensures
        ({
            let start = SyncRun { step: SyncStep::Prepare, connected };
            let taken = (connected && w.patch_here) || (w.patch_connect && w.patch_there);
            let left = (connected && !w.patch_connect) || (connected && w.patch_here) || (
            w.patch_connect && w.patch_there);
            &&& gets_to(start, w, SyncStep::Save, 9) == taken
            &&& gets_to(start, w, SyncStep::Check, 9) == taken
            &&& (gets_to(start, w, SyncStep::Tell(Step::WriteHere), 9) || gets_to(
                start,
                w,
                SyncStep::Tell(Step::Connect),
                9,
            )) == (taken && w.clean)
            &&& gets_to(start, w, SyncStep::Finished, 9)
            &&& !taken || !w.clean ==> run_after(start, w, 9).connected == left
            &&& taken && w.clean ==> run_after(start, w, 9).connected == (w.tell_here
                || w.tell_connect)
        }),
{
    reveal_with_fuel(run_after, 10);
    reveal_with_fuel(gets_to, 10);
}

/// Which connection a job keeps: the one at hand where that took the message,
/// a new one where that took it; and where none did, the one at hand after a
/// change, or none where a new one failed, and after an unlock the new one, or
/// none where there is no new one. No other step settles anything.
pub proof fn law_settled_connection(ok: bool)
    ensures
        settles(SyncStep::Send(Step::WriteHere), true) == Some(Kept::Same),
        settles(SyncStep::Send(Step::WriteHere), false) is None,
        settles(SyncStep::Send(Step::Connect), true) is None,
        settles(SyncStep::Send(Step::Connect), false) == Some(Kept::Same),
        settles(SyncStep::Send(Step::WriteThere), true) == Some(Kept::Fresh),
        settles(SyncStep::Send(Step::WriteThere), false) == Some(Kept::Nothing),
        settles(SyncStep::Tell(Step::WriteHere), true) == Some(Kept::Same),
        settles(SyncStep::Tell(Step::WriteHere), false) is None,
        settles(SyncStep::Tell(Step::Connect), true) is None,
        settles(SyncStep::Tell(Step::Connect), false) == Some(Kept::Nothing),
        settles(SyncStep::Tell(Step::WriteThere), ok) == Some(Kept::Fresh),
        settles(SyncStep::Prepare, ok) is None,
        settles(SyncStep::Save, ok) is None,
        settles(SyncStep::Check, ok) is None,
        settles(SyncStep::Finished, ok) is None,
{
}

/// A file that is written while a job hands its change over stays locked,
/// however often it is written; one that is not written is clean.
pub proof fn law_written_file_stays_locked(started: u64, writes: u64)
    requires
        started + writes <= u64::MAX,
    ensures
        clean_after(started, (started + writes) as u64) <==> writes == 0,
{
}

} // verus!
