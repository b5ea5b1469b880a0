use slipspace::cache::{to_base_path, to_local_path};
use slipspace::link::{first_step, next_step, Kept, Purpose, Step};
use slipspace::pathset::{PathSet, Versions};
use slipspace::rsync::apply_delta;
use slipspace::signal::{listen_next, purge, Listening, RECONNECT_DELAY};
use slipspace::sync::{sync_delay, SyncJob, SyncRun, SyncStep};

fn set(paths: &[&str]) -> PathSet {
    let mut s = PathSet::new();
    for p in paths {
        s.insert(p.as_bytes());
    }
    s
}

#[test]
fn a_job_hands_a_change_over() {
    let mut versions = Versions::new();
    versions.bump(b"/srv/a");
    let job = SyncJob::begin(b"/srv/a".to_vec(), b"/tmp/c/f00", &versions);
    assert_eq!(job.remote, b"/srv/a".to_vec());
    assert_eq!(job.base, b"/tmp/c/f00..base".to_vec());
    assert_eq!(job.version, 1);
    let p = job.patch(b"/srv", b"old text", b"new text");
    assert_eq!(p.line, format!("PATCH /a {}\n", p.delta.len()).into_bytes());
    assert_eq!(apply_delta(b"old text", &p.delta), Some(b"new text".to_vec()));
}

#[test]
fn a_file_that_stayed_is_clean() {
    let mut versions = Versions::new();
    versions.bump(b"/srv/a");
    let mut dirty = set(&["/srv/a", "/srv/b"]);
    let job = SyncJob::begin(b"/srv/a".to_vec(), b"/tmp/c/f00", &versions);
    versions.bump(b"/srv/b");
    assert_eq!(job.finish(b"/srv", &versions, &mut dirty), Some(b"CLEAN /a\n".to_vec()));
    assert!(!dirty.contains(b"/srv/a"));
    assert!(dirty.contains(b"/srv/b"));
}

#[test]
fn a_file_that_was_written_meanwhile_stays_locked() {
    let mut versions = Versions::new();
    let mut dirty = set(&["/srv/a"]);
    let job = SyncJob::begin(b"/srv/a".to_vec(), b"/tmp/c/f00", &versions);
    versions.bump(b"/srv/a");
    assert_eq!(job.finish(b"/srv", &versions, &mut dirty), None);
    assert!(dirty.contains(b"/srv/a"));
}

#[test]
fn a_job_may_wait() {
    assert_eq!(sync_delay(true), 15);
    assert_eq!(sync_delay(false), 0);
}

fn deliver(purpose: Purpose, connected: bool, here: bool, connect: bool, there: bool) -> (Kept, bool) {
    let mut step = first_step(connected);
    loop {
        let ok = match step {
            Step::WriteHere => here,
            Step::Connect => connect,
            Step::WriteThere => there,
            Step::Done(kept, sent) => return (kept, sent),
        };
        step = next_step(purpose, step, ok);
    }
}

#[test]
fn messages_are_delivered() {
    for p in [Purpose::Lock, Purpose::Patch, Purpose::Unlock] {
        assert_eq!(deliver(p, true, true, false, false), (Kept::Same, true));
        assert_eq!(deliver(p, true, false, true, true), (Kept::Fresh, true));
        assert_eq!(deliver(p, false, true, true, true), (Kept::Fresh, true));
    }
    assert_eq!(deliver(Purpose::Lock, true, false, false, false), (Kept::Same, false));
    assert_eq!(deliver(Purpose::Patch, true, false, false, false), (Kept::Same, false));
    assert_eq!(deliver(Purpose::Unlock, true, false, false, false), (Kept::Nothing, false));
    assert_eq!(deliver(Purpose::Lock, false, false, true, false), (Kept::Fresh, false));
    assert_eq!(deliver(Purpose::Patch, false, false, true, false), (Kept::Nothing, false));
    assert_eq!(deliver(Purpose::Unlock, false, false, true, false), (Kept::Fresh, false));
}

fn steps(connected: bool, outcomes: &[bool]) -> (Vec<SyncStep>, bool) {
    let mut run = SyncRun::start(connected);
    let mut seen = vec![run.step];
    for ok in outcomes {
        run = run.advance(*ok);
        seen.push(run.step);
    }
    (seen, run.connected)
}

#[test]
fn a_job_that_goes_well() {
    assert_eq!(
        steps(true, &[true, true, true, true, true]),
        (
            vec![
                SyncStep::Prepare,
                SyncStep::Send(Step::WriteHere),
                SyncStep::Save,
                SyncStep::Check,
                SyncStep::Tell(Step::WriteHere),
                SyncStep::Finished,
            ],
            true
        )
    );
}

#[test]
fn a_change_that_no_connection_took_leaves_the_file_locked() {
    // No connection can be made.
    let failed = vec![SyncStep::Prepare, SyncStep::Send(Step::Connect), SyncStep::Finished];
    assert_eq!(steps(false, &[true, false]), (failed, false));
    // The connection at hand and a new one both fail.
    assert_eq!(
        steps(true, &[true, false, true, false]),
        (
            vec![
                SyncStep::Prepare,
                SyncStep::Send(Step::WriteHere),
                SyncStep::Send(Step::Connect),
                SyncStep::Send(Step::WriteThere),
                SyncStep::Finished,
            ],
            false
        )
    );
}

#[test]
fn a_job_ends_untold_when_the_file_was_written() {
    // The file was written meanwhile.
    let (seen, connected) = steps(true, &[true, false, true, true, true, false]);
    assert_eq!(
        seen,
        vec![
            SyncStep::Prepare,
            SyncStep::Send(Step::WriteHere),
            SyncStep::Send(Step::Connect),
            SyncStep::Send(Step::WriteThere),
            SyncStep::Save,
            SyncStep::Check,
            SyncStep::Finished,
        ]
    );
    assert!(connected);
    assert_eq!(SyncRun::start(true).advance(true).advance(true).step, SyncStep::Save);
}

#[test]
fn a_job_keeps_a_connection() {
    let run = SyncRun::start(true);
    assert_eq!(run.settled(true), None);
    let run = run.advance(true);
    assert_eq!(run.settled(true), Some(Kept::Same));
    assert_eq!(run.settled(false), None);
    let run = run.advance(false);
    assert_eq!(run.settled(false), Some(Kept::Same));
    let run = run.advance(true);
    assert_eq!(run.settled(true), Some(Kept::Fresh));
    assert_eq!(run.settled(false), Some(Kept::Nothing));
    assert!(!run.advance(false).connected);
    let run = run.advance(true).advance(true).advance(true);
    assert_eq!(run.step, SyncStep::Tell(Step::WriteHere));
    assert_eq!(run.advance(false).step, SyncStep::Tell(Step::Connect));
    assert_eq!(run.advance(false).settled(false), Some(Kept::Nothing));
}

#[test]
fn a_notice_purges_the_cache() {
    let mut ignores = set(&[]);
    let gone = purge(b"/srv", b"/tmp/c", b"INVALIDATE /a", &set(&[]), &mut ignores).unwrap();
    let l = to_local_path(b"/tmp/c", b"/srv/a");
    assert_eq!((gone.local, gone.base), (l.clone(), to_base_path(&l)));
    assert!(purge(b"/srv", b"/tmp/c", b"HELLO /a", &set(&[]), &mut ignores).is_none());
}

#[test]
fn a_changed_file_is_not_purged() {
    let mut ignores = set(&[]);
    let dirty = set(&["/srv/a"]);
    assert!(purge(b"/srv", b"/tmp/c", b"INVALIDATE /a", &dirty, &mut ignores).is_none());
}

#[test]
fn an_own_change_is_ignored_once() {
    let mut ignores = set(&["/srv/a"]);
    assert!(purge(b"/srv", b"/tmp/c", b"INVALIDATE /a", &set(&[]), &mut ignores).is_none());
    assert_eq!(ignores.len(), 0);
    assert!(purge(b"/srv", b"/tmp/c", b"INVALIDATE /a", &set(&[]), &mut ignores).is_some());
}

#[test]
fn a_listener_begins_anew() {
    assert_eq!(listen_next(Listening::Connect, true), Listening::Subscribe);
    assert_eq!(listen_next(Listening::Connect, false), Listening::Pause);
    assert_eq!(listen_next(Listening::Subscribe, true), Listening::Read);
    assert_eq!(listen_next(Listening::Subscribe, false), Listening::Pause);
    assert_eq!(listen_next(Listening::Read, true), Listening::Read);
    assert_eq!(listen_next(Listening::Read, false), Listening::Pause);
    assert_eq!(listen_next(Listening::Pause, true), Listening::Connect);
    assert_eq!(listen_next(Listening::Pause, false), Listening::Connect);
    assert_eq!(RECONNECT_DELAY, 1);
}
