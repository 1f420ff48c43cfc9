use process_manager::manager::batch::{batch_kill, batch_pause, batch_resume, Batch, BatchReport};
use process_manager::manager::monitoring::Sighting;
use process_manager::manager::operations::{
    complete, kill_process, pause_process, resume_process, set_priority, signal_process, terminate_process,
    OpError, OsCall, SignalKind,
};
use process_manager::manager::permissions::check_admin_privilege;
use process_manager::manager::Manager;
use process_manager::platform::Platform;
use process_manager::user::{Privilege, User};

fn manager(privilege: Privilege) -> Manager {
    let nothing: Vec<Sighting> = Vec::new();
    Manager::new(User::new(1, "op", privilege), Platform::new(100, 1, 4096), Ok(nothing), 0, 0).unwrap()
}

/// Stands in for the system: makes the calls that a batch asks for and counts them.
fn run(batch: &mut Batch, failing: &[u32]) -> usize {
    let mut calls = 0;
    while let Some(call) = batch.next_call() {
        calls += 1;
        match call {
            OsCall::SendSignal { pid, .. } if failing.contains(&pid) => batch.record(Err(3)),
            _ => batch.record(Ok(())),
        }
    }
    calls
}

#[test]
fn admin_passes_the_checkpoint_and_no_one_else() {
    assert_eq!(check_admin_privilege(&manager(Privilege::Admin)), Ok(()));
    assert_eq!(check_admin_privilege(&manager(Privilege::Normal)), Err(OpError::PermissionDenied));
}

#[test]
fn each_operation_names_its_call() {
    let m = manager(Privilege::Admin);
    assert_eq!(kill_process(&m, 10), Ok(OsCall::SendSignal { pid: 10, signal: SignalKind::Kill }));
    assert_eq!(terminate_process(&m, 11), Ok(OsCall::SendSignal { pid: 11, signal: SignalKind::Terminate }));
    assert_eq!(pause_process(&m, 12), Ok(OsCall::SendSignal { pid: 12, signal: SignalKind::Stop }));
    assert_eq!(resume_process(&m, 13), Ok(OsCall::SendSignal { pid: 13, signal: SignalKind::Continue }));
    assert_eq!(set_priority(&m, 14, -20), Ok(OsCall::SetPriority { pid: 14, nice: -20 }));
    assert_eq!(set_priority(&m, 14, 500), Ok(OsCall::SetPriority { pid: 14, nice: 500 }));
    assert_eq!(
        signal_process(&m, 15, SignalKind::Stop),
        Ok(OsCall::SendSignal { pid: 15, signal: SignalKind::Stop })
    );
}

#[test]
fn normal_session_is_denied_every_operation_and_issues_no_call() {
    let m = manager(Privilege::Normal);
    assert_eq!(kill_process(&m, 10), Err(OpError::PermissionDenied));
    assert_eq!(terminate_process(&m, 10), Err(OpError::PermissionDenied));
    assert_eq!(pause_process(&m, 10), Err(OpError::PermissionDenied));
    assert_eq!(resume_process(&m, 10), Err(OpError::PermissionDenied));
    assert_eq!(set_priority(&m, 10, 5), Err(OpError::PermissionDenied));
    let mut batch = batch_kill(&m, vec![1, 2, 3], true);
    assert_eq!(run(&mut batch, &[]), 0);
    assert_eq!(batch.report(), BatchReport { succeeded: 0, failed: 3 });
    assert_eq!(batch.outcome(1), Some((2, Err(OpError::PermissionDenied))));
    let mut paused = batch_pause(&m, vec![4]);
    assert_eq!(run(&mut paused, &[]), 0);
    let mut resumed = batch_resume(&m, vec![4, 5]);
    assert_eq!(run(&mut resumed, &[]), 0);
    assert_eq!(resumed.report(), BatchReport { succeeded: 0, failed: 2 });
}

#[test]
fn the_systems_answer_becomes_the_outcome() {
    let kill = OsCall::SendSignal { pid: 9, signal: SignalKind::Kill };
    assert_eq!(complete(kill, Ok(())), Ok(()));
    assert_eq!(complete(kill, Err(3)), Err(OpError::SignalFailed { pid: 9, signal: SignalKind::Kill, errno: 3 }));
    let nice = OsCall::SetPriority { pid: 9, nice: 99 };
    assert_eq!(complete(nice, Ok(())), Ok(()));
    assert_eq!(complete(nice, Err(13)), Err(OpError::PriorityFailed { pid: 9, nice: 99, errno: 13 }));
}

#[test]
fn batch_kill_goes_on_after_a_failure() {
    let m = manager(Privilege::Admin);
    let mut batch = batch_kill(&m, vec![100, 200, 300], true);
    assert_eq!(batch.remaining(), 3);
    assert_eq!(run(&mut batch, &[200]), 3);
    assert_eq!(batch.report(), BatchReport { succeeded: 2, failed: 1 });
    assert_eq!(batch.remaining(), 0);
    assert_eq!(batch.succeeded_pids(), vec![100, 300]);
    assert_eq!(batch.outcome(0), Some((100, Ok(()))));
    assert_eq!(
        batch.outcome(1),
        Some((200, Err(OpError::SignalFailed { pid: 200, signal: SignalKind::Kill, errno: 3 })))
    );
    assert_eq!(batch.outcome(3), None);
}

#[test]
fn batch_kill_without_force_asks_to_terminate() {
    let m = manager(Privilege::Admin);
    let batch = batch_kill(&m, vec![8], false);
    assert_eq!(batch.next_call(), Some(OsCall::SendSignal { pid: 8, signal: SignalKind::Terminate }));
    let forced = batch_kill(&m, vec![8], true);
    assert_eq!(forced.next_call(), Some(OsCall::SendSignal { pid: 8, signal: SignalKind::Kill }));
}

#[test]
fn batch_pause_and_resume_send_stop_and_continue() {
    let m = manager(Privilege::Admin);
    let mut paused = batch_pause(&m, vec![1, 2]);
    assert_eq!(paused.next_call(), Some(OsCall::SendSignal { pid: 1, signal: SignalKind::Stop }));
    assert_eq!(run(&mut paused, &[1, 2]), 2);
    assert_eq!(paused.report(), BatchReport { succeeded: 0, failed: 2 });
    let mut resumed = batch_resume(&m, vec![1, 2]);
    assert_eq!(resumed.next_call(), Some(OsCall::SendSignal { pid: 1, signal: SignalKind::Continue }));
    assert_eq!(run(&mut resumed, &[]), 2);
    assert_eq!(resumed.report(), BatchReport { succeeded: 2, failed: 0 });
    assert_eq!(resumed.finish(), Ok(vec![1, 2]));
}

#[test]
fn an_empty_batch_is_finished_at_once() {
    let m = manager(Privilege::Admin);
    let mut batch = batch_kill(&m, Vec::new(), true);
    assert_eq!(batch.next_call(), None);
    batch.record(Ok(()));
    assert_eq!(batch.report(), BatchReport { succeeded: 0, failed: 0 });
    assert_eq!(batch.finish(), Ok(vec![]));
}

#[test]
fn a_reply_too_many_changes_nothing() {
    let m = manager(Privilege::Admin);
    let mut batch = batch_pause(&m, vec![6]);
    batch.record(Err(1));
    batch.record(Ok(()));
    assert_eq!(batch.report(), BatchReport { succeeded: 0, failed: 1 });
}
