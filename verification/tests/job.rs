use checkr_core::job::{
    final_state, jobs_start, max_output, timeout_secs, Exit, JobEvent, JobEventSource, JobOutput,
    JobState, OutputMonitor, ReadEvent, ReadStep,
};

#[test]
fn job_states_after_kill_and_exit() {
    assert_eq!(JobState::Running.after_kill(), JobState::Canceled);
    assert_eq!(JobState::Queued.after_kill(), JobState::Canceled);
    assert_eq!(JobState::Succeeded.after_kill(), JobState::Succeeded);
    assert_eq!(JobState::Running.after_exit(true), JobState::Succeeded);
    assert_eq!(JobState::Running.after_exit(false), JobState::Failed);
    assert_eq!(JobState::Canceled.after_exit(true), JobState::Canceled);
    assert_eq!(JobState::default_state(), JobState::Running);
    assert_eq!(JobState::Warning.name(), "Warning");
    assert_eq!(JobEventSource::Stderr.name(), "stderr");
}

#[test]
fn final_state_of_a_job() {
    assert_eq!(final_state(None), JobState::Timeout);
    assert_eq!(final_state(Some(Exit::ExitStatus(true))), JobState::Succeeded);
    assert_eq!(final_state(Some(Exit::ExitStatus(false))), JobState::Failed);
    assert_eq!(final_state(Some(Exit::Terminated)), JobState::OutputLimitExceeded);
    assert_eq!(timeout_secs(true), 10);
    assert_eq!(timeout_secs(false), 60);
    assert_eq!(max_output(), 16384);
}

#[test]
fn output_monitor_counts_bytes_and_stops() {
    let mut m = OutputMonitor::new(10);
    assert_eq!(m.step(ReadEvent::Stdout(4)), ReadStep::Continue);
    assert_eq!(m.bytes_left, 6);
    assert_eq!(m.step(ReadEvent::Exited(true)), ReadStep::Continue);
    assert_eq!(m.step(ReadEvent::Stderr(0)), ReadStep::Continue);
    assert!(m.stderr_empty);
    assert_eq!(m.step(ReadEvent::Idle), ReadStep::Stop(Exit::ExitStatus(true)));
    let mut m = OutputMonitor::new(10);
    assert_eq!(m.step(ReadEvent::Stderr(12)), ReadStep::LimitReached);
    assert_eq!(m.bytes_left, 0);
    let mut m = OutputMonitor::new(10);
    assert_eq!(m.step(ReadEvent::Idle), ReadStep::Stop(Exit::Terminated));
}

#[test]
fn jobs_window_and_output_events() {
    assert_eq!(jobs_start(5, Some(2)), 3);
    assert_eq!(jobs_start(5, Some(9)), 0);
    assert_eq!(jobs_start(5, None), 0);
    let mut out = JobOutput { stderr: b"err".to_vec(), stdout: b"hello".to_vec(), combined: vec![] };
    out.apply(JobEvent::Wrote { src: JobEventSource::Stdout, from: 1, to: 4 });
    out.apply(JobEvent::Closed { src: JobEventSource::Stdout });
    out.apply(JobEvent::Wrote { src: JobEventSource::Stderr, from: 0, to: 3 });
    out.apply(JobEvent::Finished);
    assert_eq!(out.combined, b"ellerr".to_vec());
}
