//! Jobs that run an external command: their identities, states and events,
//! and the decisions taken while a job's output is read.
use vstd::prelude::*;

verus! {

/// The identity of a job.
#[derive(Clone, Copy, PartialEq, Eq, Structural, Debug)]
pub struct JobId {
    pub value: usize,
}

/// An event of the hub: a job was added.
#[derive(Clone, Copy, PartialEq, Eq, Structural, Debug)]
pub enum HubEvent {
    JobAdded(JobId),
}

/// The stream a job wrote to.
#[derive(Clone, Copy, PartialEq, Eq, Structural, Debug)]
pub enum JobEventSource {
    Stdout,
    Stderr,
}

impl JobEventSource {
    /// The stream's name: `stdout` or `stderr`.
    pub fn name(&self) -> (r: &'static str)
        ensures
            r@ == (match self {
                JobEventSource::Stdout => "stdout"@,
                JobEventSource::Stderr => "stderr"@,
            }),
    {
        match self {
            JobEventSource::Stdout => "stdout",
            JobEventSource::Stderr => "stderr",
        }
    }
}

/// An event of a job: bytes `from..to` were written to a stream, a stream
/// was closed, or the job finished.
#[derive(Clone, Copy, PartialEq, Eq, Structural, Debug)]
pub enum JobEvent {
    Wrote { src: JobEventSource, from: usize, to: usize },
    Closed { src: JobEventSource },
    Finished,
}

/// The state of a job.
#[derive(Clone, Copy, PartialEq, Eq, Structural, Debug)]
pub enum JobState {
    Queued,
    Running,
    Succeeded,
    Canceled,
    Failed,
    Warning,
    Timeout,
    OutputLimitExceeded,
}

impl JobState {
    /// A job starts running.
    pub fn default_state() -> (r: JobState)
        ensures
            r == JobState::Running,
    {
        JobState::Running
    }

    /// The state's name.
    pub fn name(&self) -> (r: &'static str)
        ensures
            r@ == (match self {
                JobState::Queued => "Queued"@,
                JobState::Running => "Running"@,
                JobState::Succeeded => "Succeeded"@,
                JobState::Canceled => "Canceled"@,
                JobState::Failed => "Failed"@,
                JobState::Warning => "Warning"@,
                JobState::Timeout => "Timeout"@,
                JobState::OutputLimitExceeded => "OutputLimitExceeded"@,
            }),
    {
        match self {
            JobState::Queued => "Queued",
            JobState::Running => "Running",
            JobState::Succeeded => "Succeeded",
            JobState::Canceled => "Canceled",
            JobState::Failed => "Failed",
            JobState::Warning => "Warning",
            JobState::Timeout => "Timeout",
            JobState::OutputLimitExceeded => "OutputLimitExceeded",
        }
    }

    /// The state after the job is killed: a queued or running job is
    /// canceled, any other keeps its state.
    pub fn after_kill(self) -> (r: JobState)
        ensures
            r == (if self == JobState::Queued || self == JobState::Running {
                JobState::Canceled
            } else {
                self
            }),
    {
        match self {
            JobState::Queued | JobState::Running => JobState::Canceled,
            s => s,
        }
    }

    /// The state after the job's process exited: succeeded or failed after
    /// its exit status, unless the job was canceled.
    pub fn after_exit(self, success: bool) -> (r: JobState)
        ensures
            r == (if self == JobState::Canceled {
                self
            } else if success {
                JobState::Succeeded
            } else {
                JobState::Failed
            }),
    {
        if self == JobState::Canceled {
            self
        } else if success {
            JobState::Succeeded
        } else {
            JobState::Failed
        }
    }
}

/// How the reading of a job's output ended: the process exited, with
/// success or not, or it was stopped.
#[derive(Clone, Copy, PartialEq, Eq, Structural, Debug)]
pub enum Exit {
    ExitStatus(bool),
    Terminated,
}

/// The final state of a job: `None` where it ran out of time.
pub fn final_state(outcome: Option<Exit>) -> (r: JobState)
    ensures
        r == (match outcome {
            None => JobState::Timeout,
            Some(Exit::ExitStatus(true)) => JobState::Succeeded,
            Some(Exit::ExitStatus(false)) => JobState::Failed,
            Some(Exit::Terminated) => JobState::OutputLimitExceeded,
        }),
{
    match outcome {
        None => JobState::Timeout,
        Some(Exit::ExitStatus(success)) => if success {
            JobState::Succeeded
        } else {
            JobState::Failed
        },
        Some(Exit::Terminated) => JobState::OutputLimitExceeded,
    }
}

/// The seconds a job may run: 10 for an analysis, 60 for a compilation.
pub fn timeout_secs(analysis: bool) -> (r: u64)
    ensures
        r == (if analysis {
            10u64
        } else {
            60u64
        }),
{
    if analysis {
        10
    } else {
        60
    }
}

/// The most bytes of output a job may write: 2^14.
pub fn max_output() -> (r: usize)
    ensures
        r == 16384,
{
    16384
}

/// What the reader of a job's output learned: bytes read from stderr or
/// stdout (0 when the stream closed), the exit status of the process, or
/// that nothing more can come.
#[derive(Clone, Copy, PartialEq, Eq, Structural, Debug)]
pub enum ReadEvent {
    Stderr(usize),
    Stdout(usize),
    Exited(bool),
    Idle,
}

/// What the reader does next: keep reading, or stop because the output
/// limit was reached (and kill the process), or stop with how it ended.
#[derive(Clone, Copy, PartialEq, Eq, Structural, Debug)]
pub enum ReadStep {
    Continue,
    LimitReached,
    Stop(Exit),
}

/// The state of the reader of a job's output.
#[derive(Clone, Copy, PartialEq, Eq, Structural, Debug)]
pub struct OutputMonitor {
    pub bytes_left: usize,
    pub stderr_empty: bool,
    pub stdout_empty: bool,
    pub exit_status: Option<bool>,
}

impl OutputMonitor {
    /// The reader before any output, allowed `max` bytes.
    pub fn new(max: usize) -> (r: OutputMonitor)
        ensures
            r == (OutputMonitor { bytes_left: max, stderr_empty: false, stdout_empty: false, exit_status: None }),
    {
        OutputMonitor { bytes_left: max, stderr_empty: false, stdout_empty: false, exit_status: None }
    }

    /// Takes in an event: bytes read count against the limit and a read of
    /// 0 marks the stream closed; the exit status is recorded; once nothing
    /// more can come the reading stops, after the exit status where there is
    /// one. Reaching the limit stops the reading.
    pub fn step(&mut self, ev: ReadEvent) -> (r: ReadStep)
        ensures
            ev matches ReadEvent::Idle ==> *final(self) == *old(self) && r == ReadStep::Stop(
                match old(self).exit_status {
                    Some(s) => Exit::ExitStatus(s),
                    None => Exit::Terminated,
                },
            ),
            ev matches ReadEvent::Stderr(n) ==> *final(self) == (OutputMonitor {
                bytes_left: if old(self).bytes_left >= n { (old(self).bytes_left - n) as usize } else { 0 },
                stderr_empty: n == 0,
                ..*old(self)
            }),
            ev matches ReadEvent::Stdout(n) ==> *final(self) == (OutputMonitor {
                bytes_left: if old(self).bytes_left >= n { (old(self).bytes_left - n) as usize } else { 0 },
                stdout_empty: n == 0,
                ..*old(self)
            }),
            ev matches ReadEvent::Exited(s) ==> *final(self) == (OutputMonitor {
                exit_status: Some(s),
                ..*old(self)
            }),
            !(ev is Idle) ==> r == (if final(self).bytes_left == 0 {
                ReadStep::LimitReached
            } else {
                ReadStep::Continue
            }),
    {
        match ev {
            ReadEvent::Stderr(n) => {
                self.stderr_empty = n == 0;
                self.bytes_left = self.bytes_left.saturating_sub(n);
            },
            ReadEvent::Stdout(n) => {
                self.stdout_empty = n == 0;
                self.bytes_left = self.bytes_left.saturating_sub(n);
            },
            ReadEvent::Exited(s) => {
                self.exit_status = Some(s);
            },
            ReadEvent::Idle => {
                return ReadStep::Stop(
                    match self.exit_status {
                        Some(s) => Exit::ExitStatus(s),
                        None => Exit::Terminated,
                    },
                );
            },
        }
        if self.bytes_left == 0 {
            ReadStep::LimitReached
        } else {
            ReadStep::Continue
        }
    }
}

/// The position from which the last `count` of `len` jobs start; all of
/// them where no count is given.
pub fn jobs_start(len: usize, count: Option<usize>) -> (r: usize)
    ensures
        r == (match count {
            Some(c) => if len >= c { (len - c) as usize } else { 0 },
            None => 0,
        }),
{
    match count {
        Some(c) => len.saturating_sub(c),
        None => 0,
    }
}

/// The output of a job: what it wrote to each stream, and both in the
/// order written.
pub struct JobOutput {
    pub stderr: Vec<u8>,
    pub stdout: Vec<u8>,
    pub combined: Vec<u8>,
}

impl JobOutput {
    /// Takes in an event of the job: bytes written to a stream are appended
    /// to the combined output; other events change nothing.
    pub fn apply(&mut self, ev: JobEvent)
        requires
            ev matches JobEvent::Wrote { src, from, to } ==> from <= to && to <= (match src {
                JobEventSource::Stdout => old(self).stdout@.len(),
                JobEventSource::Stderr => old(self).stderr@.len(),
            }),
        ensures
            final(self).stdout@ == old(self).stdout@,
            final(self).stderr@ == old(self).stderr@,
            final(self).combined@ == (match ev {
                JobEvent::Wrote { src, from, to } => old(self).combined@ + (match src {
                    JobEventSource::Stdout => old(self).stdout@,
                    JobEventSource::Stderr => old(self).stderr@,
                }).subrange(from as int, to as int),
                _ => old(self).combined@,
            }),
    {
        match ev {
            JobEvent::Wrote { src, from, to } => {
                let ghost before = self.combined@;
                let mut i: usize = from;
                while i < to
                    invariant
                        from <= i <= to,
                        to <= (match src {
                            JobEventSource::Stdout => self.stdout@.len(),
                            JobEventSource::Stderr => self.stderr@.len(),
                        }),
                        self.stdout@ == old(self).stdout@,
                        self.stderr@ == old(self).stderr@,
                        before == old(self).combined@,
                        self.combined@ == before + (match src {
                            JobEventSource::Stdout => self.stdout@,
                            JobEventSource::Stderr => self.stderr@,
                        }).subrange(from as int, i as int),
                    decreases to - i,
                {
                    let b = match src {
                        JobEventSource::Stdout => self.stdout[i],
                        JobEventSource::Stderr => self.stderr[i],
                    };
                    self.combined.push(b);
                    proof {
                        let s = match src {
                            JobEventSource::Stdout => self.stdout@,
                            JobEventSource::Stderr => self.stderr@,
                        };
                        assert(s.subrange(from as int, i + 1) =~= s.subrange(from as int, i as int).push(s[i as int]));
                        assert(self.combined@ =~= before + s.subrange(from as int, i + 1));
                    }
                    i = i + 1;
                }
            },
            _ => {},
        }
    }
}

} // verus!
