//! The rules of the executor and its worker threads: how large their stacks are,
//! when a task yields or is dropped, and which jobs are still worth running.

use vstd::prelude::*;

verus! {

/// What a board with external memory takes, and what one without it takes.
pub fn by_ram(has_psram: bool, with: usize, without: usize) -> (r: usize)
    ensures
        r == if has_psram {
            with
        } else {
            without
        },
{
    if has_psram {
        with
    } else {
        without
    }
}

/// How a thread is set up.
#[derive(Clone, Copy, Debug, PartialEq, Eq, Structural)]
pub struct ThreadConfig {
    pub stack_size: usize,
    pub priority: u8,
    /// The core the thread is bound to, if it is.
    pub core: Option<u8>,
    /// Whether the stack lies in external memory.
    pub stack_in_psram: bool,
}

/// The thread of the executor: its send path has the deepest frames.
pub fn executor_thread(has_psram: bool) -> (r: ThreadConfig)
    ensures
        r == (ThreadConfig {
            stack_size: if has_psram {
                262144
            } else {
                32768
            },
            priority: 5,
            core: Some(0),
            stack_in_psram: has_psram,
        }),
{
    ThreadConfig {
        stack_size: by_ram(has_psram, 262144, 32768),
        priority: 5,
        core: Some(0),
        stack_in_psram: has_psram,
    }
}

/// The thread of blocking work. It runs below the executor, so that a long batch
/// of keys never delays a socket.
pub fn blocking_thread(has_psram: bool) -> (r: ThreadConfig)
    ensures
        r == (ThreadConfig {
            stack_size: if has_psram {
                32768
            } else {
                10240
            },
            priority: 1,
            core: Some(0),
            stack_in_psram: has_psram,
        }),
{
    ThreadConfig {
        stack_size: by_ram(has_psram, 32768, 10240),
        priority: 1,
        core: Some(0),
        stack_in_psram: has_psram,
    }
}

/// The thread that writes flash. The flash cache is off meanwhile, so its stack is
/// in internal memory on every board.
pub fn flash_thread(has_psram: bool) -> (r: ThreadConfig)
    ensures
        r == (ThreadConfig {
            stack_size: if has_psram {
                32768
            } else {
                6144
            },
            priority: 5,
            core: None,
            stack_in_psram: false,
        }),
{
    ThreadConfig {
        stack_size: by_ram(has_psram, 32768, 6144),
        priority: 5,
        core: None,
        stack_in_psram: false,
    }
}

/// What to tell the executor of a task that was polled.
#[derive(Clone, Copy, Debug, PartialEq, Eq, Structural)]
pub enum Turn {
    Ready,
    /// Not done, and to be polled again at once.
    PendingAwake,
    /// To be decided by polling what the task wraps.
    PollInner,
}

/// Gives other tasks a turn once: pending at the first poll, ready after that.
#[derive(Clone, Copy, Debug, PartialEq, Eq, Structural)]
pub struct YieldNow {
    pub yielded: bool,
}

impl YieldNow {
    /// A task that has not yielded yet.
    pub fn new() -> (r: YieldNow)
        ensures
            !r.yielded,
    {
        YieldNow { yielded: false }
    }

    /// What polling comes to.
    pub fn poll(&mut self) -> (r: Turn)
        ensures
            final(self).yielded,
            r == if old(self).yielded {
                Turn::Ready
            } else {
                Turn::PendingAwake
            },
    {
        if self.yielded {
            Turn::Ready
        } else {
            self.yielded = true;
            Turn::PendingAwake
        }
    }
}

/// What polling a task that can be aborted comes to: one that was aborted is done
/// without its work being polled again.
pub fn poll_abortable(aborted: bool) -> (r: Turn)
    ensures
        r == if aborted {
            Turn::Ready
        } else {
            Turn::PollInner
        },
{
    if aborted {
        Turn::Ready
    } else {
        Turn::PollInner
    }
}

/// How often upstream yields within tight loops.
pub const YIELD_FREQUENCY: u32 = 1;

/// How many blocking jobs may wait: none can pile up behind a reconnect storm.
pub const BLOCKING_QUEUE_CAP: usize = 1;

/// From how many microseconds on a blocking job is worth a line in the log.
pub const SLOW_JOB_US: u64 = 100_000;

/// What to do with a blocking job whose turn has come.
#[derive(Clone, Copy, Debug, PartialEq, Eq, Structural)]
pub enum JobStep {
    Run,
    /// Whoever awaited it is gone, and it has not started.
    Drop,
}

/// What to do with a blocking job whose turn has come; `abandoned` says that
/// nobody awaits it any more.
pub fn job_step(abandoned: bool) -> (r: JobStep)
    ensures
        r == if abandoned {
            JobStep::Drop
        } else {
            JobStep::Run
        },
{
    if abandoned {
        JobStep::Drop
    } else {
        JobStep::Run
    }
}

/// Whether a job that took this long is worth a line in the log.
pub fn is_slow(elapsed_us: u64) -> (r: bool)
    ensures
        r == (elapsed_us >= 100_000),
{
    elapsed_us >= SLOW_JOB_US
}

/// One blocking job waits at a time, and upstream yields at every turn.
pub proof fn work_is_bounded()
    ensures
        YIELD_FREQUENCY == 1,
        BLOCKING_QUEUE_CAP == 1,
{
}

} // verus!
