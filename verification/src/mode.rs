//! Serial execution, or execution in a dedicated thread pool.
use rayon::{ThreadPool, ThreadPoolBuildError, ThreadPoolBuilder};
use vstd::prelude::*;
use vstd::string::*;

verus! {

/// Where a solver does its numerical work.
#[derive(Debug, Copy, Clone, PartialEq, Eq, Structural)]
pub enum Mode {
    /// On the calling thread.
    Serial,
    /// In a dedicated pool.
    Parallel {
        /// Number of threads of the pool.
        thread_count: usize,
    },
}

impl Default for Mode {
    fn default() -> (r: Mode)
        ensures
            r == Mode::Serial,
    {
        Mode::Serial
    }
}

/// `rayon::ThreadPool`.
#[verifier::external_type_specification]
#[verifier::external_body]
pub struct ExThreadPool(ThreadPool);

/// `rayon::ThreadPoolBuildError`.
#[verifier::external_type_specification]
#[verifier::external_body]
pub struct ExThreadPoolBuildError(ThreadPoolBuildError);

/// The number of worker threads that a pool was built with.
pub uninterp spec fn workers(pool: ThreadPool) -> nat;

/// Number of threads that every platform's pool can have.
pub const COMMON_LIMIT: usize = 255;

/// A pool that was asked for some threads has that many; where they are more
/// than every platform allows, it may stop at a limit of its own.
pub open spec fn staffed(count: nat, thread_count: usize) -> bool {
    if thread_count <= COMMON_LIMIT {
        count == thread_count
    } else {
        COMMON_LIMIT <= count <= thread_count
    }
}

/// Calls `ThreadPoolBuilder::new().num_threads(thread_count).build()`, which
/// starts the smaller of that number and the limit of the platform, 65535 or
/// 255. Whether the threads can be started depends on the machine, and is left
/// unsaid.
#[verifier::external_body]
fn start_pool(thread_count: usize) -> (r: Result<ThreadPool, ThreadPoolBuildError>)
    requires
        thread_count > 0,
    ensures
        r matches Ok(pool) ==> staffed(workers(pool), thread_count),
{
    ThreadPoolBuilder::new().num_threads(thread_count).build()
}

/// Calls the `Display` implementation of `ThreadPoolBuildError`. Nothing is
/// said of the text: it is the operating system's.
#[verifier::external_body]
fn build_error_text(error: &ThreadPoolBuildError) -> (r: String) {
    error.to_string()
}

/// Calls `ThreadPool::install`, which runs a closure within the pool and
/// returns what the closure returned.
#[verifier::external_body]
pub(crate) fn install<F: FnOnce() -> R + Send, R: Send>(pool: &ThreadPool, f: F) -> (r: R)
    requires
        f.requires(()),
    ensures
        f.ensures((), r),
{
    pool.install(f)
}

/// What the start of a pool comes to.
pub fn started(outcome: Result<ThreadPool, String>) -> (r: Result<Option<ThreadPool>, String>)
    ensures
        match outcome {
            Ok(pool) => r == Ok::<Option<ThreadPool>, String>(Some(pool)),
            Err(cause) => r matches Err(text) && text@ == "failed to build thread pool: "@
                + cause@,
        },
{
    match outcome {
        Ok(pool) => Ok(Some(pool)),
        Err(cause) => Err(
            "failed to build thread pool: ".to_owned().concat(cause.as_str()),
        ),
    }
}

/// The pool that a mode asks for.
pub fn build_thread_pool(mode: &Mode) -> (r: Result<Option<ThreadPool>, String>)
    ensures
        match *mode {
            Mode::Serial => r == Ok::<Option<ThreadPool>, String>(None),
            Mode::Parallel { thread_count } => if thread_count == 0 {
                r matches Err(text) && text@ == "thread_count must be greater than 0"@
            } else {
                match r {
                    Ok(outcome) => outcome matches Some(pool) && staffed(
                        workers(pool),
                        thread_count,
                    ),
                    Err(text) => exists|cause: String|
                        text@ == "failed to build thread pool: "@ + #[trigger] cause@,
                }
            },
        },
{
    match mode {
        Mode::Serial => Ok(None),
        Mode::Parallel { thread_count } => {
            if *thread_count == 0 {
                return Err("thread_count must be greater than 0".to_owned());
            }
            match start_pool(*thread_count) {
                Ok(pool) => started(Ok(pool)),
                Err(error) => started(Err(build_error_text(&error))),
            }
        },
    }
}

} // verus!
