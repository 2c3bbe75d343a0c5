//! When a warm-up ends.
use vstd::prelude::*;

use crate::selection::RunSettings;

verus! {

/// A warm-up is over once it has lasted its time and made its least number of operations, or lasted
/// twice its time.
pub open spec fn over(settings: RunSettings, elapsed_secs: u64, ops: u64) -> bool {
    ||| elapsed_secs >= settings.warmup && ops >= settings.warmup_min_ops
    ||| elapsed_secs >= settings.warmup * 2
}

/// A warm-up is complete once it has lasted its time or made its least number of operations.
pub open spec fn complete(settings: RunSettings, elapsed_secs: u64, ops: u64) -> bool {
    ops >= settings.warmup_min_ops || elapsed_secs >= settings.warmup
}

/// Whether the warm-up is over.
pub fn is_over(settings: &RunSettings, elapsed_secs: u64, ops: u64) -> (r: bool)
    requires
        settings.warmup * 2 <= u64::MAX,
    ensures
        r == over(*settings, elapsed_secs, ops),
        r <==> elapsed_secs >= settings.warmup && (ops >= settings.warmup_min_ops || elapsed_secs
            - settings.warmup >= settings.warmup),
{
    if elapsed_secs >= settings.warmup && ops >= settings.warmup_min_ops {
        return true;
    }
    elapsed_secs >= settings.warmup * 2
}

/// Whether the warm-up is complete.
pub fn is_complete(settings: &RunSettings, elapsed_secs: u64, ops: u64) -> (r: bool)
    ensures
        r == complete(*settings, elapsed_secs, ops),
{
    ops >= settings.warmup_min_ops || elapsed_secs >= settings.warmup
}

/// Whether progress is reported after that many operations: every 50.
pub fn is_reported(ops: u64) -> (r: bool)
    ensures
        r == (ops % 50 == 0),
{
    ops % 50 == 0
}

/// Whatever the settings, a warm-up that has lasted its time is over with its least number of
/// operations. With fewer it is over at twice its time and not before.
pub proof fn lemma_when_over(settings: RunSettings, elapsed_secs: u64, ops: u64, r: bool)
    requires
        call_ensures(is_over, (&settings, elapsed_secs, ops), r),
    ensures
        elapsed_secs >= settings.warmup && ops >= settings.warmup_min_ops ==> r,
        elapsed_secs >= 2 * settings.warmup ==> r,
        elapsed_secs < settings.warmup ==> !r,
        elapsed_secs < 2 * settings.warmup && ops < settings.warmup_min_ops ==> !r,
        r == over(settings, elapsed_secs, ops),
{
}

/// Whatever the settings, a warm-up is incomplete exactly if it has neither lasted its time nor made
/// its least number of operations.
pub proof fn lemma_when_complete(settings: RunSettings, elapsed_secs: u64, ops: u64, r: bool)
    requires
        call_ensures(is_complete, (&settings, elapsed_secs, ops), r),
    ensures
        elapsed_secs >= settings.warmup ==> r,
        ops >= settings.warmup_min_ops ==> r,
        elapsed_secs < settings.warmup && ops < settings.warmup_min_ops ==> !r,
        r == complete(settings, elapsed_secs, ops),
{
}

/// A warm-up that is over is complete, and stays so.
pub proof fn lemma_over_is_complete(settings: RunSettings, elapsed_secs: u64, ops: u64, later: u64)
    requires
        over(settings, elapsed_secs, ops),
        elapsed_secs <= later,
    ensures
        complete(settings, later, ops),
{
}

/// A warm-up that is over stays over.
pub proof fn lemma_over_stays(
    settings: RunSettings,
    elapsed_secs: u64,
    ops: u64,
    later: u64,
    more_ops: u64,
)
    requires
        over(settings, elapsed_secs, ops),
        elapsed_secs <= later,
        ops <= more_ops,
    ensures
        over(settings, later, more_ops),
{
}

/// A warm-up is not over before its time, and is over at twice its time.
pub proof fn lemma_over_bounds(settings: RunSettings, elapsed_secs: u64, ops: u64)
    ensures
        over(settings, elapsed_secs, ops) ==> elapsed_secs >= settings.warmup,
        elapsed_secs >= settings.warmup * 2 ==> over(settings, elapsed_secs, ops),
{
}

} // verus!
