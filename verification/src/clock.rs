//! The clock behind a world's frame delta: the `time` crate's
//! `PreciseTime`. Nothing is proved of it, and little is stated of what it
//! reads: a reading depends on when it is taken.

use time::PreciseTime;
use vstd::prelude::*;

verus! {

#[verifier::external_type_specification]
#[verifier::external_body]
pub struct ExPreciseTime(PreciseTime);

/// `PreciseTime::now`: the present moment.
pub assume_specification[ PreciseTime::now ]() -> PreciseTime;

/// `PreciseTime::to`, from `since` to a reading taken now, and of the span
/// between the two its whole seconds (`Duration::num_seconds`) and its
/// whole milliseconds (`Duration::num_milliseconds`), in that order.
///
/// Every `PreciseTime` is an earlier reading of the same steady clock, so
/// the later moment is never before the earlier one, and the span is one
/// that the clock can measure, far below what its milliseconds can count.
/// That is so on Linux, macOS and Windows, where the crate reads a clock
/// that never goes back. On the `wasi` and `sgx` targets it reads the wall
/// clock, which may: this contract is not meant for them.
/// Both numbers are taken from one span: where the seconds are not
/// negative, they are the thousands of the milliseconds.
#[verifier::external_body]
pub(crate) fn elapsed_since(since: &PreciseTime) -> (delta: (i64, i64))
    ensures
        delta.0 >= 0 ==> delta.1 / 1000 == delta.0,
{
    let span = since.to(PreciseTime::now());
    (span.num_seconds(), span.num_milliseconds())
}

} // verus!
