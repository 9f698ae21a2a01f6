//! What a run is asked to work on, and with what.

use crate::config::Config;
use crate::ieee::Single;
use crate::pipeline::{cut, insisted, memory};
use crate::units::Units;
use vstd::prelude::*;

verus! {

/// An excerpt lies within its input, starts at the sample nearest to where it was asked to, and is as long as
/// it was asked to be, or reaches the end; with nothing asked it is all of the input.
pub proof fn law_an_excerpt_is_what_was_asked_for<U: Units>(
    u: &U,
    len: int,
    sample_rate: Single,
    start: Option<Single>,
    duration: Option<Single>,
)
    requires
        0 <= len,
    ensures
        match cut(u, len, sample_rate, start, duration) {
            Ok((a, b)) => {
                &&& 0 <= a <= b <= len
                &&& start is None && duration is None ==> a == 0 && b == len
                &&& start matches Some(s) ==> a == u.nearest_sample_of(s, sample_rate)
                &&& duration is None ==> b == len
                &&& duration matches Some(d) ==> {
                    &&& a < b
                    &&& b - a == u.nearest_sample_of(d, sample_rate) || b == len && b - a
                        < u.nearest_sample_of(d, sample_rate)
                }
            },
            Err(_) => {
                ||| start matches Some(s) && (!s.finite() || !(Single { bits: 0 }).at_most(s)
                    || u.nearest_sample_of(s, sample_rate) >= len)
                ||| duration matches Some(d) && (!d.finite() || !d.above_zero() || u.nearest_sample_of(
                    d,
                    sample_rate,
                ) == 0)
                ||| start is None && duration is Some && u.nearest_sample_of(
                    Single { bits: 0 },
                    sample_rate,
                ) >= len
            },
        },
{
}

/// A document's megabytes are of `1024 * 1024` bytes each.
pub proof fn law_a_megabyte_is_a_power_of_two_of_bytes(config: Config)
    requires
        config.pursuit.max_memory_mb * 1_048_576 <= usize::MAX,
    ensures
        memory(config) == config.pursuit.max_memory_mb * 1_048_576,
{
    let mb = config.pursuit.max_memory_mb;
    let most: usize = usize::MAX;
    assert(mb << 20usize == mb * 1_048_576) by (bit_vector)
        requires
            mb * 1_048_576 <= most,
    ;
}

/// A core length is insisted on only where a document gives its seconds, and is those at the sample rate.
pub proof fn law_a_window_is_insisted_on_in_seconds<U: Units>(
    u: &U,
    window_seconds: Single,
    sample_rate: Single,
)
    ensures
        insisted(u, window_seconds, sample_rate) is Some <==> window_seconds.above_zero(),
        insisted(u, window_seconds, sample_rate) matches Some(n) ==> n == u.samples_of(
            window_seconds,
            sample_rate,
        ),
{
}

} // verus!
