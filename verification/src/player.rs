//! Playback planning: how often the configured clips are played, and how
//! large a decoded clip is taken to be for cache accounting.

use vstd::prelude::*;

verus! {

/// How often the whole list of clips is played.
pub enum Loops {
    Once,
    Count(u64),
    Infinite,
}

impl Loops {
    /// Derives the looping mode from the configuration fields: when looping
    /// is off the list is played once; when it is on, a configured count
    /// bounds the repetitions and an absent count means playing forever.
    pub fn from_config(play_in_loop: bool, loop_count: Option<u64>) -> (r: Loops)
        ensures
            r == (if play_in_loop {
                match loop_count {
                    Some(c) => Loops::Count(c),
                    None => Loops::Infinite,
                }
            } else {
                Loops::Once
            }),
    {
        if play_in_loop {
            match loop_count {
                Some(count) => Loops::Count(count),
                None => Loops::Infinite,
            }
        } else {
            Loops::Once
        }
    }

    /// How many passes over the clip list this mode asks for:
    /// `Some(n)` for a bounded number of passes, `None` for an unbounded loop.
    pub fn pass_count(&self) -> (r: Option<u64>)
        ensures
            r == (match *self {
                Loops::Once => Some(1u64),
                Loops::Count(c) => Some(c),
                Loops::Infinite => None::<u64>,
            }),
    {
        match *self {
            Loops::Once => Some(1),
            Loops::Count(c) => Some(c),
            Loops::Infinite => None,
        }
    }
}

/// The memory footprint recorded for a decoded clip: channel count times
/// sample rate times the length of the current span of samples.
/// Returns `None` when that product does not fit in `usize`.
pub fn decoded_byte_size(channels: u16, sample_rate: u32, span_len: usize) -> (r: Option<usize>)
    ensures
        r matches Some(n) ==> n == channels as int * sample_rate as int * span_len as int,
        r is Some <==> channels as int * sample_rate as int * span_len as int <= usize::MAX,
{
    let c: u128 = channels as u128;
    let s: u128 = sample_rate as u128;
    let l: u128 = span_len as u128;
    proof {
        assert(c * s <= 0xFFFFu128 * 0xFFFF_FFFFu128) by (nonlinear_arith)
            requires
                c <= 0xFFFFu128,
                s <= 0xFFFF_FFFFu128,
        ;
        assert(c * s * l <= 0xFFFFu128 * 0xFFFF_FFFFu128 * 0xFFFF_FFFF_FFFF_FFFFu128)
            by (nonlinear_arith)
            requires
                c * s <= 0xFFFFu128 * 0xFFFF_FFFFu128,
                l <= 0xFFFF_FFFF_FFFF_FFFFu128,
        ;
    }
    let product: u128 = c * s * l;
    if product <= usize::MAX as u128 {
        Some(product as usize)
    } else {
        None
    }
}

} // verus!
