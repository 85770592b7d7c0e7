//! Sources of uniform random integers: the process-wide generator of
//! macroquad, or a fixed list of values replayed in turn.
use vstd::prelude::*;

verus! {

/// Relies on `macroquad::rand::gen_range` (from quad-rand) on integers: it
/// scales a 32-bit draw `r / 2^32` by `high - low` and truncates, so with
/// `low = 0` and `high = n > 0` the result lies in `[0, n)`.
#[verifier::external_body]
fn gen_below(n: u64) -> (r: u64)
    requires
        n > 0,
    ensures
        r < n,
{
    macroquad::rand::gen_range(0, n)
}

/// The value a replay hands out when asked for a number below `n`.
pub open spec fn replayed(values: Seq<u64>, next: int, n: int) -> int {
    if values.len() == 0 {
        0
    } else {
        values[next % values.len() as int] as int % n
    }
}

/// The position of a replay after one draw: the values repeat in a cycle.
pub open spec fn replay_step(len: int, next: int) -> int {
    if len == 0 {
        next
    } else {
        (next % len + 1) % len
    }
}

/// Where the sampler takes its random numbers from.
pub enum RandomSource {
    /// The generator of macroquad, shared by the whole process and unseeded.
    Generator,
    /// The values of `values`, from position `next` on, each reduced below
    /// the bound asked for, starting again at the front after the last.
    Replay { values: Vec<u64>, next: usize },
}

impl RandomSource {
    /// The values a replay hands out (none for the generator).
    pub open spec fn script(self) -> Seq<u64> {
        match self {
            RandomSource::Replay { values, .. } => values@,
            RandomSource::Generator => Seq::empty(),
        }
    }

    /// The position of the next value a replay hands out.
    pub open spec fn position(self) -> int {
        match self {
            RandomSource::Replay { next, .. } => next as int,
            RandomSource::Generator => 0,
        }
    }

    /// The process-wide generator.
    pub fn generator() -> (r: RandomSource)
        ensures
            r is Generator,
    {
        RandomSource::Generator
    }

    /// A source that replays `values` from the first on.
    pub fn replay(values: Vec<u64>) -> (r: RandomSource)
        ensures
            r matches RandomSource::Replay { values: v, next } && v@ == values@ && next == 0,
    {
        RandomSource::Replay { values, next: 0 }
    }

    /// A number below `n`: uniform for the generator, the next value of a
    /// replay otherwise.
    pub fn below(&mut self, n: u64) -> (r: u64)
        requires
            n > 0,
        ensures
            r < n,
            *old(self) is Generator ==> *final(self) is Generator,
            *old(self) matches RandomSource::Replay { values, next } ==> {
                &&& r == replayed(values@, next as int, n as int)
                &&& *final(self) matches RandomSource::Replay { values: v2, next: n2 }
                &&& v2@ == values@
                &&& n2 == replay_step(values@.len() as int, next as int)
            },
    {
        match self {
            RandomSource::Generator => gen_below(n),
            RandomSource::Replay { values, next } => {
                let len = values.len();
                if len == 0 {
                    0
                } else {
                    let at = *next % len;
                    let v = values[at] % n;
                    *next = (at + 1) % len;
                    v
                }
            },
        }
    }
}

} // verus!
