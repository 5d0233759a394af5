//! Figures of a benchmark.
use vstd::prelude::*;

use crate::ieee::Format;

verus! {

/// The prompt that every engine is measured with.
pub const BENCH_PROMPT: &'static str =
    "Explain, step by step, why the sky appears blue during the day and red at sunset.";

/// One hundred and one half, as doubles.
pub const HUNDRED: u64 = 0x4059_0000_0000_0000;

pub const HALF: u64 = 0x3fe0_0000_0000_0000;

/// Where percentile `p` stands among `n` sorted values: the nearest place,
/// halves upwards.
pub open spec fn place_of(n: int, p: int) -> int {
    let x = Format::F64.product(
        Format::F64.quotient(p, HUNDRED as int),
        Format::F64.of_int(n - 1),
    );
    let t = Format::F64.truncated(x);
    let rest = Format::F64.difference(x, Format::F64.of_int(t));
    if t >= n - 1 {
        n - 1
    } else if Format::F64.less(HALF as int, rest) || Format::F64.equal(HALF as int, rest) {
        t + 1
    } else {
        t
    }
}

/// Percentile `p` of sorted values; zero where there are none.
pub fn percentile(sorted: &Vec<u64>, p: u64) -> (r: u64)
    ensures
        r == (if sorted@.len() == 0 {
            0
        } else {
            sorted@[place_of(sorted@.len() as int, p as int)]
        }),
{
    let n: usize = sorted.len();
    if n == 0 {
        return 0;
    }
    let x: u64 = Format::F64.multiply(
        Format::F64.divide(p, HUNDRED),
        Format::F64.from_u64((n - 1) as u64),
    );
    let t: u64 = Format::F64.trunc_u64(x);
    let i: usize = if t >= (n - 1) as u64 {
        n - 1
    } else {
        let rest: u64 = Format::F64.minus(x, Format::F64.from_u64(t));
        if Format::F64.lt(HALF, rest) || Format::F64.eq_value(HALF, rest) {
            t as usize + 1
        } else {
            t as usize
        }
    };
    sorted[i]
}

} // verus!
