//! Small integer helpers.
use vstd::prelude::*;

verus! {

/// The distance between two values, `|x - y|`.
pub fn abs_diff(x: usize, y: usize) -> (r: usize)
    ensures
        r as int == if x >= y { x - y } else { y - x },
{
    if x > y {
        x - y
    } else {
        y - x
    }
}

/// The smaller of two values.
pub fn zopfli_min(a: usize, b: usize) -> (r: usize)
    ensures
        r == if a < b { a } else { b },
{
    if a < b {
        a
    } else {
        b
    }
}

/// Division rounded up, `⌈a / b⌉`.
pub fn ceil_div(a: usize, b: usize) -> (r: usize)
    requires
        b > 0,
        a + b <= usize::MAX,
    ensures
        r as int == (a + b - 1) as int / b as int,
{
    (a + b - 1) / b
}

} // verus!
