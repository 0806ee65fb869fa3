//! The DEFLATE length and distance alphabets (RFC 1951, section 3.2.5).
use vstd::prelude::*;

verus! {

/// `2^k`.
pub open spec fn two_pow(k: nat) -> nat
    decreases k,
{
    if k == 0 {
        1
    } else {
        2 * two_pow((k - 1) as nat)
    }
}

/// `⌊log2 n⌋`, with `⌊log2 0⌋ = ⌊log2 1⌋ = 0`.
pub open spec fn floor_log2(n: nat) -> nat
    decreases n,
{
    if n < 2 {
        0
    } else {
        1 + floor_log2(n / 2)
    }
}

/// The literal/length symbol of a match length in `3..=258`, in closed form; it is the
/// symbol of RFC 1951's table (`lemma_length_table`).
pub open spec fn length_symbol(len: int) -> int {
    if len <= 10 {
        len + 254
    } else if len <= 18 {
        265 + (len - 11) / 2
    } else if len <= 34 {
        269 + (len - 19) / 4
    } else if len <= 66 {
        273 + (len - 35) / 8
    } else if len <= 130 {
        277 + (len - 67) / 16
    } else if len <= 257 {
        281 + (len - 131) / 32
    } else {
        285
    }
}

/// The number of extra bits sent after the symbol of a match length.
pub open spec fn length_extra_bits(len: int) -> int {
    if len <= 10 || len == 258 {
        0
    } else if len <= 18 {
        1
    } else if len <= 34 {
        2
    } else if len <= 66 {
        3
    } else if len <= 130 {
        4
    } else {
        5
    }
}

/// The value of the extra bits of a match length: its offset from the symbol's base.
pub open spec fn length_extra_value(len: int) -> int {
    if len <= 10 || len == 258 {
        0
    } else if len <= 18 {
        (len - 11) % 2
    } else if len <= 34 {
        (len - 19) % 4
    } else if len <= 66 {
        (len - 35) % 8
    } else if len <= 130 {
        (len - 67) % 16
    } else {
        (len - 131) % 32
    }
}

/// The number of extra bits of a length symbol in `257..=285`.
pub open spec fn length_symbol_extra_bits(sym: int) -> int {
    if sym < 265 || sym == 285 {
        0
    } else {
        (sym - 261) / 4
    }
}

/// The distance symbol of a distance in `1..=32768`: `d - 1` below 5, else
/// `2·l + bit (l - 1) of (d - 1)` where `l = ⌊log2 (d - 1)⌋`.
pub open spec fn dist_symbol(d: int) -> int {
    if d < 5 {
        d - 1
    } else {
        let l = floor_log2((d - 1) as nat);
        2 * l + ((d - 1) / two_pow((l - 1) as nat) as int) % 2
    }
}

/// The number of extra bits of a distance: `⌊log2 (d - 1)⌋ - 1` from 5 on.
pub open spec fn dist_extra_bits(d: int) -> int {
    if d < 5 {
        0
    } else {
        floor_log2((d - 1) as nat) - 1
    }
}

/// The value of the extra bits of a distance: the low `dist_extra_bits(d)` bits of `d - 1`.
pub open spec fn dist_extra_value(d: int) -> int {
    if d < 5 {
        0
    } else {
        (d - 1) % two_pow((floor_log2((d - 1) as nat) - 1) as nat) as int
    }
}

/// The number of extra bits of a distance symbol in `0..30`.
pub open spec fn dist_symbol_extra_bits(sym: int) -> int {
    if sym < 4 {
        0
    } else {
        sym / 2 - 1
    }
}

/// `2^k >= 1`.
pub proof fn lemma_two_pow_positive(k: nat)
    ensures
        two_pow(k) >= 1,
    decreases k,
{
    if k > 0 {
        lemma_two_pow_positive((k - 1) as nat);
    }
}

proof fn lemma_floor_log2_bounds(n: nat)
    requires
        n >= 1,
    ensures
        two_pow(floor_log2(n)) <= n < 2 * two_pow(floor_log2(n)),
    decreases n,
{
    if n >= 2 {
        lemma_floor_log2_bounds(n / 2);
    }
}

/// The base length of a length symbol, from the table of RFC 1951, 3.2.5: symbol `s`
/// stands for the lengths from `length_base(s)` up to `length_base(s + 1) - 1`. The entry
/// for 286 closes the last range.
pub open spec fn length_base(sym: int) -> int {
    if sym == 257 {
        3
    } else if sym == 258 {
        4
    } else if sym == 259 {
        5
    } else if sym == 260 {
        6
    } else if sym == 261 {
        7
    } else if sym == 262 {
        8
    } else if sym == 263 {
        9
    } else if sym == 264 {
        10
    } else if sym == 265 {
        11
    } else if sym == 266 {
        13
    } else if sym == 267 {
        15
    } else if sym == 268 {
        17
    } else if sym == 269 {
        19
    } else if sym == 270 {
        23
    } else if sym == 271 {
        27
    } else if sym == 272 {
        31
    } else if sym == 273 {
        35
    } else if sym == 274 {
        43
    } else if sym == 275 {
        51
    } else if sym == 276 {
        59
    } else if sym == 277 {
        67
    } else if sym == 278 {
        83
    } else if sym == 279 {
        99
    } else if sym == 280 {
        115
    } else if sym == 281 {
        131
    } else if sym == 282 {
        163
    } else if sym == 283 {
        195
    } else if sym == 284 {
        227
    } else if sym == 285 {
        258
    } else {
        259
    }
}

/// The length symbols follow the table of RFC 1951: the symbol of a length is the one
/// whose range holds it, the extra bits are the table's, and their value is the offset
/// from the symbol's base.
pub proof fn lemma_length_table(len: int)
    requires
        3 <= len <= 258,
    ensures
        length_base(length_symbol(len)) <= len < length_base(length_symbol(len) + 1),
        length_extra_bits(len) == length_symbol_extra_bits(length_symbol(len)),
        length_extra_value(len) == len - length_base(length_symbol(len)),
{
}

/// Length symbols lie in `257..=285`, distance symbols in `0..30`.
pub proof fn lemma_symbol_ranges(len: int, d: int)
    requires
        3 <= len <= 258,
        1 <= d <= 32768,
    ensures
        257 <= length_symbol(len) <= 285,
        0 <= dist_symbol(d) < 30,
{
    if d >= 5 {
        let n = (d - 1) as nat;
        let l = floor_log2(n);
        lemma_floor_log2_bounds(n);
        if l > 14 {
            lemma_two_pow_monotone(15, l);
            lemma_two_pow_14();
            assert(two_pow(15) == 2 * two_pow(14));
        }
        if l < 2 {
            reveal_with_fuel(two_pow, 3);
            assert(two_pow(l) <= 2);
        }
        lemma_two_pow_positive((l - 1) as nat);
    }
}

/// Gets the symbol for the given length, as per the DEFLATE spec.
pub fn get_length_symbol(length: usize) -> (r: usize)
    requires
        3 <= length <= 258,
    ensures
        r as int == length_symbol(length as int),
        257 <= r <= 285,
        length_base(r as int) <= length < length_base(r + 1),
{
    proof {
        lemma_length_table(length as int);
    }
    if length <= 10 {
        length + 254
    } else if length <= 18 {
        265 + (length - 11) / 2
    } else if length <= 34 {
        269 + (length - 19) / 4
    } else if length <= 66 {
        273 + (length - 35) / 8
    } else if length <= 130 {
        277 + (length - 67) / 16
    } else if length <= 257 {
        281 + (length - 131) / 32
    } else {
        285
    }
}

/// Gets the amount of extra bits for the given length, as per the DEFLATE spec.
pub fn get_length_extra_bits(length: usize) -> (r: usize)
    requires
        3 <= length <= 258,
    ensures
        r as int == length_extra_bits(length as int),
        r as int == length_symbol_extra_bits(length_symbol(length as int)),
        r <= 5,
{
    if length <= 10 || length == 258 {
        0
    } else if length <= 18 {
        1
    } else if length <= 34 {
        2
    } else if length <= 66 {
        3
    } else if length <= 130 {
        4
    } else {
        5
    }
}

/// Gets value of the extra bits for the given length, as per the DEFLATE spec.
pub fn get_length_extra_bits_value(length: usize) -> (r: usize)
    requires
        3 <= length <= 258,
    ensures
        r as int == length_extra_value(length as int),
        r as int == length - length_base(length_symbol(length as int)),
        r < two_pow(length_extra_bits(length as int) as nat),
{
    proof {
        lemma_length_table(length as int);
    }
    reveal_with_fuel(two_pow, 6);
    if length <= 10 || length == 258 {
        0
    } else if length <= 18 {
        (length - 11) % 2
    } else if length <= 34 {
        (length - 19) % 4
    } else if length <= 66 {
        (length - 35) % 8
    } else if length <= 130 {
        (length - 67) % 16
    } else {
        (length - 131) % 32
    }
}

/// Gets the amount of extra bits for the given length symbol.
pub fn get_length_symbol_extra_bits(symbol: usize) -> (r: usize)
    requires
        257 <= symbol <= 285,
    ensures
        r as int == length_symbol_extra_bits(symbol as int),
        r <= 5,
{
    if symbol < 265 || symbol == 285 {
        0
    } else {
        (symbol - 261) / 4
    }
}

/// Gets the amount of extra bits for the given distance symbol.
pub fn get_dist_symbol_extra_bits(symbol: usize) -> (r: usize)
    requires
        symbol < 30,
    ensures
        r as int == dist_symbol_extra_bits(symbol as int),
        r <= 13,
{
    if symbol < 4 {
        0
    } else {
        symbol / 2 - 1
    }
}

/// Splits `d - 1` (for `d` in `5..=32768`) into `l = ⌊log2 (d - 1)⌋` and `2^(l - 1)`.
fn dist_log2(dist: usize) -> (r: (usize, usize))
    requires
        5 <= dist <= 32768,
    ensures
        r.0 as nat == floor_log2((dist - 1) as nat),
        2 <= r.0 <= 14,
        r.1 as nat == two_pow((r.0 - 1) as nat),
        2 * r.1 <= dist - 1 < 4 * r.1,
{
    let n: usize = dist - 1;
    let mut x: usize = n;
    let mut l: usize = 0;
    let mut pw: usize = 1;
    while x >= 2
        invariant
            1 <= x <= n,
            n == dist - 1,
            5 <= dist <= 32768,
            l <= 15,
            pw as nat == two_pow(l as nat),
            1 <= pw <= n,
            x as int == n as int / pw as int,
            floor_log2(n as nat) == l + floor_log2(x as nat),
        decreases x,
    {
        proof {
            vstd::arithmetic::div_mod::lemma_div_denominator(n as int, pw as int, 2);
            assert(pw * 2 <= n) by {
                vstd::arithmetic::div_mod::lemma_fundamental_div_mod(n as int, pw as int);
                vstd::arithmetic::div_mod::lemma_mod_pos_bound(n as int, pw as int);
                assert((n as int / pw as int) * pw >= 2 * pw) by (nonlinear_arith)
                    requires n as int / pw as int >= 2, pw >= 1;
            }
        }
        x = x / 2;
        l = l + 1;
        pw = pw * 2;
        assert(two_pow(l as nat) == 2 * two_pow((l - 1) as nat));
        proof {
            if l > 14 {
                lemma_two_pow_monotone(15, l as nat);
                lemma_two_pow_14();
                assert(two_pow(15) == 2 * two_pow(14));
            }
        }
    }
    proof {
        lemma_floor_log2_bounds(n as nat);
        assert(floor_log2(x as nat) == 0);
        reveal_with_fuel(two_pow, 3);
        if l < 2 {
            assert(two_pow(l as nat) <= 2);
        }
        if l > 14 {
            assert(two_pow(l as nat) == 2 * two_pow((l - 1) as nat));
            lemma_two_pow_monotone(14, (l - 1) as nat);
            lemma_two_pow_14();
        }
    }
    assert(two_pow(l as nat) == 2 * two_pow((l - 1) as nat));
    (l, pw / 2)
}

/// `2^a <= 2^b` when `a <= b`.
pub proof fn lemma_two_pow_monotone(a: nat, b: nat)
    requires
        a <= b,
    ensures
        two_pow(a) <= two_pow(b),
    decreases b,
{
    if a < b {
        lemma_two_pow_monotone(a, (b - 1) as nat);
        lemma_two_pow_positive((b - 1) as nat);
    }
}

proof fn lemma_two_pow_14()
    ensures
        two_pow(14) == 16384,
{
    reveal_with_fuel(two_pow, 15);
}

/// Gets the symbol for the given dist, as per the DEFLATE spec.
pub fn get_dist_symbol(dist: usize) -> (r: usize)
    requires
        1 <= dist <= 32768,
    ensures
        r as int == dist_symbol(dist as int),
        r < 30,
{
    if dist < 5 {
        dist - 1
    } else {
        let (l, half) = dist_log2(dist);
        2 * l + ((dist - 1) / half) % 2
    }
}

/// Gets the amount of extra bits for the given dist, as per the DEFLATE spec.
pub fn get_dist_extra_bits(dist: usize) -> (r: usize)
    requires
        1 <= dist <= 32768,
    ensures
        r as int == dist_extra_bits(dist as int),
        r as int == dist_symbol_extra_bits(dist_symbol(dist as int)),
        r <= 13,
{
    if dist < 5 {
        0
    } else {
        let (l, half) = dist_log2(dist);
        assert(dist_symbol(dist as int) / 2 == l);
        l - 1
    }
}

/// Gets value of the extra bits for the given dist, as per the DEFLATE spec.
pub fn get_dist_extra_bits_value(dist: usize) -> (r: usize)
    requires
        1 <= dist <= 32768,
    ensures
        r as int == dist_extra_value(dist as int),
        r < two_pow(dist_extra_bits(dist as int) as nat),
{
    if dist < 5 {
        proof {
            reveal_with_fuel(two_pow, 1);
        }
        0
    } else {
        let (l, half) = dist_log2(dist);
        (dist - 1) % half
    }
}

} // verus!
