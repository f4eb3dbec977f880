//! Tracked directories: scoring with time decay, validity, and query matching.
//!
//! A rank is a floating-point weight. It is held here by its IEEE-754 bit
//! pattern (`f64::to_bits`), the form in which it is also stored on disk.
//! Scores are computed on those bits: scaling by a power of two moves the
//! exponent field of a normal value and shifts the significand of a
//! subnormal one, with the rounding of IEEE-754 multiplication.

use vstd::prelude::*;

use crate::matcher::{path_matches, path_matches_keywords, views_of};

verus! {

/// Seconds in an hour.
pub const HOUR: i64 = 3600;

/// Seconds in a day.
pub const DAY: i64 = 86400;

/// Seconds in a week.
pub const WEEK: i64 = 604800;

/// Bits of the `f64` value 1.0: the least valid rank.
pub const RANK_ONE_BITS: u64 = 0x3FF0_0000_0000_0000;

/// Bits of `f64` positive infinity.
pub const INFINITY_BITS: u64 = 0x7FF0_0000_0000_0000;

/// One unit of the `f64` exponent field: doubling a normal value adds this to its bits.
pub const EXPONENT_STEP: u64 = 0x0010_0000_0000_0000;

/// Bits of the `f64` value 9999.0: the largest score that is displayed.
pub const SCORE_MAX_BITS: u64 = 0x40C3_8780_0000_0000;

/// Bits of the sign of an `f64`.
pub const SIGN_BIT: u64 = 0x8000_0000_0000_0000;

/// A rank is valid when it is finite and at least 1.0.
pub open spec fn rank_is_valid(bits: u64) -> bool {
    RANK_ONE_BITS <= bits < INFINITY_BITS
}

/// The power of two that a score decays by, after `elapsed` seconds.
pub open spec fn decay_exponent(elapsed: int) -> int {
    if elapsed < HOUR {
        2
    } else if elapsed < DAY {
        1
    } else if elapsed < WEEK {
        -1
    } else {
        -2
    }
}

/// `q`, plus one where the remainder `r` is over half the divisor, or is
/// exactly half and `q` is odd: rounding to nearest, ties to even.
pub open spec fn round_half_even(q: int, r: int, half: int) -> int {
    if r > half || (r == half && q % 2 == 1) {
        q + 1
    } else {
        q
    }
}

/// The bits of the magnitude `a` (sign clear) of an `f64`, scaled by `2^e`
/// for `e` one of 2, 1, -1, -2, as IEEE-754 multiplication rounds it.
/// The exponent field is `a / EXPONENT_STEP`. Infinity and NaN are kept;
/// a normal value moves its exponent, overflowing to infinity; a value that
/// is or becomes subnormal shifts its significand, rounding to even. Below
/// the normal range the bits of a value are its count of the least
/// subnormal, which carries over into the exponent field unchanged.
pub open spec fn scaled_magnitude(a: int, e: int) -> int {
    let ex = a / EXPONENT_STEP as int;
    let m = a % EXPONENT_STEP as int;
    if ex == 0x7FF {
        a
    } else if e == 2 {
        if ex == 0 {
            if 4 * m < 2 * EXPONENT_STEP {
                4 * m
            } else {
                2 * m + EXPONENT_STEP
            }
        } else if ex + 2 > 0x7FE {
            INFINITY_BITS as int
        } else {
            a + 2 * EXPONENT_STEP
        }
    } else if e == 1 {
        if ex == 0 {
            2 * m
        } else if ex + 1 > 0x7FE {
            INFINITY_BITS as int
        } else {
            a + EXPONENT_STEP
        }
    } else if e == -1 {
        if ex > 1 {
            a - EXPONENT_STEP
        } else {
            round_half_even(a / 2, a % 2, 1)
        }
    } else {
        if ex > 2 {
            a - 2 * EXPONENT_STEP
        } else if ex == 2 {
            round_half_even((a - EXPONENT_STEP) / 2, (a - EXPONENT_STEP) % 2, 1)
        } else {
            round_half_even(a / 4, a % 4, 2)
        }
    }
}

/// The bits of the `f64` with bits `bits` times `2^e`: the sign is kept and
/// the magnitude scaled.
pub open spec fn scaled_bits(bits: u64, e: int) -> u64 {
    if bits >= SIGN_BIT {
        (SIGN_BIT + scaled_magnitude(bits - SIGN_BIT, e)) as u64
    } else {
        scaled_magnitude(bits as int, e) as u64
    }
}

/// The score of a rank last accessed at `last`, seen at `now`, as `f64` bits.
pub open spec fn score_spec(rank_bits: u64, last: i64, now: i64) -> u64 {
    scaled_bits(rank_bits, decay_exponent(now - last))
}

/// A key whose unsigned order is the total order of `f64` values: negative
/// values below positive ones, -0.0 just below +0.0, NaNs at both ends by
/// their sign.
pub open spec fn order_key(bits: u64) -> u64 {
    if bits >= SIGN_BIT {
        (u64::MAX - bits) as u64
    } else {
        (bits + SIGN_BIT) as u64
    }
}

/// A score clamped to the displayed range `[0, 9999]`; NaN and negative
/// scores show as 0.
pub open spec fn clamp_score(bits: u64) -> u64 {
    if bits >= SIGN_BIT || bits > INFINITY_BITS {
        0
    } else if bits > SCORE_MAX_BITS {
        SCORE_MAX_BITS
    } else {
        bits
    }
}

/// An `f64` that is not negative: +0.0 up to +infinity, or -0.0.
pub open spec fn is_non_negative(bits: u64) -> bool {
    bits <= INFINITY_BITS || bits == SIGN_BIT
}

proof fn lemma_scaled_magnitude_monotone(a: int)
    requires
        0 <= a <= INFINITY_BITS,
    ensures
        scaled_magnitude(a, 2) >= scaled_magnitude(a, 1),
        scaled_magnitude(a, 1) >= scaled_magnitude(a, -1),
        scaled_magnitude(a, -1) >= scaled_magnitude(a, -2),
        0 <= scaled_magnitude(a, -2),
        scaled_magnitude(a, 2) <= INFINITY_BITS,
{
}

/// A score that is not negative never grows as time passes.
pub proof fn lemma_score_monotone(rank_bits: u64, last: i64, now1: i64, now2: i64)
    requires
        is_non_negative(rank_bits),
        now1 <= now2,
    ensures
        order_key(score_spec(rank_bits, last, now1)) >= order_key(score_spec(rank_bits, last, now2)),
{
    if rank_bits != SIGN_BIT {
        lemma_scaled_magnitude_monotone(rank_bits as int);
    }
}

/// One tracked directory.
#[derive(Debug, Clone, PartialEq, Eq)]
pub struct Dir {
    pub path: String,
    /// The rank, as the bits of an `f64`.
    pub rank_bits: u64,
    /// Seconds since the epoch of the last visit.
    pub last_accessed: i64,
}

impl View for Dir {
    type V = (Seq<char>, u64, i64);

    open spec fn view(&self) -> (Seq<char>, u64, i64) {
        (self.path@, self.rank_bits, self.last_accessed)
    }
}

/// The path of a directory, ready to print.
pub struct DirDisplay {
    pub path: String,
}

/// The clamped score and path of a directory, ready to print.
pub struct DirScoreDisplay {
    pub path: String,
    /// The clamped score as the bits of an `f64`.
    pub score_bits: u64,
}

impl DirDisplay {
    pub fn text(&self) -> (r: String)
        ensures
            r@ == self.path@,
    {
        self.path.clone()
    }
}

/// Relies on `std::path::Path::is_dir`: whether the path names a directory
/// on disk now. Nothing is promised: the answer depends on the filesystem.
#[verifier::external_body]
pub(crate) fn is_directory(path: &str) -> bool {
    std::path::Path::new(path).is_dir()
}

/// The magnitude bits `a` scaled by `2^e`.
fn scale_magnitude(a: u64, e: i8) -> (r: u64)
    requires
        a < SIGN_BIT,
        e == 2 || e == 1 || e == -1 || e == -2,
    ensures
        r as int == scaled_magnitude(a as int, e as int),
        r < SIGN_BIT,
{
    let ex = a / EXPONENT_STEP;
    let m = a % EXPONENT_STEP;
    if ex == 0x7FF {
        a
    } else if e == 2 {
        if ex == 0 {
            if 4 * m < 2 * EXPONENT_STEP {
                4 * m
            } else {
                2 * m + EXPONENT_STEP
            }
        } else if ex + 2 > 0x7FE {
            INFINITY_BITS
        } else {
            a + 2 * EXPONENT_STEP
        }
    } else if e == 1 {
        if ex == 0 {
            2 * m
        } else if ex + 1 > 0x7FE {
            INFINITY_BITS
        } else {
            a + EXPONENT_STEP
        }
    } else if e == -1 {
        if ex > 1 {
            a - EXPONENT_STEP
        } else {
            round_even(a / 2, a % 2, 1)
        }
    } else {
        if ex > 2 {
            a - 2 * EXPONENT_STEP
        } else if ex == 2 {
            round_even((a - EXPONENT_STEP) / 2, (a - EXPONENT_STEP) % 2, 1)
        } else {
            round_even(a / 4, a % 4, 2)
        }
    }
}

fn round_even(q: u64, r: u64, half: u64) -> (x: u64)
    requires
        q < u64::MAX,
    ensures
        x as int == round_half_even(q as int, r as int, half as int),
{
    if r > half || (r == half && q % 2 == 1) {
        q + 1
    } else {
        q
    }
}

impl Dir {
    pub fn rank_valid(&self) -> (r: bool)
        ensures
            r == rank_is_valid(self.rank_bits),
    {
        RANK_ONE_BITS <= self.rank_bits && self.rank_bits < INFINITY_BITS
    }

    /// Validity, given whether the path names an existing directory.
    pub fn is_valid_given(&self, on_disk: bool) -> (r: bool)
        ensures
            r == (rank_is_valid(self.rank_bits) && on_disk),
    {
        self.rank_valid() && on_disk
    }

    /// Whether the rank is finite and at least 1.0 and the path names a
    /// directory on disk, checked now.
    pub fn is_valid(&self) -> (r: bool)
        ensures
            r ==> rank_is_valid(self.rank_bits),
    {
        if !self.rank_valid() {
            return false;
        }
        let on_disk = is_directory(self.path.as_str());
        self.is_valid_given(on_disk)
    }

    /// Whether the path matches keywords that are already lower case: the
    /// last keyword lies in the final path segment, and all keywords occur
    /// in the lower-case path in order, without overlap.
    pub fn is_match(&self, query: &[String]) -> (r: bool)
        ensures
            r == path_matches(self.path@, views_of(query@)),
    {
        path_matches_keywords(self.path.as_str(), query)
    }

    /// The power of two that the rank is scaled by at `now`: 2 within an
    /// hour of the last visit, 1 within a day, -1 within a week, else -2.
    /// A last visit in the future counts as within the hour.
    pub fn decay_exponent_at(&self, now: i64) -> (r: i8)
        ensures
            r as int == decay_exponent(now - self.last_accessed),
    {
        let elapsed: i128 = now as i128 - self.last_accessed as i128;
        if elapsed < HOUR as i128 {
            2
        } else if elapsed < DAY as i128 {
            1
        } else if elapsed < WEEK as i128 {
            -1
        } else {
            -2
        }
    }

    /// The decayed score, as `f64` bits: the rank times four within an hour
    /// of the last visit, twice within a day, half within a week, a quarter
    /// after that.
    pub fn get_score(&self, now: i64) -> (r: u64)
        ensures
            r == score_spec(self.rank_bits, self.last_accessed, now),
    {
        let e = self.decay_exponent_at(now);
        let bits = self.rank_bits;
        if bits >= SIGN_BIT {
            SIGN_BIT + scale_magnitude(bits - SIGN_BIT, e)
        } else {
            scale_magnitude(bits, e)
        }
    }

    pub fn display(&self) -> (r: DirDisplay)
        ensures
            r.path@ == self.path@,
    {
        DirDisplay { path: self.path.clone() }
    }

    /// The score at `now`, clamped to `[0, 9999]`, with the path.
    pub fn display_score(&self, now: i64) -> (r: DirScoreDisplay)
        ensures
            r.path@ == self.path@,
            r.score_bits == clamp_score(score_spec(self.rank_bits, self.last_accessed, now)),
    {
        let s = self.get_score(now);
        let score_bits = if s >= SIGN_BIT || s > INFINITY_BITS {
            0
        } else if s > SCORE_MAX_BITS {
            SCORE_MAX_BITS
        } else {
            s
        };
        DirScoreDisplay { path: self.path.clone(), score_bits }
    }
}

} // verus!
