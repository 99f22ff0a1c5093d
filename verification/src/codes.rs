//! Structural facts about six-digit division codes.
//!
//! A code's level is purely structural: county if it is not a multiple of
//! 100, prefecture if it is a multiple of 100 but not of 10000, province
//! otherwise. The synthetic root of the hierarchy is code 0.

use vstd::prelude::*;

verus! {

/// Structural level of a six-digit division code.
#[derive(Clone, Copy, Debug, PartialEq, Eq, Structural)]
pub enum Level {
    Province,
    Prefecture,
    County,
}

/// Structural parent of a code: a county truncates to its prefecture, a
/// prefecture to its province, and a province to the synthetic root 0.
pub open spec fn spec_parent(code: u32) -> u32 {
    if code % 100 != 0 {
        ((code / 100) * 100) as u32
    } else if code % 10000 != 0 {
        ((code / 10000) * 10000) as u32
    } else {
        0
    }
}

/// Structural parent of a code, by truncation of its trailing digits.
pub fn parent(code: u32) -> (r: u32)
    ensures
        r == spec_parent(code),
{
    if code % 100 != 0 {
        code / 100 * 100
    } else if code % 10000 != 0 {
        code / 10000 * 10000
    } else {
        0
    }
}

/// A structural parent never exceeds its child.
pub proof fn lemma_parent_le(c: u32)
    ensures
        spec_parent(c) <= c,
{
    if c % 100 != 0 {
        assert((c as int / 100) * 100 <= c as int) by (nonlinear_arith);
    } else if c % 10000 != 0 {
        assert((c as int / 10000) * 10000 <= c as int) by (nonlinear_arith);
    }
}

/// Hierarchical distance between two codes: 1 when they share the
/// prefecture prefix, 2 when they share only the province prefix, 3 when
/// they are unrelated.
pub open spec fn spec_code_dist(a: u32, b: u32) -> u32 {
    if a / 100 == b / 100 {
        1
    } else if a / 10000 == b / 10000 {
        2
    } else {
        3
    }
}

/// Hierarchical distance between two codes; see [`spec_code_dist`].
pub fn code_dist(a: u32, b: u32) -> (r: u32)
    ensures
        r == spec_code_dist(a, b),
{
    if a / 100 == b / 100 {
        1
    } else if a / 10000 == b / 10000 {
        2
    } else {
        3
    }
}

impl Level {
    /// The level a code belongs to, decided by its trailing zero digits.
    pub open spec fn spec_from_code(code: u32) -> Level {
        if code % 100 != 0 {
            Level::County
        } else if code % 10000 != 0 {
            Level::Prefecture
        } else {
            Level::Province
        }
    }

    /// The level a code belongs to; see [`Level::spec_from_code`].
    pub fn from_code(code: u32) -> (r: Level)
        ensures
            r == Level::spec_from_code(code),
    {
        if code % 100 != 0 {
            Level::County
        } else if code % 10000 != 0 {
            Level::Prefecture
        } else {
            Level::Province
        }
    }

    /// Human-readable description of a level.
    pub open spec fn spec_desc(self) -> Seq<char> {
        match self {
            Level::Province => "省级"@,
            Level::Prefecture => "地级"@,
            Level::County => "县级"@,
        }
    }

    /// Human-readable description of a level; see [`Level::spec_desc`].
    pub fn desc(&self) -> (r: &'static str)
        ensures
            r@ == self.spec_desc(),
    {
        match self {
            Level::Province => "省级",
            Level::Prefecture => "地级",
            Level::County => "县级",
        }
    }
}

} // verus!
