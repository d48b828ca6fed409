//! Time-control classification into six ordered speed categories.
use vstd::prelude::*;
use crate::text::{parse_u64, same_bytes, unsigned_value};

verus! {

/// Speed categories, fastest first. Their ordinal is the stored code.
#[derive(Debug, Clone, Copy, PartialEq, Eq, Structural)]
pub enum Speed {
    UltraBullet,
    Bullet,
    Blitz,
    Rapid,
    Classical,
    Correspondence,
}

/// The category of a game whose estimated duration is `total` seconds.
pub open spec fn speed_of_total(total: int) -> Speed {
    if total < 30 {
        Speed::UltraBullet
    } else if total < 180 {
        Speed::Bullet
    } else if total < 480 {
        Speed::Blitz
    } else if total < 1500 {
        Speed::Rapid
    } else if total < 21600 {
        Speed::Classical
    } else {
        Speed::Correspondence
    }
}

/// Estimated duration: the base time plus forty increments.
pub open spec fn clock_total(seconds: int, increment: int) -> int {
    seconds + 40 * increment
}

/// `i` is the position of the first `+` in `b`.
pub open spec fn first_plus_at(b: Seq<u8>, i: int) -> bool {
    0 <= i < b.len() && b[i] == 43 && forall|j: int| 0 <= j < i ==> b[j] != 43
}

/// What a clock specification classifies as: `-` means no clock, otherwise
/// `<base>+<increment>` in whole seconds; anything else is malformed.
pub open spec fn clock_speed(b: Seq<u8>) -> Option<Speed> {
    if b == seq![45u8] {
        Some(Speed::Correspondence)
    } else if exists|i: int| first_plus_at(b, i) {
        let i = choose|i: int| first_plus_at(b, i);
        let base = unsigned_value(b.take(i), u64::MAX as int);
        let inc = unsigned_value(b.skip(i + 1), u64::MAX as int);
        if base is Some && inc is Some {
            Some(speed_of_total(clock_total(base->0, inc->0)))
        } else {
            None
        }
    } else {
        None
    }
}

impl Speed {
    pub open spec fn ordinal(self) -> int {
        match self {
            Speed::UltraBullet => 0,
            Speed::Bullet => 1,
            Speed::Blitz => 2,
            Speed::Rapid => 3,
            Speed::Classical => 4,
            Speed::Correspondence => 5,
        }
    }

    /// The stored integer code of this category.
    pub fn code(&self) -> (r: u8)
        ensures
            r == self.ordinal(),
    {
        match self {
            Speed::UltraBullet => 0,
            Speed::Bullet => 1,
            Speed::Blitz => 2,
            Speed::Rapid => 3,
            Speed::Classical => 4,
            Speed::Correspondence => 5,
        }
    }

    pub fn from_seconds_and_increment(seconds: u64, increment: u64) -> (r: Speed)
        ensures
            r == speed_of_total(clock_total(seconds as int, increment as int)),
    {
        let total: u128 = seconds as u128 + 40 * (increment as u128);
        if total < 30 {
            Speed::UltraBullet
        } else if total < 180 {
            Speed::Bullet
        } else if total < 480 {
            Speed::Blitz
        } else if total < 1500 {
            Speed::Rapid
        } else if total < 21_600 {
            Speed::Classical
        } else {
            Speed::Correspondence
        }
    }

    /// Classifies a raw clock specification; `Err` when it is malformed.
    pub fn from_bytes(bytes: &[u8]) -> (r: Result<Speed, ()>)
        ensures
            r matches Ok(s) ==> clock_speed(bytes@) == Some(s),
            r is Err ==> clock_speed(bytes@) is None,
    {
        let dash: Vec<u8> = vec![45u8];
        assert(dash@ =~= seq![45u8]);
        if same_bytes(bytes, dash.as_slice()) {
            assert(bytes@ =~= seq![45u8]);
            return Ok(Speed::Correspondence);
        }
        assert(bytes@ != seq![45u8]);
        let mut i: usize = 0;
        while i < bytes.len() && bytes[i] != 43u8
            invariant
                i <= bytes@.len(),
                forall|j: int| 0 <= j < i ==> bytes@[j] != 43,
            decreases bytes@.len() - i,
        {
            i = i + 1;
        }
        if i == bytes.len() {
            assert(!exists|k: int| first_plus_at(bytes@, k));
            return Err(());
        }
        proof {
            assert(first_plus_at(bytes@, i as int));
            let k = choose|k: int| first_plus_at(bytes@, k);
            assert(k == i as int) by {
                if k < i as int {
                    assert(bytes@[k] != 43);
                } else if k > i as int {
                    assert(bytes@[i as int] != 43);
                }
            }
        }
        let head = &bytes[0..i];
        let tail = &bytes[i + 1..bytes.len()];
        assert(head@ =~= bytes@.take(i as int));
        assert(tail@ =~= bytes@.skip(i + 1));
        let seconds = match parse_u64(head) {
            Some(n) => n,
            None => return Err(()),
        };
        let increment = match parse_u64(tail) {
            Some(n) => n,
            None => return Err(()),
        };
        Ok(Speed::from_seconds_and_increment(seconds, increment))
    }

    /// The category with the given stored code.
    pub fn from(u: u8) -> (r: Speed)
        requires
            u < 6,
        ensures
            r.ordinal() == u,
    {
        match u {
            0 => Speed::UltraBullet,
            1 => Speed::Bullet,
            2 => Speed::Blitz,
            3 => Speed::Rapid,
            4 => Speed::Classical,
            _ => Speed::Correspondence,
        }
    }
}

/// The classifier is monotone: a longer estimated duration never gives a
/// faster category.
pub proof fn lemma_classifier_monotone(a: int, b: int)
    requires
        a <= b,
    ensures
        speed_of_total(a).ordinal() <= speed_of_total(b).ordinal(),
{
}

/// Two clocks with the same estimated duration get the same category, and
/// that category is the one of the duration alone.
pub proof fn lemma_classifier_by_total(s1: u64, i1: u64, s2: u64, i2: u64)
    requires
        clock_total(s1 as int, i1 as int) == clock_total(s2 as int, i2 as int),
    ensures
        speed_of_total(clock_total(s1 as int, i1 as int)) == speed_of_total(
            clock_total(s2 as int, i2 as int),
        ),
{
}

} // verus!
