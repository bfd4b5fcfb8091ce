//! Where the height of a new node comes from.

use vstd::prelude::*;

verus! {

/// A source of node heights.
pub trait LevelGenerator {
    /// Whether every level that this generator hands out, now and after any
    /// number of calls, is at least 1. A generator that does not say so
    /// promises nothing.
    open spec fn always_positive(&self) -> bool {
        false
    }

    /// The height for the next node.
    fn generate(&mut self) -> (level: usize)
        ensures
            old(self).always_positive() ==> level >= 1 && final(self).always_positive(),
    ;
}

/// `rand::random` at `u64`: the next value of the thread's generator.
/// Nothing is known of it.
#[verifier::external_body]
fn random_u64() -> u64 {
    rand::random::<u64>()
}

/// Heights drawn by repeated coin flips: a node climbs one more level with
/// probability `threshold / 2^64`, up to `max_level`.
pub struct RandomLevelGenerator {
    max_level: usize,
    threshold: u64,
}

impl RandomLevelGenerator {
    /// The threshold under which a coin flip comes out as often as not.
    pub const HALF: u64 = 0x8000_0000_0000_0000;

    pub closed spec fn spec_max_level(&self) -> usize {
        self.max_level
    }

    pub closed spec fn spec_threshold(&self) -> u64 {
        self.threshold
    }

    pub fn new(max_level: usize, threshold: u64) -> (g: Self)
        ensures
            g.spec_max_level() == max_level,
            g.spec_threshold() == threshold,
    {
        Self { max_level, threshold }
    }

    /// The height that a run of flips gives: one more than the number of
    /// leading flips under the threshold, and `max_level` at most (1 where
    /// `max_level` is 0).
    pub fn level_for(&self, flips: &Vec<u64>) -> (level: usize)
        ensures
            level == climb(flips@, self.spec_threshold(), self.spec_max_level(), 1),
    {
        let mut level: usize = 1;
        let mut i: usize = 0;
        proof {
            assert(flips@.skip(0) =~= flips@);
        }
        while i < flips.len() && flips[i] < self.threshold && level < self.max_level
            invariant
                1 <= level,
                i <= flips.len(),
                climb(flips@, self.threshold, self.max_level, 1) == climb(
                    flips@.skip(i as int),
                    self.threshold,
                    self.max_level,
                    level,
                ),
            decreases flips.len() - i,
        {
            proof {
                assert(flips@.skip(i as int).skip(1) =~= flips@.skip(i + 1));
            }
            level += 1;
            i += 1;
        }
        level
    }
}

/// The height reached from `level` on the flips `flips`: each leading flip
/// under `threshold` adds a level while `level` is under `max_level`.
pub open spec fn climb(flips: Seq<u64>, threshold: u64, max_level: usize, level: usize) -> usize
    decreases flips.len(),
{
    if flips.len() > 0 && flips[0] < threshold && level < max_level {
        climb(flips.skip(1), threshold, max_level, (level + 1) as usize)
    } else {
        level
    }
}

impl LevelGenerator for RandomLevelGenerator {
    open spec fn always_positive(&self) -> bool {
        true
    }

    fn generate(&mut self) -> (level: usize)
        ensures
            exists|flips: Seq<u64>|
                level == #[trigger] climb(
                    flips,
                    old(self).spec_threshold(),
                    old(self).spec_max_level(),
                    1,
                ),
            1 <= level,
            level <= old(self).spec_max_level() || level == 1,
            old(self).spec_threshold() == 0 ==> level == 1,
            final(self).spec_max_level() == old(self).spec_max_level(),
            final(self).spec_threshold() == old(self).spec_threshold(),
    {
        let mut level: usize = 1;
        let ghost mut flips: Seq<u64> = Seq::empty();
        loop
            invariant_except_break
                level == 1 + flips.len(),
                level <= self.max_level || level == 1,
                climbing(flips, self.threshold, self.max_level, 1),
            invariant
                self.max_level == old(self).max_level,
                self.threshold == old(self).threshold,
            ensures
                level == climb(flips, self.threshold, self.max_level, 1),
                1 <= level,
                level <= self.max_level || level == 1,
                self.threshold == 0 ==> level == 1,
            decreases self.max_level - level,
        {
            let flip = random_u64();
            proof {
                lemma_climb(flips, self.threshold, self.max_level, 1, flip);
            }
            if flip < self.threshold && level < self.max_level {
                proof {
                    flips = flips.push(flip);
                }
                level += 1;
            } else {
                proof {
                    flips = flips.push(flip);
                }
                break;
            }
        }
        proof {
            assert(level == climb(
                flips,
                old(self).spec_threshold(),
                old(self).spec_max_level(),
                1,
            ));
        }
        level
    }
}

/// Whether every flip of `flips` adds a level on the way up from `level`:
/// each is under `threshold`, and the level it meets is under `max_level`.
pub open spec fn climbing(flips: Seq<u64>, threshold: u64, max_level: usize, level: usize) -> bool {
    forall|i: int| 0 <= i < flips.len() ==> #[trigger] flips[i] < threshold && level + i < max_level
}

/// A run of flips that all add a level climbs by its length, and one more
/// flip after it adds a level if it is under the threshold and the level
/// reached is under `max_level`, and else ends the climb.
pub proof fn lemma_climb(flips: Seq<u64>, threshold: u64, max_level: usize, level: usize, last: u64)
    requires
        climbing(flips, threshold, max_level, level),
    ensures
        climb(flips, threshold, max_level, level) == level + flips.len(),
        climb(flips.push(last), threshold, max_level, level) == if last < threshold && level
            + flips.len() < max_level {
            level + flips.len() + 1
        } else {
            level + flips.len()
        },
        climbing(flips.push(last), threshold, max_level, level) <==> last < threshold && level
            + flips.len() < max_level,
    decreases flips.len(),
{
    let longer = flips.push(last);
    if flips.len() == 0 {
        assert(longer.skip(1) =~= Seq::<u64>::empty());
        assert(longer[0] == last);
        assert(climb(longer.skip(1), threshold, max_level, (level + 1) as usize) == (level
            + 1) as usize);
    } else {
        let rest = flips.skip(1);
        assert(flips[0] < threshold && level + 0 < max_level);
        assert forall|i: int| 0 <= i < rest.len() implies #[trigger] rest[i] < threshold && (level
            + 1) + i < max_level by {
            assert(rest[i] == flips[i + 1]);
        }
        lemma_climb(rest, threshold, max_level, (level + 1) as usize, last);
        assert(longer.skip(1) =~= rest.push(last));
        assert(longer[0] == flips[0]);
    }
    if last < threshold && level + flips.len() < max_level {
        assert forall|i: int| 0 <= i < longer.len() implies #[trigger] longer[i] < threshold
            && level + i < max_level by {
            if i < flips.len() {
                assert(longer[i] == flips[i]);
            }
        }
    } else {
        assert(longer[flips.len() as int] == last);
    }
}

} // verus!
