//! How often each of the two shapes of an overlay covers a place.

use vstd::prelude::*;

verus! {

/// Winding counts of the subject shape and of the clip shape.
#[derive(Debug, Clone, Copy, PartialEq, Eq, Structural)]
pub struct ShapeCountBoolean {
    pub subj: i32,
    pub clip: i32,
}

impl ShapeCountBoolean {
    /// The sum of the counts fits.
    pub open spec fn can_add(self, count: Self) -> bool {
        &&& i32::MIN <= self.subj + count.subj <= i32::MAX
        &&& i32::MIN <= self.clip + count.clip <= i32::MAX
    }

    /// One turn of the subject shape.
    pub fn subj_direct() -> (count: Self)
        ensures
            count.subj == 1,
            count.clip == 0,
    {
        Self { subj: 1, clip: 0 }
    }

    /// One turn of the subject shape the other way round.
    pub fn subj_invert() -> (count: Self)
        ensures
            count.subj == -1,
            count.clip == 0,
    {
        Self { subj: -1, clip: 0 }
    }

    /// One turn of the clip shape.
    pub fn clip_direct() -> (count: Self)
        ensures
            count.subj == 0,
            count.clip == 1,
    {
        Self { subj: 0, clip: 1 }
    }

    /// One turn of the clip shape the other way round.
    pub fn clip_invert() -> (count: Self)
        ensures
            count.subj == 0,
            count.clip == -1,
    {
        Self { subj: 0, clip: -1 }
    }

    /// The counts as given.
    pub fn new(subj: i32, clip: i32) -> (count: Self)
        ensures
            count.subj == subj,
            count.clip == clip,
    {
        Self { subj, clip }
    }

    /// The sum of two counts, shape by shape.
    pub fn add(self, count: Self) -> (sum: Self)
        requires
            self.can_add(count),
        ensures
            sum.subj == self.subj + count.subj,
            sum.clip == self.clip + count.clip,
    {
        let subj = self.subj + count.subj;
        let clip = self.clip + count.clip;

        Self { subj, clip }
    }

    /// Adds `count` to this count, shape by shape.
    pub fn apply(&mut self, count: Self)
        requires
            old(self).can_add(count),
        ensures
            final(self).subj == old(self).subj + count.subj,
            final(self).clip == old(self).clip + count.clip,
    {
        self.subj = self.subj + count.subj;
        self.clip = self.clip + count.clip;
    }

    /// The counts of the same turns taken the other way round.
    pub fn invert(self) -> (inverse: Self)
        requires
            self.subj != i32::MIN,
            self.clip != i32::MIN,
        ensures
            inverse.subj == -self.subj,
            inverse.clip == -self.clip,
    {
        Self { subj: -self.subj, clip: -self.clip }
    }
}

} // verus!
