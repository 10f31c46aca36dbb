use vstd::prelude::*;

verus! {

/// Bullets a fresh clip holds.
pub const MAX_BULLETS: usize = 5;

/// The player's clip: how many bullets it holds when full and how many are
/// left.
#[derive(Clone, Copy, Debug, PartialEq, Eq, Structural)]
pub struct BulletClip {
    pub max_size: usize,
    pub bullets: usize,
}

impl BulletClip {
    pub fn new(max_size: usize) -> (r: BulletClip)
        ensures
            r == (BulletClip { max_size, bullets: max_size }),
    {
        BulletClip { max_size, bullets: max_size }
    }

    /// Takes one bullet if there is one left; returns whether a shot was fired.
    pub fn try_shoot(&mut self) -> (r: bool)
        ensures
            r == (old(self).bullets > 0),
            final(self).max_size == old(self).max_size,
            final(self).bullets == if r {
                (old(self).bullets - 1) as usize
            } else {
                old(self).bullets
            },
    {
        if self.bullets > 0 {
            self.bullets -= 1;
            true
        } else {
            false
        }
    }

    pub fn reload(&mut self)
        ensures
            *final(self) == (BulletClip { max_size: old(self).max_size, bullets: old(self).max_size }),
    {
        self.bullets = self.max_size;
    }

    pub fn full(&self) -> (r: bool)
        ensures
            r == (self.bullets >= self.max_size),
    {
        self.bullets >= self.max_size
    }
}

} // verus!
