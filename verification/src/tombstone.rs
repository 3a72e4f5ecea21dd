//! Generation-tagged slots: a slot either holds a live value or marks a
//! freed position that links to the next free one.

use vstd::prelude::*;

verus! {

pub type Generation = usize;

/// One slot of an index-stable table.
#[derive(Debug)]
pub enum TombStone<T> {
    /// A live value with the generation it was stored under.
    T(Generation, T),
    /// A freed slot: its generation and the next free slot, if any.
    TombStone(Generation, Option<usize>),
}

impl<T> TombStone<T> {
    /// Whether the slot holds a value.
    pub open spec fn is_live(&self) -> bool {
        self is T
    }

    /// The generation counter of the slot, live or not.
    pub open spec fn gen(&self) -> Generation {
        match *self {
            TombStone::T(g, _) => g,
            TombStone::TombStone(g, _) => g,
        }
    }

    /// The value of a live slot.
    pub open spec fn live_value(&self) -> T
        recommends
            self.is_live(),
    {
        self->T_1
    }

    /// The free-list link of a freed slot.
    pub open spec fn next_free(&self) -> Option<usize>
        recommends
            !self.is_live(),
    {
        self->TombStone_1
    }

    /// A live slot.
    pub fn new(gen: Generation, t: T) -> (r: Self)
        ensures
            r == TombStone::T(gen, t),
    {
        TombStone::T(gen, t)
    }

    /// The slot's generation.
    pub fn generation(&self) -> (r: &usize)
        ensures
            *r == self.gen(),
    {
        match self {
            TombStone::T(gen, _) => gen,
            TombStone::TombStone(gen, _) => gen,
        }
    }

    /// Write access to the slot's generation; nothing else changes.
    pub fn generation_mut(&mut self) -> (r: &mut usize)
        ensures
            *r == old(self).gen(),
            final(self).gen() == *final(r),
            final(self).is_live() == old(self).is_live(),
            old(self).is_live() ==> final(self).live_value() == old(self).live_value(),
            !old(self).is_live() ==> final(self).next_free() == old(self).next_free(),
    {
        match self {
            TombStone::T(gen, _) => gen,
            TombStone::TombStone(gen, _) => gen,
        }
    }

    /// The free-list link of a freed slot.
    pub fn tombstone_idx_exn(&self) -> (r: Option<usize>)
        requires
            !self.is_live(),
        ensures
            r == self.next_free(),
    {
        match self {
            TombStone::TombStone(_, idx) => *idx,
            TombStone::T(_, _) => None,
        }
    }

    /// The value, if the slot is live.
    pub fn value(&self) -> (r: Option<&T>)
        ensures
            r.is_some() == self.is_live(),
            self.is_live() ==> *r.unwrap() == self.live_value(),
    {
        match self {
            TombStone::T(_, t) => Some(t),
            TombStone::TombStone(_, _) => None,
        }
    }

    /// Write access to the value, if the slot is live; a freed slot is
    /// left as it is.
    pub fn value_mut(&mut self) -> (r: Option<&mut T>)
        ensures
            r.is_some() == old(self).is_live(),
            old(self).is_live() ==> *r.unwrap() == old(self).live_value(),
            old(self).is_live() ==> *final(self) == TombStone::T(
                old(self).gen(),
                *final(r.unwrap()),
            ),
            !old(self).is_live() ==> *final(self) == *old(self),
    {
        match self {
            TombStone::T(_, t) => Some(t),
            TombStone::TombStone(_, _) => None,
        }
    }

    /// The value of a live slot.
    pub fn value_exn(&self) -> (r: &T)
        requires
            self.is_live(),
        ensures
            *r == self.live_value(),
    {
        match self {
            TombStone::T(_, t) => t,
            TombStone::TombStone(_, _) => vstd::pervasive::unreached(),
        }
    }

    /// Write access to the value of a live slot.
    pub fn value_mut_exn(&mut self) -> (r: &mut T)
        requires
            old(self).is_live(),
        ensures
            *r == old(self).live_value(),
            *final(self) == TombStone::T(old(self).gen(), *final(r)),
    {
        match self {
            TombStone::T(_, t) => t,
            TombStone::TombStone(_, _) => vstd::pervasive::unreached(),
        }
    }
}

} // verus!
