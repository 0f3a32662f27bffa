//! In-place minimum / maximum updates.
use vstd::prelude::*;

verus! {

/// Replace a value by a smaller (or larger) one, reporting whether it changed.
pub trait ChangeMinMax: Sized + Copy {
    /// The strict order that `chmin` and `chmax` compare by.
    spec fn precedes(self, other: Self) -> bool;

    /// If `rhs` is strictly smaller than `*self`, store it and return `true`.
    fn chmin(&mut self, rhs: Self) -> (changed: bool)
        ensures
            changed == rhs.precedes(*old(self)),
            *final(self) == (if changed { rhs } else { *old(self) }),
    ;

    /// If `rhs` is strictly larger than `*self`, store it and return `true`.
    fn chmax(&mut self, rhs: Self) -> (changed: bool)
        ensures
            changed == old(self).precedes(rhs),
            *final(self) == (if changed { rhs } else { *old(self) }),
    ;
}

impl ChangeMinMax for i32 {
    open spec fn precedes(self, other: Self) -> bool {
        self < other
    }

    fn chmin(&mut self, rhs: Self) -> (changed: bool) {
        let mut ret = false;
        if *self > rhs {
            *self = rhs;
            ret = true;
        }
        ret
    }

    fn chmax(&mut self, rhs: Self) -> (changed: bool) {
        let mut ret = false;
        if *self < rhs {
            *self = rhs;
            ret = true;
        }
        ret
    }
}

impl ChangeMinMax for i64 {
    open spec fn precedes(self, other: Self) -> bool {
        self < other
    }

    fn chmin(&mut self, rhs: Self) -> (changed: bool) {
        let mut ret = false;
        if *self > rhs {
            *self = rhs;
            ret = true;
        }
        ret
    }

    fn chmax(&mut self, rhs: Self) -> (changed: bool) {
        let mut ret = false;
        if *self < rhs {
            *self = rhs;
            ret = true;
        }
        ret
    }
}

impl ChangeMinMax for u32 {
    open spec fn precedes(self, other: Self) -> bool {
        self < other
    }

    fn chmin(&mut self, rhs: Self) -> (changed: bool) {
        let mut ret = false;
        if *self > rhs {
            *self = rhs;
            ret = true;
        }
        ret
    }

    fn chmax(&mut self, rhs: Self) -> (changed: bool) {
        let mut ret = false;
        if *self < rhs {
            *self = rhs;
            ret = true;
        }
        ret
    }
}

impl ChangeMinMax for u64 {
    open spec fn precedes(self, other: Self) -> bool {
        self < other
    }

    fn chmin(&mut self, rhs: Self) -> (changed: bool) {
        let mut ret = false;
        if *self > rhs {
            *self = rhs;
            ret = true;
        }
        ret
    }

    fn chmax(&mut self, rhs: Self) -> (changed: bool) {
        let mut ret = false;
        if *self < rhs {
            *self = rhs;
            ret = true;
        }
        ret
    }
}

impl ChangeMinMax for usize {
    open spec fn precedes(self, other: Self) -> bool {
        self < other
    }

    fn chmin(&mut self, rhs: Self) -> (changed: bool) {
        let mut ret = false;
        if *self > rhs {
            *self = rhs;
            ret = true;
        }
        ret
    }

    fn chmax(&mut self, rhs: Self) -> (changed: bool) {
        let mut ret = false;
        if *self < rhs {
            *self = rhs;
            ret = true;
        }
        ret
    }
}

impl ChangeMinMax for i8 {
    open spec fn precedes(self, other: Self) -> bool {
        self < other
    }

    fn chmin(&mut self, rhs: Self) -> (changed: bool) {
        let mut ret = false;
        if *self > rhs {
            *self = rhs;
            ret = true;
        }
        ret
    }

    fn chmax(&mut self, rhs: Self) -> (changed: bool) {
        let mut ret = false;
        if *self < rhs {
            *self = rhs;
            ret = true;
        }
        ret
    }
}

impl ChangeMinMax for i16 {
    open spec fn precedes(self, other: Self) -> bool {
        self < other
    }

    fn chmin(&mut self, rhs: Self) -> (changed: bool) {
        let mut ret = false;
        if *self > rhs {
            *self = rhs;
            ret = true;
        }
        ret
    }

    fn chmax(&mut self, rhs: Self) -> (changed: bool) {
        let mut ret = false;
        if *self < rhs {
            *self = rhs;
            ret = true;
        }
        ret
    }
}

impl ChangeMinMax for i128 {
    open spec fn precedes(self, other: Self) -> bool {
        self < other
    }

    fn chmin(&mut self, rhs: Self) -> (changed: bool) {
        let mut ret = false;
        if *self > rhs {
            *self = rhs;
            ret = true;
        }
        ret
    }

    fn chmax(&mut self, rhs: Self) -> (changed: bool) {
        let mut ret = false;
        if *self < rhs {
            *self = rhs;
            ret = true;
        }
        ret
    }
}

impl ChangeMinMax for isize {
    open spec fn precedes(self, other: Self) -> bool {
        self < other
    }

    fn chmin(&mut self, rhs: Self) -> (changed: bool) {
        let mut ret = false;
        if *self > rhs {
            *self = rhs;
            ret = true;
        }
        ret
    }

    fn chmax(&mut self, rhs: Self) -> (changed: bool) {
        let mut ret = false;
        if *self < rhs {
            *self = rhs;
            ret = true;
        }
        ret
    }
}

impl ChangeMinMax for u8 {
    open spec fn precedes(self, other: Self) -> bool {
        self < other
    }

    fn chmin(&mut self, rhs: Self) -> (changed: bool) {
        let mut ret = false;
        if *self > rhs {
            *self = rhs;
            ret = true;
        }
        ret
    }

    fn chmax(&mut self, rhs: Self) -> (changed: bool) {
        let mut ret = false;
        if *self < rhs {
            *self = rhs;
            ret = true;
        }
        ret
    }
}

impl ChangeMinMax for u16 {
    open spec fn precedes(self, other: Self) -> bool {
        self < other
    }

    fn chmin(&mut self, rhs: Self) -> (changed: bool) {
        let mut ret = false;
        if *self > rhs {
            *self = rhs;
            ret = true;
        }
        ret
    }

    fn chmax(&mut self, rhs: Self) -> (changed: bool) {
        let mut ret = false;
        if *self < rhs {
            *self = rhs;
            ret = true;
        }
        ret
    }
}

impl ChangeMinMax for u128 {
    open spec fn precedes(self, other: Self) -> bool {
        self < other
    }

    fn chmin(&mut self, rhs: Self) -> (changed: bool) {
        let mut ret = false;
        if *self > rhs {
            *self = rhs;
            ret = true;
        }
        ret
    }

    fn chmax(&mut self, rhs: Self) -> (changed: bool) {
        let mut ret = false;
        if *self < rhs {
            *self = rhs;
            ret = true;
        }
        ret
    }
}

} // verus!
