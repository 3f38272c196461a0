use vstd::prelude::*;

verus! {

/// Generator of the Luby restart sequence 1, 1, 2, 1, 1, 2, 4, 1, ...
#[derive(Clone, Copy)]
pub struct Luby {
    un: u64,
    vn: u64,
}

/// One step of the state `(un, vn)`: when the lowest set bit of `un` equals
/// `vn` the next block starts (`un + 1`, `vn = 1`); otherwise `vn` doubles.
pub open spec fn luby_step(un: u64, vn: u64) -> (u64, u64) {
    if (un & 0u64.wrapping_sub(un)) == vn {
        (un.wrapping_add(1), 1)
    } else {
        (un, (vn << 1u64) as u64)
    }
}

impl Luby {
    /// Index of the current block.
    pub closed spec fn un_spec(&self) -> u64 {
        self.un
    }

    /// The term that `next` returns now.
    pub closed spec fn vn_spec(&self) -> u64 {
        self.vn
    }

    pub fn new() -> (r: Luby)
        ensures
            r.un_spec() == 1,
            r.vn_spec() == 1,
    {
        Luby { un: 1, vn: 1 }
    }

    /// Returns the current term and advances the state by `luby_step`.
    pub fn next(&mut self) -> (r: u64)
        ensures
            r == old(self).vn_spec(),
            (final(self).un_spec(), final(self).vn_spec()) == luby_step(old(self).un_spec(), old(self).vn_spec()),
    {
        let v = self.vn;
        if (self.un & 0u64.wrapping_sub(self.un)) == self.vn {
            self.un = self.un.wrapping_add(1);
            self.vn = 1;
        } else {
            self.vn = self.vn << 1u64;
        }
        v
    }
}

impl Default for Luby {
    fn default() -> (r: Luby)
        ensures
            r.un_spec() == 1,
            r.vn_spec() == 1,
    {
        Luby::new()
    }
}

} // verus!
