//! The discriminant of a class group and what is derived from it once.
use crate::mpz::Mpz;
use vstd::arithmetic::power::pow;
use vstd::prelude::*;

verus! {

/// A negative discriminant `d == 1 (mod 4)` and `l = floor(|d|^(1/4))`, the
/// bound at which NUCOMP and NUDUPL stop the partial GCD.
pub struct ClassCtx {
    pub d: Mpz,
    pub l: Mpz,
}

impl ClassCtx {
    pub open spec fn wf(&self) -> bool {
        &&& self.d@ < 0
        &&& self.d@ % 4 == 1
        &&& self.l@ >= 0
        &&& pow(self.l@, 4) <= -self.d@ < pow(self.l@ + 1, 4)
    }

    /// The context for `disc`; `None` unless `disc` is negative and `1 mod 4`.
    pub fn from_discriminant(disc: &Mpz) -> (r: Option<ClassCtx>)
        ensures
            r.is_some() <==> disc@ < 0 && disc@ % 4 == 1,
            r.is_some() ==> r.unwrap().wf() && r.unwrap().d@ == disc@,
    {
        let four = Mpz::from_u64(4);
        let mut rem = Mpz::zero();
        rem.fdiv_r(disc, &four);
        if disc.sgn() >= 0 || rem.cmp_si(1) != 0 {
            return None;
        }
        // Precomputation needed for NUDUPL.
        let mut l = Mpz::zero();
        l.abs(disc);
        l.root_mut(4);
        Some(ClassCtx { d: disc.copy(), l })
    }
}

} // verus!
