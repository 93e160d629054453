//! The operators `*` and `+` on braids.

use vstd::prelude::*;
use vstd::std_specs::ops::{AddSpecImpl, MulSpecImpl};
use crate::braid::reduce::fully_reduced;
use crate::braid::{append_gens, BrGen, Braid};

verus! {

impl MulSpecImpl for Braid {
    open spec fn obeys_mul_spec() -> bool {
        false
    }

    open spec fn mul_req(self, rhs: Braid) -> bool {
        self.n == rhs.n
    }

    open spec fn mul_spec(self, rhs: Braid) -> Braid {
        self
    }
}

impl std::ops::Mul for Braid {
    type Output = Braid;

    /// The product of two braids on the same number of strands: the first
    /// word followed by the second, with nothing reduced.
    fn mul(self, other: Braid) -> (product: Braid)
        ensures
            product.n == self.n,
            product.gens@ == self.gens@ + other.gens@,
    {
        let mut gens: Vec<BrGen> = Vec::new();
        append_gens(&mut gens, &self.gens);
        append_gens(&mut gens, &other.gens);
        Braid { gens, n: self.n }
    }
}

impl AddSpecImpl for Braid {
    open spec fn obeys_add_spec() -> bool {
        false
    }

    open spec fn add_req(self, rhs: Braid) -> bool {
        self.n == rhs.n
    }

    open spec fn add_spec(self, rhs: Braid) -> Braid {
        self
    }
}

impl std::ops::Add for Braid {
    type Output = Braid;

    /// The product of two braids on the same number of strands, freely
    /// reduced.
    fn add(self, other: Braid) -> (sum: Braid)
        ensures
            sum.n == self.n,
            sum.gens@ == fully_reduced(self.gens@ + other.gens@),
    {
        let mut gens: Vec<BrGen> = Vec::new();
        append_gens(&mut gens, &self.gens);
        append_gens(&mut gens, &other.gens);
        let mut sum = Braid { gens, n: self.n };
        sum.free_reduce();
        sum
    }
}

} // verus!
