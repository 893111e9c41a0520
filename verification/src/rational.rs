//! A rational function held literally: a numerator and a denominator
//! polynomial, paired without any simplification.
use vstd::prelude::*;

verus! {

use vstd::string::*;
use crate::polynomial::{Polynomial, poly_wf, poly_str};

pub struct RationalPoly {
    pub numer: Polynomial,
    pub denom: Polynomial,
}

impl RationalPoly {
    pub fn new(numer: Polynomial, denom: Polynomial) -> (r: RationalPoly)
        ensures
            r.numer@ == numer@,
            r.denom@ == denom@,
    {
        RationalPoly { numer, denom }
    }

    /// The literal rendering `(numerator)/(denominator)`, each side in
    /// its canonical text.
    pub fn expr(&self) -> (r: String)
        requires
            poly_wf(self.numer@),
            poly_wf(self.denom@),
        ensures
            r@ == seq!['('] + poly_str(self.numer@) + seq![')', '/', '('] + poly_str(self.denom@)
                + seq![')'],
    {
        proof {
            reveal_strlit("(");
            reveal_strlit(")/(");
            reveal_strlit(")");
            assert("("@ =~= seq!['(']);
            assert(")/("@ =~= seq![')', '/', '(']);
            assert(")"@ =~= seq![')']);
        }
        let mut output = String::new();
        output.append("(");
        let numer_part = self.numer.expr();
        output.append(numer_part.as_str());
        output.append(")/(");
        let denom_part = self.denom.expr();
        output.append(denom_part.as_str());
        output.append(")");
        proof {
            assert(output@ =~= seq!['('] + poly_str(self.numer@) + seq![')', '/', '(']
                + poly_str(self.denom@) + seq![')']);
        }
        output
    }
}

} // verus!
