//! One term of a polynomial: a coefficient times a vector of slot powers
//! for the variables `x`, `y`, `z`. Defines the canonical graded,
//! slot-major term order and the term-level arithmetic and rendering.
use vstd::prelude::*;

verus! {

use core::cmp::Ordering;
use vstd::string::*;
use crate::coef::{wmul, wadd_u32};
use crate::digits::{dec_str, u64_to_dec};
use crate::powers::{PowerVec, powers_of, pv_make, pv_get, pv_dup};
use crate::parser::{
    Parser,
    ParserErr,
    PRes,
    EKind,
    kind_of,
    padvance,
    init_pstate,
    spec_parse_monomial,
};

/// The mathematical value of one term.
pub struct TermView {
    pub coef: i64,
    pub powers: Seq<u32>,
}

impl TermView {
    /// Every term holds one power per variable slot.
    pub open spec fn wf(self) -> bool {
        self.powers.len() == 3
    }
}

/// Total degree: the sum of the slot powers.
pub open spec fn deg_of(p: Seq<u32>) -> int {
    p[0] + p[1] + p[2]
}

/// The canonical term order: `a` stands strictly before `b` when `a` has
/// the higher total degree, or, at equal degree, the higher power in the
/// earliest slot where they differ.
pub open spec fn term_before(a: Seq<u32>, b: Seq<u32>) -> bool {
    ||| deg_of(a) > deg_of(b)
    ||| (deg_of(a) == deg_of(b) && (a[0] > b[0] || (a[0] == b[0] && (a[1] > b[1] || (a[1] == b[1]
        && a[2] > b[2])))))
}

/// For any two terms, exactly one of before, same-term, after holds.
pub proof fn lemma_order_total(a: Seq<u32>, b: Seq<u32>)
    requires
        a.len() == 3,
        b.len() == 3,
    ensures
        term_before(a, b) || a == b || term_before(b, a),
        term_before(a, b) ==> a != b && !term_before(b, a),
        a == b ==> !term_before(a, b) && !term_before(b, a),
{
    if !term_before(a, b) && !term_before(b, a) {
        assert(a =~= b);
    }
}

/// The canonical term order is transitive.
pub proof fn lemma_order_trans(a: Seq<u32>, b: Seq<u32>, c: Seq<u32>)
    requires
        term_before(a, b),
        term_before(b, c),
    ensures
        term_before(a, c),
{
}

pub struct Monomial {
    pub coefficient: i64,
    pub power_list: PowerVec,
}

impl View for Monomial {
    type V = TermView;

    open spec fn view(&self) -> TermView {
        TermView { coef: self.coefficient, powers: powers_of(self.power_list) }
    }
}

/// Rendering of one variable factor: nothing for power zero, the bare
/// symbol for power one, `symbol^power` otherwise.
pub open spec fn pow_str(sym: char, e: u32) -> Seq<char> {
    if e == 0 {
        Seq::<char>::empty()
    } else if e == 1 {
        seq![sym]
    } else {
        seq![sym, '^'] + dec_str(e as int)
    }
}

/// The variable factors of a term, in slot order, with no separator.
pub open spec fn vars_str(p: Seq<u32>) -> Seq<char> {
    pow_str('x', p[0]) + pow_str('y', p[1]) + pow_str('z', p[2])
}

/// The coefficient magnitude.
pub open spec fn mag_of(c: i64) -> int {
    if c >= 0 {
        c as int
    } else {
        -(c as int)
    }
}

/// A term without its sign: a pure constant prints its magnitude; a term
/// of positive degree omits a magnitude of one and prints the variable
/// factors.
pub open spec fn mag_str(m: TermView) -> Seq<char> {
    if deg_of(m.powers) == 0 {
        dec_str(mag_of(m.coef))
    } else if mag_of(m.coef) == 1 {
        vars_str(m.powers)
    } else {
        dec_str(mag_of(m.coef)) + vars_str(m.powers)
    }
}

/// A term on its own: a `-` prefix for a negative coefficient, then the
/// unsigned body.
pub open spec fn mono_str(m: TermView) -> Seq<char> {
    if m.coef < 0 {
        seq!['-'] + mag_str(m)
    } else {
        mag_str(m)
    }
}

/// The coefficient magnitude, exactly.
pub(crate) fn coef_mag(c: i64) -> (m: u64)
    ensures
        m == mag_of(c),
{
    if c >= 0 {
        c as u64
    } else if c == i64::MIN {
        9223372036854775808u64
    } else {
        (-c) as u64
    }
}

/// Appends `pow_str(sym, e)` to `out`, given the one-character slice for
/// the symbol.
fn append_pow(out: &mut String, symbol: &str, sym: char, e: u32)
    requires
        symbol@ == seq![sym],
    ensures
        final(out)@ == old(out)@ + pow_str(sym, e),
{
    if e == 0 {
        proof {
            assert(out@ =~= old(out)@ + pow_str(sym, e));
        }
    } else if e == 1 {
        out.append(symbol);
    } else {
        out.append(symbol);
        out.append("^");
        let digits_part = u64_to_dec(e as u64);
        out.append(digits_part.as_str());
        proof {
            reveal_strlit("^");
            assert("^"@ =~= seq!['^']);
            assert(out@ =~= old(out)@ + pow_str(sym, e));
        }
    }
}

impl Monomial {
    /// The multiplicative identity: coefficient one, all powers zero.
    pub fn new() -> (m: Monomial)
        ensures
            m@.coef == 1,
            m@.powers == seq![0u32, 0u32, 0u32],
            m@.wf(),
    {
        Monomial { coefficient: 1, power_list: pv_make(0, 0, 0) }
    }

    /// A term from its coefficient and its three slot powers.
    pub fn from_parts(coefficient: i64, px: u32, py: u32, pz: u32) -> (m: Monomial)
        ensures
            m@.coef == coefficient,
            m@.powers == seq![px, py, pz],
            m@.wf(),
    {
        Monomial { coefficient, power_list: pv_make(px, py, pz) }
    }

    /// Parses a standalone monomial literal from text.
    pub fn from(expr: &str) -> (r: Result<Monomial, ParserErr>)
        ensures
            match padvance(init_pstate(expr@)) {
                None => r matches Err(e) && kind_of(e) == EKind::Lexical,
                Some(s0) => match spec_parse_monomial(s0) {
                    PRes::Good { v, s } => r matches Ok(m) && m@ == v && m@.wf(),
                    PRes::Bad { k, s } => r matches Err(e) && kind_of(e) == k,
                },
            },
    {
        let mut parser = match Parser::parser_init(String::from_str(expr)) {
            Ok(p) => p,
            Err(e) => {
                return Err(e);
            },
        };
        match parser.parse_monomial() {
            Ok(m) => Ok(m),
            Err(e) => Err(e),
        }
    }

    /// An identical term with its own storage.
    pub fn duplicate(&self) -> (m: Monomial)
        ensures
            m@ == self@,
    {
        Monomial { coefficient: self.coefficient, power_list: pv_dup(&self.power_list) }
    }

    /// The power in slot `ind`; a slot past the stored vector is zero.
    pub fn power(&self, ind: usize) -> (r: u32)
        requires
            self@.wf(),
        ensures
            r == if ind < 3 {
                self@.powers[ind as int]
            } else {
                0u32
            },
    {
        if ind < 3 {
            pv_get(&self.power_list, ind)
        } else {
            0
        }
    }

    /// The total degree of the term.
    pub fn degree(&self) -> (r: u64)
        requires
            self@.wf(),
        ensures
            r == deg_of(self@.powers),
    {
        let a = pv_get(&self.power_list, 0);
        let b = pv_get(&self.power_list, 1);
        let c = pv_get(&self.power_list, 2);
        a as u64 + b as u64 + c as u64
    }

    /// Compares two terms in the canonical order, ignoring coefficients:
    /// `Less` means `self` stands before `other`.
    pub fn cmp_terms(&self, other: &Monomial) -> (r: Ordering)
        requires
            self@.wf(),
            other@.wf(),
        ensures
            r == Ordering::Less <==> term_before(self@.powers, other@.powers),
            r == Ordering::Equal <==> self@.powers == other@.powers,
            r == Ordering::Greater <==> term_before(other@.powers, self@.powers),
    {
        proof {
            lemma_order_total(self@.powers, other@.powers);
        }
        let degree_a = self.degree();
        let degree_b = other.degree();
        if degree_a > degree_b {
            return Ordering::Less;
        }
        if degree_a < degree_b {
            return Ordering::Greater;
        }
        let mut ind: usize = 0;
        while ind < 3
            invariant
                0 <= ind <= 3,
                forall|j: int| 0 <= j < ind ==> self@.powers[j] == other@.powers[j],
                deg_of(self@.powers) == deg_of(other@.powers),
                self@.wf(),
                other@.wf(),
            decreases 3 - ind,
        {
            let power_a = self.power(ind);
            let power_b = other.power(ind);
            if power_a < power_b {
                return Ordering::Greater;
            }
            if power_a > power_b {
                return Ordering::Less;
            }
            ind = ind + 1;
        }
        proof {
            assert(self@.powers =~= other@.powers);
        }
        Ordering::Equal
    }

    /// The product of two terms: coefficients multiply; the power vectors
    /// add slot by slot, except that a zero product coefficient collapses
    /// the powers to the canonical zero term.
    pub fn mul_monomial(&self, other: &Monomial) -> (r: Monomial)
        requires
            self@.wf(),
            other@.wf(),
        ensures
            r@.coef == wmul(self@.coef, other@.coef),
            r@.powers == if wmul(self@.coef, other@.coef) == 0 {
                seq![0u32, 0u32, 0u32]
            } else {
                seq![
                    wadd_u32(self@.powers[0], other@.powers[0]),
                    wadd_u32(self@.powers[1], other@.powers[1]),
                    wadd_u32(self@.powers[2], other@.powers[2]),
                ]
            },
            r@.wf(),
    {
        let coefficient = self.coefficient.wrapping_mul(other.coefficient);
        let power_list = if coefficient == 0 {
            pv_make(0, 0, 0)
        } else {
            pv_make(
                pv_get(&self.power_list, 0).wrapping_add(pv_get(&other.power_list, 0)),
                pv_get(&self.power_list, 1).wrapping_add(pv_get(&other.power_list, 1)),
                pv_get(&self.power_list, 2).wrapping_add(pv_get(&other.power_list, 2)),
            )
        };
        Monomial { coefficient, power_list }
    }

    /// The same term scaled: only the coefficient is multiplied.
    pub fn scale(&self, k: i64) -> (r: Monomial)
        requires
            self@.wf(),
        ensures
            r@.coef == wmul(k, self@.coef),
            r@.powers == self@.powers,
            r@.wf(),
    {
        Monomial { coefficient: k.wrapping_mul(self.coefficient), power_list: pv_dup(&self.power_list) }
    }

    /// The variable factors of the term, in slot order.
    pub fn term_expr(&self) -> (r: String)
        requires
            self@.wf(),
        ensures
            r@ == vars_str(self@.powers),
    {
        let mut out = String::new();
        proof {
            reveal_strlit("x");
            reveal_strlit("y");
            reveal_strlit("z");
            assert("x"@ =~= seq!['x']);
            assert("y"@ =~= seq!['y']);
            assert("z"@ =~= seq!['z']);
        }
        append_pow(&mut out, "x", 'x', pv_get(&self.power_list, 0));
        append_pow(&mut out, "y", 'y', pv_get(&self.power_list, 1));
        append_pow(&mut out, "z", 'z', pv_get(&self.power_list, 2));
        proof {
            assert(out@ =~= vars_str(self@.powers));
        }
        out
    }

    /// The term without its sign: the coefficient magnitude unless it is
    /// one on a term of positive degree, then the variable factors; a
    /// pure constant prints its magnitude always.
    pub fn unsigned_expr(&self) -> (r: String)
        requires
            self@.wf(),
        ensures
            r@ == mag_str(self@),
    {
        let mut out = String::new();
        let mag = coef_mag(self.coefficient);
        let deg = self.degree();
        if deg == 0 {
            let digits_part = u64_to_dec(mag);
            out.append(digits_part.as_str());
        } else if mag == 1 {
            let vars_part = self.term_expr();
            out.append(vars_part.as_str());
        } else {
            let digits_part = u64_to_dec(mag);
            out.append(digits_part.as_str());
            let vars_part = self.term_expr();
            out.append(vars_part.as_str());
        }
        proof {
            assert(out@ =~= mag_str(self@));
        }
        out
    }

    /// The canonical text of the term standing on its own: a `-` prefix
    /// for a negative coefficient, then the unsigned body.
    pub fn expr(&self) -> (r: String)
        requires
            self@.wf(),
        ensures
            r@ == mono_str(self@),
    {
        let mut out = String::new();
        if self.coefficient < 0 {
            proof {
                reveal_strlit("-");
                assert("-"@ =~= seq!['-']);
            }
            out.append("-");
        }
        let body = self.unsigned_expr();
        out.append(body.as_str());
        proof {
            assert(out@ =~= mono_str(self@));
        }
        out
    }
}

} // verus!
