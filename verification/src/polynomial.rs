//! A polynomial: a sequence of terms kept strictly sorted in the
//! canonical term order, with like terms merged by coefficient addition.
//! Zero-coefficient terms are kept in the sequence (arithmetic may leave
//! them behind); only rendering hides them.
use vstd::prelude::*;

verus! {

use core::cmp::Ordering;
use vstd::string::*;
use crate::coef::{wadd, wsub, wmul, wneg};
use crate::monomial::{
    Monomial,
    TermView,
    term_before,
    lemma_order_total,
    lemma_order_trans,
    mono_str,
    mag_str,
};
use crate::powers::pv_dup;
use crate::parser::{
    Parser,
    ParserErr,
    PRes,
    EKind,
    kind_of,
    padvance,
    init_pstate,
    spec_parse_poly,
};

pub struct Polynomial {
    pub monomials: Vec<Monomial>,
}

impl View for Polynomial {
    type V = Seq<TermView>;

    open spec fn view(&self) -> Seq<TermView> {
        self.monomials@.map_values(|m: Monomial| m@)
    }
}

/// The canonical-form invariant: every term well formed, and the stored
/// sequence strictly ordered by the canonical term order, so that no two
/// entries share a term.
pub open spec fn poly_wf(s: Seq<TermView>) -> bool {
    &&& forall|i: int| 0 <= i < s.len() ==> (#[trigger] s[i]).wf()
    &&& forall|i: int| #![trigger s[i]] 0 <= i && i + 1 < s.len() ==> term_before(
        s[i].powers,
        s[i + 1].powers,
    )
}

/// In a canonical sequence every earlier term stands strictly before
/// every later one; in particular no two entries share a term.
pub proof fn lemma_sorted_pairwise(s: Seq<TermView>, i: int, j: int)
    requires
        poly_wf(s),
        0 <= i < j < s.len(),
    ensures
        term_before(s[i].powers, s[j].powers),
    decreases j - i,
{
    if i + 1 < j {
        lemma_sorted_pairwise(s, i + 1, j);
        lemma_order_trans(s[i].powers, s[i + 1].powers, s[j].powers);
    }
}

/// The merge invariant: however a canonical polynomial was built, every
/// earlier stored term stands strictly before every later one, and no
/// two stored entries share a term.
pub proof fn lemma_canonical_distinct(s: Seq<TermView>, i: int, j: int)
    requires
        poly_wf(s),
        0 <= i < j < s.len(),
    ensures
        term_before(s[i].powers, s[j].powers),
        s[i].powers != s[j].powers,
{
    lemma_sorted_pairwise(s, i, j);
    lemma_order_total(s[i].powers, s[j].powers);
}

/// Merge-insertion of one term into a canonical sequence: an entry with
/// the same term absorbs the incoming coefficient by addition; otherwise
/// the term is placed at its sorted position.
pub open spec fn merged_add(s: Seq<TermView>, m: TermView) -> Seq<TermView>
    decreases s.len(),
{
    if s.len() == 0 {
        seq![m]
    } else if term_before(s[0].powers, m.powers) {
        seq![s[0]] + merged_add(s.drop_first(), m)
    } else if s[0].powers == m.powers {
        seq![TermView { coef: wadd(s[0].coef, m.coef), powers: s[0].powers }] + s.drop_first()
    } else {
        seq![m] + s
    }
}

/// Insertion without merging: a term whose powers already occur is
/// dropped; otherwise it is placed at its sorted position.
pub open spec fn insert_new(s: Seq<TermView>, m: TermView) -> Seq<TermView>
    decreases s.len(),
{
    if s.len() == 0 {
        seq![m]
    } else if term_before(s[0].powers, m.powers) {
        seq![s[0]] + insert_new(s.drop_first(), m)
    } else if s[0].powers == m.powers {
        s
    } else {
        seq![m] + s
    }
}

/// Where the merge lands, given the first position `idx` whose term does
/// not stand before `m`: on an equal term the coefficient is added in
/// place, otherwise `m` is inserted at `idx`.
proof fn lemma_merged_add_at(s: Seq<TermView>, m: TermView, idx: int)
    requires
        poly_wf(s),
        m.wf(),
        0 <= idx <= s.len(),
        forall|j: int| 0 <= j < idx ==> term_before(#[trigger] s[j].powers, m.powers),
        idx < s.len() ==> !term_before(s[idx].powers, m.powers),
    ensures
        merged_add(s, m) == if idx < s.len() && s[idx].powers == m.powers {
            s.update(idx, TermView { coef: wadd(s[idx].coef, m.coef), powers: s[idx].powers })
        } else {
            s.insert(idx, m)
        },
        insert_new(s, m) == if idx < s.len() && s[idx].powers == m.powers {
            s
        } else {
            s.insert(idx, m)
        },
    decreases idx,
{
    if s.len() == 0 {
        assert(merged_add(s, m) =~= s.insert(0, m));
        assert(insert_new(s, m) =~= s.insert(0, m));
    } else if idx == 0 {
        if s[0].powers == m.powers {
            assert(merged_add(s, m) =~= s.update(
                0,
                TermView { coef: wadd(s[0].coef, m.coef), powers: s[0].powers },
            ));
        } else {
            assert(merged_add(s, m) =~= s.insert(0, m));
            assert(insert_new(s, m) =~= s.insert(0, m));
        }
    } else {
        let rest = s.drop_first();
        assert(term_before(s[0].powers, m.powers));
        lemma_drop_first_wf(s);
        lemma_merged_add_at(rest, m, idx - 1);
        assert(merged_add(s, m) == seq![s[0]] + merged_add(rest, m));
        assert(insert_new(s, m) == seq![s[0]] + insert_new(rest, m));
        if idx < s.len() && s[idx].powers == m.powers {
            assert(rest[idx - 1] == s[idx]);
            assert(merged_add(s, m) =~= s.update(
                idx,
                TermView { coef: wadd(s[idx].coef, m.coef), powers: s[idx].powers },
            ));
            assert(insert_new(s, m) =~= s);
        } else {
            assert(merged_add(s, m) =~= s.insert(idx, m));
            assert(insert_new(s, m) =~= s.insert(idx, m));
        }
    }
}

/// A canonical sequence stays canonical when its head is dropped.
pub(crate) proof fn lemma_drop_first_wf(s: Seq<TermView>)
    requires
        poly_wf(s),
        s.len() > 0,
    ensures
        poly_wf(s.drop_first()),
{
    let rest = s.drop_first();
    assert forall|i: int| 0 <= i < rest.len() implies (#[trigger] rest[i]).wf() by {
        assert(rest[i] == s[i + 1]);
    }
    assert forall|i: int| #![trigger rest[i]] 0 <= i && i + 1 < rest.len() implies term_before(
        rest[i].powers,
        rest[i + 1].powers,
    ) by {
        assert(rest[i] == s[i + 1]);
        assert(rest[i + 1] == s[i + 2]);
    }
}

/// Replacing coefficients while keeping every term's powers keeps the
/// canonical form.
proof fn lemma_same_powers_wf(s: Seq<TermView>, t: Seq<TermView>)
    requires
        poly_wf(s),
        t.len() == s.len(),
        forall|i: int| 0 <= i < s.len() ==> #[trigger] t[i].powers == s[i].powers,
    ensures
        poly_wf(t),
{
    assert forall|i: int| 0 <= i < t.len() implies (#[trigger] t[i]).wf() by {
        assert(s[i].wf());
        assert(t[i].powers == s[i].powers);
    }
    assert forall|i: int| #![trigger t[i]] 0 <= i && i + 1 < t.len() implies term_before(
        t[i].powers,
        t[i + 1].powers,
    ) by {
        assert(t[i].powers == s[i].powers);
        assert(t[i + 1].powers == s[i + 1].powers);
        assert(term_before(s[i].powers, s[i + 1].powers));
    }
}

/// Merge-insertion preserves the canonical-form invariant.
proof fn lemma_insert_sorted_wf(s: Seq<TermView>, m: TermView, idx: int)
    requires
        poly_wf(s),
        m.wf(),
        0 <= idx <= s.len(),
        forall|j: int| 0 <= j < idx ==> term_before(#[trigger] s[j].powers, m.powers),
        idx < s.len() ==> !term_before(s[idx].powers, m.powers),
        idx < s.len() ==> s[idx].powers != m.powers,
    ensures
        poly_wf(s.insert(idx, m)),
{
    let t = s.insert(idx, m);
    assert forall|i: int| 0 <= i && i + 1 < t.len() implies term_before(
        #[trigger] t[i].powers,
        t[i + 1].powers,
    ) by {
        if i + 1 < idx {
            assert(t[i] == s[i] && t[i + 1] == s[i + 1]);
        } else if i + 1 == idx {
            assert(t[i] == s[i] && t[i + 1] == m);
        } else if i == idx {
            assert(t[i] == m && t[i + 1] == s[i]);
            lemma_order_total(s[i].powers, m.powers);
        } else {
            assert(t[i] == s[i - 1] && t[i + 1] == s[i]);
        }
    }
    assert(forall|i: int| 0 <= i < t.len() ==> (#[trigger] t[i]).wf());
}

impl Polynomial {
    /// The zero polynomial: no terms at all.
    pub fn new() -> (p: Polynomial)
        ensures
            p@ == Seq::<TermView>::empty(),
            poly_wf(p@),
    {
        let p = Polynomial { monomials: Vec::new() };
        proof {
            assert(p@ =~= Seq::<TermView>::empty());
        }
        p
    }

    /// Parses a standalone polynomial expression from text.
    pub fn from(expr: &str) -> (r: Result<Polynomial, ParserErr>)
        ensures
            match padvance(init_pstate(expr@)) {
                None => r matches Err(e) && kind_of(e) == EKind::Lexical,
                Some(s0) => match spec_parse_poly(s0) {
                    PRes::Good { v, s } => r matches Ok(p) && p@ == v && poly_wf(p@),
                    PRes::Bad { k, s } => r matches Err(e) && kind_of(e) == k,
                },
            },
    {
        let mut parser = match Parser::parser_init(String::from_str(expr)) {
            Ok(p) => p,
            Err(e) => {
                return Err(e);
            },
        };
        match parser.parse_poly_expr() {
            Ok(p) => Ok(p),
            Err(e) => Err(e),
        }
    }

    /// An identical polynomial with its own storage.
    pub fn duplicate(&self) -> (p: Polynomial)
        ensures
            p@ == self@,
    {
        let mut copies: Vec<Monomial> = Vec::new();
        let mut i: usize = 0;
        while i < self.monomials.len()
            invariant
                0 <= i <= self.monomials.len(),
                copies@.len() == i,
                forall|j: int| 0 <= j < i ==> copies@[j]@ == self@[j],
            decreases self.monomials.len() - i,
        {
            copies.push(self.monomials[i].duplicate());
            i = i + 1;
        }
        let p = Polynomial { monomials: copies };
        proof {
            assert(p@ =~= self@);
        }
        p
    }

    /// Binary search in the canonical order: the first position whose
    /// term does not stand before `m`, and whether that position holds
    /// the same term as `m`.
    fn search_term(&self, m: &Monomial) -> (r: (usize, bool))
        requires
            poly_wf(self@),
            m@.wf(),
        ensures
            0 <= r.0 <= self@.len(),
            forall|j: int| 0 <= j < r.0 ==> term_before(#[trigger] self@[j].powers, m@.powers),
            r.0 < self@.len() ==> !term_before(self@[r.0 as int].powers, m@.powers),
            r.1 <==> (r.0 < self@.len() && self@[r.0 as int].powers == m@.powers),
    {
        let ghost s = self@;
        let mut lo: usize = 0;
        let mut hi: usize = self.monomials.len();
        while lo < hi
            invariant
                0 <= lo <= hi <= s.len(),
                s == self@,
                poly_wf(s),
                m@.wf(),
                forall|j: int| 0 <= j < lo ==> term_before(#[trigger] s[j].powers, m@.powers),
                forall|j: int| hi <= j < s.len() ==> !term_before(
                    #[trigger] s[j].powers,
                    m@.powers,
                ),
            decreases hi - lo,
        {
            let mid = lo + (hi - lo) / 2;
            proof {
                assert(self.monomials@[mid as int]@ == s[mid as int]);
                assert(s[mid as int].wf());
            }
            match self.monomials[mid].cmp_terms(m) {
                Ordering::Less => {
                    proof {
                        assert forall|j: int| lo <= j < mid + 1 implies term_before(
                            #[trigger] s[j].powers,
                            m@.powers,
                        ) by {
                            if j < mid {
                                lemma_sorted_pairwise(s, j, mid as int);
                                lemma_order_trans(s[j].powers, s[mid as int].powers, m@.powers);
                            }
                        }
                    }
                    lo = mid + 1;
                },
                _ => {
                    proof {
                        assert forall|j: int| mid <= j < s.len() implies !term_before(
                            #[trigger] s[j].powers,
                            m@.powers,
                        ) by {
                            if j > mid {
                                if term_before(s[j].powers, m@.powers) {
                                    lemma_sorted_pairwise(s, mid as int, j);
                                    lemma_order_trans(
                                        s[mid as int].powers,
                                        s[j].powers,
                                        m@.powers,
                                    );
                                }
                            }
                        }
                    }
                    hi = mid;
                },
            }
        }
        let idx = lo;
        if idx < self.monomials.len() {
            proof {
                assert(self.monomials@[idx as int]@ == s[idx as int]);
                assert(s[idx as int].wf());
            }
            match self.monomials[idx].cmp_terms(m) {
                Ordering::Equal => (idx, true),
                _ => (idx, false),
            }
        } else {
            (idx, false)
        }
    }

    /// Merge-adds one term: an entry with the same term absorbs the
    /// incoming coefficient by addition; otherwise the term is inserted
    /// at its sorted position.
    pub fn add_monomial(&mut self, other: Monomial)
        requires
            poly_wf(old(self)@),
            other@.wf(),
        ensures
            final(self)@ == merged_add(old(self)@, other@),
            poly_wf(final(self)@),
    {
        let ghost s = self@;
        let (pos, found) = self.search_term(&other);
        proof {
            lemma_merged_add_at(s, other@, pos as int);
        }
        if found {
            let old_m = self.monomials.remove(pos);
            let new_m = Monomial {
                coefficient: old_m.coefficient.wrapping_add(other.coefficient),
                power_list: old_m.power_list,
            };
            self.monomials.insert(pos, new_m);
            proof {
                assert(self@ =~= s.update(
                    pos as int,
                    TermView { coef: wadd(s[pos as int].coef, other@.coef), powers: s[pos as int].powers },
                ));
                lemma_same_powers_wf(s, self@);
            }
        } else {
            self.monomials.insert(pos, other);
            proof {
                assert(self@ =~= s.insert(pos as int, other@));
                lemma_insert_sorted_wf(s, other@, pos as int);
            }
        }
    }

    /// Merge-subtracts one term: an entry with the same term has the
    /// incoming coefficient subtracted; otherwise the negated term is
    /// inserted at its sorted position.
    pub fn sub_monomial(&mut self, other: Monomial)
        requires
            poly_wf(old(self)@),
            other@.wf(),
        ensures
            final(self)@ == merged_add(
                old(self)@,
                TermView { coef: wneg(other@.coef), powers: other@.powers },
            ),
            poly_wf(final(self)@),
    {
        let ghost s = self@;
        let ghost neg = TermView { coef: wneg(other@.coef), powers: other@.powers };
        let (pos, found) = self.search_term(&other);
        proof {
            lemma_merged_add_at(s, neg, pos as int);
        }
        if found {
            let old_m = self.monomials.remove(pos);
            let new_m = Monomial {
                coefficient: old_m.coefficient.wrapping_sub(other.coefficient),
                power_list: old_m.power_list,
            };
            self.monomials.insert(pos, new_m);
            proof {
                assert(wsub(s[pos as int].coef, other@.coef) == wadd(s[pos as int].coef, neg.coef));
                assert(self@ =~= s.update(
                    pos as int,
                    TermView { coef: wadd(s[pos as int].coef, neg.coef), powers: s[pos as int].powers },
                ));
                lemma_same_powers_wf(s, self@);
            }
        } else {
            let neg_m = Monomial {
                coefficient: 0i64.wrapping_sub(other.coefficient),
                power_list: other.power_list,
            };
            self.monomials.insert(pos, neg_m);
            proof {
                assert(self@ =~= s.insert(pos as int, neg));
                lemma_insert_sorted_wf(s, neg, pos as int);
            }
        }
    }

    /// Inserts a term only if no entry shares its term; a duplicate term
    /// is dropped, its coefficient ignored.
    pub fn insert_monomial(&mut self, monomial: Monomial)
        requires
            poly_wf(old(self)@),
            monomial@.wf(),
        ensures
            final(self)@ == insert_new(old(self)@, monomial@),
            poly_wf(final(self)@),
    {
        let ghost s = self@;
        let (pos, found) = self.search_term(&monomial);
        proof {
            lemma_merged_add_at(s, monomial@, pos as int);
        }
        if !found {
            self.monomials.insert(pos, monomial);
            proof {
                assert(self@ =~= s.insert(pos as int, monomial@));
                lemma_insert_sorted_wf(s, monomial@, pos as int);
            }
        }
    }
}

/// The same term negated.
pub open spec fn neg_term(m: TermView) -> TermView {
    TermView { coef: wneg(m.coef), powers: m.powers }
}

/// Merge-adding a run of terms, left to right.
pub open spec fn spec_add_terms(s: Seq<TermView>, ts: Seq<TermView>) -> Seq<TermView>
    decreases ts.len(),
{
    if ts.len() == 0 {
        s
    } else {
        spec_add_terms(merged_add(s, ts[0]), ts.drop_first())
    }
}

/// Merge-subtracting a run of terms, left to right.
pub open spec fn spec_sub_terms(s: Seq<TermView>, ts: Seq<TermView>) -> Seq<TermView>
    decreases ts.len(),
{
    if ts.len() == 0 {
        s
    } else {
        spec_sub_terms(merged_add(s, neg_term(ts[0])), ts.drop_first())
    }
}

/// The product of two terms, as `Monomial::mul_monomial` computes it.
pub open spec fn term_prod(a: TermView, b: TermView) -> TermView {
    TermView {
        coef: wmul(a.coef, b.coef),
        powers: if wmul(a.coef, b.coef) == 0 {
            seq![0u32, 0u32, 0u32]
        } else {
            seq![
                crate::coef::wadd_u32(a.powers[0], b.powers[0]),
                crate::coef::wadd_u32(a.powers[1], b.powers[1]),
                crate::coef::wadd_u32(a.powers[2], b.powers[2]),
            ]
        },
    }
}

/// Merge-adding the products of one term with a run of terms.
pub open spec fn spec_mul_row(acc: Seq<TermView>, a: TermView, ts: Seq<TermView>) -> Seq<TermView>
    decreases ts.len(),
{
    if ts.len() == 0 {
        acc
    } else {
        spec_mul_row(merged_add(acc, term_prod(a, ts[0])), a, ts.drop_first())
    }
}

/// Merge-adding all pairwise products, row by row.
pub open spec fn spec_mul_acc(acc: Seq<TermView>, ss: Seq<TermView>, ts: Seq<TermView>) -> Seq<
    TermView,
>
    decreases ss.len(),
{
    if ss.len() == 0 {
        acc
    } else {
        spec_mul_acc(spec_mul_row(acc, ss[0], ts), ss.drop_first(), ts)
    }
}

/// The canonical product: every pair of terms multiplied and merged into
/// an empty polynomial.
pub open spec fn spec_mul(ss: Seq<TermView>, ts: Seq<TermView>) -> Seq<TermView> {
    spec_mul_acc(Seq::<TermView>::empty(), ss, ts)
}

/// Integer power by repeated self-multiplication, one multiplication
/// fewer than the exponent; exponents zero and one both leave the
/// polynomial as it is.
pub open spec fn spec_pow(s: Seq<TermView>, n: nat) -> Seq<TermView>
    decreases n,
{
    if n <= 1 {
        s
    } else {
        spec_mul(spec_pow(s, (n - 1) as nat), s)
    }
}

/// Every coefficient multiplied by `k`, in place; the terms themselves
/// are untouched.
pub open spec fn scaled_terms(s: Seq<TermView>, k: i64) -> Seq<TermView> {
    s.map_values(|m: TermView| TermView { coef: wmul(m.coef, k), powers: m.powers })
}

/// The separator before a rendered term after the first: its sign with a
/// space on either side.
pub open spec fn sep_str(c: i64) -> Seq<char> {
    if c < 0 {
        seq![' ', '-', ' ']
    } else {
        seq![' ', '+', ' ']
    }
}

/// Canonical rendering from position `i` on: zero-coefficient terms are
/// skipped; the first rendered term carries its own sign, every later
/// one a ` + ` or ` - ` separator and its magnitude.
pub open spec fn render_rest(s: Seq<TermView>, i: int, printed: bool) -> Seq<char>
    decreases s.len() - i,
{
    if i < 0 || i >= s.len() {
        Seq::<char>::empty()
    } else if s[i].coef == 0 {
        render_rest(s, i + 1, printed)
    } else if !printed {
        mono_str(s[i]) + render_rest(s, i + 1, true)
    } else {
        sep_str(s[i].coef) + mag_str(s[i]) + render_rest(s, i + 1, true)
    }
}

/// The canonical text of a polynomial.
pub open spec fn poly_str(s: Seq<TermView>) -> Seq<char> {
    render_rest(s, 0, false)
}

impl Polynomial {
    /// The sum: every term of `other` merge-added into a copy of `self`.
    pub fn add(&self, other: &Polynomial) -> (r: Polynomial)
        requires
            poly_wf(self@),
            poly_wf(other@),
        ensures
            r@ == spec_add_terms(self@, other@),
            poly_wf(r@),
    {
        let ghost ts = other@;
        let mut res = self.duplicate();
        let mut i: usize = 0;
        proof {
            assert(ts.skip(0) =~= ts);
        }
        while i < other.monomials.len()
            invariant
                0 <= i <= other.monomials.len(),
                ts == other@,
                poly_wf(other@),
                poly_wf(res@),
                spec_add_terms(res@, ts.skip(i as int)) == spec_add_terms(self@, ts),
            decreases other.monomials.len() - i,
        {
            proof {
                assert(other.monomials@[i as int]@ == ts[i as int]);
                assert(ts[i as int].wf());
                assert(ts.skip(i as int)[0] == ts[i as int]);
                assert(ts.skip(i as int).drop_first() =~= ts.skip(i as int + 1));
            }
            let m = other.monomials[i].duplicate();
            res.add_monomial(m);
            i = i + 1;
        }
        proof {
            assert(ts.skip(i as int) =~= Seq::<TermView>::empty());
        }
        res
    }

    /// The difference: every term of `other` merge-subtracted from a
    /// copy of `self`.
    pub fn sub(&self, other: &Polynomial) -> (r: Polynomial)
        requires
            poly_wf(self@),
            poly_wf(other@),
        ensures
            r@ == spec_sub_terms(self@, other@),
            poly_wf(r@),
    {
        let ghost ts = other@;
        let mut res = self.duplicate();
        let mut i: usize = 0;
        proof {
            assert(ts.skip(0) =~= ts);
        }
        while i < other.monomials.len()
            invariant
                0 <= i <= other.monomials.len(),
                ts == other@,
                poly_wf(other@),
                poly_wf(res@),
                spec_sub_terms(res@, ts.skip(i as int)) == spec_sub_terms(self@, ts),
            decreases other.monomials.len() - i,
        {
            proof {
                assert(other.monomials@[i as int]@ == ts[i as int]);
                assert(ts[i as int].wf());
                assert(ts.skip(i as int)[0] == ts[i as int]);
                assert(ts.skip(i as int).drop_first() =~= ts.skip(i as int + 1));
            }
            let m = other.monomials[i].duplicate();
            res.sub_monomial(m);
            i = i + 1;
        }
        proof {
            assert(ts.skip(i as int) =~= Seq::<TermView>::empty());
        }
        res
    }

    /// The product: every pair of terms, one from each side, multiplied
    /// and merge-added into a fresh polynomial.
    pub fn mul(&self, other: &Polynomial) -> (r: Polynomial)
        requires
            poly_wf(self@),
            poly_wf(other@),
        ensures
            r@ == spec_mul(self@, other@),
            poly_wf(r@),
    {
        let ghost ss = self@;
        let ghost ts = other@;
        let mut res = Polynomial::new();
        let mut i: usize = 0;
        proof {
            assert(ss.skip(0) =~= ss);
        }
        while i < self.monomials.len()
            invariant
                0 <= i <= self.monomials.len(),
                ss == self@,
                ts == other@,
                poly_wf(self@),
                poly_wf(other@),
                poly_wf(res@),
                spec_mul_acc(res@, ss.skip(i as int), ts) == spec_mul(ss, ts),
            decreases self.monomials.len() - i,
        {
            proof {
                assert(self.monomials@[i as int]@ == ss[i as int]);
                assert(ss[i as int].wf());
                assert(ss.skip(i as int)[0] == ss[i as int]);
                assert(ss.skip(i as int).drop_first() =~= ss.skip(i as int + 1));
                assert(ts.skip(0) =~= ts);
            }
            let ghost a = ss[i as int];
            let mut j: usize = 0;
            while j < other.monomials.len()
                invariant
                    0 <= i < self.monomials.len(),
                    0 <= j <= other.monomials.len(),
                    ss == self@,
                    ts == other@,
                    poly_wf(self@),
                    poly_wf(other@),
                    poly_wf(res@),
                    a == ss[i as int],
                    spec_mul_acc(
                        spec_mul_row(res@, a, ts.skip(j as int)),
                        ss.skip(i as int + 1),
                        ts,
                    ) == spec_mul(ss, ts),
                decreases other.monomials.len() - j,
            {
                proof {
                    assert(self.monomials@[i as int]@ == ss[i as int]);
                    assert(ss[i as int].wf());
                    assert(other.monomials@[j as int]@ == ts[j as int]);
                    assert(ts[j as int].wf());
                    assert(ts.skip(j as int)[0] == ts[j as int]);
                    assert(ts.skip(j as int).drop_first() =~= ts.skip(j as int + 1));
                }
                let prod = self.monomials[i].mul_monomial(&other.monomials[j]);
                proof {
                    assert(prod@ == term_prod(a, ts[j as int]));
                    assert(prod@.wf());
                }
                res.add_monomial(prod);
                j = j + 1;
            }
            proof {
                assert(ts.skip(j as int) =~= Seq::<TermView>::empty());
            }
            i = i + 1;
        }
        proof {
            assert(ss.skip(i as int) =~= Seq::<TermView>::empty());
        }
        res
    }

    /// The `exponent`-th power: `exponent - 1` self-multiplications of a
    /// copy of `self`; exponents zero and one both return the polynomial
    /// unchanged.
    pub fn pow(&self, exponent: u32) -> (r: Polynomial)
        requires
            poly_wf(self@),
        ensures
            r@ == spec_pow(self@, exponent as nat),
            poly_wf(r@),
    {
        let mut res = self.duplicate();
        if exponent <= 1 {
            return res;
        }
        let mut ind: u32 = exponent - 1;
        while ind > 0
            invariant
                0 <= ind <= exponent - 1,
                poly_wf(self@),
                poly_wf(res@),
                res@ == spec_pow(self@, (exponent - ind) as nat),
            decreases ind,
        {
            res = res.mul(self);
            ind = ind - 1;
        }
        res
    }

    /// Multiplies every stored coefficient by `scale`, in place.
    pub fn scale(&mut self, scale: i64)
        requires
            poly_wf(old(self)@),
        ensures
            final(self)@ == scaled_terms(old(self)@, scale),
            poly_wf(final(self)@),
    {
        let ghost s = self@;
        let mut i: usize = 0;
        while i < self.monomials.len()
            invariant
                0 <= i <= self.monomials.len(),
                self@.len() == s.len(),
                self.monomials@.len() == s.len(),
                forall|j: int| 0 <= j < i ==> #[trigger] self@[j] == (TermView {
                    coef: wmul(s[j].coef, scale),
                    powers: s[j].powers,
                }),
                forall|j: int| i <= j < s.len() ==> #[trigger] self@[j] == s[j],
            decreases self.monomials.len() - i,
        {
            let ghost prev = self.monomials@;
            proof {
                assert(self@[i as int] == s[i as int]);
                assert(prev[i as int]@ == s[i as int]);
            }
            let m = self.monomials.remove(i);
            let m2 = Monomial {
                coefficient: m.coefficient.wrapping_mul(scale),
                power_list: m.power_list,
            };
            self.monomials.insert(i, m2);
            proof {
                assert(self.monomials@ =~= prev.update(i as int, m2));
                assert(m2@ == (TermView {
                    coef: wmul(s[i as int].coef, scale),
                    powers: s[i as int].powers,
                }));
                assert forall|j: int| 0 <= j < self@.len() && j != i implies #[trigger] self@[j]
                    == prev.map_values(|mm: Monomial| mm@)[j] by {
                    assert(self.monomials@[j] == prev[j]);
                }
            }
            i = i + 1;
        }
        proof {
            assert(self@ =~= scaled_terms(s, scale));
            lemma_same_powers_wf(s, self@);
        }
    }

    /// The canonical text: terms in stored order, zero-coefficient terms
    /// hidden, the first rendered term signed, later ones joined by
    /// ` + ` or ` - ` with their magnitudes.
    #[verifier::loop_isolation(false)]
    pub fn expr(&self) -> (r: String)
        requires
            poly_wf(self@),
        ensures
            r@ == poly_str(self@),
    {
        let ghost s = self@;
        let mut out = String::new();
        let mut printed = false;
        let mut i: usize = 0;
        proof {
            reveal_strlit(" + ");
            reveal_strlit(" - ");
            assert(" + "@ =~= seq![' ', '+', ' ']);
            assert(" - "@ =~= seq![' ', '-', ' ']);
            assert(out@ + render_rest(s, 0, false) =~= render_rest(s, 0, false));
        }
        while i < self.monomials.len()
            invariant
                0 <= i <= self.monomials.len(),
                out@ + render_rest(s, i as int, printed) == poly_str(s),
            decreases self.monomials.len() - i,
        {
            proof {
                assert(self.monomials@[i as int]@ == s[i as int]);
                assert(s[i as int].wf());
            }
            let c = self.monomials[i].coefficient;
            if c == 0 {
            } else if !printed {
                let t = self.monomials[i].expr();
                out.append(t.as_str());
                printed = true;
            } else {
                if c < 0 {
                    out.append(" - ");
                } else {
                    out.append(" + ");
                }
                let t = self.monomials[i].unsigned_expr();
                out.append(t.as_str());
            }
            i = i + 1;
        }
        proof {
            assert(render_rest(s, i as int, printed) =~= Seq::<char>::empty());
            assert(out@ =~= poly_str(s));
        }
        out
    }
}

} // verus!
