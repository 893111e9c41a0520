//! Algebraic laws of the canonical form. A canonical term sequence is
//! determined by which terms it holds and by each term's accumulated
//! coefficient, and its rendered text by the coefficients alone. From
//! those uniqueness results: addition is commutative and associative and
//! multiplication is commutative, up to the canonical form and hence up
//! to the rendered text; and multiplication is associative up to the
//! rendered text.
use vstd::prelude::*;

verus! {

use crate::coef::{
    wadd,
    wmul,
    wadd_u32,
    lemma_wadd_comm,
    lemma_wadd_zero,
    lemma_wadd_assoc,
    lemma_wmul_assoc,
    lemma_wmul_distrib,
    lemma_wadd_u32_assoc,
};
use crate::monomial::{TermView, term_before, lemma_order_total, lemma_order_trans, mono_str, mag_str};
use crate::polynomial::{
    merged_add,
    spec_add_terms,
    spec_mul,
    spec_mul_row,
    spec_mul_acc,
    term_prod,
    poly_wf,
    poly_str,
    render_rest,
    sep_str,
    lemma_drop_first_wf,
};

/// Whether some stored entry has exactly the powers `p`.
pub open spec fn has_term(s: Seq<TermView>, p: Seq<u32>) -> bool
    decreases s.len(),
{
    if s.len() == 0 {
        false
    } else {
        s[0].powers == p || has_term(s.drop_first(), p)
    }
}

/// The accumulated coefficient of the term `p` over a sequence.
pub open spec fn coef_at(s: Seq<TermView>, p: Seq<u32>) -> i64
    decreases s.len(),
{
    if s.len() == 0 {
        0i64
    } else if s[0].powers == p {
        wadd(s[0].coef, coef_at(s.drop_first(), p))
    } else {
        coef_at(s.drop_first(), p)
    }
}

pub open spec fn all_wf(s: Seq<TermView>) -> bool {
    forall|i: int| 0 <= i < s.len() ==> (#[trigger] s[i]).wf()
}

proof fn lemma_cons_parts(x: TermView, t: Seq<TermView>)
    ensures
        (seq![x] + t).len() == t.len() + 1,
        (seq![x] + t)[0] == x,
        (seq![x] + t).drop_first() == t,
{
    assert((seq![x] + t).drop_first() =~= t);
}

proof fn lemma_has_cons(x: TermView, t: Seq<TermView>, p: Seq<u32>)
    ensures
        has_term(seq![x] + t, p) == (x.powers == p || has_term(t, p)),
{
    lemma_cons_parts(x, t);
}

proof fn lemma_coef_cons(x: TermView, t: Seq<TermView>, p: Seq<u32>)
    ensures
        coef_at(seq![x] + t, p) == if x.powers == p {
            wadd(x.coef, coef_at(t, p))
        } else {
            coef_at(t, p)
        },
{
    lemma_cons_parts(x, t);
}

/// A term that no entry holds accumulates the zero coefficient.
proof fn lemma_absent_coef(s: Seq<TermView>, p: Seq<u32>)
    requires
        !has_term(s, p),
    ensures
        coef_at(s, p) == 0,
    decreases s.len(),
{
    if s.len() > 0 {
        lemma_absent_coef(s.drop_first(), p);
    }
}

/// In a canonical sequence, the head is the least stored term: any term
/// present is the head's or stands after it.
proof fn lemma_head_min(s: Seq<TermView>, p: Seq<u32>)
    requires
        poly_wf(s),
        s.len() > 0,
        has_term(s, p),
    ensures
        p == s[0].powers || term_before(s[0].powers, p),
    decreases s.len(),
{
    if s[0].powers != p {
        let rest = s.drop_first();
        assert(has_term(rest, p));
        if rest.len() == 0 {
            assert(false);
        }
        lemma_drop_first_wf(s);
        lemma_head_min(rest, p);
        assert(rest[0] == s[1]);
        assert(term_before(s[0].powers, rest[0].powers));
        if p != rest[0].powers {
            lemma_order_trans(s[0].powers, rest[0].powers, p);
        }
    }
}

/// In a canonical sequence, the head's term occurs nowhere else.
proof fn lemma_no_dup_head(s: Seq<TermView>)
    requires
        poly_wf(s),
        s.len() > 0,
    ensures
        !has_term(s.drop_first(), s[0].powers),
{
    let rest = s.drop_first();
    if has_term(rest, s[0].powers) {
        if rest.len() == 0 {
            assert(false);
        }
        lemma_drop_first_wf(s);
        lemma_head_min(rest, s[0].powers);
        assert(rest[0] == s[1]);
        assert(term_before(s[0].powers, rest[0].powers));
        assert(s[0].wf() && s[1].wf());
        lemma_order_total(s[0].powers, rest[0].powers);
        assert(false);
    }
}

/// Canonical uniqueness: two canonical sequences holding the same terms
/// with the same accumulated coefficients are the same sequence.
#[verifier::rlimit(100)]
proof fn lemma_canonical_unique(a: Seq<TermView>, b: Seq<TermView>)
    requires
        poly_wf(a),
        poly_wf(b),
        forall|p: Seq<u32>| #[trigger] has_term(a, p) == has_term(b, p),
        forall|p: Seq<u32>| #[trigger] coef_at(a, p) == coef_at(b, p),
    ensures
        a == b,
    decreases a.len(),
{
    if a.len() == 0 {
        if b.len() > 0 {
            assert(has_term(b, b[0].powers));
            assert(has_term(a, b[0].powers));
            assert(false);
        }
        assert(a =~= b);
    } else if b.len() == 0 {
        assert(has_term(a, a[0].powers));
        assert(has_term(b, a[0].powers));
        assert(false);
    } else {
        let ap = a[0].powers;
        let bp = b[0].powers;
        assert(has_term(a, ap));
        assert(has_term(b, bp));
        lemma_head_min(b, ap);
        lemma_head_min(a, bp);
        if ap != bp {
            lemma_order_total(ap, bp);
            assert(false);
        }
        lemma_no_dup_head(a);
        lemma_no_dup_head(b);
        lemma_absent_coef(a.drop_first(), ap);
        lemma_absent_coef(b.drop_first(), bp);
        lemma_wadd_zero(a[0].coef);
        lemma_wadd_zero(b[0].coef);
        assert(coef_at(a, ap) == a[0].coef);
        assert(coef_at(b, bp) == b[0].coef);
        assert(a[0] == b[0]);
        let ta = a.drop_first();
        let tb = b.drop_first();
        lemma_drop_first_wf(a);
        lemma_drop_first_wf(b);
        assert forall|p: Seq<u32>| #[trigger] has_term(ta, p) == has_term(tb, p) by {
            if p == ap {
                assert(!has_term(ta, p));
                assert(!has_term(tb, p));
            } else {
                assert(has_term(a, p) == (ap == p || has_term(ta, p)));
                assert(has_term(b, p) == (bp == p || has_term(tb, p)));
            }
        }
        assert forall|p: Seq<u32>| #[trigger] coef_at(ta, p) == coef_at(tb, p) by {
            if p == ap {
                assert(!has_term(ta, p));
                assert(!has_term(tb, p));
                lemma_absent_coef(ta, p);
                lemma_absent_coef(tb, p);
            } else {
                assert(coef_at(a, p) == coef_at(ta, p));
                assert(coef_at(b, p) == coef_at(tb, p));
            }
        }
        lemma_canonical_unique(ta, tb);
        assert(a.len() == b.len());
        assert forall|i: int| 0 <= i < a.len() implies a[i] == b[i] by {
            if i > 0 {
                assert(ta[i - 1] == a[i]);
                assert(tb[i - 1] == b[i]);
            }
        }
        assert(a =~= b);
    }
}

/// How one merge-insertion changes the stored terms and coefficients:
/// the incoming term is added in, every other term is untouched.
proof fn lemma_merged_props(s: Seq<TermView>, m: TermView)
    ensures
        forall|p: Seq<u32>| #[trigger] has_term(merged_add(s, m), p) == (has_term(s, p)
            || m.powers == p),
        forall|p: Seq<u32>| #[trigger] coef_at(merged_add(s, m), p) == (if m.powers == p {
            wadd(coef_at(s, p), m.coef)
        } else {
            coef_at(s, p)
        }),
    decreases s.len(),
{
    if s.len() == 0 {
        assert forall|p: Seq<u32>| #[trigger] has_term(merged_add(s, m), p) == (has_term(s, p)
            || m.powers == p) by {
            lemma_has_cons(m, Seq::<TermView>::empty(), p);
            assert(seq![m] + Seq::<TermView>::empty() =~= seq![m]);
            assert(merged_add(s, m) == seq![m]);
        }
        assert forall|p: Seq<u32>| #[trigger] coef_at(merged_add(s, m), p) == (if m.powers == p {
            wadd(coef_at(s, p), m.coef)
        } else {
            coef_at(s, p)
        }) by {
            assert(seq![m] + Seq::<TermView>::empty() =~= seq![m]);
            lemma_coef_cons(m, Seq::<TermView>::empty(), p);
            if m.powers == p {
                lemma_wadd_zero(m.coef);
                lemma_wadd_comm(m.coef, 0);
            }
        }
    } else {
        let s0 = s[0];
        let rest = s.drop_first();
        if term_before(s0.powers, m.powers) {
            lemma_merged_props(rest, m);
            assert(merged_add(s, m) == seq![s0] + merged_add(rest, m));
            assert forall|p: Seq<u32>| #[trigger] has_term(merged_add(s, m), p) == (has_term(s, p)
                || m.powers == p) by {
                lemma_has_cons(s0, merged_add(rest, m), p);
                assert(has_term(s, p) == (s0.powers == p || has_term(rest, p)));
            }
            assert forall|p: Seq<u32>| #[trigger] coef_at(merged_add(s, m), p) == (if m.powers
                == p {
                wadd(coef_at(s, p), m.coef)
            } else {
                coef_at(s, p)
            }) by {
                lemma_coef_cons(s0, merged_add(rest, m), p);
                assert(coef_at(s, p) == (if s0.powers == p {
                    wadd(s0.coef, coef_at(rest, p))
                } else {
                    coef_at(rest, p)
                }));
                if m.powers == p && s0.powers == p {
                    assert(false);
                } else if m.powers == p {
                    assert(coef_at(merged_add(rest, m), p) == wadd(coef_at(rest, p), m.coef));
                    if s0.powers == p {
                        assert(false);
                    }
                } else if s0.powers == p {
                    lemma_wadd_assoc(s0.coef, coef_at(rest, p), m.coef);
                }
            }
        } else if s0.powers == m.powers {
            let merged_head = TermView { coef: wadd(s0.coef, m.coef), powers: s0.powers };
            assert(merged_add(s, m) == seq![merged_head] + rest);
            assert forall|p: Seq<u32>| #[trigger] has_term(merged_add(s, m), p) == (has_term(s, p)
                || m.powers == p) by {
                lemma_has_cons(merged_head, rest, p);
                assert(has_term(s, p) == (s0.powers == p || has_term(rest, p)));
            }
            assert forall|p: Seq<u32>| #[trigger] coef_at(merged_add(s, m), p) == (if m.powers
                == p {
                wadd(coef_at(s, p), m.coef)
            } else {
                coef_at(s, p)
            }) by {
                lemma_coef_cons(merged_head, rest, p);
                assert(coef_at(s, p) == (if s0.powers == p {
                    wadd(s0.coef, coef_at(rest, p))
                } else {
                    coef_at(rest, p)
                }));
                if p == s0.powers {
                    lemma_wadd_assoc(s0.coef, m.coef, coef_at(rest, p));
                    lemma_wadd_assoc(s0.coef, coef_at(rest, p), m.coef);
                    lemma_wadd_comm(m.coef, coef_at(rest, p));
                }
            }
        } else {
            assert(merged_add(s, m) == seq![m] + s);
            assert forall|p: Seq<u32>| #[trigger] has_term(merged_add(s, m), p) == (has_term(s, p)
                || m.powers == p) by {
                lemma_has_cons(m, s, p);
            }
            assert forall|p: Seq<u32>| #[trigger] coef_at(merged_add(s, m), p) == (if m.powers
                == p {
                wadd(coef_at(s, p), m.coef)
            } else {
                coef_at(s, p)
            }) by {
                lemma_coef_cons(m, s, p);
                if m.powers == p {
                    lemma_wadd_comm(m.coef, coef_at(s, p));
                }
            }
        }
    }
}

/// The head of a merge-insertion is the incoming term or the old head.
proof fn lemma_merged_head(s: Seq<TermView>, m: TermView)
    ensures
        merged_add(s, m).len() >= 1,
        merged_add(s, m)[0].powers == m.powers || (s.len() > 0 && merged_add(s, m)[0].powers
            == s[0].powers),
{
    if s.len() == 0 {
    } else if term_before(s[0].powers, m.powers) {
        lemma_cons_parts(s[0], merged_add(s.drop_first(), m));
    } else if s[0].powers == m.powers {
        lemma_cons_parts(
            TermView { coef: wadd(s[0].coef, m.coef), powers: s[0].powers },
            s.drop_first(),
        );
    } else {
        lemma_cons_parts(m, s);
    }
}

/// Merge-insertion keeps the canonical form.
proof fn lemma_merged_wf(s: Seq<TermView>, m: TermView)
    requires
        poly_wf(s),
        m.wf(),
    ensures
        poly_wf(merged_add(s, m)),
    decreases s.len(),
{
    let t = merged_add(s, m);
    if s.len() == 0 {
        assert(forall|i: int| 0 <= i < t.len() ==> (#[trigger] t[i]).wf());
        assert(poly_wf(t));
    } else {
        let s0 = s[0];
        let rest = s.drop_first();
        lemma_drop_first_wf(s);
        if term_before(s0.powers, m.powers) {
            lemma_merged_wf(rest, m);
            lemma_merged_head(rest, m);
            let u = merged_add(rest, m);
            lemma_cons_parts(s0, u);
            if rest.len() > 0 {
                assert(term_before(s0.powers, rest[0].powers));
            }
            assert forall|i: int| 0 <= i < t.len() implies (#[trigger] t[i]).wf() by {
                if i == 0 {
                    assert(t[0] == s0);
                } else {
                    assert(t[i] == u[i - 1]);
                }
            }
            assert forall|i: int| #![trigger t[i]] 0 <= i && i + 1 < t.len() implies term_before(
                t[i].powers,
                t[i + 1].powers,
            ) by {
                if i == 0 {
                    assert(t[1] == u[0]);
                } else {
                    assert(t[i] == u[i - 1]);
                    assert(t[i + 1] == u[i]);
                }
            }
        } else if s0.powers == m.powers {
            let merged_head = TermView { coef: wadd(s0.coef, m.coef), powers: s0.powers };
            lemma_cons_parts(merged_head, rest);
            assert forall|i: int| 0 <= i < t.len() implies (#[trigger] t[i]).wf() by {
                if i == 0 {
                } else {
                    assert(t[i] == rest[i - 1]);
                    assert(rest[i - 1] == s[i]);
                }
            }
            assert forall|i: int| #![trigger t[i]] 0 <= i && i + 1 < t.len() implies term_before(
                t[i].powers,
                t[i + 1].powers,
            ) by {
                if i == 0 {
                    assert(t[1] == rest[0]);
                    assert(rest[0] == s[1]);
                } else {
                    assert(t[i] == s[i]);
                    assert(t[i + 1] == s[i + 1]);
                }
            }
        } else {
            lemma_order_total(s0.powers, m.powers);
            assert(term_before(m.powers, s0.powers));
            lemma_cons_parts(m, s);
            assert forall|i: int| 0 <= i < t.len() implies (#[trigger] t[i]).wf() by {
                if i > 0 {
                    assert(t[i] == s[i - 1]);
                }
            }
            assert forall|i: int| #![trigger t[i]] 0 <= i && i + 1 < t.len() implies term_before(
                t[i].powers,
                t[i + 1].powers,
            ) by {
                if i == 0 {
                    assert(t[1] == s[0]);
                } else {
                    assert(t[i] == s[i - 1]);
                    assert(t[i + 1] == s[i]);
                }
            }
        }
    }
}

/// How folding a run of merge-insertions changes terms and coefficients:
/// term sets unite, coefficients add pointwise.
proof fn lemma_add_terms_props(s: Seq<TermView>, ts: Seq<TermView>)
    ensures
        forall|p: Seq<u32>| #[trigger] has_term(spec_add_terms(s, ts), p) == (has_term(s, p)
            || has_term(ts, p)),
        forall|p: Seq<u32>| #[trigger] coef_at(spec_add_terms(s, ts), p) == wadd(
            coef_at(s, p),
            coef_at(ts, p),
        ),
    decreases ts.len(),
{
    if ts.len() == 0 {
        assert forall|p: Seq<u32>| #[trigger] coef_at(spec_add_terms(s, ts), p) == wadd(
            coef_at(s, p),
            coef_at(ts, p),
        ) by {
            lemma_wadd_zero(coef_at(s, p));
        }
    } else {
        let t0 = ts[0];
        let rest = ts.drop_first();
        lemma_merged_props(s, t0);
        lemma_add_terms_props(merged_add(s, t0), rest);
        assert(spec_add_terms(s, ts) == spec_add_terms(merged_add(s, t0), rest));
        assert forall|p: Seq<u32>| #[trigger] has_term(spec_add_terms(s, ts), p) == (has_term(s, p)
            || has_term(ts, p)) by {
            assert(has_term(ts, p) == (t0.powers == p || has_term(rest, p)));
            assert(has_term(spec_add_terms(s, ts), p) == (has_term(merged_add(s, t0), p)
                || has_term(rest, p)));
        }
        assert forall|p: Seq<u32>| #[trigger] coef_at(spec_add_terms(s, ts), p) == wadd(
            coef_at(s, p),
            coef_at(ts, p),
        ) by {
            assert(coef_at(ts, p) == (if t0.powers == p {
                wadd(t0.coef, coef_at(rest, p))
            } else {
                coef_at(rest, p)
            }));
            assert(coef_at(spec_add_terms(s, ts), p) == wadd(
                coef_at(merged_add(s, t0), p),
                coef_at(rest, p),
            ));
            if t0.powers == p {
                lemma_wadd_assoc(coef_at(s, p), t0.coef, coef_at(rest, p));
            }
        }
    }
}

/// Folding a run of well-formed terms keeps the canonical form.
proof fn lemma_add_terms_wf(s: Seq<TermView>, ts: Seq<TermView>)
    requires
        poly_wf(s),
        all_wf(ts),
    ensures
        poly_wf(spec_add_terms(s, ts)),
    decreases ts.len(),
{
    if ts.len() > 0 {
        lemma_merged_wf(s, ts[0]);
        let rest = ts.drop_first();
        assert forall|i: int| 0 <= i < rest.len() implies (#[trigger] rest[i]).wf() by {
            assert(rest[i] == ts[i + 1]);
        }
        lemma_add_terms_wf(merged_add(s, ts[0]), rest);
    }
}

/// A canonical sequence is in particular a sequence of well-formed
/// terms.
proof fn lemma_wf_all_wf(s: Seq<TermView>)
    requires
        poly_wf(s),
    ensures
        all_wf(s),
{
}

/// Addition is commutative up to the canonical form, and therefore up
/// to the rendered text.
pub proof fn lemma_add_comm(a: Seq<TermView>, b: Seq<TermView>)
    requires
        poly_wf(a),
        poly_wf(b),
    ensures
        spec_add_terms(a, b) == spec_add_terms(b, a),
        poly_str(spec_add_terms(a, b)) == poly_str(spec_add_terms(b, a)),
{
    lemma_add_terms_props(a, b);
    lemma_add_terms_props(b, a);
    lemma_wf_all_wf(a);
    lemma_wf_all_wf(b);
    lemma_add_terms_wf(a, b);
    lemma_add_terms_wf(b, a);
    assert forall|p: Seq<u32>| #[trigger] coef_at(spec_add_terms(a, b), p) == coef_at(
        spec_add_terms(b, a),
        p,
    ) by {
        lemma_wadd_comm(coef_at(a, p), coef_at(b, p));
    }
    assert forall|p: Seq<u32>| #[trigger] has_term(spec_add_terms(a, b), p) == has_term(
        spec_add_terms(b, a),
        p,
    ) by {
    }
    lemma_canonical_unique(spec_add_terms(a, b), spec_add_terms(b, a));
}

/// Addition is associative up to the canonical form, and therefore up
/// to the rendered text.
pub proof fn lemma_add_assoc(a: Seq<TermView>, b: Seq<TermView>, c: Seq<TermView>)
    requires
        poly_wf(a),
        poly_wf(b),
        poly_wf(c),
    ensures
        spec_add_terms(spec_add_terms(a, b), c) == spec_add_terms(a, spec_add_terms(b, c)),
        poly_str(spec_add_terms(spec_add_terms(a, b), c)) == poly_str(
            spec_add_terms(a, spec_add_terms(b, c)),
        ),
{
    lemma_wf_all_wf(b);
    lemma_wf_all_wf(c);
    lemma_add_terms_wf(a, b);
    lemma_add_terms_wf(b, c);
    lemma_wf_all_wf(spec_add_terms(b, c));
    lemma_wf_all_wf(c);
    lemma_add_terms_wf(spec_add_terms(a, b), c);
    lemma_add_terms_wf(a, spec_add_terms(b, c));
    lemma_add_terms_props(a, b);
    lemma_add_terms_props(b, c);
    lemma_add_terms_props(spec_add_terms(a, b), c);
    lemma_add_terms_props(a, spec_add_terms(b, c));
    assert forall|p: Seq<u32>| #[trigger] coef_at(spec_add_terms(spec_add_terms(a, b), c), p)
        == coef_at(spec_add_terms(a, spec_add_terms(b, c)), p) by {
        lemma_wadd_assoc(coef_at(a, p), coef_at(b, p), coef_at(c, p));
    }
    assert forall|p: Seq<u32>| #[trigger] has_term(spec_add_terms(spec_add_terms(a, b), c), p)
        == has_term(spec_add_terms(a, spec_add_terms(b, c)), p) by {
    }
    lemma_canonical_unique(
        spec_add_terms(spec_add_terms(a, b), c),
        spec_add_terms(a, spec_add_terms(b, c)),
    );
}

/// The pair_coefution of one product term to the coefficient of `p`.
pub open spec fn pair_coef(m: TermView, p: Seq<u32>) -> i64 {
    if m.powers == p {
        m.coef
    } else {
        0i64
    }
}

/// The summed pair_coefution of one left term against a run of right
/// terms.
pub open spec fn row_sum(a: TermView, ts: Seq<TermView>, p: Seq<u32>) -> i64
    decreases ts.len(),
{
    if ts.len() == 0 {
        0i64
    } else {
        wadd(pair_coef(term_prod(a, ts[0]), p), row_sum(a, ts.drop_first(), p))
    }
}

/// The summed pair_coefution of all pairs of terms.
pub open spec fn grid_sum(ss: Seq<TermView>, ts: Seq<TermView>, p: Seq<u32>) -> i64
    decreases ss.len(),
{
    if ss.len() == 0 {
        0i64
    } else {
        wadd(row_sum(ss[0], ts, p), grid_sum(ss.drop_first(), ts, p))
    }
}

/// Whether one left term times some right term lands on `p`.
pub open spec fn row_has(a: TermView, ts: Seq<TermView>, p: Seq<u32>) -> bool
    decreases ts.len(),
{
    if ts.len() == 0 {
        false
    } else {
        term_prod(a, ts[0]).powers == p || row_has(a, ts.drop_first(), p)
    }
}

/// Whether some pair of terms lands on `p`.
pub open spec fn grid_has(ss: Seq<TermView>, ts: Seq<TermView>, p: Seq<u32>) -> bool
    decreases ss.len(),
{
    if ss.len() == 0 {
        false
    } else {
        row_has(ss[0], ts, p) || grid_has(ss.drop_first(), ts, p)
    }
}

/// The product of two terms does not depend on their order.
proof fn lemma_term_prod_comm(x: TermView, y: TermView)
    ensures
        term_prod(x, y) == term_prod(y, x),
{
    assert(x.coef * y.coef == y.coef * x.coef) by (nonlinear_arith);
    assert(term_prod(x, y).powers =~= term_prod(y, x).powers);
}

/// How one row of products changes terms and coefficients.
proof fn lemma_mul_row_props(acc: Seq<TermView>, a: TermView, ts: Seq<TermView>)
    ensures
        forall|p: Seq<u32>| #[trigger] has_term(spec_mul_row(acc, a, ts), p) == (has_term(acc, p)
            || row_has(a, ts, p)),
        forall|p: Seq<u32>| #[trigger] coef_at(spec_mul_row(acc, a, ts), p) == wadd(
            coef_at(acc, p),
            row_sum(a, ts, p),
        ),
    decreases ts.len(),
{
    if ts.len() == 0 {
        assert forall|p: Seq<u32>| #[trigger] coef_at(spec_mul_row(acc, a, ts), p) == wadd(
            coef_at(acc, p),
            row_sum(a, ts, p),
        ) by {
            lemma_wadd_zero(coef_at(acc, p));
        }
    } else {
        let prod = term_prod(a, ts[0]);
        let rest = ts.drop_first();
        lemma_merged_props(acc, prod);
        lemma_mul_row_props(merged_add(acc, prod), a, rest);
        assert(spec_mul_row(acc, a, ts) == spec_mul_row(merged_add(acc, prod), a, rest));
        assert forall|p: Seq<u32>| #[trigger] has_term(spec_mul_row(acc, a, ts), p) == (has_term(
            acc,
            p,
        ) || row_has(a, ts, p)) by {
            assert(row_has(a, ts, p) == (prod.powers == p || row_has(a, rest, p)));
            assert(has_term(spec_mul_row(acc, a, ts), p) == (has_term(merged_add(acc, prod), p)
                || row_has(a, rest, p)));
        }
        assert forall|p: Seq<u32>| #[trigger] coef_at(spec_mul_row(acc, a, ts), p) == wadd(
            coef_at(acc, p),
            row_sum(a, ts, p),
        ) by {
            assert(row_sum(a, ts, p) == wadd(pair_coef(prod, p), row_sum(a, rest, p)));
            assert(coef_at(spec_mul_row(acc, a, ts), p) == wadd(
                coef_at(merged_add(acc, prod), p),
                row_sum(a, rest, p),
            ));
            if prod.powers == p {
                lemma_wadd_assoc(coef_at(acc, p), prod.coef, row_sum(a, rest, p));
            } else {
                lemma_wadd_zero(row_sum(a, rest, p));
            }
        }
    }
}

/// How the whole grid of products changes terms and coefficients.
proof fn lemma_mul_acc_props(acc: Seq<TermView>, ss: Seq<TermView>, ts: Seq<TermView>)
    ensures
        forall|p: Seq<u32>| #[trigger] has_term(spec_mul_acc(acc, ss, ts), p) == (has_term(acc, p)
            || grid_has(ss, ts, p)),
        forall|p: Seq<u32>| #[trigger] coef_at(spec_mul_acc(acc, ss, ts), p) == wadd(
            coef_at(acc, p),
            grid_sum(ss, ts, p),
        ),
    decreases ss.len(),
{
    if ss.len() == 0 {
        assert forall|p: Seq<u32>| #[trigger] coef_at(spec_mul_acc(acc, ss, ts), p) == wadd(
            coef_at(acc, p),
            grid_sum(ss, ts, p),
        ) by {
            lemma_wadd_zero(coef_at(acc, p));
        }
    } else {
        let rest = ss.drop_first();
        lemma_mul_row_props(acc, ss[0], ts);
        lemma_mul_acc_props(spec_mul_row(acc, ss[0], ts), rest, ts);
        assert(spec_mul_acc(acc, ss, ts) == spec_mul_acc(spec_mul_row(acc, ss[0], ts), rest, ts));
        assert forall|p: Seq<u32>| #[trigger] coef_at(spec_mul_acc(acc, ss, ts), p) == wadd(
            coef_at(acc, p),
            grid_sum(ss, ts, p),
        ) by {
            assert(grid_sum(ss, ts, p) == wadd(row_sum(ss[0], ts, p), grid_sum(rest, ts, p)));
            assert(coef_at(spec_mul_acc(acc, ss, ts), p) == wadd(
                coef_at(spec_mul_row(acc, ss[0], ts), p),
                grid_sum(rest, ts, p),
            ));
            lemma_wadd_assoc(coef_at(acc, p), row_sum(ss[0], ts, p), grid_sum(rest, ts, p));
        }
        assert forall|p: Seq<u32>| #[trigger] has_term(spec_mul_acc(acc, ss, ts), p) == (has_term(
            acc,
            p,
        ) || grid_has(ss, ts, p)) by {
            assert(grid_has(ss, ts, p) == (row_has(ss[0], ts, p) || grid_has(rest, ts, p)));
            assert(has_term(spec_mul_acc(acc, ss, ts), p) == (has_term(
                spec_mul_row(acc, ss[0], ts),
                p,
            ) || grid_has(rest, ts, p)));
        }
    }
}

/// A row of merge-insertions keeps the canonical form: every product
/// term is well formed whatever its factors hold.
proof fn lemma_mul_row_wf(acc: Seq<TermView>, a: TermView, ts: Seq<TermView>)
    requires
        poly_wf(acc),
    ensures
        poly_wf(spec_mul_row(acc, a, ts)),
    decreases ts.len(),
{
    if ts.len() > 0 {
        assert(term_prod(a, ts[0]).wf());
        lemma_merged_wf(acc, term_prod(a, ts[0]));
        lemma_mul_row_wf(merged_add(acc, term_prod(a, ts[0])), a, ts.drop_first());
    }
}

proof fn lemma_mul_acc_wf(acc: Seq<TermView>, ss: Seq<TermView>, ts: Seq<TermView>)
    requires
        poly_wf(acc),
    ensures
        poly_wf(spec_mul_acc(acc, ss, ts)),
    decreases ss.len(),
{
    if ss.len() > 0 {
        lemma_mul_row_wf(acc, ss[0], ts);
        lemma_mul_acc_wf(spec_mul_row(acc, ss[0], ts), ss.drop_first(), ts);
    }
}

/// A grid summed against no rows is zero.
proof fn lemma_grid_sum_empty(ts: Seq<TermView>, p: Seq<u32>)
    ensures
        grid_sum(ts, Seq::<TermView>::empty(), p) == 0,
        !grid_has(ts, Seq::<TermView>::empty(), p),
    decreases ts.len(),
{
    if ts.len() > 0 {
        lemma_grid_sum_empty(ts.drop_first(), p);
        lemma_wadd_zero(0);
    }
}

/// Summing the pair_coefutions of one fixed right term over a run of left
/// terms is the same as the row of that term on the other side.
proof fn lemma_col_row(ts: Seq<TermView>, a: TermView, p: Seq<u32>)
    ensures
        row_sum(a, ts, p) == col_sum(ts, a, p),
        row_has(a, ts, p) == col_has(ts, a, p),
    decreases ts.len(),
{
    if ts.len() > 0 {
        lemma_term_prod_comm(a, ts[0]);
        lemma_col_row(ts.drop_first(), a, p);
    }
}

/// The pair_coefution of a fixed right term against each left term.
pub open spec fn col_sum(ts: Seq<TermView>, a: TermView, p: Seq<u32>) -> i64
    decreases ts.len(),
{
    if ts.len() == 0 {
        0i64
    } else {
        wadd(pair_coef(term_prod(ts[0], a), p), col_sum(ts.drop_first(), a, p))
    }
}

pub open spec fn col_has(ts: Seq<TermView>, a: TermView, p: Seq<u32>) -> bool
    decreases ts.len(),
{
    if ts.len() == 0 {
        false
    } else {
        term_prod(ts[0], a).powers == p || col_has(ts.drop_first(), a, p)
    }
}

/// Splitting off the first right-hand term: the grid against
/// `cons(a, ss2)` is the column of `a` plus the grid against `ss2`.
proof fn lemma_grid_cons_second(ts: Seq<TermView>, u: Seq<TermView>, p: Seq<u32>)
    requires
        u.len() > 0,
    ensures
        grid_sum(ts, u, p) == wadd(col_sum(ts, u[0], p), grid_sum(ts, u.drop_first(), p)),
        grid_has(ts, u, p) == (col_has(ts, u[0], p) || grid_has(ts, u.drop_first(), p)),
    decreases ts.len(),
{
    let a = u[0];
    let ss2 = u.drop_first();
    if ts.len() == 0 {
        lemma_wadd_zero(0);
    } else {
        let y = ts[0];
        let tr = ts.drop_first();
        lemma_grid_cons_second(tr, u, p);
        assert(row_sum(y, u, p) == wadd(pair_coef(term_prod(y, a), p), row_sum(y, ss2, p)));
        assert(row_has(y, u, p) == (term_prod(y, a).powers == p || row_has(y, ss2, p)));
        assert(grid_sum(ts, u, p) == wadd(row_sum(y, u, p), grid_sum(tr, u, p)));
        assert(col_sum(ts, a, p) == wadd(pair_coef(term_prod(y, a), p), col_sum(tr, a, p)));
        assert(grid_sum(ts, ss2, p) == wadd(row_sum(y, ss2, p), grid_sum(tr, ss2, p)));
        let c = pair_coef(term_prod(y, a), p);
        let r = row_sum(y, ss2, p);
        let cs = col_sum(tr, a, p);
        let gs = grid_sum(tr, ss2, p);
        assert(grid_sum(ts, u, p) == wadd(wadd(c, r), wadd(cs, gs)));
        assert(wadd(wadd(c, r), wadd(cs, gs)) == wadd(wadd(c, cs), wadd(r, gs))) by {
            lemma_wadd_assoc(wadd(c, r), cs, gs);
            lemma_wadd_assoc(c, r, cs);
            lemma_wadd_comm(r, cs);
            lemma_wadd_assoc(c, cs, r);
            lemma_wadd_assoc(wadd(c, cs), r, gs);
        }
    }
}

/// Exchanging the two sides of the grid leaves every sum and every
/// term-hit unchanged.
proof fn lemma_grid_exchange(ss: Seq<TermView>, ts: Seq<TermView>, p: Seq<u32>)
    ensures
        grid_sum(ss, ts, p) == grid_sum(ts, ss, p),
        grid_has(ss, ts, p) == grid_has(ts, ss, p),
    decreases ss.len(),
{
    if ss.len() == 0 {
        assert(ss =~= Seq::<TermView>::empty());
        lemma_grid_sum_empty(ts, p);
    } else {
        let a = ss[0];
        let rest = ss.drop_first();
        lemma_grid_exchange(rest, ts, p);
        lemma_grid_cons_second(ts, ss, p);
        lemma_col_row(ts, a, p);
        assert(grid_sum(ss, ts, p) == wadd(row_sum(a, ts, p), grid_sum(rest, ts, p)));
        assert(grid_has(ss, ts, p) == (row_has(a, ts, p) || grid_has(rest, ts, p)));
        assert(ss.drop_first() == rest);
        assert(grid_sum(ts, ss, p) == wadd(col_sum(ts, a, p), grid_sum(ts, rest, p)));
        assert(grid_has(ts, ss, p) == (col_has(ts, a, p) || grid_has(ts, rest, p)));
        assert(col_sum(ts, a, p) == row_sum(a, ts, p));
        assert(grid_sum(ts, rest, p) == grid_sum(rest, ts, p));
        assert(grid_sum(ss, ts, p) == grid_sum(ts, ss, p));
        assert(grid_has(ss, ts, p) == grid_has(ts, ss, p));
    }
}

/// Multiplication is commutative up to the canonical form, and
/// therefore up to the rendered text.
pub proof fn lemma_mul_comm(a: Seq<TermView>, b: Seq<TermView>)
    requires
        poly_wf(a),
        poly_wf(b),
    ensures
        spec_mul(a, b) == spec_mul(b, a),
        poly_str(spec_mul(a, b)) == poly_str(spec_mul(b, a)),
{
    let e = Seq::<TermView>::empty();
    assert(poly_wf(e));
    lemma_mul_acc_props(e, a, b);
    lemma_mul_acc_props(e, b, a);
    lemma_mul_acc_wf(e, a, b);
    lemma_mul_acc_wf(e, b, a);
    assert forall|p: Seq<u32>| #[trigger] coef_at(spec_mul(a, b), p) == coef_at(
        spec_mul(b, a),
        p,
    ) by {
        lemma_grid_exchange(a, b, p);
        assert(coef_at(e, p) == 0);
        lemma_wadd_comm(0, grid_sum(a, b, p));
        lemma_wadd_zero(grid_sum(a, b, p));
        lemma_wadd_zero(grid_sum(b, a, p));
    }
    assert forall|p: Seq<u32>| #[trigger] has_term(spec_mul(a, b), p) == has_term(
        spec_mul(b, a),
        p,
    ) by {
        lemma_grid_exchange(a, b, p);
    }
    lemma_canonical_unique(spec_mul(a, b), spec_mul(b, a));
}

/// The slotwise wrapped sum of two power vectors.
pub open spec fn pow_add(q: Seq<u32>, w: Seq<u32>) -> Seq<u32> {
    seq![wadd_u32(q[0], w[0]), wadd_u32(q[1], w[1]), wadd_u32(q[2], w[2])]
}

/// The contribution of one product, in closed form: its exact powers
/// carry the wrapped coefficient product, everything else zero. A zero
/// product coefficient contributes zero wherever the collapsed term
/// lands, so the collapse is invisible here.
proof fn lemma_pair_coef_closed(a: TermView, w: TermView, p: Seq<u32>)
    ensures
        pair_coef(term_prod(a, w), p) == if pow_add(a.powers, w.powers) == p {
            wmul(a.coef, w.coef)
        } else {
            0i64
        },
{
    if wmul(a.coef, w.coef) == 0 {
        assert(term_prod(a, w).coef == 0);
    }
}

/// Wrapped multiplication is commutative.
proof fn lemma_wmul_comm_local(a: i64, b: i64)
    ensures
        wmul(a, b) == wmul(b, a),
{
    assert(a * b == b * a) by (nonlinear_arith);
}

/// The contribution of a product is linear in the left coefficient.
proof fn lemma_pair_coef_linear_left(c1: i64, c2: i64, q: Seq<u32>, w: TermView, p: Seq<u32>)
    ensures
        pair_coef(term_prod(TermView { coef: wadd(c1, c2), powers: q }, w), p) == wadd(
            pair_coef(term_prod(TermView { coef: c1, powers: q }, w), p),
            pair_coef(term_prod(TermView { coef: c2, powers: q }, w), p),
        ),
{
    lemma_pair_coef_closed(TermView { coef: wadd(c1, c2), powers: q }, w, p);
    lemma_pair_coef_closed(TermView { coef: c1, powers: q }, w, p);
    lemma_pair_coef_closed(TermView { coef: c2, powers: q }, w, p);
    lemma_wmul_distrib(c1, c2, w.coef);
    lemma_wadd_zero(0);
}

/// The contribution of a product is linear in the right coefficient.
proof fn lemma_pair_coef_linear_right(x: TermView, c1: i64, c2: i64, q: Seq<u32>, p: Seq<u32>)
    ensures
        pair_coef(term_prod(x, TermView { coef: wadd(c1, c2), powers: q }), p) == wadd(
            pair_coef(term_prod(x, TermView { coef: c1, powers: q }), p),
            pair_coef(term_prod(x, TermView { coef: c2, powers: q }), p),
        ),
{
    lemma_pair_coef_closed(x, TermView { coef: wadd(c1, c2), powers: q }, p);
    lemma_pair_coef_closed(x, TermView { coef: c1, powers: q }, p);
    lemma_pair_coef_closed(x, TermView { coef: c2, powers: q }, p);
    lemma_wmul_comm_local(x.coef, wadd(c1, c2));
    lemma_wmul_comm_local(x.coef, c1);
    lemma_wmul_comm_local(x.coef, c2);
    lemma_wmul_distrib(c1, c2, x.coef);
    lemma_wadd_zero(0);
}

/// A row is linear in its term's coefficient.
proof fn lemma_row_sum_linear(c1: i64, c2: i64, q: Seq<u32>, ts: Seq<TermView>, p: Seq<u32>)
    ensures
        row_sum(TermView { coef: wadd(c1, c2), powers: q }, ts, p) == wadd(
            row_sum(TermView { coef: c1, powers: q }, ts, p),
            row_sum(TermView { coef: c2, powers: q }, ts, p),
        ),
    decreases ts.len(),
{
    if ts.len() == 0 {
        lemma_wadd_zero(0);
    } else {
        lemma_row_sum_linear(c1, c2, q, ts.drop_first(), p);
        lemma_pair_coef_linear_left(c1, c2, q, ts[0], p);
        let a1 = pair_coef(term_prod(TermView { coef: c1, powers: q }, ts[0]), p);
        let a2 = pair_coef(term_prod(TermView { coef: c2, powers: q }, ts[0]), p);
        let r1 = row_sum(TermView { coef: c1, powers: q }, ts.drop_first(), p);
        let r2 = row_sum(TermView { coef: c2, powers: q }, ts.drop_first(), p);
        assert(wadd(wadd(a1, a2), wadd(r1, r2)) == wadd(wadd(a1, r1), wadd(a2, r2))) by {
            lemma_wadd_assoc(wadd(a1, a2), r1, r2);
            lemma_wadd_assoc(a1, a2, r1);
            lemma_wadd_comm(a2, r1);
            lemma_wadd_assoc(a1, r1, a2);
            lemma_wadd_assoc(wadd(a1, r1), a2, r2);
        }
    }
}

proof fn lemma_grid_cons(x: TermView, t: Seq<TermView>, ts: Seq<TermView>, p: Seq<u32>)
    ensures
        grid_sum(seq![x] + t, ts, p) == wadd(row_sum(x, ts, p), grid_sum(t, ts, p)),
{
    lemma_cons_parts(x, t);
}

proof fn lemma_row_cons(x: TermView, y: TermView, t: Seq<TermView>, p: Seq<u32>)
    ensures
        row_sum(x, seq![y] + t, p) == wadd(pair_coef(term_prod(x, y), p), row_sum(x, t, p)),
{
    lemma_cons_parts(y, t);
}

/// Merge-inserting on the left adds one row to the grid sum.
proof fn lemma_grid_sum_merged(s: Seq<TermView>, m: TermView, ts: Seq<TermView>, p: Seq<u32>)
    ensures
        grid_sum(merged_add(s, m), ts, p) == wadd(grid_sum(s, ts, p), row_sum(m, ts, p)),
    decreases s.len(),
{
    if s.len() == 0 {
        lemma_grid_cons(m, Seq::<TermView>::empty(), ts, p);
        assert(seq![m] + Seq::<TermView>::empty() =~= seq![m]);
        lemma_wadd_zero(row_sum(m, ts, p));
        lemma_wadd_comm(row_sum(m, ts, p), 0);
    } else {
        let s0 = s[0];
        let rest = s.drop_first();
        let rm = row_sum(m, ts, p);
        let r0 = row_sum(s0, ts, p);
        let gr = grid_sum(rest, ts, p);
        assert(grid_sum(s, ts, p) == wadd(r0, gr));
        if term_before(s0.powers, m.powers) {
            lemma_grid_sum_merged(rest, m, ts, p);
            assert(merged_add(s, m) == seq![s0] + merged_add(rest, m));
            lemma_grid_cons(s0, merged_add(rest, m), ts, p);
            assert(wadd(r0, wadd(gr, rm)) == wadd(wadd(r0, gr), rm)) by {
                lemma_wadd_assoc(r0, gr, rm);
            }
        } else if s0.powers == m.powers {
            let merged_head = TermView { coef: wadd(s0.coef, m.coef), powers: s0.powers };
            assert(merged_add(s, m) == seq![merged_head] + rest);
            lemma_grid_cons(merged_head, rest, ts, p);
            lemma_row_sum_linear(s0.coef, m.coef, s0.powers, ts, p);
            assert(row_sum(TermView { coef: s0.coef, powers: s0.powers }, ts, p) == r0);
            assert(TermView { coef: m.coef, powers: s0.powers } == m);
            assert(wadd(wadd(r0, rm), gr) == wadd(wadd(r0, gr), rm)) by {
                lemma_wadd_assoc(r0, rm, gr);
                lemma_wadd_comm(rm, gr);
                lemma_wadd_assoc(r0, gr, rm);
            }
        } else {
            assert(merged_add(s, m) == seq![m] + s);
            lemma_grid_cons(m, s, ts, p);
            lemma_wadd_comm(rm, grid_sum(s, ts, p));
        }
    }
}

/// Merge-inserting on the right adds one contribution to a row sum.
proof fn lemma_row_sum_merged_right(x: TermView, s: Seq<TermView>, m: TermView, p: Seq<u32>)
    ensures
        row_sum(x, merged_add(s, m), p) == wadd(
            row_sum(x, s, p),
            pair_coef(term_prod(x, m), p),
        ),
    decreases s.len(),
{
    let pm = pair_coef(term_prod(x, m), p);
    if s.len() == 0 {
        lemma_row_cons(x, m, Seq::<TermView>::empty(), p);
        assert(seq![m] + Seq::<TermView>::empty() =~= seq![m]);
        lemma_wadd_zero(pm);
        lemma_wadd_comm(pm, 0);
    } else {
        let s0 = s[0];
        let rest = s.drop_first();
        let p0 = pair_coef(term_prod(x, s0), p);
        let rr = row_sum(x, rest, p);
        assert(row_sum(x, s, p) == wadd(p0, rr));
        if term_before(s0.powers, m.powers) {
            lemma_row_sum_merged_right(x, rest, m, p);
            assert(merged_add(s, m) == seq![s0] + merged_add(rest, m));
            lemma_row_cons(x, s0, merged_add(rest, m), p);
            assert(wadd(p0, wadd(rr, pm)) == wadd(wadd(p0, rr), pm)) by {
                lemma_wadd_assoc(p0, rr, pm);
            }
        } else if s0.powers == m.powers {
            let merged_head = TermView { coef: wadd(s0.coef, m.coef), powers: s0.powers };
            assert(merged_add(s, m) == seq![merged_head] + rest);
            lemma_row_cons(x, merged_head, rest, p);
            lemma_pair_coef_linear_right(x, s0.coef, m.coef, s0.powers, p);
            assert(TermView { coef: s0.coef, powers: s0.powers } == s0);
            assert(TermView { coef: m.coef, powers: s0.powers } == m);
            assert(wadd(wadd(p0, pm), rr) == wadd(wadd(p0, rr), pm)) by {
                lemma_wadd_assoc(p0, pm, rr);
                lemma_wadd_comm(pm, rr);
                lemma_wadd_assoc(p0, rr, pm);
            }
        } else {
            assert(merged_add(s, m) == seq![m] + s);
            lemma_row_cons(x, m, s, p);
            lemma_wadd_comm(pm, row_sum(x, s, p));
        }
    }
}

/// The contribution of one left term through one middle term against a
/// run of right terms.
pub open spec fn trip_row2(x: TermView, y: TermView, c: Seq<TermView>, p: Seq<u32>) -> i64
    decreases c.len(),
{
    if c.len() == 0 {
        0i64
    } else {
        wadd(
            pair_coef(term_prod(x, term_prod(y, c[0])), p),
            trip_row2(x, y, c.drop_first(), p),
        )
    }
}

/// The contribution of one left term against all middle and right terms.
pub open spec fn trip_mid(x: TermView, b: Seq<TermView>, c: Seq<TermView>, p: Seq<u32>) -> i64
    decreases b.len(),
{
    if b.len() == 0 {
        0i64
    } else {
        wadd(trip_row2(x, b[0], c, p), trip_mid(x, b.drop_first(), c, p))
    }
}

/// The summed contribution of all term triples.
pub open spec fn trip_sum(a: Seq<TermView>, b: Seq<TermView>, c: Seq<TermView>, p: Seq<u32>) -> i64
    decreases a.len(),
{
    if a.len() == 0 {
        0i64
    } else {
        wadd(trip_mid(a[0], b, c, p), trip_sum(a.drop_first(), b, c, p))
    }
}

/// The products of one left term with a run of middle terms contribute
/// row by row.
pub open spec fn trip_left_row(x: TermView, b: Seq<TermView>, c: Seq<TermView>, p: Seq<u32>) -> i64
    decreases b.len(),
{
    if b.len() == 0 {
        0i64
    } else {
        wadd(row_sum(term_prod(x, b[0]), c, p), trip_left_row(x, b.drop_first(), c, p))
    }
}

/// Grouping a product of terms either way gives the same contribution:
/// the power vectors add associatively, the coefficients multiply
/// associatively, and a zero anywhere zeroes both sides.
proof fn lemma_pair_coef_assoc(x: TermView, y: TermView, z: TermView, p: Seq<u32>)
    ensures
        pair_coef(term_prod(term_prod(x, y), z), p) == pair_coef(
            term_prod(x, term_prod(y, z)),
            p,
        ),
{
    lemma_wmul_assoc(x.coef, y.coef, z.coef);
    let xy = term_prod(x, y);
    let yz = term_prod(y, z);
    lemma_pair_coef_closed(xy, z, p);
    lemma_pair_coef_closed(x, yz, p);
    if wmul(wmul(x.coef, y.coef), z.coef) == 0 {
        assert(wmul(xy.coef, z.coef) == 0);
        assert(wmul(x.coef, yz.coef) == 0);
    } else {
        assert(wmul(x.coef, y.coef) != 0);
        assert(wmul(y.coef, z.coef) != 0) by {
            lemma_wmul_assoc(x.coef, y.coef, z.coef);
        }
        assert(xy.powers == pow_add(x.powers, y.powers));
        assert(yz.powers == pow_add(y.powers, z.powers));
        assert(pow_add(pow_add(x.powers, y.powers), z.powers) =~= pow_add(
            x.powers,
            pow_add(y.powers, z.powers),
        )) by {
            lemma_wadd_u32_assoc(x.powers[0], y.powers[0], z.powers[0]);
            lemma_wadd_u32_assoc(x.powers[1], y.powers[1], z.powers[1]);
            lemma_wadd_u32_assoc(x.powers[2], y.powers[2], z.powers[2]);
        }
        assert(wmul(xy.coef, z.coef) == wmul(x.coef, yz.coef));
    }
}

/// A row of a grouped product equals the doubly-nested contribution.
proof fn lemma_row2_eq(x: TermView, y: TermView, c: Seq<TermView>, p: Seq<u32>)
    ensures
        row_sum(term_prod(x, y), c, p) == trip_row2(x, y, c, p),
    decreases c.len(),
{
    if c.len() > 0 {
        lemma_pair_coef_assoc(x, y, c[0], p);
        lemma_row2_eq(x, y, c.drop_first(), p);
    }
}

proof fn lemma_trip_left_row_eq(x: TermView, b: Seq<TermView>, c: Seq<TermView>, p: Seq<u32>)
    ensures
        trip_left_row(x, b, c, p) == trip_mid(x, b, c, p),
    decreases b.len(),
{
    if b.len() > 0 {
        lemma_row2_eq(x, b[0], c, p);
        lemma_trip_left_row_eq(x, b.drop_first(), c, p);
    }
}

/// Multiplying one left term into the accumulator adds exactly its
/// grouped contribution to the grid sum.
proof fn lemma_grid_of_mul_row(
    acc: Seq<TermView>,
    x: TermView,
    b: Seq<TermView>,
    c: Seq<TermView>,
    p: Seq<u32>,
)
    ensures
        grid_sum(spec_mul_row(acc, x, b), c, p) == wadd(
            grid_sum(acc, c, p),
            trip_left_row(x, b, c, p),
        ),
    decreases b.len(),
{
    if b.len() == 0 {
        lemma_wadd_zero(grid_sum(acc, c, p));
    } else {
        let prod = term_prod(x, b[0]);
        lemma_grid_of_mul_row(merged_add(acc, prod), x, b.drop_first(), c, p);
        lemma_grid_sum_merged(acc, prod, c, p);
        let g = grid_sum(acc, c, p);
        let r = row_sum(prod, c, p);
        let t = trip_left_row(x, b.drop_first(), c, p);
        assert(wadd(wadd(g, r), t) == wadd(g, wadd(r, t))) by {
            lemma_wadd_assoc(g, r, t);
        }
    }
}

proof fn lemma_grid_of_mul_acc(
    acc: Seq<TermView>,
    a: Seq<TermView>,
    b: Seq<TermView>,
    c: Seq<TermView>,
    p: Seq<u32>,
)
    ensures
        grid_sum(spec_mul_acc(acc, a, b), c, p) == wadd(
            grid_sum(acc, c, p),
            trip_sum_left(a, b, c, p),
        ),
    decreases a.len(),
{
    if a.len() == 0 {
        lemma_wadd_zero(grid_sum(acc, c, p));
    } else {
        lemma_grid_of_mul_acc(spec_mul_row(acc, a[0], b), a.drop_first(), b, c, p);
        lemma_grid_of_mul_row(acc, a[0], b, c, p);
        let g = grid_sum(acc, c, p);
        let r = trip_left_row(a[0], b, c, p);
        let t = trip_sum_left(a.drop_first(), b, c, p);
        assert(wadd(wadd(g, r), t) == wadd(g, wadd(r, t))) by {
            lemma_wadd_assoc(g, r, t);
        }
    }
}

/// The left-grouped triple sum.
pub open spec fn trip_sum_left(
    a: Seq<TermView>,
    b: Seq<TermView>,
    c: Seq<TermView>,
    p: Seq<u32>,
) -> i64
    decreases a.len(),
{
    if a.len() == 0 {
        0i64
    } else {
        wadd(trip_left_row(a[0], b, c, p), trip_sum_left(a.drop_first(), b, c, p))
    }
}

proof fn lemma_trip_sums_eq(a: Seq<TermView>, b: Seq<TermView>, c: Seq<TermView>, p: Seq<u32>)
    ensures
        trip_sum_left(a, b, c, p) == trip_sum(a, b, c, p),
    decreases a.len(),
{
    if a.len() > 0 {
        lemma_trip_left_row_eq(a[0], b, c, p);
        lemma_trip_sums_eq(a.drop_first(), b, c, p);
    }
}

/// One row against a right-grouped product accumulates the nested
/// contributions.
proof fn lemma_row_of_mul_row(
    x: TermView,
    acc: Seq<TermView>,
    y: TermView,
    c: Seq<TermView>,
    p: Seq<u32>,
)
    ensures
        row_sum(x, spec_mul_row(acc, y, c), p) == wadd(
            row_sum(x, acc, p),
            trip_row2(x, y, c, p),
        ),
    decreases c.len(),
{
    if c.len() == 0 {
        lemma_wadd_zero(row_sum(x, acc, p));
    } else {
        let prod = term_prod(y, c[0]);
        lemma_row_of_mul_row(x, merged_add(acc, prod), y, c.drop_first(), p);
        lemma_row_sum_merged_right(x, acc, prod, p);
        let g = row_sum(x, acc, p);
        let r = pair_coef(term_prod(x, prod), p);
        let t = trip_row2(x, y, c.drop_first(), p);
        assert(wadd(wadd(g, r), t) == wadd(g, wadd(r, t))) by {
            lemma_wadd_assoc(g, r, t);
        }
    }
}

proof fn lemma_row_of_mul_acc(
    x: TermView,
    acc: Seq<TermView>,
    b: Seq<TermView>,
    c: Seq<TermView>,
    p: Seq<u32>,
)
    ensures
        row_sum(x, spec_mul_acc(acc, b, c), p) == wadd(row_sum(x, acc, p), trip_mid(x, b, c, p)),
    decreases b.len(),
{
    if b.len() == 0 {
        lemma_wadd_zero(row_sum(x, acc, p));
    } else {
        lemma_row_of_mul_acc(x, spec_mul_row(acc, b[0], c), b.drop_first(), c, p);
        lemma_row_of_mul_row(x, acc, b[0], c, p);
        let g = row_sum(x, acc, p);
        let r = trip_row2(x, b[0], c, p);
        let t = trip_mid(x, b.drop_first(), c, p);
        assert(wadd(wadd(g, r), t) == wadd(g, wadd(r, t))) by {
            lemma_wadd_assoc(g, r, t);
        }
    }
}

proof fn lemma_grid_of_right_mul(
    a: Seq<TermView>,
    b: Seq<TermView>,
    c: Seq<TermView>,
    p: Seq<u32>,
)
    ensures
        grid_sum(a, spec_mul(b, c), p) == trip_sum(a, b, c, p),
    decreases a.len(),
{
    if a.len() > 0 {
        lemma_grid_of_right_mul(a.drop_first(), b, c, p);
        lemma_row_of_mul_acc(a[0], Seq::<TermView>::empty(), b, c, p);
        lemma_wadd_zero(trip_mid(a[0], b, c, p));
        lemma_wadd_comm(0, trip_mid(a[0], b, c, p));
    }
}

/// Both groupings of the product have the same accumulated coefficient
/// at every term.
proof fn lemma_mul_assoc_coef(a: Seq<TermView>, b: Seq<TermView>, c: Seq<TermView>, p: Seq<u32>)
    ensures
        coef_at(spec_mul(spec_mul(a, b), c), p) == coef_at(spec_mul(a, spec_mul(b, c)), p),
{
    let e = Seq::<TermView>::empty();
    lemma_mul_acc_props(e, spec_mul(a, b), c);
    lemma_mul_acc_props(e, a, spec_mul(b, c));
    lemma_grid_of_mul_acc(e, a, b, c, p);
    lemma_grid_sum_empty(c, p);
    assert(grid_sum(e, c, p) == 0);
    lemma_wadd_zero(trip_sum_left(a, b, c, p));
    lemma_wadd_comm(0, trip_sum_left(a, b, c, p));
    lemma_trip_sums_eq(a, b, c, p);
    lemma_grid_of_right_mul(a, b, c, p);
    assert(coef_at(e, p) == 0);
    lemma_wadd_zero(grid_sum(spec_mul(a, b), c, p));
    lemma_wadd_comm(0, grid_sum(spec_mul(a, b), c, p));
    lemma_wadd_zero(grid_sum(a, spec_mul(b, c), p));
    lemma_wadd_comm(0, grid_sum(a, spec_mul(b, c), p));
}

/// Rendering from position `i` only reads the sequence from `i` on.
proof fn lemma_render_shift(s: Seq<TermView>, i: int, printed: bool)
    requires
        i >= 1,
        s.len() >= 1,
    ensures
        render_rest(s, i, printed) == render_rest(s.drop_first(), i - 1, printed),
    decreases s.len() - i,
{
    if i < s.len() {
        assert(s.drop_first()[i - 1] == s[i]);
        lemma_render_shift(s, i + 1, printed);
        lemma_render_shift(s, i + 1, true);
    }
}

/// Rendering is deterministic in the polynomial's mathematical content:
/// the canonical text is a function of the accumulated coefficients
/// alone, so two canonical sequences that agree on every term's
/// coefficient render identically, even if they differ in
/// zero-coefficient entries.
pub proof fn lemma_render_unique(s1: Seq<TermView>, s2: Seq<TermView>, printed: bool)
    requires
        poly_wf(s1),
        poly_wf(s2),
        forall|p: Seq<u32>| #[trigger] coef_at(s1, p) == coef_at(s2, p),
    ensures
        render_rest(s1, 0, printed) == render_rest(s2, 0, printed),
    decreases s1.len() + s2.len(),
{
    if s1.len() > 0 && s1[0].coef == 0 {
        let t1 = s1.drop_first();
        lemma_drop_first_wf(s1);
        lemma_render_shift(s1, 1, printed);
        assert forall|p: Seq<u32>| #[trigger] coef_at(t1, p) == coef_at(s2, p) by {
            if p == s1[0].powers {
                lemma_wadd_zero(coef_at(t1, p));
                lemma_wadd_comm(s1[0].coef, coef_at(t1, p));
                assert(coef_at(s1, p) == wadd(s1[0].coef, coef_at(t1, p)));
            } else {
                assert(coef_at(s1, p) == coef_at(t1, p));
            }
        }
        lemma_render_unique(t1, s2, printed);
    } else if s2.len() > 0 && s2[0].coef == 0 {
        let t2 = s2.drop_first();
        lemma_drop_first_wf(s2);
        lemma_render_shift(s2, 1, printed);
        assert forall|p: Seq<u32>| #[trigger] coef_at(s1, p) == coef_at(t2, p) by {
            if p == s2[0].powers {
                lemma_wadd_zero(coef_at(t2, p));
                lemma_wadd_comm(s2[0].coef, coef_at(t2, p));
                assert(coef_at(s2, p) == wadd(s2[0].coef, coef_at(t2, p)));
            } else {
                assert(coef_at(s2, p) == coef_at(t2, p));
            }
        }
        lemma_render_unique(s1, t2, printed);
    } else if s1.len() == 0 {
        if s2.len() > 0 {
            lemma_no_dup_head(s2);
            lemma_absent_coef(s2.drop_first(), s2[0].powers);
            lemma_wadd_zero(s2[0].coef);
            assert(coef_at(s2, s2[0].powers) == s2[0].coef);
            lemma_absent_coef(s1, s2[0].powers);
            assert(false);
        }
    } else if s2.len() == 0 {
        lemma_no_dup_head(s1);
        lemma_absent_coef(s1.drop_first(), s1[0].powers);
        lemma_wadd_zero(s1[0].coef);
        assert(coef_at(s1, s1[0].powers) == s1[0].coef);
        lemma_absent_coef(s2, s1[0].powers);
        assert(false);
    } else {
        let h1 = s1[0];
        let h2 = s2[0];
        lemma_no_dup_head(s1);
        lemma_no_dup_head(s2);
        lemma_absent_coef(s1.drop_first(), h1.powers);
        lemma_absent_coef(s2.drop_first(), h2.powers);
        lemma_wadd_zero(h1.coef);
        lemma_wadd_zero(h2.coef);
        assert(coef_at(s1, h1.powers) == h1.coef);
        assert(coef_at(s2, h2.powers) == h2.coef);
        if !has_term(s2, h1.powers) {
            lemma_absent_coef(s2, h1.powers);
            assert(false);
        }
        if !has_term(s1, h2.powers) {
            lemma_absent_coef(s1, h2.powers);
            assert(false);
        }
        lemma_head_min(s2, h1.powers);
        lemma_head_min(s1, h2.powers);
        if h1.powers != h2.powers {
            lemma_order_total(h1.powers, h2.powers);
            assert(false);
        }
        assert(h1 == h2);
        let t1 = s1.drop_first();
        let t2 = s2.drop_first();
        lemma_drop_first_wf(s1);
        lemma_drop_first_wf(s2);
        assert forall|p: Seq<u32>| #[trigger] coef_at(t1, p) == coef_at(t2, p) by {
            if p == h1.powers {
                lemma_absent_coef(t1, p);
                lemma_absent_coef(t2, p);
            } else {
                assert(coef_at(s1, p) == coef_at(t1, p));
                assert(coef_at(s2, p) == coef_at(t2, p));
            }
        }
        lemma_render_unique(t1, t2, true);
        lemma_render_shift(s1, 1, true);
        lemma_render_shift(s2, 1, true);
        assert(render_rest(s1, 0, printed) == if !printed {
            mono_str(h1) + render_rest(s1, 1, true)
        } else {
            sep_str(h1.coef) + mag_str(h1) + render_rest(s1, 1, true)
        });
        assert(render_rest(s2, 0, printed) == if !printed {
            mono_str(h2) + render_rest(s2, 1, true)
        } else {
            sep_str(h2.coef) + mag_str(h2) + render_rest(s2, 1, true)
        });
    }
}

/// Multiplication is associative up to the rendered text. The stored
/// sequences themselves may differ: a zero product coefficient collapses
/// a term's powers, so intermediate cancellation can leave hidden
/// zero-coefficient entries at different terms under the two groupings.
pub proof fn lemma_mul_assoc(a: Seq<TermView>, b: Seq<TermView>, c: Seq<TermView>)
    requires
        poly_wf(a),
        poly_wf(b),
        poly_wf(c),
    ensures
        poly_str(spec_mul(spec_mul(a, b), c)) == poly_str(spec_mul(a, spec_mul(b, c))),
{
    let e = Seq::<TermView>::empty();
    assert(poly_wf(e));
    lemma_mul_acc_wf(e, a, b);
    lemma_mul_acc_wf(e, b, c);
    lemma_mul_acc_wf(e, spec_mul(a, b), c);
    lemma_mul_acc_wf(e, a, spec_mul(b, c));
    assert forall|p: Seq<u32>| #[trigger] coef_at(spec_mul(spec_mul(a, b), c), p) == coef_at(
        spec_mul(a, spec_mul(b, c)),
        p,
    ) by {
        lemma_mul_assoc_coef(a, b, c, p);
    }
    lemma_render_unique(spec_mul(spec_mul(a, b), c), spec_mul(a, spec_mul(b, c)), false);
}

} // verus!
