//! The recursive-descent expression parser. Every grammar production has
//! a specification twin (`spec_parse_*`) that maps a parser state to the
//! value produced and the state or error left behind; each executable
//! function is proved to return exactly what its twin says.
use vstd::prelude::*;

verus! {

use vstd::string::*;
use crate::coef::wmul;
use crate::digits::{all_digits, dec_val, dec_value_of};
use crate::lexer::{Lexer, LexStep, LexerErr, TokType, Token, lex_step, lemma_lex_step_bounds};
use crate::monomial::{Monomial, TermView};
use crate::polynomial::{
    Polynomial,
    merged_add,
    poly_wf,
    spec_add_terms,
    spec_sub_terms,
    spec_mul,
    spec_pow,
    scaled_terms,
};

/// The parser's view of the lexer: the line, the cursor, and the current
/// token's kind and text.
pub struct PState {
    pub line: Seq<char>,
    pub pos: int,
    pub tok: TokType,
    pub text: Seq<char>,
}

/// The error taxonomy, without the human-readable message.
pub enum EKind {
    Expected,
    Unexpected,
    Lexical,
    Invalid,
}

/// The outcome of one specification production: a value and the state
/// after it, or an error kind and the state at the failure.
pub enum PRes<A> {
    Good { v: A, s: PState },
    Bad { k: EKind, s: PState },
}

/// One token of progress, as the lexer's `lex_step` dictates; `None`
/// when scanning hits an unknown character.
pub open spec fn padvance(s: PState) -> Option<PState> {
    match lex_step(s.line, s.pos) {
        LexStep::Fail { .. } => None,
        LexStep::Tok { t, text, next } => Some(
            PState {
                line: s.line,
                pos: next,
                tok: t,
                text: match text {
                    Some(x) => x,
                    None => s.text,
                },
            },
        ),
    }
}

/// The state the parser is left in when scanning fails: the cursor on
/// the offending character, the visible token unchanged.
pub open spec fn pfail(s: PState) -> PState {
    match lex_step(s.line, s.pos) {
        LexStep::Fail { at } => PState { line: s.line, pos: at, tok: s.tok, text: s.text },
        LexStep::Tok { .. } => s,
    }
}

/// The state of a freshly initialized lexer, before its first token has
/// been fetched.
pub open spec fn init_pstate(line: Seq<char>) -> PState {
    PState { line, pos: 0, tok: TokType::End, text: Seq::<char>::empty() }
}

/// Termination measure over parser states: twice the unread length, plus
/// one while the current token is not `End`.
pub open spec fn pmeasure(s: PState) -> int {
    2 * (s.line.len() - s.pos) + if s.tok == TokType::End {
        0int
    } else {
        1int
    }
}

/// Advancing never grows the measure, and shrinks it strictly as long as
/// the current token is not `End`.
pub proof fn lemma_padvance_measure(s: PState)
    requires
        0 <= s.pos <= s.line.len(),
    ensures
        match padvance(s) {
            Some(s2) => {
                &&& s2.line == s.line
                &&& 0 <= s2.pos <= s.line.len()
                &&& pmeasure(s2) >= 0
                &&& pmeasure(s2) <= pmeasure(s)
                &&& (s.tok != TokType::End ==> pmeasure(s2) < pmeasure(s))
            },
            None => true,
        },
{
    lemma_lex_step_bounds(s.line, s.pos);
}

/// The variable slot a token text names: `x`, `y`, `z` in order, or 3
/// for any other text.
pub open spec fn spec_var_slot(t: Seq<char>) -> int {
    if t == seq!['x'] {
        0
    } else if t == seq!['y'] {
        1
    } else if t == seq!['z'] {
        2
    } else {
        3
    }
}

/// An integer literal the parser accepts: digit characters only (no `.`)
/// with a value of at most `cap`.
pub open spec fn int_lit_ok(text: Seq<char>, cap: int) -> bool {
    all_digits(text) && dec_val(text) <= cap
}

pub open spec fn coef_cap() -> int {
    0x7fff_ffff_ffff_ffff
}

pub open spec fn exp_cap() -> int {
    0xffff_ffff
}

/// The variable groups of a monomial literal: zero or more
/// `variable [^ integer]` groups, each overwriting that variable's slot.
pub open spec fn spec_monomial_vars(s: PState, powers: Seq<u32>) -> PRes<Seq<u32>>
    decreases pmeasure(s),
{
    if s.tok != TokType::Xvar {
        PRes::Good { v: powers, s }
    } else {
        let slot = spec_var_slot(s.text);
        if slot == 3 {
            PRes::Bad { k: EKind::Unexpected, s }
        } else {
            match padvance(s) {
                None => PRes::Bad { k: EKind::Lexical, s: pfail(s) },
                Some(s1) => {
                    if s1.tok == TokType::Caret {
                        match padvance(s1) {
                            None => PRes::Bad { k: EKind::Lexical, s: pfail(s1) },
                            Some(s2) => {
                                if s2.tok != TokType::Number {
                                    PRes::Bad { k: EKind::Expected, s: s2 }
                                } else if !int_lit_ok(s2.text, exp_cap()) {
                                    PRes::Bad { k: EKind::Invalid, s: s2 }
                                } else {
                                    match padvance(s2) {
                                        None => PRes::Bad { k: EKind::Lexical, s: pfail(s2) },
                                        Some(s3) => {
                                            if 0 <= pmeasure(s3) < pmeasure(s) {
                                                spec_monomial_vars(
                                                    s3,
                                                    powers.update(slot, dec_val(s2.text) as u32),
                                                )
                                            } else {
                                                PRes::Bad { k: EKind::Invalid, s: s3 }
                                            }
                                        },
                                    }
                                }
                            },
                        }
                    } else {
                        if 0 <= pmeasure(s1) < pmeasure(s) {
                            spec_monomial_vars(s1, powers.update(slot, 1u32))
                        } else {
                            PRes::Bad { k: EKind::Invalid, s: s1 }
                        }
                    }
                },
            }
        }
    }
}

/// A monomial literal: an optional leading `-`, an optional integer
/// coefficient, then the variable groups.
pub open spec fn spec_parse_monomial(s: PState) -> PRes<TermView> {
    let sign_res: PRes<bool> = if s.tok == TokType::Minus {
        match padvance(s) {
            None => PRes::Bad { k: EKind::Lexical, s: pfail(s) },
            Some(s1) => PRes::Good { v: true, s: s1 },
        }
    } else {
        PRes::Good { v: false, s }
    };
    match sign_res {
        PRes::Bad { k, s } => PRes::Bad { k, s },
        PRes::Good { v: negative, s: sa } => {
            let coef_res: PRes<i64> = if sa.tok == TokType::Number {
                if !int_lit_ok(sa.text, coef_cap()) {
                    PRes::Bad { k: EKind::Invalid, s: sa }
                } else {
                    match padvance(sa) {
                        None => PRes::Bad { k: EKind::Lexical, s: pfail(sa) },
                        Some(sb) => PRes::Good { v: dec_val(sa.text) as i64, s: sb },
                    }
                }
            } else {
                PRes::Good { v: 1i64, s: sa }
            };
            match coef_res {
                PRes::Bad { k, s } => PRes::Bad { k, s },
                PRes::Good { v: mag, s: sc } => {
                    let coefficient: i64 = if negative {
                        (-mag) as i64
                    } else {
                        mag
                    };
                    match spec_monomial_vars(sc, seq![0u32, 0u32, 0u32]) {
                        PRes::Bad { k, s } => PRes::Bad { k, s },
                        PRes::Good { v: powers, s: sd } => PRes::Good {
                            v: TermView { coef: coefficient, powers },
                            s: sd,
                        },
                    }
                },
            }
        },
    }
}

/// The one-term-one identity polynomial that a zero exponent yields.
pub open spec fn identity_poly() -> Seq<TermView> {
    seq![TermView { coef: 1i64, powers: seq![0u32, 0u32, 0u32] }]
}

/// The continuation of a flat monomial-run: further `+`/`-` monomials
/// are merged in as long as one token of lookahead shows a number or a
/// variable right after the sign; otherwise the sign is left unread.
pub open spec fn spec_poly_rest(s: PState, acc: Seq<TermView>) -> PRes<Seq<TermView>>
    decreases pmeasure(s),
{
    if s.tok == TokType::Minus || s.tok == TokType::Plus {
        match padvance(s) {
            None => PRes::Bad { k: EKind::Lexical, s: pfail(s) },
            Some(sp) => {
                if sp.tok == TokType::Number || sp.tok == TokType::Xvar {
                    match spec_parse_monomial(sp) {
                        PRes::Bad { k, s } => PRes::Bad { k, s },
                        PRes::Good { v: m, s: s2 } => {
                            let mm = if s.tok == TokType::Minus {
                                TermView { coef: wmul(-1i64, m.coef), powers: m.powers }
                            } else {
                                m
                            };
                            if 0 <= pmeasure(s2) < pmeasure(s) {
                                spec_poly_rest(s2, merged_add(acc, mm))
                            } else {
                                PRes::Bad { k: EKind::Invalid, s: s2 }
                            }
                        },
                    }
                } else {
                    PRes::Good { v: acc, s }
                }
            },
        }
    } else {
        PRes::Good { v: acc, s }
    }
}

/// A flat monomial-run: one monomial, then the continuation above. Any
/// other leading token is a structural error.
pub open spec fn spec_parse_polynomial(s: PState) -> PRes<Seq<TermView>> {
    if s.tok == TokType::Number || s.tok == TokType::Xvar {
        match spec_parse_monomial(s) {
            PRes::Bad { k, s } => PRes::Bad { k, s },
            PRes::Good { v: m, s: s1 } => spec_poly_rest(
                s1,
                merged_add(Seq::<TermView>::empty(), m),
            ),
        }
    } else {
        PRes::Bad { k: EKind::Invalid, s }
    }
}

/// A factor: a parenthesized expression with an optional integer
/// exponent, a negated factor, or a flat monomial-run.
pub open spec fn spec_parse_factor(s: PState) -> PRes<Seq<TermView>>
    decreases pmeasure(s), 1int,
{
    if s.tok == TokType::Lpar {
        match padvance(s) {
            None => PRes::Bad { k: EKind::Lexical, s: pfail(s) },
            Some(s1) => {
                if 0 <= pmeasure(s1) < pmeasure(s) {
                    match spec_parse_poly(s1) {
                        PRes::Bad { k, s } => PRes::Bad { k, s },
                        PRes::Good { v: p, s: s2 } => {
                            if s2.tok == TokType::Rpar {
                                match padvance(s2) {
                                    None => PRes::Bad { k: EKind::Lexical, s: pfail(s2) },
                                    Some(s3) => {
                                        if s3.tok == TokType::Caret {
                                            match padvance(s3) {
                                                None => PRes::Bad {
                                                    k: EKind::Lexical,
                                                    s: pfail(s3),
                                                },
                                                Some(s4) => {
                                                    if s4.tok == TokType::Number {
                                                        if int_lit_ok(s4.text, exp_cap()) {
                                                            match padvance(s4) {
                                                                None => PRes::Bad {
                                                                    k: EKind::Lexical,
                                                                    s: pfail(s4),
                                                                },
                                                                Some(s5) => PRes::Good {
                                                                    v: if dec_val(s4.text) == 0 {
                                                                        identity_poly()
                                                                    } else {
                                                                        spec_pow(
                                                                            p,
                                                                            dec_val(s4.text) as nat,
                                                                        )
                                                                    },
                                                                    s: s5,
                                                                },
                                                            }
                                                        } else {
                                                            PRes::Bad { k: EKind::Invalid, s: s4 }
                                                        }
                                                    } else {
                                                        PRes::Bad { k: EKind::Expected, s: s4 }
                                                    }
                                                },
                                            }
                                        } else {
                                            PRes::Good { v: p, s: s3 }
                                        }
                                    },
                                }
                            } else {
                                PRes::Bad { k: EKind::Expected, s: s2 }
                            }
                        },
                    }
                } else {
                    PRes::Bad { k: EKind::Invalid, s: s1 }
                }
            },
        }
    } else if s.tok == TokType::Minus {
        match padvance(s) {
            None => PRes::Bad { k: EKind::Lexical, s: pfail(s) },
            Some(s1) => {
                if s1.tok == TokType::Lpar {
                    if 0 <= pmeasure(s1) < pmeasure(s) {
                        match spec_parse_factor(s1) {
                            PRes::Bad { k, s } => PRes::Bad { k, s },
                            PRes::Good { v: p, s: s2 } => PRes::Good {
                                v: scaled_terms(p, -1i64),
                                s: s2,
                            },
                        }
                    } else {
                        PRes::Bad { k: EKind::Invalid, s: s1 }
                    }
                } else {
                    PRes::Bad { k: EKind::Unexpected, s: s1 }
                }
            },
        }
    } else {
        spec_parse_polynomial(s)
    }
}

/// The continuation of a term: further factors joined by `*`, folded
/// into the product left to right.
pub open spec fn spec_term_rest(s: PState, acc: Seq<TermView>) -> PRes<Seq<TermView>>
    decreases pmeasure(s), 3int,
{
    if s.tok != TokType::Mul {
        PRes::Good { v: acc, s }
    } else {
        match padvance(s) {
            None => PRes::Bad { k: EKind::Lexical, s: pfail(s) },
            Some(s1) => {
                if 0 <= pmeasure(s1) < pmeasure(s) {
                    match spec_parse_factor(s1) {
                        PRes::Bad { k, s } => PRes::Bad { k, s },
                        PRes::Good { v: q, s: s2 } => {
                            if 0 <= pmeasure(s2) < pmeasure(s) {
                                spec_term_rest(s2, spec_mul(acc, q))
                            } else {
                                PRes::Bad { k: EKind::Invalid, s: s2 }
                            }
                        },
                    }
                } else {
                    PRes::Bad { k: EKind::Invalid, s: s1 }
                }
            },
        }
    }
}

/// A term: one or more factors joined by `*`.
pub open spec fn spec_parse_term(s: PState) -> PRes<Seq<TermView>>
    decreases pmeasure(s), 2int,
{
    match spec_parse_factor(s) {
        PRes::Bad { k, s } => PRes::Bad { k, s },
        PRes::Good { v: p, s: s1 } => {
            if s1.tok == TokType::Mul {
                if 0 <= pmeasure(s1) < pmeasure(s) {
                    spec_term_rest(s1, p)
                } else {
                    PRes::Bad { k: EKind::Invalid, s: s1 }
                }
            } else {
                PRes::Good { v: p, s: s1 }
            }
        },
    }
}

/// The continuation of an expression: further terms joined by `+`/`-`,
/// merged into the sum left to right.
pub open spec fn spec_poly_sum_rest(s: PState, acc: Seq<TermView>) -> PRes<Seq<TermView>>
    decreases pmeasure(s), 5int,
{
    if s.tok == TokType::Plus || s.tok == TokType::Minus {
        match padvance(s) {
            None => PRes::Bad { k: EKind::Lexical, s: pfail(s) },
            Some(s1) => {
                if 0 <= pmeasure(s1) < pmeasure(s) {
                    match spec_parse_term(s1) {
                        PRes::Bad { k, s } => PRes::Bad { k, s },
                        PRes::Good { v: q, s: s2 } => {
                            if 0 <= pmeasure(s2) < pmeasure(s) {
                                spec_poly_sum_rest(
                                    s2,
                                    if s.tok == TokType::Plus {
                                        spec_add_terms(acc, q)
                                    } else {
                                        spec_sub_terms(acc, q)
                                    },
                                )
                            } else {
                                PRes::Bad { k: EKind::Invalid, s: s2 }
                            }
                        },
                    }
                } else {
                    PRes::Bad { k: EKind::Invalid, s: s1 }
                }
            },
        }
    } else {
        PRes::Good { v: acc, s }
    }
}

/// An expression: one or more terms joined by `+`/`-`.
pub open spec fn spec_parse_poly(s: PState) -> PRes<Seq<TermView>>
    decreases pmeasure(s), 4int,
{
    match spec_parse_term(s) {
        PRes::Bad { k, s } => PRes::Bad { k, s },
        PRes::Good { v: p, s: s1 } => {
            if s1.tok == TokType::Plus || s1.tok == TokType::Minus {
                if 0 <= pmeasure(s1) < pmeasure(s) {
                    spec_poly_sum_rest(s1, p)
                } else {
                    PRes::Bad { k: EKind::Invalid, s: s1 }
                }
            } else {
                PRes::Good { v: p, s: s1 }
            }
        },
    }
}

/// Leading line terminators are skipped before parsing begins.
pub open spec fn spec_skip_newls(s: PState) -> PRes<bool>
    decreases pmeasure(s),
{
    if s.tok == TokType::Newl {
        match padvance(s) {
            None => PRes::Bad { k: EKind::Lexical, s: pfail(s) },
            Some(s1) => {
                if 0 <= pmeasure(s1) < pmeasure(s) {
                    spec_skip_newls(s1)
                } else {
                    PRes::Bad { k: EKind::Invalid, s: s1 }
                }
            },
        }
    } else {
        PRes::Good { v: true, s }
    }
}

/// The whole statement: leading terminators skipped; exhausted input is
/// the empty polynomial, not an error; after a parse, anything but the
/// end of input or a terminator makes the whole parse invalid, whatever
/// the sub-parse returned.
pub open spec fn spec_start(s: PState) -> PRes<Seq<TermView>> {
    match spec_skip_newls(s) {
        PRes::Bad { k, s } => PRes::Bad { k, s },
        PRes::Good { v: _, s: s1 } => {
            if s1.tok == TokType::End {
                PRes::Good { v: Seq::<TermView>::empty(), s: s1 }
            } else {
                match spec_parse_poly(s1) {
                    PRes::Good { v: p, s: s2 } => {
                        if s2.tok == TokType::End || s2.tok == TokType::Newl {
                            PRes::Good { v: p, s: s2 }
                        } else {
                            PRes::Bad { k: EKind::Invalid, s: s2 }
                        }
                    },
                    PRes::Bad { k, s: s2 } => {
                        if s2.tok == TokType::End || s2.tok == TokType::Newl {
                            PRes::Bad { k, s: s2 }
                        } else {
                            PRes::Bad { k: EKind::Invalid, s: s2 }
                        }
                    },
                }
            }
        },
    }
}

pub struct Parser {
    pub lexer: Lexer,
}

#[derive(Debug, PartialEq)]
pub enum ParserErr {
    ExpectedToken(String),
    UnexpectedToken(String),
    LexerErr(String),
    InvalidSyntax(String),
}

/// The taxonomy kind of an error value.
pub open spec fn kind_of(e: ParserErr) -> EKind {
    match e {
        ParserErr::ExpectedToken(_) => EKind::Expected,
        ParserErr::UnexpectedToken(_) => EKind::Unexpected,
        ParserErr::LexerErr(_) => EKind::Lexical,
        ParserErr::InvalidSyntax(_) => EKind::Invalid,
    }
}

impl Parser {
    /// The abstract state: line, cursor, current token kind and text.
    pub open spec fn pstate(self) -> PState {
        PState {
            line: self.lexer.current_line@,
            pos: self.lexer.curr_pos as int,
            tok: self.lexer.curr_tok.token_type,
            text: self.lexer.curr_tok.token_content@,
        }
    }

    pub open spec fn wf(self) -> bool {
        self.lexer.wf()
    }

    /// A parser over one line of input, advanced to its first token.
    pub fn parser_init(current_line: String) -> (r: Result<Parser, ParserErr>)
        ensures
            match r {
                Ok(p) => {
                    &&& p.wf()
                    &&& p.pstate().line == current_line@
                    &&& match padvance(init_pstate(current_line@)) {
                        Some(s1) => p.pstate() == s1,
                        None => false,
                    }
                },
                Err(e) => {
                    &&& kind_of(e) == EKind::Lexical
                    &&& padvance(init_pstate(current_line@)) is None
                },
            },
    {
        let lexer = Lexer::lexer_init(current_line);
        let mut parser = Parser { lexer };
        match parser.get_next_token() {
            Ok(()) => Ok(parser),
            Err(e) => Err(e),
        }
    }

    /// Advances the underlying lexer, wrapping a lexical failure in a
    /// parser error.
    pub fn get_next_token(&mut self) -> (r: Result<(), ParserErr>)
        requires
            old(self).wf(),
        ensures
            final(self).wf(),
            match padvance(old(self).pstate()) {
                Some(s2) => r is Ok && final(self).pstate() == s2,
                None => {
                    &&& r matches Err(e) && kind_of(e) == EKind::Lexical
                    &&& final(self).pstate() == pfail(old(self).pstate())
                },
            },
    {
        match self.lexer.get_next_token() {
            Ok(()) => Ok(()),
            Err(_) => {
                proof {
                    reveal_strlit("unknown character while scanning the next token");
                }
                Err(
                    ParserErr::LexerErr(
                        String::from_str("unknown character while scanning the next token"),
                    ),
                )
            },
        }
    }

    /// Returns the token the next advance will produce, without changing
    /// the visible state; wraps a lexical failure like `get_next_token`.
    pub fn peek_next_token(&mut self) -> (r: Result<Token, ParserErr>)
        requires
            old(self).wf(),
        ensures
            final(self).wf(),
            match padvance(old(self).pstate()) {
                Some(s2) => match r {
                    Ok(tok) => {
                        &&& final(self).pstate() == old(self).pstate()
                        &&& tok.token_type == s2.tok
                        &&& tok.token_content@ == s2.text
                    },
                    Err(_) => false,
                },
                None => {
                    &&& r matches Err(e) && kind_of(e) == EKind::Lexical
                    &&& final(self).pstate() == pfail(old(self).pstate())
                },
            },
    {
        match self.lexer.peek_next_token() {
            Ok(t) => Ok(t),
            Err(_) => {
                proof {
                    reveal_strlit("unknown character while scanning the next token");
                }
                Err(
                    ParserErr::LexerErr(
                        String::from_str("unknown character while scanning the next token"),
                    ),
                )
            },
        }
    }

    /// Parses one monomial literal, as `spec_parse_monomial` describes.
    #[verifier::loop_isolation(false)]
    #[verifier::rlimit(80)]
    pub fn parse_monomial(&mut self) -> (r: Result<Monomial, ParserErr>)
        requires
            old(self).wf(),
        ensures
            final(self).wf(),
            final(self).pstate().line == old(self).pstate().line,
            match spec_parse_monomial(old(self).pstate()) {
                PRes::Good { v, s } => {
                    &&& r matches Ok(m) && m@ == v && m@.wf()
                    &&& final(self).pstate() == s
                },
                PRes::Bad { k, s } => {
                    &&& r matches Err(e) && kind_of(e) == k
                    &&& final(self).pstate() == s
                },
            },
            r is Ok ==> pmeasure(final(self).pstate()) <= pmeasure(old(self).pstate()),
            r is Ok && (old(self).pstate().tok == TokType::Minus || old(self).pstate().tok
                == TokType::Number || old(self).pstate().tok == TokType::Xvar) ==> pmeasure(
                final(self).pstate(),
            ) < pmeasure(old(self).pstate()),
    {
        let ghost entry = self.pstate();
        proof {
            lemma_padvance_measure(entry);
        }
        let mut negative = false;
        if self.lexer.curr_tok.token_type == TokType::Minus {
            negative = true;
            match self.get_next_token() {
                Ok(()) => {},
                Err(e) => {
                    return Err(e);
                },
            }
        }
        let ghost after_sign = self.pstate();
        let mut magnitude: i64 = 1;
        proof {
            lemma_padvance_measure(after_sign);
        }
        if self.lexer.curr_tok.token_type == TokType::Number {
            match dec_value_of(self.lexer.curr_tok.token_content.as_str(), 9223372036854775807u64) {
                Some(value) => {
                    magnitude = value as i64;
                },
                None => {
                    proof {
                        reveal_strlit("numeric literal is not a representable integer");
                    }
                    return Err(
                        ParserErr::InvalidSyntax(
                            String::from_str("numeric literal is not a representable integer"),
                        ),
                    );
                },
            }
            match self.get_next_token() {
                Ok(()) => {},
                Err(e) => {
                    return Err(e);
                },
            }
        }
        let coefficient: i64 = if negative {
            -magnitude
        } else {
            magnitude
        };
        let ghost after_coef = self.pstate();
        proof {
            assert(spec_parse_monomial(entry) == (match spec_monomial_vars(
                after_coef,
                seq![0u32, 0u32, 0u32],
            ) {
                PRes::Good { v: powers, s: sd } => PRes::Good {
                    v: TermView { coef: coefficient, powers },
                    s: sd,
                },
                PRes::Bad { k, s } => PRes::Bad { k, s },
            }));
            assert(pmeasure(after_coef) <= pmeasure(entry));
            assert((entry.tok == TokType::Minus || entry.tok == TokType::Number) ==> pmeasure(
                after_coef,
            ) < pmeasure(entry));
        }
        let mut px: u32 = 0;
        let mut py: u32 = 0;
        let mut pz: u32 = 0;
        while self.lexer.curr_tok.token_type == TokType::Xvar
            invariant
                self.wf(),
                self.pstate().line == entry.line,
                pmeasure(self.pstate()) <= pmeasure(after_coef),
                self.pstate() == after_coef || pmeasure(self.pstate()) < pmeasure(after_coef),
                spec_monomial_vars(self.pstate(), seq![px, py, pz]) == spec_monomial_vars(
                    after_coef,
                    seq![0u32, 0u32, 0u32],
                ),
            decreases pmeasure(self.pstate()),
        {
            let ghost cur = self.pstate();
            let ghost prev_powers = seq![px, py, pz];
            proof {
                lemma_padvance_measure(cur);
            }
            let slot = var_slot(&self.lexer.curr_tok.token_content);
            if slot == 3 {
                proof {
                    reveal_strlit("variable is not one of the known symbols");
                }
                return Err(
                    ParserErr::UnexpectedToken(
                        String::from_str("variable is not one of the known symbols"),
                    ),
                );
            }
            match self.get_next_token() {
                Ok(()) => {},
                Err(e) => {
                    return Err(e);
                },
            }
            let ghost s1 = self.pstate();
            let exponent: u32;
            if self.lexer.curr_tok.token_type == TokType::Caret {
                proof {
                    lemma_padvance_measure(s1);
                }
                match self.get_next_token() {
                    Ok(()) => {},
                    Err(e) => {
                        return Err(e);
                    },
                }
                let ghost s2 = self.pstate();
                if self.lexer.curr_tok.token_type != TokType::Number {
                    proof {
                        reveal_strlit("expected a number after the caret");
                    }
                    return Err(
                        ParserErr::ExpectedToken(
                            String::from_str("expected a number after the caret"),
                        ),
                    );
                }
                match dec_value_of(self.lexer.curr_tok.token_content.as_str(), 4294967295u64) {
                    Some(value) => {
                        exponent = value as u32;
                    },
                    None => {
                        proof {
                            reveal_strlit("exponent is not a representable integer");
                        }
                        return Err(
                            ParserErr::InvalidSyntax(
                                String::from_str("exponent is not a representable integer"),
                            ),
                        );
                    },
                }
                proof {
                    lemma_padvance_measure(s2);
                }
                match self.get_next_token() {
                    Ok(()) => {},
                    Err(e) => {
                        return Err(e);
                    },
                }
            } else {
                exponent = 1;
            }
            let ghost snext = self.pstate();
            if slot == 0 {
                px = exponent;
            } else if slot == 1 {
                py = exponent;
            } else {
                pz = exponent;
            }
            proof {
                assert(seq![px, py, pz] =~= prev_powers.update(slot as int, exponent));
                assert(spec_monomial_vars(cur, prev_powers) == spec_monomial_vars(
                    snext,
                    prev_powers.update(slot as int, exponent),
                ));
            }
        }
        proof {
            assert(spec_monomial_vars(self.pstate(), seq![px, py, pz]) == (PRes::Good {
                v: seq![px, py, pz],
                s: self.pstate(),
            }));
        }
        Ok(Monomial::from_parts(coefficient, px, py, pz))
    }
}

impl Parser {
    /// Parses a flat monomial-run, as `spec_parse_polynomial` describes.
    #[verifier::loop_isolation(false)]
    #[verifier::rlimit(100)]
    pub fn parse_polynomial(&mut self) -> (r: Result<Polynomial, ParserErr>)
        requires
            old(self).wf(),
        ensures
            final(self).wf(),
            final(self).pstate().line == old(self).pstate().line,
            match spec_parse_polynomial(old(self).pstate()) {
                PRes::Good { v, s } => {
                    &&& r matches Ok(p) && p@ == v && poly_wf(p@)
                    &&& final(self).pstate() == s
                },
                PRes::Bad { k, s } => {
                    &&& r matches Err(e) && kind_of(e) == k
                    &&& final(self).pstate() == s
                },
            },
            r is Ok ==> pmeasure(final(self).pstate()) < pmeasure(old(self).pstate()),
    {
        let ghost entry = self.pstate();
        proof {
            lemma_padvance_measure(entry);
        }
        let mut polynomial = Polynomial::new();
        if self.lexer.curr_tok.token_type == TokType::Number || self.lexer.curr_tok.token_type
            == TokType::Xvar {
            match self.parse_monomial() {
                Err(e) => {
                    return Err(e);
                },
                Ok(m) => {
                    polynomial.add_monomial(m);
                },
            }
        } else {
            proof {
                reveal_strlit("Invalid Syntax");
            }
            return Err(ParserErr::InvalidSyntax(String::from_str("Invalid Syntax")));
        }
        proof {
            assert(spec_parse_polynomial(entry) == spec_poly_rest(self.pstate(), polynomial@));
        }
        let mut done = false;
        while !done && (self.lexer.curr_tok.token_type == TokType::Minus
            || self.lexer.curr_tok.token_type == TokType::Plus)
            invariant
                self.wf(),
                self.pstate().line == entry.line,
                poly_wf(polynomial@),
                0 <= pmeasure(self.pstate()) < pmeasure(entry),
                spec_parse_polynomial(entry) == spec_poly_rest(self.pstate(), polynomial@),
                done ==> spec_poly_rest(self.pstate(), polynomial@) == (PRes::Good {
                    v: polynomial@,
                    s: self.pstate(),
                }),
            decreases pmeasure(self.pstate()), (if done { 0int } else { 1int }),
        {
            let ghost cur = self.pstate();
            let ghost acc0 = polynomial@;
            proof {
                lemma_padvance_measure(cur);
            }
            let is_minus = self.lexer.curr_tok.token_type == TokType::Minus;
            let next_token = match self.peek_next_token() {
                Ok(t) => t,
                Err(e) => {
                    return Err(e);
                },
            };
            if next_token.token_type == TokType::Number || next_token.token_type == TokType::Xvar {
                match self.get_next_token() {
                    Ok(()) => {},
                    Err(e) => {
                        return Err(e);
                    },
                }
                match self.parse_monomial() {
                    Err(e) => {
                        return Err(e);
                    },
                    Ok(m) => {
                        if is_minus {
                            let m2 = m.scale(-1);
                            polynomial.add_monomial(m2);
                        } else {
                            polynomial.add_monomial(m);
                        }
                    },
                }
                proof {
                    assert(spec_poly_rest(cur, acc0) == spec_poly_rest(
                        self.pstate(),
                        polynomial@,
                    ));
                }
            } else {
                done = true;
            }
        }
        proof {
            assert(spec_poly_rest(self.pstate(), polynomial@) == (PRes::Good {
                v: polynomial@,
                s: self.pstate(),
            }));
        }
        Ok(polynomial)
    }

    /// Parses a factor, as `spec_parse_factor` describes.
    #[verifier::loop_isolation(false)]
    #[verifier::rlimit(100)]
    pub fn parse_factor_expr(&mut self) -> (r: Result<Polynomial, ParserErr>)
        requires
            old(self).wf(),
        ensures
            final(self).wf(),
            final(self).pstate().line == old(self).pstate().line,
            match spec_parse_factor(old(self).pstate()) {
                PRes::Good { v, s } => {
                    &&& r matches Ok(p) && p@ == v && poly_wf(p@)
                    &&& final(self).pstate() == s
                },
                PRes::Bad { k, s } => {
                    &&& r matches Err(e) && kind_of(e) == k
                    &&& final(self).pstate() == s
                },
            },
            r is Ok ==> pmeasure(final(self).pstate()) < pmeasure(old(self).pstate()),
        decreases pmeasure(self.pstate()), 1int,
    {
        let ghost entry = self.pstate();
        proof {
            lemma_padvance_measure(entry);
        }
        if self.lexer.curr_tok.token_type == TokType::Lpar {
            match self.get_next_token() {
                Ok(()) => {},
                Err(e) => {
                    return Err(e);
                },
            }
            let inner = match self.parse_poly_expr() {
                Ok(p) => p,
                Err(e) => {
                    return Err(e);
                },
            };
            let ghost s2 = self.pstate();
            if self.lexer.curr_tok.token_type == TokType::Rpar {
                proof {
                    lemma_padvance_measure(s2);
                }
                match self.get_next_token() {
                    Ok(()) => {},
                    Err(e) => {
                        return Err(e);
                    },
                }
                let ghost s3 = self.pstate();
                if self.lexer.curr_tok.token_type == TokType::Caret {
                    proof {
                        lemma_padvance_measure(s3);
                    }
                    match self.get_next_token() {
                        Ok(()) => {},
                        Err(e) => {
                            return Err(e);
                        },
                    }
                    let ghost s4 = self.pstate();
                    if self.lexer.curr_tok.token_type == TokType::Number {
                        let exponent: u32;
                        match dec_value_of(
                            self.lexer.curr_tok.token_content.as_str(),
                            4294967295u64,
                        ) {
                            Some(value) => {
                                exponent = value as u32;
                            },
                            None => {
                                proof {
                                    reveal_strlit("exponent is not a representable integer");
                                }
                                return Err(
                                    ParserErr::InvalidSyntax(
                                        String::from_str(
                                            "exponent is not a representable integer",
                                        ),
                                    ),
                                );
                            },
                        }
                        proof {
                            lemma_padvance_measure(s4);
                        }
                        match self.get_next_token() {
                            Ok(()) => {},
                            Err(e) => {
                                return Err(e);
                            },
                        }
                        if exponent == 0 {
                            let mut identity = Polynomial::new();
                            identity.add_monomial(Monomial::new());
                            proof {
                                assert(identity@ =~= identity_poly());
                            }
                            Ok(identity)
                        } else {
                            let powered = inner.pow(exponent);
                            Ok(powered)
                        }
                    } else {
                        proof {
                            reveal_strlit("expected a number after the caret");
                        }
                        Err(
                            ParserErr::ExpectedToken(
                                String::from_str("expected a number after the caret"),
                            ),
                        )
                    }
                } else {
                    Ok(inner)
                }
            } else {
                proof {
                    reveal_strlit("Expected closing parenthesis at end of expression");
                }
                Err(
                    ParserErr::ExpectedToken(
                        String::from_str("Expected closing parenthesis at end of expression"),
                    ),
                )
            }
        } else if self.lexer.curr_tok.token_type == TokType::Minus {
            match self.get_next_token() {
                Ok(()) => {},
                Err(e) => {
                    return Err(e);
                },
            }
            if self.lexer.curr_tok.token_type == TokType::Lpar {
                let mut inner = match self.parse_factor_expr() {
                    Ok(p) => p,
                    Err(e) => {
                        return Err(e);
                    },
                };
                inner.scale(-1);
                Ok(inner)
            } else {
                proof {
                    reveal_strlit("Unexpected token received");
                }
                Err(ParserErr::UnexpectedToken(String::from_str("Unexpected token received")))
            }
        } else {
            self.parse_polynomial()
        }
    }

    /// Parses a term, as `spec_parse_term` describes.
    #[verifier::loop_isolation(false)]
    #[verifier::rlimit(100)]
    pub fn parse_term_expr(&mut self) -> (r: Result<Polynomial, ParserErr>)
        requires
            old(self).wf(),
        ensures
            final(self).wf(),
            final(self).pstate().line == old(self).pstate().line,
            match spec_parse_term(old(self).pstate()) {
                PRes::Good { v, s } => {
                    &&& r matches Ok(p) && p@ == v && poly_wf(p@)
                    &&& final(self).pstate() == s
                },
                PRes::Bad { k, s } => {
                    &&& r matches Err(e) && kind_of(e) == k
                    &&& final(self).pstate() == s
                },
            },
            r is Ok ==> pmeasure(final(self).pstate()) < pmeasure(old(self).pstate()),
        decreases pmeasure(self.pstate()), 2int,
    {
        let ghost entry = self.pstate();
        let mut product = match self.parse_factor_expr() {
            Ok(p) => p,
            Err(e) => {
                return Err(e);
            },
        };
        proof {
            assert(spec_parse_term(entry) == spec_term_rest(self.pstate(), product@));
        }
        while self.lexer.curr_tok.token_type == TokType::Mul
            invariant
                self.wf(),
                self.pstate().line == entry.line,
                poly_wf(product@),
                0 <= pmeasure(self.pstate()) < pmeasure(entry),
                spec_parse_term(entry) == spec_term_rest(self.pstate(), product@),
            decreases pmeasure(self.pstate()),
        {
            let ghost cur = self.pstate();
            let ghost acc0 = product@;
            proof {
                lemma_padvance_measure(cur);
            }
            match self.get_next_token() {
                Ok(()) => {},
                Err(e) => {
                    return Err(e);
                },
            }
            let other = match self.parse_factor_expr() {
                Ok(p) => p,
                Err(e) => {
                    return Err(e);
                },
            };
            product = product.mul(&other);
            proof {
                assert(spec_term_rest(cur, acc0) == spec_term_rest(self.pstate(), product@));
            }
        }
        proof {
            assert(spec_term_rest(self.pstate(), product@) == (PRes::Good {
                v: product@,
                s: self.pstate(),
            }));
        }
        Ok(product)
    }

    /// Parses an expression, as `spec_parse_poly` describes.
    #[verifier::loop_isolation(false)]
    #[verifier::rlimit(100)]
    pub fn parse_poly_expr(&mut self) -> (r: Result<Polynomial, ParserErr>)
        requires
            old(self).wf(),
        ensures
            final(self).wf(),
            final(self).pstate().line == old(self).pstate().line,
            match spec_parse_poly(old(self).pstate()) {
                PRes::Good { v, s } => {
                    &&& r matches Ok(p) && p@ == v && poly_wf(p@)
                    &&& final(self).pstate() == s
                },
                PRes::Bad { k, s } => {
                    &&& r matches Err(e) && kind_of(e) == k
                    &&& final(self).pstate() == s
                },
            },
            r is Ok ==> pmeasure(final(self).pstate()) < pmeasure(old(self).pstate()),
        decreases pmeasure(self.pstate()), 4int,
    {
        let ghost entry = self.pstate();
        let mut sum = match self.parse_term_expr() {
            Ok(p) => p,
            Err(e) => {
                return Err(e);
            },
        };
        proof {
            assert(spec_parse_poly(entry) == spec_poly_sum_rest(self.pstate(), sum@));
        }
        while self.lexer.curr_tok.token_type == TokType::Plus || self.lexer.curr_tok.token_type
            == TokType::Minus
            invariant
                self.wf(),
                self.pstate().line == entry.line,
                poly_wf(sum@),
                0 <= pmeasure(self.pstate()) < pmeasure(entry),
                spec_parse_poly(entry) == spec_poly_sum_rest(self.pstate(), sum@),
            decreases pmeasure(self.pstate()),
        {
            let ghost cur = self.pstate();
            let ghost acc0 = sum@;
            proof {
                lemma_padvance_measure(cur);
            }
            let is_plus = self.lexer.curr_tok.token_type == TokType::Plus;
            match self.get_next_token() {
                Ok(()) => {},
                Err(e) => {
                    return Err(e);
                },
            }
            let other = match self.parse_term_expr() {
                Ok(p) => p,
                Err(e) => {
                    return Err(e);
                },
            };
            if is_plus {
                sum = sum.add(&other);
            } else {
                sum = sum.sub(&other);
            }
            proof {
                assert(spec_poly_sum_rest(cur, acc0) == spec_poly_sum_rest(self.pstate(), sum@));
            }
        }
        proof {
            assert(spec_poly_sum_rest(self.pstate(), sum@) == (PRes::Good {
                v: sum@,
                s: self.pstate(),
            }));
        }
        Ok(sum)
    }

    /// Parses a whole statement, as `spec_start` describes: leading line
    /// terminators are skipped, exhausted input yields the empty
    /// polynomial, and trailing unconsumed input fails the whole parse.
    #[verifier::loop_isolation(false)]
    #[verifier::rlimit(100)]
    pub fn start_parser(&mut self) -> (r: Result<Polynomial, ParserErr>)
        requires
            old(self).wf(),
        ensures
            final(self).wf(),
            final(self).pstate().line == old(self).pstate().line,
            match spec_start(old(self).pstate()) {
                PRes::Good { v, s } => {
                    &&& r matches Ok(p) && p@ == v && poly_wf(p@)
                    &&& final(self).pstate() == s
                },
                PRes::Bad { k, s } => {
                    &&& r matches Err(e) && kind_of(e) == k
                    &&& final(self).pstate() == s
                },
            },
    {
        let ghost entry = self.pstate();
        while self.lexer.curr_tok.token_type == TokType::Newl
            invariant
                self.wf(),
                self.pstate().line == entry.line,
                spec_start(entry) == spec_start(self.pstate()),
            decreases pmeasure(self.pstate()),
        {
            let ghost cur = self.pstate();
            proof {
                lemma_padvance_measure(cur);
            }
            match self.get_next_token() {
                Ok(()) => {},
                Err(e) => {
                    return Err(e);
                },
            }
            proof {
                assert(spec_start(cur) == spec_start(self.pstate()));
            }
        }
        if self.lexer.curr_tok.token_type == TokType::End {
            let empty_poly = Polynomial::new();
            proof {
                assert(empty_poly@ =~= Seq::<TermView>::empty());
            }
            return Ok(empty_poly);
        }
        let parsed = self.parse_poly_expr();
        match parsed {
            Ok(p) => {
                if self.lexer.curr_tok.token_type == TokType::End || self.lexer.curr_tok.token_type
                    == TokType::Newl {
                    Ok(p)
                } else {
                    proof {
                        reveal_strlit("Invalid syntax");
                    }
                    Err(ParserErr::InvalidSyntax(String::from_str("Invalid syntax")))
                }
            },
            Err(e) => {
                if self.lexer.curr_tok.token_type == TokType::End || self.lexer.curr_tok.token_type
                    == TokType::Newl {
                    Err(e)
                } else {
                    proof {
                        reveal_strlit("Invalid syntax");
                    }
                    Err(ParserErr::InvalidSyntax(String::from_str("Invalid syntax")))
                }
            },
        }
    }
}

/// The slot of a variable token's text: 0, 1, 2 for `x`, `y`, `z`, and
/// 3 for anything else.
fn var_slot(content: &String) -> (r: usize)
    ensures
        r == spec_var_slot(content@),
{
    proof {
        reveal_strlit("x");
        reveal_strlit("y");
        reveal_strlit("z");
        assert("x"@ =~= seq!['x']);
        assert("y"@ =~= seq!['y']);
        assert("z"@ =~= seq!['z']);
    }
    let n = content.as_str().unicode_len();
    if n != 1 {
        proof {
            assert(content@ != seq!['x'] && content@ != seq!['y'] && content@ != seq!['z']);
        }
        return 3;
    }
    let c = content.as_str().get_char(0);
    proof {
        assert(content@ =~= seq![c]);
    }
    if c == 'x' {
        0
    } else if c == 'y' {
        1
    } else if c == 'z' {
        2
    } else {
        proof {
            assert(content@ != seq!['x'] && content@ != seq!['y'] && content@ != seq!['z']);
        }
        3
    }
}

} // verus!
