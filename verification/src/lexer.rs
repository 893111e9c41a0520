//! The lexer: turns one source line into a stream of classified tokens,
//! with a cached one-token lookahead. The scanning relation `lex_step`
//! says, for any cursor position, which token starts there, what text it
//! carries, and where the cursor stands afterwards; every public method is
//! specified against it.
use vstd::prelude::*;

verus! {

use vstd::string::*;
use crate::digits::is_digit_char;

#[derive(PartialEq, Eq, Structural, Clone, Copy, Debug)]
pub enum TokType {
    Exit,
    Newl,
    Mul,
    Div,
    Plus,
    PlusEq,
    Minus,
    MinusEq,
    Lpar,
    Rpar,
    Equal,
    Number,
    Period,
    Xvar,
    Caret,
    Identifier,
    UnknownToken,
    End,
}

#[derive(Debug)]
pub struct Token {
    pub token_type: TokType,
    pub token_content: String,
}

impl Clone for Token {
    fn clone(&self) -> (r: Token)
        ensures
            r == *self,
    {
        Token { token_type: self.token_type, token_content: self.token_content.clone() }
    }
}

pub struct Lexer {
    pub current_line: Vec<char>,
    pub line_size: usize,
    pub curr_pos: usize,
    pub curr_tok: Token,
    pub next_pos: usize,
    pub next_tok: Option<Token>,
}

#[derive(PartialEq, Eq, Structural, Clone, Copy, Debug)]
pub enum LexerErr {
    InvalidCharPos,
    UnexpectedChar,
    UnknownChar,
    EndOfInput,
}

/// First position at or after `pos` that does not hold a space.
pub open spec fn skip_spaces(line: Seq<char>, pos: int) -> int
    decreases line.len() - pos,
{
    if pos < line.len() && line[pos] == ' ' {
        skip_spaces(line, pos + 1)
    } else {
        pos
    }
}

/// First position at or after `pos` that does not hold a digit.
pub open spec fn digits_end(line: Seq<char>, pos: int) -> int
    decreases line.len() - pos,
{
    if pos < line.len() && is_digit_char(line[pos]) {
        digits_end(line, pos + 1)
    } else {
        pos
    }
}

/// End of a numeric literal starting at `pos`: a run of digits, extended
/// over a following `.` and any digits after it.
pub open spec fn number_end(line: Seq<char>, pos: int) -> int {
    let d = digits_end(line, pos);
    if d < line.len() && line[d] == '.' {
        digits_end(line, d + 1)
    } else {
        d
    }
}

pub open spec fn is_var_char(c: char) -> bool {
    c == 'x' || c == 'y' || c == 'z'
}

/// One step of scanning: the token that starts at `pos` after skipping
/// spaces. `text` is `None` for the token kinds whose content the lexer
/// leaves untouched.
pub enum LexStep {
    Tok { t: TokType, text: Option<Seq<char>>, next: int },
    Fail { at: int },
}

pub open spec fn lex_step(line: Seq<char>, pos: int) -> LexStep {
    let p = skip_spaces(line, pos);
    if p == line.len() {
        LexStep::Tok { t: TokType::End, text: None, next: p }
    } else {
        let c = line[p];
        if c == '\n' {
            LexStep::Tok { t: TokType::Newl, text: None, next: p + 1 }
        } else if c == '*' {
            LexStep::Tok { t: TokType::Mul, text: None, next: p + 1 }
        } else if c == '/' {
            LexStep::Tok { t: TokType::Div, text: None, next: p + 1 }
        } else if c == '+' {
            LexStep::Tok { t: TokType::Plus, text: None, next: p + 1 }
        } else if c == '-' {
            LexStep::Tok { t: TokType::Minus, text: None, next: p + 1 }
        } else if c == '(' {
            LexStep::Tok { t: TokType::Lpar, text: None, next: p + 1 }
        } else if c == ')' {
            LexStep::Tok { t: TokType::Rpar, text: None, next: p + 1 }
        } else if c == '=' {
            LexStep::Tok { t: TokType::Equal, text: None, next: p + 1 }
        } else if c == '^' {
            LexStep::Tok { t: TokType::Caret, text: None, next: p + 1 }
        } else if is_var_char(c) {
            LexStep::Tok { t: TokType::Xvar, text: Some(seq![c]), next: p + 1 }
        } else if is_digit_char(c) {
            LexStep::Tok {
                t: TokType::Number,
                text: Some(line.subrange(p, number_end(line, p))),
                next: number_end(line, p),
            }
        } else if c == '.' {
            LexStep::Tok { t: TokType::Period, text: None, next: p + 1 }
        } else {
            LexStep::Fail { at: p }
        }
    }
}

pub proof fn lemma_skip_spaces_bounds(line: Seq<char>, pos: int)
    requires
        0 <= pos <= line.len(),
    ensures
        pos <= skip_spaces(line, pos) <= line.len(),
    decreases line.len() - pos,
{
    if pos < line.len() && line[pos] == ' ' {
        lemma_skip_spaces_bounds(line, pos + 1);
    }
}

pub proof fn lemma_digits_end_bounds(line: Seq<char>, pos: int)
    requires
        0 <= pos <= line.len(),
    ensures
        pos <= digits_end(line, pos) <= line.len(),
    decreases line.len() - pos,
{
    if pos < line.len() && is_digit_char(line[pos]) {
        lemma_digits_end_bounds(line, pos + 1);
    }
}

/// Scanning is bounded and makes progress: a token other than `End` ends
/// strictly past the position it was requested at, and `End` stands
/// exactly at the end of the line.
pub proof fn lemma_lex_step_bounds(line: Seq<char>, pos: int)
    requires
        0 <= pos <= line.len(),
    ensures
        match lex_step(line, pos) {
            LexStep::Tok { t, text, next } => {
                &&& pos <= next <= line.len()
                &&& (t != TokType::End ==> pos < next)
                &&& (t == TokType::End <==> next == skip_spaces(line, pos) && skip_spaces(
                    line,
                    pos,
                ) == line.len())
            },
            LexStep::Fail { at } => pos <= at < line.len(),
        },
{
    lemma_skip_spaces_bounds(line, pos);
    let p = skip_spaces(line, pos);
    if p < line.len() && is_digit_char(line[p]) {
        let d = digits_end(line, p);
        lemma_digits_end_bounds(line, p + 1);
        assert(p < d);
        if d < line.len() && line[d] == '.' {
            lemma_digits_end_bounds(line, d + 1);
        }
    }
}

impl Lexer {
    /// The lexer is well formed: the recorded size is the line's length,
    /// the cursor is inside the line, and a cached lookahead, when
    /// present, is exactly what scanning from the current cursor yields.
    pub open spec fn wf(self) -> bool {
        &&& self.line_size == self.current_line@.len()
        &&& self.curr_pos <= self.line_size
        &&& match self.next_tok {
            Some(t) => match lex_step(self.current_line@, self.curr_pos as int) {
                LexStep::Tok { t: tt, text, next } => {
                    &&& t.token_type == tt
                    &&& next == self.next_pos
                    &&& match text {
                        Some(s) => t.token_content@ == s,
                        None => t.token_content@ == self.curr_tok.token_content@,
                    }
                },
                LexStep::Fail { .. } => false,
            },
            None => true,
        }
    }

    #[verifier::loop_isolation(false)]
    pub fn lexer_init(current_line: String) -> (l: Lexer)
        ensures
            l.wf(),
            l.current_line@ == current_line@,
            l.curr_pos == 0,
            l.curr_tok.token_type == TokType::End,
            l.curr_tok.token_content@ == Seq::<char>::empty(),
            l.next_tok is None,
    {
        let n = current_line.as_str().unicode_len();
        let mut chars: Vec<char> = Vec::new();
        let mut i: usize = 0;
        while i < n
            invariant
                0 <= i <= n,
                n == current_line@.len(),
                chars@ =~= current_line@.take(i as int),
            decreases n - i,
        {
            chars.push(current_line.as_str().get_char(i));
            i = i + 1;
        }
        proof {
            assert(chars@ =~= current_line@);
        }
        Lexer {
            current_line: chars,
            line_size: n,
            curr_pos: 0,
            curr_tok: Token { token_type: TokType::End, token_content: String::new() },
            next_pos: 0,
            next_tok: None,
        }
    }

    /// The character under the cursor, or `InvalidCharPos` when the
    /// cursor stands at or past the end of the line.
    pub fn get_curr_char(&self) -> (r: Result<char, LexerErr>)
        requires
            self.wf(),
        ensures
            match r {
                Ok(c) => self.curr_pos < self.line_size && c == self.current_line@[self.curr_pos as int],
                Err(e) => self.curr_pos >= self.line_size && e == LexerErr::InvalidCharPos,
            },
    {
        if self.curr_pos >= self.line_size {
            return Err(LexerErr::InvalidCharPos);
        }
        Ok(self.current_line[self.curr_pos])
    }

    /// Moves the cursor one character forward, stopping at the end of the
    /// line; returns the character now under the cursor, with a newline
    /// standing in for the end of the line.
    pub fn march_pos(&mut self) -> (r: Result<char, LexerErr>)
        requires
            old(self).wf(),
        ensures
            old(self).next_tok is None ==> final(self).wf(),
            final(self).current_line == old(self).current_line,
            final(self).line_size == old(self).line_size,
            final(self).curr_tok == old(self).curr_tok,
            final(self).next_pos == old(self).next_pos,
            final(self).next_tok == old(self).next_tok,
            final(self).curr_pos == if old(self).curr_pos < old(self).line_size {
                old(self).curr_pos + 1
            } else {
                old(self).curr_pos as int
            },
            r == Ok::<char, LexerErr>(
                if final(self).curr_pos == final(self).line_size {
                    '\n'
                } else {
                    final(self).current_line@[final(self).curr_pos as int]
                },
            ),
    {
        if self.curr_pos < self.line_size {
            self.curr_pos = self.curr_pos + 1;
        }
        if self.curr_pos == self.line_size {
            return Ok('\n');
        }
        Ok(self.current_line[self.curr_pos])
    }

    /// Moves the cursor one character back, or fails at the start of the
    /// line.
    pub fn unmarch_pos(&mut self) -> (r: Result<char, LexerErr>)
        requires
            old(self).wf(),
        ensures
            old(self).next_tok is None ==> final(self).wf(),
            final(self).current_line == old(self).current_line,
            final(self).line_size == old(self).line_size,
            final(self).curr_tok == old(self).curr_tok,
            final(self).next_pos == old(self).next_pos,
            final(self).next_tok == old(self).next_tok,
            match r {
                Ok(c) => {
                    &&& old(self).curr_pos > 0
                    &&& final(self).curr_pos == old(self).curr_pos - 1
                    &&& c == final(self).current_line@[final(self).curr_pos as int]
                },
                Err(e) => {
                    &&& old(self).curr_pos == 0
                    &&& final(self).curr_pos == 0
                    &&& e == LexerErr::InvalidCharPos
                },
            },
    {
        if self.curr_pos > 0 {
            self.curr_pos = self.curr_pos - 1;
        } else {
            return Err(LexerErr::InvalidCharPos);
        }
        Ok(self.current_line[self.curr_pos])
    }

    /// Advances to the next token: consumes the cached lookahead if one
    /// is present, otherwise scans, exactly as `lex_step` describes from
    /// the current cursor.
    #[verifier::loop_isolation(false)]
    pub fn get_next_token(&mut self) -> (r: Result<(), LexerErr>)
        requires
            old(self).wf(),
        ensures
            final(self).wf(),
            final(self).current_line == old(self).current_line,
            final(self).line_size == old(self).line_size,
            final(self).next_tok is None,
            match lex_step(old(self).current_line@, old(self).curr_pos as int) {
                LexStep::Tok { t, text, next } => {
                    &&& r is Ok
                    &&& final(self).curr_pos == next
                    &&& final(self).curr_tok.token_type == t
                    &&& (match text {
                        Some(s) => final(self).curr_tok.token_content@ == s,
                        None => final(self).curr_tok.token_content@ == old(self).curr_tok.token_content@,
                    })
                },
                LexStep::Fail { at } => {
                    &&& r == Err::<(), LexerErr>(LexerErr::UnknownChar)
                    &&& final(self).curr_pos == at
                    &&& final(self).curr_tok.token_type == old(self).curr_tok.token_type
                    &&& final(self).curr_tok.token_content@ == old(self).curr_tok.token_content@
                },
            },
    {
        let ghost line = self.current_line@;
        proof {
            lemma_lex_step_bounds(line, self.curr_pos as int);
        }
        if self.next_tok.is_some() {
            self.curr_pos = self.next_pos;
            let cached = match &self.next_tok {
                Some(t) => t.clone(),
                None => Token { token_type: TokType::End, token_content: String::new() },
            };
            self.curr_tok = cached;
            self.next_tok = None;
            return Ok(());
        }
        if self.curr_pos == self.line_size {
            self.curr_tok.token_type = TokType::End;
            return Ok(());
        }
        let ghost p0 = self.curr_pos as int;
        let mut ch = self.get_curr_char()?;
        while ch == ' '
            invariant
                self.wf(),
                self.current_line == old(self).current_line,
                self.current_line@ == line,
                self.line_size == line.len(),
                self.next_tok is None,
                self.next_pos == old(self).next_pos,
                self.curr_tok == old(self).curr_tok,
                self.curr_pos <= self.line_size,
                self.curr_pos == self.line_size ==> ch == '\n',
                self.curr_pos < self.line_size ==> ch == line[self.curr_pos as int],
                skip_spaces(line, p0) == skip_spaces(line, self.curr_pos as int),
            decreases self.line_size - self.curr_pos,
        {
            ch = self.march_pos()?;
        }
        let ghost p = self.curr_pos as int;
        proof {
            assert(skip_spaces(line, p0) == p);
        }
        if self.curr_pos == self.line_size {
            self.curr_tok.token_type = TokType::End;
            return Ok(());
        }
        if ch == '\n' {
            self.curr_tok.token_type = TokType::Newl;
        } else if ch == '*' {
            self.curr_tok.token_type = TokType::Mul;
        } else if ch == '/' {
            self.curr_tok.token_type = TokType::Div;
        } else if ch == '+' {
            self.curr_tok.token_type = TokType::Plus;
        } else if ch == '-' {
            self.curr_tok.token_type = TokType::Minus;
        } else if ch == '(' {
            self.curr_tok.token_type = TokType::Lpar;
        } else if ch == ')' {
            self.curr_tok.token_type = TokType::Rpar;
        } else if ch == '=' {
            self.curr_tok.token_type = TokType::Equal;
        } else if ch == '^' {
            self.curr_tok.token_type = TokType::Caret;
        } else if ch == 'x' {
            proof {
                reveal_strlit("x");
            }
            self.curr_tok.token_type = TokType::Xvar;
            self.curr_tok.token_content = String::from_str("x");
            proof {
                assert(self.curr_tok.token_content@ =~= seq![ch]);
            }
        } else if ch == 'y' {
            proof {
                reveal_strlit("y");
            }
            self.curr_tok.token_type = TokType::Xvar;
            self.curr_tok.token_content = String::from_str("y");
            proof {
                assert(self.curr_tok.token_content@ =~= seq![ch]);
            }
        } else if ch == 'z' {
            proof {
                reveal_strlit("z");
            }
            self.curr_tok.token_type = TokType::Xvar;
            self.curr_tok.token_content = String::from_str("z");
            proof {
                assert(self.curr_tok.token_content@ =~= seq![ch]);
            }
        } else if ch >= '0' && ch <= '9' {
            let mut number = String::new();
            proof {
                assert(number@ =~= line.subrange(p, self.curr_pos as int));
            }
            while ch >= '0' && ch <= '9'
                invariant
                    self.wf(),
                    self.current_line == old(self).current_line,
                    self.current_line@ == line,
                    self.line_size == line.len(),
                    self.next_tok is None,
                    self.next_pos == old(self).next_pos,
                    self.curr_tok == old(self).curr_tok,
                    p <= self.curr_pos <= self.line_size,
                    self.curr_pos == self.line_size ==> ch == '\n',
                    self.curr_pos < self.line_size ==> ch == line[self.curr_pos as int],
                    digits_end(line, p) == digits_end(line, self.curr_pos as int),
                    number@ == line.subrange(p, self.curr_pos as int),
                decreases self.line_size - self.curr_pos,
            {
                let ghost before = self.curr_pos as int;
                number.append(char_digit_str(ch));
                ch = self.march_pos()?;
                proof {
                    assert(line.subrange(p, before + 1) =~= line.subrange(p, before)
                        + seq![line[before]]);
                    assert(number@ =~= line.subrange(p, self.curr_pos as int));
                }
            }
            let ghost de = self.curr_pos as int;
            proof {
                assert(de == digits_end(line, p));
                lemma_digits_end_bounds(line, p);
                assert(p < de);
            }
            if ch == '.' {
                proof {
                    reveal_strlit(".");
                }
                number.append(".");
                ch = self.march_pos()?;
                proof {
                    assert(number@ =~= line.subrange(p, de + 1));
                }
                while ch >= '0' && ch <= '9'
                    invariant
                        self.wf(),
                        self.current_line == old(self).current_line,
                        self.current_line@ == line,
                        self.line_size == line.len(),
                        self.next_tok is None,
                        self.next_pos == old(self).next_pos,
                        self.curr_tok == old(self).curr_tok,
                        de < line.len(),
                        line[de] == '.',
                        de + 1 <= self.curr_pos <= self.line_size,
                        self.curr_pos == self.line_size ==> ch == '\n',
                        self.curr_pos < self.line_size ==> ch == line[self.curr_pos as int],
                        digits_end(line, de + 1) == digits_end(line, self.curr_pos as int),
                        number@ == line.subrange(p, self.curr_pos as int),
                    decreases self.line_size - self.curr_pos,
                {
                    let ghost before = self.curr_pos as int;
                    number.append(char_digit_str(ch));
                    ch = self.march_pos()?;
                    proof {
                        assert(line.subrange(p, before + 1) =~= line.subrange(p, before)
                            + seq![line[before]]);
                        assert(number@ =~= line.subrange(p, self.curr_pos as int));
                    }
                }
                proof {
                    assert(self.curr_pos == number_end(line, p));
                }
            } else {
                proof {
                    assert(self.curr_pos == number_end(line, p));
                }
            }
            let _back = self.unmarch_pos();
            self.curr_tok.token_type = TokType::Number;
            self.curr_tok.token_content = number;
        } else if ch == '.' {
            self.curr_tok.token_type = TokType::Period;
        } else {
            return Err(LexerErr::UnknownChar);
        }
        let _ahead = self.march_pos();
        Ok(())
    }

    /// Returns the token that the next `get_next_token` will produce,
    /// without changing the visible current token or cursor; the result
    /// is cached, so repeated peeks re-scan nothing and agree.
    pub fn peek_next_token(&mut self) -> (r: Result<Token, LexerErr>)
        requires
            old(self).wf(),
        ensures
            final(self).wf(),
            final(self).current_line == old(self).current_line,
            final(self).line_size == old(self).line_size,
            match lex_step(old(self).current_line@, old(self).curr_pos as int) {
                LexStep::Tok { t, text, next } => match r {
                    Ok(tok) => {
                        &&& final(self).curr_pos == old(self).curr_pos
                        &&& final(self).curr_tok == old(self).curr_tok
                        &&& final(self).next_pos == next
                        &&& final(self).next_tok == Some(tok)
                        &&& tok.token_type == t
                        &&& (match text {
                            Some(s) => tok.token_content@ == s,
                            None => tok.token_content@ == old(self).curr_tok.token_content@,
                        })
                    },
                    Err(_) => false,
                },
                LexStep::Fail { at } => {
                    &&& r == Err::<Token, LexerErr>(LexerErr::UnknownChar)
                    &&& final(self).curr_pos == at
                    &&& final(self).curr_tok.token_type == old(self).curr_tok.token_type
                    &&& final(self).curr_tok.token_content@ == old(self).curr_tok.token_content@
                    &&& final(self).next_tok is None
                },
            },
    {
        let last_pos = self.curr_pos;
        let last_tok = self.curr_tok.clone();
        match self.get_next_token() {
            Ok(()) => {},
            Err(e) => {
                return Err(e);
            },
        }
        let cached = self.curr_tok.clone();
        self.next_pos = self.curr_pos;
        self.next_tok = Some(cached.clone());
        self.curr_pos = last_pos;
        self.curr_tok = last_tok;
        Ok(cached)
    }
}

/// A digit as a one-character string slice.
fn char_digit_str(c: char) -> (r: &'static str)
    requires
        is_digit_char(c),
    ensures
        r@ == seq![c],
{
    proof {
        reveal_strlit("0");
        reveal_strlit("1");
        reveal_strlit("2");
        reveal_strlit("3");
        reveal_strlit("4");
        reveal_strlit("5");
        reveal_strlit("6");
        reveal_strlit("7");
        reveal_strlit("8");
        reveal_strlit("9");
        assert("0"@ =~= seq!['0']);
        assert("1"@ =~= seq!['1']);
        assert("2"@ =~= seq!['2']);
        assert("3"@ =~= seq!['3']);
        assert("4"@ =~= seq!['4']);
        assert("5"@ =~= seq!['5']);
        assert("6"@ =~= seq!['6']);
        assert("7"@ =~= seq!['7']);
        assert("8"@ =~= seq!['8']);
        assert("9"@ =~= seq!['9']);
    }
    if c == '0' {
        "0"
    } else if c == '1' {
        "1"
    } else if c == '2' {
        "2"
    } else if c == '3' {
        "3"
    } else if c == '4' {
        "4"
    } else if c == '5' {
        "5"
    } else if c == '6' {
        "6"
    } else if c == '7' {
        "7"
    } else if c == '8' {
        "8"
    } else {
        "9"
    }
}

/// Whether scanning on from token `t` at position `pos` reaches a line
/// terminator, the end of the input, or the step bound, without hitting
/// an unknown character.
pub open spec fn run_ok(line: Seq<char>, t: TokType, pos: int, fuel: nat) -> bool
    decreases fuel,
{
    if t == TokType::Newl || t == TokType::End {
        true
    } else if fuel == 0 {
        true
    } else {
        match lex_step(line, pos) {
            LexStep::Fail { .. } => false,
            LexStep::Tok { t: t2, text, next } => run_ok(line, t2, next, (fuel - 1) as nat),
        }
    }
}

/// Scans the whole line, token by token, up to the step bound; reports
/// the first unknown character as an error.
#[verifier::loop_isolation(false)]
pub fn tokenize(lexer: Lexer) -> (r: Result<(), LexerErr>)
    requires
        lexer.wf(),
    ensures
        match lex_step(lexer.current_line@, lexer.curr_pos as int) {
            LexStep::Fail { .. } => r == Err::<(), LexerErr>(LexerErr::UnknownChar),
            LexStep::Tok { t, text, next } => r == (if run_ok(
                lexer.current_line@,
                t,
                next,
                100,
            ) {
                Ok::<(), LexerErr>(())
            } else {
                Err::<(), LexerErr>(LexerErr::UnknownChar)
            }),
        },
{
    let ghost line = lexer.current_line@;
    let ghost start = lexer.curr_pos as int;
    let mut lx = lexer;
    let mut ind: usize = 0;
    match lx.get_next_token() {
        Ok(()) => {},
        Err(e) => {
            return Err(LexerErr::UnknownChar);
        },
    }
    proof {
        assert(lex_step(line, start) matches LexStep::Tok { t, text, next });
    }
    loop
        invariant
            lx.wf(),
            lx.current_line@ == line,
            0 <= ind <= 100,
            lex_step(line, start) matches LexStep::Tok { t, text, next } && run_ok(
                line,
                t,
                next,
                100,
            ) == run_ok(line, lx.curr_tok.token_type, lx.curr_pos as int, (100 - ind) as nat),
        decreases 100 - ind,
    {
        if lx.curr_tok.token_type == TokType::Newl {
            return Ok(());
        }
        if lx.curr_tok.token_type == TokType::End {
            return Ok(());
        }
        if ind >= 100 {
            return Ok(());
        }
        match lx.get_next_token() {
            Ok(()) => {},
            Err(e) => {
                return Err(LexerErr::UnknownChar);
            },
        }
        ind = ind + 1;
    }
}

} // verus!
