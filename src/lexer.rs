use vstd::prelude::*;

use crate::token::{is_run_symbol, is_symbol, kind_of, Token, TokenType};

verus! {

/// Why a source text has no intermediate representation.
#[derive(Debug, Clone, Copy, PartialEq, Eq, Structural)]
pub enum LexError {
    /// A `]` came with no open loop to close.
    UnmatchedClose,
    /// The text ended with at least one `[` left open.
    UnmatchedOpen,
}

/// The significant symbols of a text, in order: every other character is dropped.
pub open spec fn significant(s: Seq<char>) -> Seq<char>
    decreases s.len(),
{
    if s.len() == 0 {
        Seq::empty()
    } else if is_symbol(s[0]) {
        seq![s[0]] + significant(s.drop_first())
    } else {
        significant(s.drop_first())
    }
}

/// The effect of one more symbol on the instructions so far and on the stack
/// of positions of the loops still open.
pub open spec fn lex_step(tokens: Seq<Token>, stack: Seq<usize>, c: char) -> Result<
    (Seq<Token>, Seq<usize>),
    LexError,
> {
    if is_run_symbol(c) {
        if tokens.len() > 0 && tokens.last().token_type == kind_of(c) {
            let last = tokens.last();
            Ok(
                (
                    tokens.update(
                        tokens.len() - 1,
                        Token { token_type: last.token_type, amount: (last.amount + 1) as usize },
                    ),
                    stack,
                ),
            )
        } else {
            Ok((tokens.push(Token { token_type: kind_of(c), amount: 1 }), stack))
        }
    } else if c == '[' {
        Ok(
            (
                tokens.push(Token { token_type: TokenType::JumpIfZero, amount: 0 }),
                stack.push(tokens.len() as usize),
            ),
        )
    } else if c == ']' {
        if stack.len() == 0 {
            Err(LexError::UnmatchedClose)
        } else {
            let pos = stack.last();
            let diff = tokens.len() - pos;
            Ok(
                (
                    tokens.push(
                        Token { token_type: TokenType::JumpIfNotZero, amount: (diff - 1) as usize },
                    ).update(
                        pos as int,
                        Token { token_type: TokenType::JumpIfZero, amount: (diff + 1) as usize },
                    ),
                    stack.drop_last(),
                ),
            )
        }
    } else {
        Ok((tokens, stack))
    }
}

/// The instructions and the open-loop stack after a sequence of symbols, or the
/// first error met on the way.
pub open spec fn lex_prefix(syms: Seq<char>) -> Result<(Seq<Token>, Seq<usize>), LexError>
    decreases syms.len(),
{
    if syms.len() == 0 {
        Ok((Seq::empty(), Seq::empty()))
    } else {
        match lex_prefix(syms.drop_last()) {
            Err(e) => Err(e),
            Ok((tokens, stack)) => lex_step(tokens, stack, syms.last()),
        }
    }
}

/// The intermediate representation of a sequence of symbols: every loop must
/// be closed by the end.
pub open spec fn lex_symbols(syms: Seq<char>) -> Result<Seq<Token>, LexError> {
    match lex_prefix(syms) {
        Err(e) => Err(e),
        Ok((tokens, stack)) => if stack.len() > 0 {
            Err(LexError::UnmatchedOpen)
        } else {
            Ok(tokens)
        },
    }
}

/// The intermediate representation of a source text.
pub open spec fn lex_source(source: Seq<char>) -> Result<Seq<Token>, LexError> {
    lex_symbols(significant(source))
}

/// The view of an executable lexing result.
pub open spec fn lexed_view(r: Result<Vec<Token>, LexError>) -> Result<Seq<Token>, LexError> {
    match r {
        Ok(t) => Ok(t@),
        Err(e) => Err(e),
    }
}

proof fn lemma_significant_step(s: Seq<char>, k: int)
    requires
        0 <= k < s.len(),
    ensures
        significant(s.subrange(k, s.len() as int)) == if is_symbol(s[k]) {
            seq![s[k]] + significant(s.subrange(k + 1, s.len() as int))
        } else {
            significant(s.subrange(k + 1, s.len() as int))
        },
{
    assert(s.subrange(k, s.len() as int).drop_first() =~= s.subrange(k + 1, s.len() as int));
}

proof fn lemma_significant_len(s: Seq<char>)
    ensures
        significant(s).len() <= s.len(),
    decreases s.len(),
{
    if s.len() > 0 {
        lemma_significant_len(s.drop_first());
    }
}

proof fn lemma_prefix_unfold(p: Seq<char>, k: int)
    requires
        0 <= k < p.len(),
    ensures
        lex_prefix(p.take(k + 1)) == match lex_prefix(p.take(k)) {
            Err(e) => Err(e),
            Ok((tokens, stack)) => lex_step(tokens, stack, p[k]),
        },
{
    assert(p.take(k + 1).drop_last() =~= p.take(k));
}

/// Once lexing has failed, no further symbol changes the error.
proof fn lemma_error_persists(p: Seq<char>, k1: int, k2: int, e: LexError)
    requires
        0 <= k1 <= k2 <= p.len(),
        lex_prefix(p.take(k1)) == Err::<(Seq<Token>, Seq<usize>), LexError>(e),
    ensures
        lex_prefix(p.take(k2)) == Err::<(Seq<Token>, Seq<usize>), LexError>(e),
    decreases k2 - k1,
{
    if k1 < k2 {
        lemma_prefix_unfold(p, k1);
        lemma_error_persists(p, k1 + 1, k2, e);
    }
}

/// Walks a source text one significant symbol at a time.
pub struct Lexer {
    source: Vec<char>,
    index: usize,
    current_char: char,
}

impl Lexer {
    /// The lexer's own invariant: the current character is a significant
    /// symbol, or the end-of-input sentinel once the text is used up.
    pub closed spec fn wf(&self) -> bool {
        &&& self.index <= self.source.len()
        &&& (is_symbol(self.current_char) || (self.current_char == '\0' && self.index
            == self.source.len()))
        &&& (self.current_char != '\0' ==> self.index >= 1)
    }

    /// The significant symbols not yet consumed, the current one first.
    pub closed spec fn pending(&self) -> Seq<char> {
        let rest = significant(self.source@.subrange(self.index as int, self.source.len() as int));
        if self.current_char == '\0' {
            rest
        } else {
            seq![self.current_char] + rest
        }
    }

    /// A lexer positioned on the first significant symbol of `source`.
    pub fn new(source: &str) -> (r: Lexer)
        ensures
            r.wf(),
            r.pending() == significant(source@),
    {
        let mut l = Lexer { source: chars_of(source), index: 0, current_char: '\0' };
        l.next();
        proof {
            assert(l.source@.subrange(0, l.source.len() as int) =~= source@);
        }
        l
    }

    fn is_valid_char(&self) -> (r: bool)
        ensures
            r == is_symbol(self.current_char),
    {
        self.current_char == '+' || self.current_char == '-' || self.current_char == '<'
            || self.current_char == '>' || self.current_char == '.' || self.current_char == ','
            || self.current_char == '[' || self.current_char == ']'
    }

    /// Moves to the next significant symbol, or to the sentinel at the end.
    fn next(&mut self)
        requires
            old(self).index <= old(self).source.len(),
        ensures
            final(self).wf(),
            final(self).source@ == old(self).source@,
            final(self).pending() == significant(
                old(self).source@.subrange(old(self).index as int, old(self).source.len() as int),
            ),
            old(self).wf() && old(self).current_char != '\0' ==> final(self).pending() == old(
                self,
            ).pending().drop_first(),
    {
        proof {
            let rest = significant(
                self.source@.subrange(self.index as int, self.source.len() as int),
            );
            assert((seq![self.current_char] + rest).drop_first() =~= rest);
        }
        let ghost s = self.source@;
        let ghost start = self.index;
        while self.index < self.source.len()
            invariant
                self.source@ == s,
                s == old(self).source@,
                start == old(self).index,
                start <= self.index <= s.len(),
                significant(s.subrange(start as int, s.len() as int)) == significant(
                    s.subrange(self.index as int, s.len() as int),
                ),
            decreases s.len() - self.index,
        {
            let c = self.source[self.index];
            proof {
                lemma_significant_step(s, self.index as int);
            }
            self.index = self.index + 1;
            self.current_char = c;
            if self.is_valid_char() {
                return;
            }
        }
        self.current_char = '\0';
    }

    /// Consumes the remaining symbols and returns their intermediate
    /// representation: each maximal run of one non-bracket symbol becomes one
    /// instruction, and each bracket pair becomes a pair of jumps.
    pub fn lex(&mut self) -> (r: Result<Vec<Token>, LexError>)
        requires
            old(self).wf(),
        ensures
            final(self).wf(),
            lexed_view(r) == lex_symbols(old(self).pending()),
            r is Ok ==> final(self).pending().len() == 0,
    {
        let ghost p = self.pending();
        let ghost mut consumed: int = 0;
        proof {
            lemma_significant_len(
                self.source@.subrange(self.index as int, self.source.len() as int),
            );
            assert(p.take(0) =~= Seq::<char>::empty());
        }
        let mut jump_stack: Vec<usize> = Vec::new();
        let mut tokens: Vec<Token> = Vec::new();
        while self.current_char != '\0'
            invariant
                self.wf(),
                p == old(self).pending(),
                0 <= consumed <= p.len(),
                p.len() <= usize::MAX,
                self.pending() == p.skip(consumed),
                lex_prefix(p.take(consumed)) == Ok::<(Seq<Token>, Seq<usize>), LexError>(
                    (tokens@, jump_stack@),
                ),
                tokens.len() <= consumed,
                forall|k: int| 0 <= k < jump_stack.len() ==> jump_stack[k] < tokens.len(),
                forall|k: int| 0 <= k < tokens.len() ==> tokens[k].amount <= consumed,
                consumed > 0 ==> tokens.len() > 0 && tokens@.last().token_type == kind_of(
                    p[consumed - 1],
                ),
                consumed > 0 && consumed < p.len() && is_run_symbol(p[consumed - 1]) ==> p[consumed]
                    != p[consumed - 1],
            decreases p.len() - consumed,
        {
            let c = self.current_char;
            proof {
                assert(self.pending().len() > 0);
                assert(self.pending()[0] == c);
                assert(p.skip(consumed)[0] == p[consumed]);
                lemma_prefix_unfold(p, consumed);
            }
            if c == '[' {
                jump_stack.push(tokens.len());
                tokens.push(Token { token_type: TokenType::JumpIfZero, amount: 0 });
                self.next();
                proof {
                    consumed = consumed + 1;
                    assert(p.skip(consumed) =~= p.skip(consumed - 1).drop_first());
                }
            } else if c == ']' {
                match jump_stack.pop() {
                    Some(pos) => {
                        let diff = tokens.len() - pos;
                        tokens.push(Token { token_type: TokenType::JumpIfNotZero, amount: diff - 1 });
                        tokens.set(pos, Token { token_type: TokenType::JumpIfZero, amount: diff + 1 });
                        self.next();
                        proof {
                            consumed = consumed + 1;
                            assert(p.skip(consumed) =~= p.skip(consumed - 1).drop_first());
                        }
                    },
                    None => {
                        proof {
                            lemma_error_persists(p, consumed + 1, p.len() as int, LexError::UnmatchedClose);
                            assert(p.take(p.len() as int) =~= p);
                        }
                        return Err(LexError::UnmatchedClose);
                    },
                }
            } else {
                let matching_char = c;
                let token_type = TokenType::from_symbol(matching_char);
                let mut amount: usize = 1;
                let ghost first = consumed;
                self.next();
                proof {
                    consumed = consumed + 1;
                    assert(p.skip(consumed) =~= p.skip(consumed - 1).drop_first());
                }
                while self.current_char == matching_char
                    invariant
                        self.wf(),
                        p == old(self).pending(),
                        1 <= consumed <= p.len(),
                        first < consumed,
                        p.len() <= usize::MAX,
                        self.pending() == p.skip(consumed),
                        is_run_symbol(matching_char),
                        token_type == kind_of(matching_char),
                        p[consumed - 1] == matching_char,
                        lex_prefix(p.take(consumed)) == Ok::<(Seq<Token>, Seq<usize>), LexError>(
                            (tokens@.push(Token { token_type, amount }), jump_stack@),
                        ),
                        1 <= amount <= consumed,
                        tokens.len() + 1 <= consumed,
                        forall|k: int| 0 <= k < jump_stack.len() ==> jump_stack[k] < tokens.len(),
                        forall|k: int| 0 <= k < tokens.len() ==> tokens[k].amount <= consumed,
                    decreases p.len() - consumed,
                {
                    proof {
                        assert(self.pending().len() > 0);
                        assert(self.pending()[0] == matching_char);
                        assert(p.skip(consumed)[0] == p[consumed]);
                        assert(p[consumed] == matching_char);
                        lemma_prefix_unfold(p, consumed);
                    }
                    proof {
                        let before = tokens@.push(Token { token_type, amount });
                        assert(before.update(
                            before.len() - 1,
                            Token { token_type, amount: (amount + 1) as usize },
                        ) =~= tokens@.push(Token { token_type, amount: (amount + 1) as usize }));
                    }
                    self.next();
                    amount = amount + 1;
                    proof {
                        consumed = consumed + 1;
                        assert(p.skip(consumed) =~= p.skip(consumed - 1).drop_first());
                    }
                }
                tokens.push(Token { token_type, amount });
                proof {
                    if self.current_char != '\0' {
                        assert(self.pending()[0] == self.current_char);
                    }
                }
            }
        }
        proof {
            assert(p.take(p.len() as int) =~= p);
        }
        if jump_stack.len() > 0 {
            return Err(LexError::UnmatchedOpen);
        }
        Ok(tokens)
    }
}

/// The intermediate representation of a source text: non-symbol characters
/// are ignored, and an unbalanced bracket is reported as an error.
pub fn tokenize(source: &str) -> (r: Result<Vec<Token>, LexError>)
    ensures
        lexed_view(r) == lex_source(source@),
{
    let mut lexer = Lexer::new(source);
    lexer.lex()
}

/// The characters of a string, in order.
fn chars_of(source: &str) -> (r: Vec<char>)
    ensures
        r@ == source@,
{
    let mut v: Vec<char> = Vec::new();
    for c in it: source.chars()
        invariant
            v@ == it.seq().take(it.index() as int),
            it.seq() == source@,
    {
        v.push(c);
    }
    v
}

} // verus!
