use vstd::prelude::*;
use crate::lexer::{
    lemma_skip_spaces, lemma_token_end, skip_spaces, tier, tokens_from, Lexeme, Lexer, LexerError,
    Operator, Token,
};

verus! {

// Shunting-Yard cannot tell where a parenthesis went unmatched, only that one did.
#[derive(Debug, Clone, Copy, PartialEq, Eq, Structural)]
pub enum ParserError {
    BadToken(char),
    MissingLeftParenthesis,
    MissingRightParenthesis,
}

/// The abstract values of a sequence of tokens.
pub open spec fn lexemes(v: Seq<Token>) -> Seq<Lexeme> {
    v.map_values(|t: Token| t@)
}

/// A token that may stand in postfix output: a number or an operator.
pub open spec fn is_postfix_item(l: Lexeme) -> bool {
    l is Num || l is Op
}

/// A token that may wait on the operator stack: an operator or an open parenthesis.
pub open spec fn is_stack_item(l: Lexeme) -> bool {
    l is Op || l is Open
}

/// Whether the top of the stack is an operator that binds at least as tightly as `o`.
pub open spec fn binds_at_least(top: Lexeme, o: Operator) -> bool {
    match top {
        Lexeme::Op(p) => tier(p) >= tier(o),
        _ => false,
    }
}

/// Before `o` is pushed, the operators on top of the stack that bind at least as
/// tightly move to the output.
pub open spec fn pop_tighter(queue: Seq<Lexeme>, stack: Seq<Lexeme>, o: Operator) -> (
    Seq<Lexeme>,
    Seq<Lexeme>,
)
    decreases stack.len(),
{
    if stack.len() > 0 && binds_at_least(stack.last(), o) {
        pop_tighter(queue.push(stack.last()), stack.drop_last(), o)
    } else {
        (queue, stack)
    }
}

/// On `)`, the operators above the nearest `(` move to the output and the `(` is
/// dropped; with no `(` on the stack the parenthesis is unmatched.
pub open spec fn close_group(queue: Seq<Lexeme>, stack: Seq<Lexeme>) -> Result<
    (Seq<Lexeme>, Seq<Lexeme>),
    ParserError,
>
    decreases stack.len(),
{
    if stack.len() == 0 {
        Err(ParserError::MissingLeftParenthesis)
    } else if stack.last() is Open {
        Ok((queue, stack.drop_last()))
    } else {
        close_group(queue.push(stack.last()), stack.drop_last())
    }
}

/// At the end of input the stack moves to the output from the top down; a `(`
/// still on it was never closed.
pub open spec fn drain(queue: Seq<Lexeme>, stack: Seq<Lexeme>) -> Result<Seq<Lexeme>, ParserError>
    decreases stack.len(),
{
    if stack.len() == 0 {
        Ok(queue)
    } else if stack.last() is Open {
        Err(ParserError::MissingRightParenthesis)
    } else {
        drain(queue.push(stack.last()), stack.drop_last())
    }
}

/// One token of input applied to the output queue and the operator stack.
pub open spec fn step(st: (Seq<Lexeme>, Seq<Lexeme>), t: Lexeme) -> Result<
    (Seq<Lexeme>, Seq<Lexeme>),
    ParserError,
> {
    match t {
        Lexeme::Num(_) => Ok((st.0.push(t), st.1)),
        Lexeme::Op(o) => {
            let r = pop_tighter(st.0, st.1, o);
            Ok((r.0, r.1.push(t)))
        },
        Lexeme::Open => Ok((st.0, st.1.push(t))),
        Lexeme::Close => close_group(st.0, st.1),
        Lexeme::End => Ok(st),
    }
}

/// The queue and stack after the tokens `toks`, starting from `st`, or the first
/// error.
pub open spec fn run_from(st: (Seq<Lexeme>, Seq<Lexeme>), toks: Seq<Lexeme>) -> Result<
    (Seq<Lexeme>, Seq<Lexeme>),
    ParserError,
>
    decreases toks.len(),
{
    if toks.len() == 0 {
        Ok(st)
    } else {
        match run_from(st, toks.drop_last()) {
            Err(e) => Err(e),
            Ok(x) => step(x, toks.last()),
        }
    }
}

/// The queue and stack after the tokens `toks`, from empty ones, or the first error.
pub open spec fn run(toks: Seq<Lexeme>) -> Result<(Seq<Lexeme>, Seq<Lexeme>), ParserError> {
    run_from((Seq::empty(), Seq::empty()), toks)
}

/// The postfix form of the text `s` read from position `i`, or why there is none.
/// Errors come in the order in which the input meets them.
pub open spec fn parse_text(s: Seq<char>, i: int) -> Result<Seq<Lexeme>, ParserError> {
    let (toks, bad) = tokens_from(s, i);
    match run(toks) {
        Err(e) => Err(e),
        Ok(st) => match bad {
            Some(c) => Err(ParserError::BadToken(c)),
            None => drain(st.0, st.1),
        },
    }
}

pub struct Parser {
    lexer: Lexer,
}

fn top_binds_at_least(top: &Token, o: Operator) -> (r: bool)
    ensures
        r == binds_at_least(top@, o),
{
    match top {
        Token::Operator(p) => *p >= o,
        _ => false,
    }
}

fn is_left_paren(t: &Token) -> (r: bool)
    ensures
        r == (t@ is Open),
{
    match t {
        Token::LPAREN => true,
        _ => false,
    }
}

impl View for Parser {
    /// The text and the position from which the parser reads.
    type V = (Seq<char>, int);

    closed spec fn view(&self) -> (Seq<char>, int) {
        self.lexer@
    }
}

impl Parser {
    pub closed spec fn wf(&self) -> bool {
        self.lexer.wf()
    }

    pub fn from(input: &str) -> (r: Self)
        ensures
            r.wf(),
            r@ == (input@, 0int),
    {
        let lexer = Lexer::from(input);
        Self { lexer }
    }

    /// Reads the rest of the text and returns it in postfix order.
    pub fn parse(&mut self) -> (r: Result<Vec<Token>, ParserError>)
        requires
            old(self).wf(),
        ensures
            final(self).wf(),
            final(self)@.0 == old(self)@.0,
            match r {
                Ok(q) => parse_text(old(self)@.0, old(self)@.1) == Ok::<Seq<Lexeme>, ParserError>(
                    lexemes(q@),
                ),
                Err(e) => parse_text(old(self)@.0, old(self)@.1) == Err::<Seq<Lexeme>, ParserError>(
                    e,
                ),
            },
            r is Ok ==> forall|k: int|
                0 <= k < r->Ok_0@.len() ==> is_postfix_item(#[trigger] r->Ok_0@[k]@),
    {
        let ghost s = self@.0;
        let ghost i0 = self@.1;
        let mut queue: Vec<Token> = Vec::new();
        let mut stack: Vec<Token> = Vec::new();
        let ghost mut seen: Seq<Lexeme> = Seq::empty();
        proof {
            assert(seen + tokens_from(s, i0).0 =~= tokens_from(s, i0).0);
            assert(lexemes(queue@) =~= Seq::<Lexeme>::empty());
            assert(lexemes(stack@) =~= Seq::<Lexeme>::empty());
        }
        loop
            invariant_except_break
                tokens_from(s, i0) == (seen + tokens_from(s, self@.1).0, tokens_from(
                    s,
                    self@.1,
                ).1),
            invariant
                self.wf(),
                self@.0 == s,
                s == old(self)@.0,
                i0 == old(self)@.1,
                run(seen) == Ok::<(Seq<Lexeme>, Seq<Lexeme>), ParserError>(
                    (lexemes(queue@), lexemes(stack@)),
                ),
                forall|k: int| 0 <= k < queue@.len() ==> is_postfix_item(#[trigger] queue@[k]@),
                forall|k: int| 0 <= k < stack@.len() ==> is_stack_item(#[trigger] stack@[k]@),
            ensures
                tokens_from(s, i0) == (seen, None::<char>),
            decreases s.len() - self@.1,
        {
            let ghost pos = self@.1;
            proof {
                self.lexer.lemma_within();
                lemma_skip_spaces(s, pos);
                lemma_token_end(s, skip_spaces(s, pos));
            }
            let next = self.lexer.get_token();
            let t = match next {
                Err(LexerError::BadToken(c)) => {
                    proof {
                        assert(seen + tokens_from(s, pos).0 =~= seen);
                    }
                    return Err(ParserError::BadToken(c));
                },
                Ok(t) => t,
            };
            if let Token::EOF = t {
                proof {
                    assert(seen + tokens_from(s, pos).0 =~= seen);
                }
                break ;
            }
            let ghost lt = t@;
            proof {
                let rest = tokens_from(s, self@.1);
                assert(tokens_from(s, pos) == (seq![lt] + rest.0, rest.1));
                assert(seen + tokens_from(s, pos).0 =~= seen.push(lt) + rest.0);
                assert(seen.push(lt).drop_last() =~= seen);
            }
            match t {
                Token::Operator(o) => {
                    let ghost q0 = lexemes(queue@);
                    let ghost s0 = lexemes(stack@);
                    while stack.len() > 0 && top_binds_at_least(&stack[stack.len() - 1], o)
                        invariant
                            pop_tighter(q0, s0, o) == pop_tighter(
                                lexemes(queue@),
                                lexemes(stack@),
                                o,
                            ),
                            forall|k: int|
                                0 <= k < queue@.len() ==> is_postfix_item(#[trigger] queue@[k]@),
                            forall|k: int|
                                0 <= k < stack@.len() ==> is_stack_item(#[trigger] stack@[k]@),
                        decreases stack.len(),
                    {
                        let ghost before_q = lexemes(queue@);
                        let ghost before_s = lexemes(stack@);
                        let top = stack.pop().unwrap();
                        queue.push(top);
                        proof {
                            assert(lexemes(queue@) =~= before_q.push(before_s.last()));
                            assert(lexemes(stack@) =~= before_s.drop_last());
                        }
                    }
                    let ghost before_s = lexemes(stack@);
                    stack.push(Token::Operator(o));
                    proof {
                        assert(lexemes(stack@) =~= before_s.push(lt));
                    }
                },
                Token::LPAREN => {
                    let ghost before_s = lexemes(stack@);
                    stack.push(Token::LPAREN);
                    proof {
                        assert(lexemes(stack@) =~= before_s.push(lt));
                    }
                },
                Token::RPAREN => {
                    let ghost q0 = lexemes(queue@);
                    let ghost s0 = lexemes(stack@);
                    while stack.len() > 0 && !is_left_paren(&stack[stack.len() - 1])
                        invariant
                            close_group(q0, s0) == close_group(lexemes(queue@), lexemes(stack@)),
                            forall|k: int|
                                0 <= k < queue@.len() ==> is_postfix_item(#[trigger] queue@[k]@),
                            forall|k: int|
                                0 <= k < stack@.len() ==> is_stack_item(#[trigger] stack@[k]@),
                        decreases stack.len(),
                    {
                        let ghost before_q = lexemes(queue@);
                        let ghost before_s = lexemes(stack@);
                        let top = stack.pop().unwrap();
                        queue.push(top);
                        proof {
                            assert(lexemes(queue@) =~= before_q.push(before_s.last()));
                            assert(lexemes(stack@) =~= before_s.drop_last());
                        }
                    }
                    if stack.len() == 0 {
                        proof {
                            lemma_run_error_stays(seen.push(lt), tokens_from(s, self@.1).0);
                            assert(seen.push(lt) + tokens_from(s, self@.1).0 =~= tokens_from(
                                s,
                                i0,
                            ).0);
                        }
                        return Err(ParserError::MissingLeftParenthesis);
                    }
                    let ghost before_s = lexemes(stack@);
                    stack.pop();
                    proof {
                        assert(lexemes(stack@) =~= before_s.drop_last());
                    }
                },
                Token::Number(n) => {
                    let ghost before_q = lexemes(queue@);
                    queue.push(Token::Number(n));
                    proof {
                        assert(lexemes(queue@) =~= before_q.push(lt));
                    }
                },
                Token::EOF => {},
            }
            proof {
                seen = seen.push(lt);
            }
        }
        let ghost q1 = lexemes(queue@);
        let ghost s1 = lexemes(stack@);
        while stack.len() > 0
            invariant
                self.wf(),
                self@.0 == s,
                s == old(self)@.0,
                i0 == old(self)@.1,
                parse_text(s, i0) == drain(q1, s1),
                drain(q1, s1) == drain(lexemes(queue@), lexemes(stack@)),
                forall|k: int| 0 <= k < queue@.len() ==> is_postfix_item(#[trigger] queue@[k]@),
                forall|k: int| 0 <= k < stack@.len() ==> is_stack_item(#[trigger] stack@[k]@),
            decreases stack.len(),
        {
            let ghost before_q = lexemes(queue@);
            let ghost before_s = lexemes(stack@);
            let top = stack.pop().unwrap();
            proof {
                assert(before_s.last() == top@);
            }
            if is_left_paren(&top) {
                return Err(ParserError::MissingRightParenthesis);
            }
            queue.push(top);
            proof {
                assert(lexemes(queue@) =~= before_q.push(before_s.last()));
                assert(lexemes(stack@) =~= before_s.drop_last());
            }
        }
        proof {
            assert(lexemes(stack@) =~= Seq::<Lexeme>::empty());
        }
        Ok(queue)
    }
}

/// Once the parse has failed, the tokens that follow leave the error as it is.
pub proof fn lemma_run_error_stays(a: Seq<Lexeme>, b: Seq<Lexeme>)
    requires
        run(a) is Err,
    ensures
        run(a + b) == run(a),
    decreases b.len(),
{
    if b.len() > 0 {
        lemma_run_error_stays(a, b.drop_last());
        assert((a + b).drop_last() =~= a + b.drop_last());
    } else {
        assert(a + b =~= a);
    }
}

} // verus!
