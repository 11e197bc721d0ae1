use vstd::prelude::*;
use crate::lexer::{Lexeme, Operator, Token};
use crate::parser::{is_postfix_item, lexemes};

verus! {

#[derive(Debug, Clone, Copy, PartialEq, Eq, Structural)]
pub enum EvaluatorError {
    NotSingleResultInStack,
    MissingOperand,
}

/// An expression tree: a numeral, or an operator applied to a left and a right
/// operand. Its numeric value is computed by whoever reads the numerals.
#[derive(Debug)]
pub enum Expr {
    Number(Vec<u8>),
    Binary(Operator, Box<Expr>, Box<Expr>),
}

/// The mathematical value of an expression tree.
pub enum Term {
    Leaf(Seq<u8>),
    Node(Operator, Box<Term>, Box<Term>),
}

pub open spec fn term_of(e: Expr) -> Term
    decreases e,
{
    match e {
        Expr::Number(n) => Term::Leaf(n@),
        Expr::Binary(o, l, r) => Term::Node(o, Box::new(term_of(*l)), Box::new(term_of(*r))),
    }
}

impl View for Expr {
    type V = Term;

    open spec fn view(&self) -> Term {
        term_of(*self)
    }
}

/// The abstract values of a stack of trees.
pub open spec fn terms(v: Seq<Expr>) -> Seq<Term> {
    v.map_values(|e: Expr| e@)
}

/// The stack of trees after the postfix tokens `toks`, starting from `st`, or the
/// first error. An operator takes the two topmost trees as its right and left
/// operands, the top one being the right.
pub open spec fn reduce_from(st: Seq<Term>, toks: Seq<Lexeme>) -> Result<Seq<Term>, EvaluatorError>
    decreases toks.len(),
{
    if toks.len() == 0 {
        Ok(st)
    } else {
        match reduce_from(st, toks.drop_last()) {
            Err(e) => Err(e),
            Ok(x) => match toks.last() {
                Lexeme::Num(n) => Ok(x.push(Term::Leaf(n))),
                Lexeme::Op(o) => if x.len() < 2 {
                    Err(EvaluatorError::MissingOperand)
                } else {
                    Ok(
                        x.subrange(0, x.len() - 2).push(
                            Term::Node(o, Box::new(x[x.len() - 2]), Box::new(x[x.len() - 1])),
                        ),
                    )
                },
                _ => Ok(x),
            },
        }
    }
}

/// The stack of trees after the postfix tokens `toks`, from an empty one, or the
/// first error.
pub open spec fn reduce(toks: Seq<Lexeme>) -> Result<Seq<Term>, EvaluatorError> {
    reduce_from(Seq::empty(), toks)
}

/// The tree that the postfix tokens `toks` denote: none for an empty sequence,
/// whose value is zero.
pub open spec fn evaluation(toks: Seq<Lexeme>) -> Result<Option<Term>, EvaluatorError> {
    match reduce(toks) {
        Err(e) => Err(e),
        Ok(st) => if st.len() > 1 {
            Err(EvaluatorError::NotSingleResultInStack)
        } else if st.len() == 1 {
            Ok(Some(st[0]))
        } else {
            Ok(None)
        },
    }
}

/// The abstract value of an evaluator's result.
pub open spec fn outcome(r: Result<Option<Expr>, EvaluatorError>) -> Result<
    Option<Term>,
    EvaluatorError,
> {
    match r {
        Ok(Some(e)) => Ok(Some(e@)),
        Ok(None) => Ok(None),
        Err(x) => Err(x),
    }
}

/// Once the reduction has failed, the tokens that follow leave the error as it is.
pub proof fn lemma_reduce_error_stays(a: Seq<Lexeme>, b: Seq<Lexeme>)
    requires
        reduce(a) is Err,
    ensures
        reduce(a + b) == reduce(a),
    decreases b.len(),
{
    if b.len() > 0 {
        lemma_reduce_error_stays(a, b.drop_last());
        assert((a + b).drop_last() =~= a + b.drop_last());
    } else {
        assert(a + b =~= a);
    }
}

pub struct Evaluator {}

impl Evaluator {
    /// Reduces a postfix token sequence to the expression tree it denotes.
    pub fn evaluate(rpn_token_list: Vec<Token>) -> (r: Result<Option<Expr>, EvaluatorError>)
        requires
            forall|k: int|
                0 <= k < rpn_token_list@.len() ==> is_postfix_item(#[trigger] rpn_token_list@[k]@),
        ensures
            outcome(r) == evaluation(lexemes(rpn_token_list@)),
    {
        let ghost orig = rpn_token_list@;
        let ghost toks = lexemes(orig);
        let ghost n = orig.len();
        let mut list = rpn_token_list;
        let mut pending: Vec<Token> = Vec::new();
        while list.len() > 0
            invariant
                pending@.len() + list@.len() == n,
                n == orig.len(),
                orig == rpn_token_list@,
                forall|k: int| 0 <= k < list@.len() ==> #[trigger] list@[k] == orig[k],
                forall|k: int|
                    0 <= k < pending@.len() ==> #[trigger] pending@[k] == orig[n - 1 - k],
            decreases list.len(),
        {
            let t = list.pop().unwrap();
            pending.push(t);
        }
        let mut stack: Vec<Expr> = Vec::new();
        proof {
            assert(toks.subrange(0, 0) =~= Seq::<Lexeme>::empty());
            assert(terms(stack@) =~= Seq::<Term>::empty());
        }
        while pending.len() > 0
            invariant
                pending@.len() <= n,
                n == orig.len(),
                orig == rpn_token_list@,
                toks == lexemes(orig),
                forall|k: int| 0 <= k < orig.len() ==> is_postfix_item(#[trigger] orig[k]@),
                forall|k: int|
                    0 <= k < pending@.len() ==> #[trigger] pending@[k] == orig[n - 1 - k],
                reduce(toks.subrange(0, n - pending@.len())) == Ok::<Seq<Term>, EvaluatorError>(
                    terms(stack@),
                ),
            decreases pending.len(),
        {
            let ghost i = n - pending@.len();
            let ghost st = terms(stack@);
            let t = pending.pop().unwrap();
            proof {
                assert(t == orig[i]);
                assert(toks[i] == t@);
                assert(toks.subrange(0, i + 1).drop_last() =~= toks.subrange(0, i));
                assert(is_postfix_item(orig[i]@));
            }
            match t {
                Token::Number(num) => {
                    stack.push(Expr::Number(num));
                    proof {
                        assert(terms(stack@) =~= st.push(Term::Leaf(toks[i]->Num_0)));
                    }
                },
                Token::Operator(o) => {
                    if stack.len() < 2 {
                        proof {
                            assert(toks.subrange(0, i + 1).last() == toks[i]);
                            assert(reduce(toks.subrange(0, i + 1)) is Err);
                            lemma_reduce_error_stays(
                                toks.subrange(0, i + 1),
                                toks.subrange(i + 1, n as int),
                            );
                            assert(toks.subrange(0, i + 1) + toks.subrange(i + 1, n as int)
                                =~= toks);
                        }
                        return Err(EvaluatorError::MissingOperand);
                    }
                    let right = stack.pop().unwrap();
                    let left = stack.pop().unwrap();
                    stack.push(Expr::Binary(o, Box::new(left), Box::new(right)));
                    proof {
                        assert(terms(stack@) =~= st.subrange(0, st.len() - 2).push(
                            Term::Node(o, Box::new(st[st.len() - 2]), Box::new(st[st.len() - 1])),
                        ));
                    }
                },
                _ => {
                    proof {
                        assert(false);
                    }
                },
            }
        }
        proof {
            assert(toks.subrange(0, n as int) =~= toks);
        }
        if stack.len() > 1 {
            return Err(EvaluatorError::NotSingleResultInStack);
        }
        Ok(stack.pop())
    }
}

} // verus!
