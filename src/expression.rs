use vstd::prelude::*;
use crate::evaluator::{
    evaluation, reduce, reduce_from, Evaluator, EvaluatorError, Expr, Term,
};
use crate::lexer::{lemma_tokens_from_extended, tier, tokens_from, Lexeme, Operator};
use crate::parser::{
    is_postfix_item, close_group, drain, parse_text, pop_tighter, run, run_from, step, Parser, ParserError,
};

verus! {

/// Why a text has no value: it does not parse, or its postfix form does not reduce.
#[derive(Debug, Clone, Copy, PartialEq, Eq, Structural)]
pub enum EvaluationError {
    Parser(ParserError),
    Evaluator(EvaluatorError),
}

/// The expression tree that the text with characters `s` denotes (none for an empty
/// expression, whose value is zero), or why there is none.
pub open spec fn expression_value(s: Seq<char>) -> Result<Option<Term>, EvaluationError> {
    match parse_text(s, 0) {
        Err(e) => Err(EvaluationError::Parser(e)),
        Ok(postfix) => match evaluation(postfix) {
            Err(e) => Err(EvaluationError::Evaluator(e)),
            Ok(t) => Ok(t),
        },
    }
}

/// The abstract value of a result of `evaluate_expression`.
pub open spec fn expression_outcome(r: Result<Option<Expr>, EvaluationError>) -> Result<
    Option<Term>,
    EvaluationError,
> {
    match r {
        Ok(Some(e)) => Ok(Some(e@)),
        Ok(None) => Ok(None),
        Err(x) => Err(x),
    }
}

/// Tokenizes, parses and reduces `text` to the expression tree it denotes.
pub fn evaluate_expression(text: &str) -> (r: Result<Option<Expr>, EvaluationError>)
    ensures
        expression_outcome(r) == expression_value(text@),
{
    let mut parser = Parser::from(text);
    let postfix = match parser.parse() {
        Ok(q) => q,
        Err(e) => {
            return Err(EvaluationError::Parser(e));
        },
    };
    match Evaluator::evaluate(postfix) {
        Ok(t) => Ok(t),
        Err(e) => Err(EvaluationError::Evaluator(e)),
    }
}

/// How many `(` are open after the tokens `toks`: each `(` opens one, each `)`
/// closes one.
pub open spec fn depth(toks: Seq<Lexeme>) -> int
    decreases toks.len(),
{
    if toks.len() == 0 {
        0
    } else {
        depth(toks.drop_last()) + if toks.last() is Open {
            1int
        } else if toks.last() is Close {
            -1int
        } else {
            0int
        }
    }
}

/// No `)` in `toks` closes more groups than were opened before it.
pub open spec fn closes_matched(toks: Seq<Lexeme>) -> bool {
    forall|j: int| 0 <= j <= toks.len() ==> depth(#[trigger] toks.subrange(0, j)) >= 0
}

/// How many `(` wait on an operator stack.
pub open spec fn opens(stack: Seq<Lexeme>) -> int
    decreases stack.len(),
{
    if stack.len() == 0 {
        0
    } else {
        opens(stack.drop_last()) + if stack.last() is Open {
            1int
        } else {
            0int
        }
    }
}

proof fn lemma_opens_nonneg(stack: Seq<Lexeme>)
    ensures
        opens(stack) >= 0,
    decreases stack.len(),
{
    if stack.len() > 0 {
        lemma_opens_nonneg(stack.drop_last());
    }
}

proof fn lemma_pop_tighter_opens(q: Seq<Lexeme>, st: Seq<Lexeme>, o: Operator)
    ensures
        opens(pop_tighter(q, st, o).1) == opens(st),
    decreases st.len(),
{
    if st.len() > 0 && crate::parser::binds_at_least(st.last(), o) {
        lemma_pop_tighter_opens(q.push(st.last()), st.drop_last(), o);
    }
}

proof fn lemma_close_group_opens(q: Seq<Lexeme>, st: Seq<Lexeme>)
    ensures
        opens(st) == 0 ==> close_group(q, st) == Err::<(Seq<Lexeme>, Seq<Lexeme>), ParserError>(
            ParserError::MissingLeftParenthesis,
        ),
        opens(st) > 0 ==> close_group(q, st) is Ok && opens(close_group(q, st)->Ok_0.1) == opens(
            st,
        ) - 1,
    decreases st.len(),
{
    lemma_opens_nonneg(st);
    if st.len() > 0 {
        lemma_opens_nonneg(st.drop_last());
        if !(st.last() is Open) {
            lemma_close_group_opens(q.push(st.last()), st.drop_last());
        }
    }
}

proof fn lemma_drain_opens(q: Seq<Lexeme>, st: Seq<Lexeme>)
    ensures
        opens(st) > 0 ==> drain(q, st) == Err::<Seq<Lexeme>, ParserError>(
            ParserError::MissingRightParenthesis,
        ),
        opens(st) == 0 ==> drain(q, st) is Ok,
    decreases st.len(),
{
    lemma_opens_nonneg(st);
    if st.len() > 0 {
        lemma_opens_nonneg(st.drop_last());
        if !(st.last() is Open) {
            lemma_drain_opens(q.push(st.last()), st.drop_last());
        }
    }
}

/// While every `)` has had its `(`, the operator stack holds exactly the open
/// groups; the first `)` without one stops the parse with a missing left
/// parenthesis.
proof fn lemma_run_depth(toks: Seq<Lexeme>)
    ensures
        closes_matched(toks) ==> run(toks) is Ok && opens(run(toks)->Ok_0.1) == depth(toks),
        !closes_matched(toks) ==> run(toks) == Err::<(Seq<Lexeme>, Seq<Lexeme>), ParserError>(
            ParserError::MissingLeftParenthesis,
        ),
    decreases toks.len(),
{
    if toks.len() == 0 {
        assert(toks.subrange(0, 0) =~= toks);
        assert(closes_matched(toks));
    } else {
        let init = toks.drop_last();
        lemma_run_depth(init);
        assert(toks.subrange(0, toks.len() as int) =~= toks);
        assert forall|j: int| 0 <= j <= init.len() implies #[trigger] init.subrange(0, j)
            == toks.subrange(0, j) by {
            assert(init.subrange(0, j) =~= toks.subrange(0, j));
        }
        if closes_matched(init) {
            let st = run(init)->Ok_0;
            let t = toks.last();
            lemma_opens_nonneg(st.1);
            match t {
                Lexeme::Op(o) => {
                    lemma_pop_tighter_opens(st.0, st.1, o);
                    let r = pop_tighter(st.0, st.1, o);
                    assert(r.1.push(t).drop_last() =~= r.1);
                },
                Lexeme::Open => {
                    assert(st.1.push(t).drop_last() =~= st.1);
                },
                Lexeme::Close => {
                    lemma_close_group_opens(st.0, st.1);
                },
                _ => {},
            }
            if closes_matched(toks) {
            } else {
                let j = choose|j: int| 0 <= j <= toks.len() && depth(#[trigger] toks.subrange(0, j)) < 0;
                if j < toks.len() {
                    assert(init.subrange(0, j) == toks.subrange(0, j));
                }
            }
        } else {
            let j = choose|j: int| 0 <= j <= init.len() && depth(#[trigger] init.subrange(0, j)) < 0;
            assert(init.subrange(0, j) == toks.subrange(0, j));
        }
    }
}

/// A `)` that closes more groups than were opened before it makes the text fail
/// with a missing left parenthesis, whatever follows it.
pub proof fn lemma_unmatched_right_parenthesis(s: Seq<char>, k: int)
    requires
        0 <= k <= tokens_from(s, 0).0.len(),
        depth(tokens_from(s, 0).0.subrange(0, k)) < 0,
    ensures
        expression_value(s) == Err::<Option<Term>, EvaluationError>(
            EvaluationError::Parser(ParserError::MissingLeftParenthesis),
        ),
{
    lemma_run_depth(tokens_from(s, 0).0);
}

/// A text that reads to its end without a bad character, in which every `)` has
/// its `(` but some `(` is left open, fails with a missing right parenthesis.
pub proof fn lemma_unmatched_left_parenthesis(s: Seq<char>)
    requires
        tokens_from(s, 0).1 is None,
        closes_matched(tokens_from(s, 0).0),
        depth(tokens_from(s, 0).0) > 0,
    ensures
        expression_value(s) == Err::<Option<Term>, EvaluationError>(
            EvaluationError::Parser(ParserError::MissingRightParenthesis),
        ),
{
    let toks = tokens_from(s, 0).0;
    lemma_run_depth(toks);
    let st = run(toks)->Ok_0;
    lemma_drain_opens(st.0, st.1);
}

/// A character that starts no token fails the text with that character, provided
/// no `)` before it was unmatched; what follows it is never read.
pub proof fn lemma_bad_character(s: Seq<char>, c: char)
    requires
        tokens_from(s, 0).1 == Some(c),
        closes_matched(tokens_from(s, 0).0),
    ensures
        expression_value(s) == Err::<Option<Term>, EvaluationError>(
            EvaluationError::Parser(ParserError::BadToken(c)),
        ),
{
    lemma_run_depth(tokens_from(s, 0).0);
}

/// Once a bad character has stopped the reading of a text, whatever follows is
/// never read: appending characters to the text leaves its result as it was.
pub proof fn lemma_bad_character_ends_reading(s: Seq<char>, r: Seq<char>)
    requires
        tokens_from(s, 0).1 is Some,
    ensures
        expression_value(s + r) == expression_value(s),
{
    lemma_tokens_from_extended(s, r, 0);
}

/// For a text read to its end without a bad character, parentheses decide the
/// outcome of parsing: a missing left parenthesis exactly when some `)` closes
/// more groups than were opened before it; otherwise a missing right parenthesis
/// exactly when some `(` stays open; and success exactly when neither holds.
pub proof fn lemma_parenthesis_balance(s: Seq<char>)
    requires
        tokens_from(s, 0).1 is None,
    ensures
        parse_text(s, 0) == Err::<Seq<Lexeme>, ParserError>(ParserError::MissingLeftParenthesis)
            <==> !closes_matched(tokens_from(s, 0).0),
        parse_text(s, 0) == Err::<Seq<Lexeme>, ParserError>(ParserError::MissingRightParenthesis)
            <==> closes_matched(tokens_from(s, 0).0) && depth(tokens_from(s, 0).0) > 0,
        parse_text(s, 0) is Ok <==> closes_matched(tokens_from(s, 0).0) && depth(
            tokens_from(s, 0).0,
        ) == 0,
{
    let toks = tokens_from(s, 0).0;
    lemma_run_depth(toks);
    if closes_matched(toks) {
        assert(toks.subrange(0, toks.len() as int) =~= toks);
        let st = run(toks)->Ok_0;
        lemma_drain_opens(st.0, st.1);
    }
}

/// How many values the postfix tokens `toks` leave on the stack when none is
/// missing: one per number, one less per operator.
pub open spec fn balance(toks: Seq<Lexeme>) -> int
    decreases toks.len(),
{
    if toks.len() == 0 {
        0
    } else {
        balance(toks.drop_last()) + if toks.last() is Num {
            1int
        } else if toks.last() is Op {
            -1int
        } else {
            0int
        }
    }
}

/// Some operator in `toks` is reached with fewer than two values on the stack.
pub open spec fn starved(toks: Seq<Lexeme>) -> bool {
    exists|k: int|
        0 <= k < toks.len() && toks[k] is Op && balance(#[trigger] toks.subrange(0, k)) < 2
}

proof fn lemma_reduce_balance(toks: Seq<Lexeme>)
    requires
        forall|k: int| 0 <= k < toks.len() ==> is_postfix_item(#[trigger] toks[k]),
    ensures
        !starved(toks) ==> reduce(toks) is Ok && reduce(toks)->Ok_0.len() == balance(toks),
        starved(toks) ==> reduce(toks) == Err::<Seq<Term>, EvaluatorError>(
            EvaluatorError::MissingOperand,
        ),
    decreases toks.len(),
{
    if toks.len() > 0 {
        let init = toks.drop_last();
        let n = init.len() as int;
        assert forall|k: int| 0 <= k < init.len() implies is_postfix_item(#[trigger] init[k]) by {
            assert(init[k] == toks[k]);
        }
        lemma_reduce_balance(init);
        assert forall|k: int| 0 <= k <= init.len() implies #[trigger] init.subrange(0, k)
            == toks.subrange(0, k) by {
            assert(init.subrange(0, k) =~= toks.subrange(0, k));
        }
        assert(toks.subrange(0, n) =~= init);
        assert(toks[n] == toks.last());
        assert(is_postfix_item(toks[n]));
        if starved(init) {
            let k = choose|k: int|
                0 <= k < init.len() && init[k] is Op && balance(#[trigger] init.subrange(0, k))
                    < 2;
            assert(toks[k] == init[k]);
            assert(init.subrange(0, k) == toks.subrange(0, k));
        } else if starved(toks) {
            let k = choose|k: int|
                0 <= k < toks.len() && toks[k] is Op && balance(#[trigger] toks.subrange(0, k))
                    < 2;
            if k < n {
                assert(init[k] == toks[k]);
                assert(init.subrange(0, k) == toks.subrange(0, k));
            }
        } else {
            if toks.last() is Op {
                assert(!(balance(toks.subrange(0, n)) < 2));
            }
        }
    }
}

/// The numbers among the tokens `toks`, in their order.
pub open spec fn numbers(toks: Seq<Lexeme>) -> Seq<Lexeme>
    decreases toks.len(),
{
    if toks.len() == 0 {
        Seq::empty()
    } else if toks.last() is Num {
        numbers(toks.drop_last()).push(toks.last())
    } else {
        numbers(toks.drop_last())
    }
}

/// No number waits on the stack.
pub open spec fn no_numbers(st: Seq<Lexeme>) -> bool {
    forall|k: int| 0 <= k < st.len() ==> !(#[trigger] st[k] is Num)
}

proof fn lemma_move_top(q: Seq<Lexeme>, st: Seq<Lexeme>)
    requires
        st.len() > 0,
        no_numbers(st),
    ensures
        numbers(q.push(st.last())) == numbers(q),
        no_numbers(st.drop_last()),
{
    assert(q.push(st.last()).drop_last() =~= q);
    assert(st.last() == st[st.len() - 1]);
    assert forall|k: int| 0 <= k < st.drop_last().len() implies !(#[trigger] st.drop_last()[k] is Num) by {
        assert(st.drop_last()[k] == st[k]);
    }
}

proof fn lemma_pop_tighter_numbers(q: Seq<Lexeme>, st: Seq<Lexeme>, o: Operator)
    requires
        no_numbers(st),
    ensures
        numbers(pop_tighter(q, st, o).0) == numbers(q),
        no_numbers(pop_tighter(q, st, o).1),
    decreases st.len(),
{
    if st.len() > 0 && crate::parser::binds_at_least(st.last(), o) {
        lemma_move_top(q, st);
        lemma_pop_tighter_numbers(q.push(st.last()), st.drop_last(), o);
    }
}

proof fn lemma_close_group_numbers(q: Seq<Lexeme>, st: Seq<Lexeme>)
    requires
        no_numbers(st),
    ensures
        close_group(q, st) is Ok ==> numbers(close_group(q, st)->Ok_0.0) == numbers(q)
            && no_numbers(close_group(q, st)->Ok_0.1),
    decreases st.len(),
{
    if st.len() > 0 {
        lemma_move_top(q, st);
        if !(st.last() is Open) {
            lemma_close_group_numbers(q.push(st.last()), st.drop_last());
        }
    }
}

proof fn lemma_drain_numbers(q: Seq<Lexeme>, st: Seq<Lexeme>)
    requires
        no_numbers(st),
    ensures
        drain(q, st) is Ok ==> numbers(drain(q, st)->Ok_0) == numbers(q),
    decreases st.len(),
{
    if st.len() > 0 {
        lemma_move_top(q, st);
        if !(st.last() is Open) {
            lemma_drain_numbers(q.push(st.last()), st.drop_last());
        }
    }
}

proof fn lemma_run_numbers(toks: Seq<Lexeme>)
    ensures
        run(toks) is Ok ==> numbers(run(toks)->Ok_0.0) == numbers(toks) && no_numbers(
            run(toks)->Ok_0.1,
        ),
    decreases toks.len(),
{
    if toks.len() > 0 {
        let init = toks.drop_last();
        lemma_run_numbers(init);
        if run(init) is Ok {
            let st = run(init)->Ok_0;
            let t = toks.last();
            match t {
                Lexeme::Num(_) => {
                    assert(st.0.push(t).drop_last() =~= st.0);
                },
                Lexeme::Op(o) => {
                    lemma_pop_tighter_numbers(st.0, st.1, o);
                    let r = pop_tighter(st.0, st.1, o);
                    assert forall|k: int| 0 <= k < r.1.push(t).len() implies !(
                    #[trigger] r.1.push(t)[k] is Num) by {
                        if k < r.1.len() {
                            assert(r.1.push(t)[k] == r.1[k]);
                        }
                    }
                },
                Lexeme::Open => {
                    assert forall|k: int| 0 <= k < st.1.push(t).len() implies !(
                    #[trigger] st.1.push(t)[k] is Num) by {
                        if k < st.1.len() {
                            assert(st.1.push(t)[k] == st.1[k]);
                        }
                    }
                },
                Lexeme::Close => {
                    lemma_close_group_numbers(st.0, st.1);
                },
                Lexeme::End => {},
            }
        }
    }
}

/// Parsing only reorders operators: the postfix form of a text holds the text's
/// numbers, each once and in the order in which the text gives them.
pub proof fn lemma_numbers_keep_order(s: Seq<char>)
    requires
        parse_text(s, 0) is Ok,
    ensures
        numbers(parse_text(s, 0)->Ok_0) == numbers(tokens_from(s, 0).0),
{
    let toks = tokens_from(s, 0).0;
    lemma_run_numbers(toks);
    let st = run(toks)->Ok_0;
    lemma_drain_numbers(st.0, st.1);
}

/// How a postfix sequence of numbers and operators reduces: a missing operand
/// exactly when some operator is reached with fewer than two values on the stack;
/// otherwise more than one value left exactly when the numbers outnumber the
/// operators by more than one; otherwise one tree, or none for an empty sequence.
pub proof fn lemma_postfix_outcome(toks: Seq<Lexeme>)
    requires
        forall|k: int| 0 <= k < toks.len() ==> is_postfix_item(#[trigger] toks[k]),
    ensures
        evaluation(toks) == Err::<Option<Term>, EvaluatorError>(EvaluatorError::MissingOperand)
            <==> starved(toks),
        evaluation(toks) == Err::<Option<Term>, EvaluatorError>(
            EvaluatorError::NotSingleResultInStack,
        ) <==> !starved(toks) && balance(toks) > 1,
        evaluation(toks) is Ok && evaluation(toks)->Ok_0 is Some <==> !starved(toks) && balance(
            toks,
        ) == 1,
        evaluation(toks) == Ok::<Option<Term>, EvaluatorError>(None) <==> !starved(toks)
            && balance(toks) == 0,
{
    lemma_reduce_balance(toks);
}

/// An operator met while fewer than two operands precede it fails the
/// reduction with a missing operand.
pub proof fn lemma_missing_operand(toks: Seq<Lexeme>, k: int)
    requires
        0 <= k < toks.len(),
        k < 2,
        toks[k] is Op,
        forall|j: int| 0 <= j < k ==> #[trigger] toks[j] is Num,
    ensures
        evaluation(toks) == Err::<Option<Term>, EvaluatorError>(EvaluatorError::MissingOperand),
{
    let pre = toks.subrange(0, k + 1);
    let empty = toks.subrange(0, 0);
    assert(empty =~= Seq::<Lexeme>::empty());
    assert(reduce(empty) == Ok::<Seq<Term>, EvaluatorError>(Seq::empty()));
    if k == 1 {
        let one = toks.subrange(0, 1);
        assert(one.drop_last() =~= empty);
        assert(one.last() == toks[0]);
        assert(toks[0] is Num);
        assert(reduce(one) is Ok && reduce(one)->Ok_0.len() == 1);
    }
    assert(pre.drop_last() =~= toks.subrange(0, k));
    assert(pre.last() == toks[k]);
    assert(reduce(pre) is Err);
    crate::evaluator::lemma_reduce_error_stays(pre, toks.subrange(k + 1, toks.len() as int));
    assert(pre + toks.subrange(k + 1, toks.len() as int) =~= toks);
}

/// An empty postfix sequence denotes the empty expression, whose value is zero,
/// and is no error.
pub proof fn lemma_empty_postfix()
    ensures
        evaluation(Seq::empty()) == Ok::<Option<Term>, EvaluatorError>(None),
{
}

/// The tokens of a tree written with a pair of parentheses round every operation.
pub open spec fn fully_parenthesized(t: Term) -> Seq<Lexeme>
    decreases t,
{
    match t {
        Term::Leaf(n) => seq![Lexeme::Num(n)],
        Term::Node(o, l, r) => seq![Lexeme::Open] + fully_parenthesized(*l) + seq![Lexeme::Op(o)]
            + fully_parenthesized(*r) + seq![Lexeme::Close],
    }
}

/// The tokens of a tree in postfix order: both operands, then the operator.
pub open spec fn postfix_of(t: Term) -> Seq<Lexeme>
    decreases t,
{
    match t {
        Term::Leaf(n) => seq![Lexeme::Num(n)],
        Term::Node(o, l, r) => postfix_of(*l) + postfix_of(*r) + seq![Lexeme::Op(o)],
    }
}

proof fn lemma_run_from_concat(st: (Seq<Lexeme>, Seq<Lexeme>), a: Seq<Lexeme>, b: Seq<Lexeme>)
    requires
        run_from(st, a) is Ok,
    ensures
        run_from(st, a + b) == run_from(run_from(st, a)->Ok_0, b),
    decreases b.len(),
{
    if b.len() == 0 {
        assert(a + b =~= a);
    } else {
        lemma_run_from_concat(st, a, b.drop_last());
        assert((a + b).drop_last() =~= a + b.drop_last());
    }
}

proof fn lemma_run_from_single(st: (Seq<Lexeme>, Seq<Lexeme>), t: Lexeme)
    ensures
        run_from(st, seq![t]) == step(st, t),
{
    let one = seq![t];
    assert(one.drop_last() =~= Seq::<Lexeme>::empty());
    assert(one.last() == t);
    assert(run_from(st, one.drop_last()) == Ok::<(Seq<Lexeme>, Seq<Lexeme>), ParserError>(st));
}

/// Parsing the tokens of a fully parenthesized tree appends its postfix form to
/// the output and leaves the stack below it as it was.
proof fn lemma_run_fully_parenthesized(st: (Seq<Lexeme>, Seq<Lexeme>), t: Term)
    ensures
        run_from(st, fully_parenthesized(t)) == Ok::<(Seq<Lexeme>, Seq<Lexeme>), ParserError>(
            (st.0 + postfix_of(t), st.1),
        ),
    decreases t,
{
    match t {
        Term::Leaf(n) => {
            lemma_run_from_single(st, Lexeme::Num(n));
            assert(st.0.push(Lexeme::Num(n)) =~= st.0 + postfix_of(t));
        },
        Term::Node(o, l, r) => {
            let (q, s) = st;
            let open = seq![Lexeme::Open];
            let a1 = open + fully_parenthesized(*l);
            let a2 = a1 + seq![Lexeme::Op(o)];
            let a3 = a2 + fully_parenthesized(*r);
            let a4 = a3 + seq![Lexeme::Close];
            assert(fully_parenthesized(t) == a4);
            let s1 = s.push(Lexeme::Open);
            let s2 = s1.push(Lexeme::Op(o));
            lemma_run_from_single(st, Lexeme::Open);
            lemma_run_fully_parenthesized((q, s1), *l);
            lemma_run_from_concat(st, open, fully_parenthesized(*l));
            let q1 = q + postfix_of(*l);
            assert(s1.len() > 0 && s1.last() is Open);
            assert(pop_tighter(q1, s1, o) == (q1, s1));
            lemma_run_from_single((q1, s1), Lexeme::Op(o));
            lemma_run_from_concat(st, a1, seq![Lexeme::Op(o)]);
            lemma_run_fully_parenthesized((q1, s2), *r);
            lemma_run_from_concat(st, a2, fully_parenthesized(*r));
            let q2 = q1 + postfix_of(*r);
            assert(s2.drop_last() =~= s1);
            assert(s1.drop_last() =~= s);
            assert(close_group(q2, s2) == close_group(q2.push(Lexeme::Op(o)), s1));
            lemma_run_from_single((q2, s2), Lexeme::Close);
            lemma_run_from_concat(st, a3, seq![Lexeme::Close]);
            assert(q2.push(Lexeme::Op(o)) =~= q + postfix_of(t));
        },
    }
}

proof fn lemma_reduce_from_concat(st: Seq<Term>, a: Seq<Lexeme>, b: Seq<Lexeme>)
    requires
        reduce_from(st, a) is Ok,
    ensures
        reduce_from(st, a + b) == reduce_from(reduce_from(st, a)->Ok_0, b),
    decreases b.len(),
{
    if b.len() == 0 {
        assert(a + b =~= a);
    } else {
        lemma_reduce_from_concat(st, a, b.drop_last());
        assert((a + b).drop_last() =~= a + b.drop_last());
    }
}

/// Reducing the postfix form of a tree pushes that very tree.
proof fn lemma_reduce_postfix(st: Seq<Term>, t: Term)
    ensures
        reduce_from(st, postfix_of(t)) == Ok::<Seq<Term>, EvaluatorError>(st.push(t)),
    decreases t,
{
    match t {
        Term::Leaf(n) => {
            let one = postfix_of(t);
            assert(one.drop_last() =~= Seq::<Lexeme>::empty());
            assert(one.last() == Lexeme::Num(n));
            assert(reduce_from(st, one.drop_last()) == Ok::<Seq<Term>, EvaluatorError>(st));
            assert(reduce_from(st, one) == Ok::<Seq<Term>, EvaluatorError>(
                st.push(Term::Leaf(n)),
            ));
        },
        Term::Node(o, l, r) => {
            lemma_reduce_postfix(st, *l);
            lemma_reduce_postfix(st.push(*l), *r);
            lemma_reduce_from_concat(st, postfix_of(*l), postfix_of(*r));
            let a = postfix_of(*l) + postfix_of(*r);
            let x = st.push(*l).push(*r);
            lemma_reduce_from_concat(st, a, seq![Lexeme::Op(o)]);
            let op1 = seq![Lexeme::Op(o)];
            assert(op1.drop_last() =~= Seq::<Lexeme>::empty());
            assert(op1.last() == Lexeme::Op(o));
            assert(reduce_from(x, op1.drop_last()) == Ok::<Seq<Term>, EvaluatorError>(x));
            assert(x.subrange(0, x.len() - 2) =~= st);
            assert(x[x.len() - 2] == *l && x[x.len() - 1] == *r);
            assert(reduce_from(x, op1) == Ok::<Seq<Term>, EvaluatorError>(
                st.push(Term::Node(o, Box::new(*l), Box::new(*r))),
            ));
        },
    }
}

/// A text whose tokens write a tree with parentheses round every operation
/// denotes that tree: the parser puts it in postfix order and the evaluator
/// builds it back, operand for operand.
pub proof fn lemma_fully_parenthesized_value(s: Seq<char>, t: Term)
    requires
        tokens_from(s, 0) == (fully_parenthesized(t), None::<char>),
    ensures
        expression_value(s) == Ok::<Option<Term>, EvaluationError>(Some(t)),
{
    let empty = Seq::<Lexeme>::empty();
    lemma_run_fully_parenthesized((empty, empty), t);
    assert(empty + postfix_of(t) =~= postfix_of(t));
    assert(drain(postfix_of(t), empty) == Ok::<Seq<Lexeme>, ParserError>(postfix_of(t)));
    lemma_reduce_postfix(Seq::empty(), t);
    assert(Seq::<Term>::empty().push(t)[0] == t);
}

/// The tree of `a p b q c`: a tighter `q` takes `b` from `p`; otherwise the
/// operators apply from left to right.
pub open spec fn two_operator_tree(a: Seq<u8>, p: Operator, b: Seq<u8>, q: Operator, c: Seq<u8>) -> Term {
    if tier(q) > tier(p) {
        Term::Node(
            p,
            Box::new(Term::Leaf(a)),
            Box::new(Term::Node(q, Box::new(Term::Leaf(b)), Box::new(Term::Leaf(c)))),
        )
    } else {
        Term::Node(
            q,
            Box::new(Term::Node(p, Box::new(Term::Leaf(a)), Box::new(Term::Leaf(b)))),
            Box::new(Term::Leaf(c)),
        )
    }
}

/// Without parentheses, a text of three numbers and two operators denotes the
/// tree that precedence gives it: `*` and `/` bind before `+` and `-`, and
/// operators of one tier apply from left to right.
pub proof fn lemma_precedence(
    s: Seq<char>,
    a: Seq<u8>,
    p: Operator,
    b: Seq<u8>,
    q: Operator,
    c: Seq<u8>,
)
    requires
        tokens_from(s, 0) == (
            seq![Lexeme::Num(a), Lexeme::Op(p), Lexeme::Num(b), Lexeme::Op(q), Lexeme::Num(c)],
            None::<char>,
        ),
    ensures
        expression_value(s) == Ok::<Option<Term>, EvaluationError>(
            Some(two_operator_tree(a, p, b, q, c)),
        ),
{
    let e = Seq::<Lexeme>::empty();
    let (na, nb, nc) = (Lexeme::Num(a), Lexeme::Num(b), Lexeme::Num(c));
    let (op, oq) = (Lexeme::Op(p), Lexeme::Op(q));
    let t1 = seq![na];
    let t2 = t1.push(op);
    let t3 = t2.push(nb);
    let t4 = t3.push(oq);
    let t5 = t4.push(nc);
    assert(tokens_from(s, 0).0 =~= t5);
    assert(t1.drop_last() =~= e);
    assert(t2.drop_last() =~= t1);
    assert(t3.drop_last() =~= t2);
    assert(t4.drop_last() =~= t3);
    assert(t5.drop_last() =~= t4);
    lemma_run_from_single((e, e), na);
    assert(e.push(na) =~= seq![na]);
    assert(run(t1) == Ok::<(Seq<Lexeme>, Seq<Lexeme>), ParserError>((seq![na], e)));
    assert(pop_tighter(seq![na], e, p) == (seq![na], e));
    assert(run(t2) == Ok::<(Seq<Lexeme>, Seq<Lexeme>), ParserError>((seq![na], seq![op])));
    assert(run(t3) == Ok::<(Seq<Lexeme>, Seq<Lexeme>), ParserError>(
        (seq![na].push(nb), seq![op]),
    ));
    let q3 = seq![na].push(nb);
    let t = two_operator_tree(a, p, b, q, c);
    lemma_reduce_postfix(Seq::empty(), t);
    if tier(q) > tier(p) {
        assert(pop_tighter(q3, seq![op], q) == (q3, seq![op]));
        let st5 = seq![op].push(oq);
        assert(run(t5) == Ok::<(Seq<Lexeme>, Seq<Lexeme>), ParserError>((q3.push(nc), st5)));
        assert(st5.drop_last() =~= seq![op]);
        assert(seq![op].drop_last() =~= e);
        assert(drain(q3.push(nc), st5) == drain(q3.push(nc).push(oq), seq![op]));
        assert(drain(q3.push(nc).push(oq), seq![op]) == drain(
            q3.push(nc).push(oq).push(op),
            e,
        ));
        let inner = Term::Node(q, Box::new(Term::Leaf(b)), Box::new(Term::Leaf(c)));
        assert(postfix_of(Term::Leaf(a)) == seq![na]);
        assert(postfix_of(inner) == postfix_of(Term::Leaf(b)) + postfix_of(Term::Leaf(c)) + seq![oq]);
        assert(postfix_of(t) == postfix_of(Term::Leaf(a)) + postfix_of(inner) + seq![op]);
        assert(q3.push(nc).push(oq).push(op) =~= postfix_of(t));
    } else {
        assert(seq![op].drop_last() =~= e);
        assert(pop_tighter(q3, seq![op], q) == pop_tighter(q3.push(op), e, q));
        assert(pop_tighter(q3.push(op), e, q) == (q3.push(op), e));
        assert(e.push(oq) =~= seq![oq]);
        assert(run(t4) == Ok::<(Seq<Lexeme>, Seq<Lexeme>), ParserError>((q3.push(op), seq![oq])));
        assert(run(t5) == Ok::<(Seq<Lexeme>, Seq<Lexeme>), ParserError>(
            (q3.push(op).push(nc), seq![oq]),
        ));
        assert(seq![oq].drop_last() =~= e);
        assert(drain(q3.push(op).push(nc), seq![oq]) == drain(q3.push(op).push(nc).push(oq), e));
        let inner = Term::Node(p, Box::new(Term::Leaf(a)), Box::new(Term::Leaf(b)));
        assert(postfix_of(Term::Leaf(c)) == seq![nc]);
        assert(postfix_of(inner) == postfix_of(Term::Leaf(a)) + postfix_of(Term::Leaf(b)) + seq![op]);
        assert(postfix_of(t) == postfix_of(inner) + postfix_of(Term::Leaf(c)) + seq![oq]);
        assert(q3.push(op).push(nc).push(oq) =~= postfix_of(t));
    }
    assert(Seq::<Term>::empty().push(t)[0] == t);
}

/// The value of a text depends on the text alone: evaluating the same text again
/// gives the same result.
pub proof fn lemma_same_text_same_value(a: &str, b: &str)
    requires
        a@ == b@,
    ensures
        expression_value(a@) == expression_value(b@),
{
}

} // verus!
