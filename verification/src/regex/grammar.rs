//! The grammar of patterns, and the proof that every pattern of the grammar compiles:
//! the shunting-yard pass turns it into the postfix form of its syntax tree, and the
//! postfix form of a syntax tree is balanced.
use super::expr::{
    parse_all_spec, postfix_of, tokenize_spec, yard_prefix, Expr, Token, Yard,
};
use super::matcher::compile_spec;
use super::nfa::{balanced, build_succeeds_iff_balanced, operands_after, sound};
use vstd::prelude::*;

verus! {

/// The syntax tree of a pattern, parentheses included.
pub enum Syntax {
    Lit(char),
    Range(char, char),
    Group(Box<Syntax>),
    Star(Box<Syntax>),
    Opt(Box<Syntax>),
    Plus(Box<Syntax>),
    Concat(Box<Syntax>, Box<Syntax>),
    Alt(Box<Syntax>, Box<Syntax>),
}

impl Syntax {
    /// How tightly the tree holds together: an alternation least, then a concatenation,
    /// then a postfix operator; an atom or a group most.
    pub open spec fn level(self) -> int {
        match self {
            Syntax::Alt(_, _) => 0,
            Syntax::Concat(_, _) => 1,
            Syntax::Star(_) | Syntax::Opt(_) | Syntax::Plus(_) => 2,
            Syntax::Lit(_) | Syntax::Range(_, _) | Syntax::Group(_) => 3,
        }
    }

    /// True for the trees of the grammar
    ///
    /// ```text
    /// alt     ::= alt '|' concat | concat
    /// concat  ::= concat '.' postfix | postfix
    /// postfix ::= postfix ('*' | '?' | '+') | atom
    /// atom    ::= literal | range | '(' alt ')'
    /// ```
    pub open spec fn wf(self) -> bool
        decreases self,
    {
        match self {
            Syntax::Lit(_) | Syntax::Range(_, _) => true,
            Syntax::Group(x) => x.wf(),
            Syntax::Star(x) | Syntax::Opt(x) | Syntax::Plus(x) => x.wf() && x.level() >= 2,
            Syntax::Concat(l, r) => l.wf() && r.wf() && l.level() >= 1 && r.level() >= 2,
            Syntax::Alt(l, r) => l.wf() && r.wf() && r.level() >= 1,
        }
    }

    /// True when the ends of every range in the tree are in ascending order.
    pub open spec fn ascending(self) -> bool
        decreases self,
    {
        match self {
            Syntax::Lit(_) => true,
            Syntax::Range(a, b) => (a as u32) <= (b as u32),
            Syntax::Group(x) | Syntax::Star(x) | Syntax::Opt(x) | Syntax::Plus(x) => x.ascending(),
            Syntax::Concat(l, r) | Syntax::Alt(l, r) => l.ascending() && r.ascending(),
        }
    }

    /// The symbols of the pattern, as it is written.
    pub open spec fn tokens(self) -> Seq<Token>
        decreases self,
    {
        match self {
            Syntax::Lit(c) => seq![Token::Lit(c)],
            Syntax::Range(a, b) => seq![Token::CharRange(a, b)],
            Syntax::Group(x) => seq![Token::OpenParenthesis] + x.tokens() + seq![
                Token::ClosedParenthesis,
            ],
            Syntax::Star(x) => x.tokens() + seq![Token::Star],
            Syntax::Opt(x) => x.tokens() + seq![Token::Opt],
            Syntax::Plus(x) => x.tokens() + seq![Token::Plus],
            Syntax::Concat(l, r) => l.tokens() + seq![Token::Concat] + r.tokens(),
            Syntax::Alt(l, r) => l.tokens() + seq![Token::Alt] + r.tokens(),
        }
    }

    /// The postfix form of the tree: the operands before their operator.
    pub open spec fn post(self) -> Seq<Expr>
        decreases self,
    {
        match self {
            Syntax::Lit(c) => seq![Expr::Literal(c)],
            Syntax::Range(a, b) => seq![Expr::CharRange(a, b)],
            Syntax::Group(x) => x.post(),
            Syntax::Star(x) => x.post() + seq![Expr::Star],
            Syntax::Opt(x) => x.post() + seq![Expr::Opt],
            Syntax::Plus(x) => x.post() + seq![Expr::Plus],
            Syntax::Concat(l, r) => l.post() + r.post() + seq![Expr::Concat],
            Syntax::Alt(l, r) => l.post() + r.post() + seq![Expr::Alt],
        }
    }

    /// The operators of the tree that still wait on the stack when the shunting-yard
    /// pass has read the tree, the topmost last.
    pub open spec fn pending(self) -> Seq<Token>
        decreases self,
    {
        match self {
            Syntax::Lit(_) | Syntax::Range(_, _) | Syntax::Group(_) => Seq::empty(),
            Syntax::Star(_) => seq![Token::Star],
            Syntax::Opt(_) => seq![Token::Opt],
            Syntax::Plus(_) => seq![Token::Plus],
            Syntax::Concat(_, r) => seq![Token::Concat] + r.pending(),
            Syntax::Alt(_, r) => seq![Token::Alt] + r.pending(),
        }
    }

    /// What the shunting-yard pass has written when it has read the tree.
    pub open spec fn written(self) -> Seq<Expr>
        decreases self,
    {
        match self {
            Syntax::Lit(c) => seq![Expr::Literal(c)],
            Syntax::Range(a, b) => seq![Expr::CharRange(a, b)],
            Syntax::Group(x) => x.post(),
            Syntax::Star(x) | Syntax::Opt(x) | Syntax::Plus(x) => x.post(),
            Syntax::Concat(l, r) => l.post() + r.written(),
            Syntax::Alt(l, r) => l.post() + r.written(),
        }
    }
}

/// The postfix elements of the operators `ops`, taken from the top of the stack down.
pub open spec fn flush(ops: Seq<Token>) -> Seq<Expr>
    decreases ops.len(),
{
    if ops.len() == 0 {
        Seq::empty()
    } else {
        match ops.last().element() {
            Some(e) => seq![e] + flush(ops.drop_last()),
            None => flush(ops.drop_last()),
        }
    }
}

/// True when `ops` holds operators only, each of which binds at least as tightly as
/// `rank` says.
pub open spec fn all_outrank(ops: Seq<Token>, rank: int) -> bool {
    forall|i: int|
        0 <= i < ops.len() ==> (#[trigger] ops[i]).rank() >= rank && ops[i].rank() >= 1
            && ops[i].operator()
}

/// True when the topmost symbol of the stack, if there is one, binds less tightly than
/// `rank` says.
pub open spec fn top_below(ops: Seq<Token>, rank: int) -> bool {
    ops.len() == 0 || ops.last().rank() < rank
}

/// The yard after the symbols `tokens`, read one after the other from the yard `y`.
pub open spec fn run_from(y: Yard, tokens: Seq<Token>) -> Result<Yard, Seq<char>>
    decreases tokens.len(),
{
    if tokens.len() == 0 {
        Ok(y)
    } else {
        match run_from(y, tokens.drop_last()) {
            Ok(z) => z.step(tokens.last()),
            Err(e) => Err(e),
        }
    }
}

/// Reading two lists of symbols one after the other is reading their concatenation.
pub proof fn run_concat(y: Yard, a: Seq<Token>, b: Seq<Token>)
    ensures
        run_from(y, a + b) == (match run_from(y, a) {
            Ok(z) => run_from(z, b),
            Err(e) => Err(e),
        }),
    decreases b.len(),
{
    if b.len() == 0 {
        assert(a + b == a);
    } else {
        run_concat(y, a, b.drop_last());
        assert((a + b).drop_last() == a + b.drop_last());
        assert((a + b).last() == b.last());
    }
}

/// The yard of the pass over a whole list of symbols is the yard that reading the list
/// from the empty yard gives.
pub proof fn prefix_is_run(tokens: Seq<Token>, n: nat)
    requires
        n <= tokens.len(),
    ensures
        yard_prefix(tokens, n) == run_from(
            Yard { ops: Seq::empty(), out: Seq::empty() },
            tokens.take(n as int),
        ),
    decreases n,
{
    if n > 0 {
        prefix_is_run(tokens, (n - 1) as nat);
        assert(tokens.take(n as int).drop_last() == tokens.take(n - 1));
        assert(tokens.take(n as int).last() == tokens[n - 1]);
    }
}

/// The postfix elements of a stack of operators with one more on top.
proof fn flush_push(ops: Seq<Token>, t: Token)
    requires
        t.element() is Some,
    ensures
        flush(ops.push(t)) == seq![t.element()->Some_0] + flush(ops),
{
    assert(ops.push(t).drop_last() == ops);
}

/// The postfix elements of two stacks of operators, one on top of the other.
proof fn flush_concat(below: Seq<Token>, above: Seq<Token>)
    ensures
        flush(below + above) == flush(above) + flush(below),
    decreases above.len(),
{
    if above.len() == 0 {
        assert(below + above == below);
        assert(flush(above) + flush(below) == flush(below));
    } else {
        flush_concat(below, above.drop_last());
        assert((below + above).drop_last() == below + above.drop_last());
        assert((below + above).last() == above.last());
        match above.last().element() {
            Some(e) => {
                assert(seq![e] + (flush(above.drop_last()) + flush(below)) == (seq![e] + flush(
                    above.drop_last(),
                )) + flush(below));
            },
            None => {},
        }
    }
}

/// An operator that binds no tighter than the operators on top of the stack sends all of
/// them to the output, down to the first symbol that binds less tightly than it.
proof fn yield_all(ops: Seq<Token>, out: Seq<Expr>, above: Seq<Token>, t: Token)
    requires
        t.rank() >= 1,
        all_outrank(above, t.rank()),
        top_below(ops, t.rank()),
    ensures
        (Yard { ops: ops + above, out }).yield_to(t) == (Yard {
            ops,
            out: out + flush(above),
        }),
    decreases above.len(),
{
    let y = Yard { ops: ops + above, out };
    if above.len() == 0 {
        assert(ops + above == ops);
        assert(out + flush(above) == out);
    } else {
        let top = above.last();
        assert(above[above.len() - 1] == top);
        assert((ops + above).last() == top);
        assert((ops + above).drop_last() == ops + above.drop_last());
        assert(top.element() is Some);
        let e = top.element()->Some_0;
        assert forall|i: int| 0 <= i < above.drop_last().len() implies (
        #[trigger] above.drop_last()[i]).rank() >= t.rank() && above.drop_last()[i].rank() >= 1
            && above.drop_last()[i].operator() by {
            assert(above.drop_last()[i] == above[i]);
        }
        yield_all(ops, out.push(e), above.drop_last(), t);
        assert(out.push(e) + flush(above.drop_last()) == out + (seq![e] + flush(
            above.drop_last(),
        )));
    }
}

/// A closing parenthesis sends the operators above the open parenthesis to the output
/// and takes the open parenthesis off the stack.
proof fn close_all(ops: Seq<Token>, out: Seq<Expr>, above: Seq<Token>)
    requires
        all_outrank(above, 1),
    ensures
        (Yard { ops: ops.push(Token::OpenParenthesis) + above, out }).close_group() == Ok::<
            Yard,
            Seq<char>,
        >(Yard { ops, out: out + flush(above) }),
    decreases above.len(),
{
    let below = ops.push(Token::OpenParenthesis);
    if above.len() == 0 {
        assert(below + above == below);
        assert(below.drop_last() == ops);
        assert(out + flush(above) == out);
    } else {
        let top = above.last();
        assert(above[above.len() - 1] == top);
        assert((below + above).last() == top);
        assert((below + above).drop_last() == below + above.drop_last());
        assert(top.element() is Some);
        let e = top.element()->Some_0;
        assert forall|i: int| 0 <= i < above.drop_last().len() implies (
        #[trigger] above.drop_last()[i]).rank() >= 1 && above.drop_last()[i].operator() by {
            assert(above.drop_last()[i] == above[i]);
        }
        close_all(ops, out.push(e), above.drop_last());
        assert(out.push(e) + flush(above.drop_last()) == out + (seq![e] + flush(
            above.drop_last(),
        )));
    }
}

/// At the end of the symbols the operators that wait go to the output.
proof fn drain_all(out: Seq<Expr>, above: Seq<Token>)
    requires
        all_outrank(above, 1),
    ensures
        (Yard { ops: above, out }).drain() == Ok::<Seq<Expr>, Seq<char>>(out + flush(above)),
    decreases above.len(),
{
    if above.len() == 0 {
        assert(out + flush(above) == out);
    } else {
        let top = above.last();
        assert(above[above.len() - 1] == top);
        assert(top.element() is Some);
        let e = top.element()->Some_0;
        assert forall|i: int| 0 <= i < above.drop_last().len() implies (
        #[trigger] above.drop_last()[i]).rank() >= 1 && above.drop_last()[i].operator() by {
            assert(above.drop_last()[i] == above[i]);
        }
        drain_all(out.push(e), above.drop_last());
        assert(out.push(e) + flush(above.drop_last()) == out + (seq![e] + flush(
            above.drop_last(),
        )));
    }
}

/// The operators that wait when a tree has been read bind at least as tightly as the
/// tree holds together, and with what was written they make up the postfix form.
pub proof fn pending_completes(s: Syntax)
    requires
        s.wf(),
    ensures
        all_outrank(s.pending(), s.level() + 1),
        s.post() == s.written() + flush(s.pending()),
    decreases s,
{
    match s {
        Syntax::Lit(_) | Syntax::Range(_, _) | Syntax::Group(_) => {
            assert(s.written() + flush(s.pending()) == s.written());
        },
        Syntax::Star(_) | Syntax::Opt(_) | Syntax::Plus(_) => {
            let p = s.pending();
            assert(p.drop_last() == Seq::<Token>::empty());
            assert(flush(p.drop_last()) == Seq::<Expr>::empty());
            assert(flush(p) == seq![p.last().element()->Some_0] + Seq::<Expr>::empty());
        },
        Syntax::Concat(l, r) => {
            pending_completes(*r);
            flush_concat(seq![Token::Concat], r.pending());
            flush_push(Seq::empty(), Token::Concat);
            assert(Seq::<Token>::empty().push(Token::Concat) == seq![Token::Concat]);
            assert(flush(Seq::<Token>::empty()) == Seq::<Expr>::empty());
            assert(flush(seq![Token::Concat]) == seq![Expr::Concat]);
            assert(l.post() + r.post() + seq![Expr::Concat] == (l.post() + r.written()) + (flush(
                r.pending(),
            ) + seq![Expr::Concat]));
        },
        Syntax::Alt(l, r) => {
            pending_completes(*r);
            flush_concat(seq![Token::Alt], r.pending());
            flush_push(Seq::empty(), Token::Alt);
            assert(Seq::<Token>::empty().push(Token::Alt) == seq![Token::Alt]);
            assert(flush(Seq::<Token>::empty()) == Seq::<Expr>::empty());
            assert(flush(seq![Token::Alt]) == seq![Expr::Alt]);
            assert(l.post() + r.post() + seq![Expr::Alt] == (l.post() + r.written()) + (flush(
                r.pending(),
            ) + seq![Expr::Alt]));
        },
    }
}


impl Syntax {
    /// How tightly the first operator binds that the shunting-yard pass meets at the top
    /// of the tree; more than any operator for a tree that has none there.
    pub open spec fn need(self) -> int {
        match self {
            Syntax::Alt(_, _) => 1,
            Syntax::Concat(_, _) => 2,
            Syntax::Star(_) | Syntax::Opt(_) | Syntax::Plus(_) => 3,
            Syntax::Lit(_) | Syntax::Range(_, _) | Syntax::Group(_) => 4,
        }
    }
}

/// The step of the shunting-yard pass for an operator that is no parenthesis, where the
/// operators `above` on top of the stack bind at least as tightly as it and the stack
/// below binds less tightly.
proof fn step_operator(ops: Seq<Token>, out: Seq<Expr>, above: Seq<Token>, t: Token)
    requires
        t is Star || t is Opt || t is Plus || t is Concat || t is Alt,
        all_outrank(above, t.rank()),
        top_below(ops, t.rank()),
    ensures
        (Yard { ops: ops + above, out }).step(t) == Ok::<Yard, Seq<char>>(
            Yard { ops: ops.push(t), out: out + flush(above) },
        ),
{
    yield_all(ops, out, above, t);
}

/// The shunting-yard pass over a tree of the grammar: from a stack whose top binds less
/// tightly than the tree's first operator, the pass leaves the tree's pending operators
/// on the stack and has written the rest of the tree's postfix form.
pub proof fn shunt(s: Syntax, y: Yard)
    requires
        s.wf(),
        top_below(y.ops, s.need()),
    ensures
        run_from(y, s.tokens()) == Ok::<Yard, Seq<char>>(
            Yard { ops: y.ops + s.pending(), out: y.out + s.written() },
        ),
    decreases s,
{
    match s {
        Syntax::Lit(c) => {
            let ts = seq![Token::Lit(c)];
            assert(ts.drop_last() == Seq::<Token>::empty());
            assert(run_from(y, ts.drop_last()) == Ok::<Yard, Seq<char>>(y));
            assert(y.ops + s.pending() == y.ops);
            assert(y.out.push(Expr::Literal(c)) == y.out + s.written());
        },
        Syntax::Range(a, b) => {
            let ts = seq![Token::CharRange(a, b)];
            assert(ts.drop_last() == Seq::<Token>::empty());
            assert(run_from(y, ts.drop_last()) == Ok::<Yard, Seq<char>>(y));
            assert(y.ops + s.pending() == y.ops);
            assert(y.out.push(Expr::CharRange(a, b)) == y.out + s.written());
        },
        Syntax::Group(x) => {
            let open = seq![Token::OpenParenthesis];
            let close = seq![Token::ClosedParenthesis];
            let y1 = Yard { ops: y.ops.push(Token::OpenParenthesis), out: y.out };
            assert(open.drop_last() == Seq::<Token>::empty());
            assert(run_from(y, open.drop_last()) == Ok::<Yard, Seq<char>>(y));
            assert(run_from(y, open) == Ok::<Yard, Seq<char>>(y1));
            shunt(*x, y1);
            pending_completes(*x);
            let y2 = Yard { ops: y1.ops + x.pending(), out: y.out + x.written() };
            run_concat(y, open, x.tokens());
            run_concat(y, open + x.tokens(), close);
            assert(close.drop_last() == Seq::<Token>::empty());
            assert(run_from(y2, close.drop_last()) == Ok::<Yard, Seq<char>>(y2));
            assert(run_from(y2, close) == y2.step(Token::ClosedParenthesis));
            assert forall|i: int| 0 <= i < x.pending().len() implies (
            #[trigger] x.pending()[i]).rank() >= 1 && x.pending()[i].operator() by {}
            close_all(y.ops, y2.out, x.pending());
            assert(y.out + x.written() + flush(x.pending()) == y.out + (x.written() + flush(
                x.pending(),
            )));
            assert(y.ops + s.pending() == y.ops);
        },
        Syntax::Star(x) | Syntax::Opt(x) | Syntax::Plus(x) => {
            let t = s.pending()[0];
            let last = seq![t];
            shunt(*x, y);
            pending_completes(*x);
            let y1 = Yard { ops: y.ops + x.pending(), out: y.out + x.written() };
            run_concat(y, x.tokens(), last);
            assert(last.drop_last() == Seq::<Token>::empty());
            assert(run_from(y1, last.drop_last()) == Ok::<Yard, Seq<char>>(y1));
            assert(run_from(y1, last) == y1.step(t));
            assert(s.tokens() == x.tokens() + last);
            step_operator(y.ops, y1.out, x.pending(), t);
            assert(y.out + x.written() + flush(x.pending()) == y.out + (x.written() + flush(
                x.pending(),
            )));
            assert(y.ops.push(t) == y.ops + s.pending());
        },
        Syntax::Concat(l, r) => {
            let t = Token::Concat;
            let mid = seq![t];
            shunt(*l, y);
            pending_completes(*l);
            let y1 = Yard { ops: y.ops + l.pending(), out: y.out + l.written() };
            run_concat(y, l.tokens(), mid);
            assert(mid.drop_last() == Seq::<Token>::empty());
            assert(run_from(y1, mid.drop_last()) == Ok::<Yard, Seq<char>>(y1));
            assert(run_from(y1, mid) == y1.step(t));
            step_operator(y.ops, y1.out, l.pending(), t);
            assert(y.out + l.written() + flush(l.pending()) == y.out + l.post());
            let y2 = Yard { ops: y.ops.push(t), out: y.out + l.post() };
            assert(y2.ops.last() == t);
            shunt(*r, y2);
            run_concat(y, l.tokens() + mid, r.tokens());
            assert(y.ops.push(t) + r.pending() == y.ops + (seq![t] + r.pending()));
            assert(y.out + l.post() + r.written() == y.out + (l.post() + r.written()));
        },
        Syntax::Alt(l, r) => {
            let t = Token::Alt;
            let mid = seq![t];
            shunt(*l, y);
            pending_completes(*l);
            let y1 = Yard { ops: y.ops + l.pending(), out: y.out + l.written() };
            run_concat(y, l.tokens(), mid);
            assert(mid.drop_last() == Seq::<Token>::empty());
            assert(run_from(y1, mid.drop_last()) == Ok::<Yard, Seq<char>>(y1));
            assert(run_from(y1, mid) == y1.step(t));
            step_operator(y.ops, y1.out, l.pending(), t);
            assert(y.out + l.written() + flush(l.pending()) == y.out + l.post());
            let y2 = Yard { ops: y.ops.push(t), out: y.out + l.post() };
            assert(y2.ops.last() == t);
            shunt(*r, y2);
            run_concat(y, l.tokens() + mid, r.tokens());
            assert(y.ops.push(t) + r.pending() == y.ops + (seq![t] + r.pending()));
            assert(y.out + l.post() + r.written() == y.out + (l.post() + r.written()));
        },
    }
}

/// The shunting-yard pass turns the symbols of a tree of the grammar into the postfix
/// form of the tree.
pub proof fn grammar_gives_postfix(s: Syntax)
    requires
        s.wf(),
    ensures
        parse_all_spec(s.tokens()) == Ok::<Seq<Expr>, Seq<char>>(s.post()),
{
    let empty = Yard { ops: Seq::empty(), out: Seq::empty() };
    let tokens = s.tokens();
    prefix_is_run(tokens, tokens.len());
    assert(tokens.take(tokens.len() as int) == tokens);
    shunt(s, empty);
    pending_completes(s);
    assert(empty.ops + s.pending() == s.pending());
    assert(empty.out + s.written() == s.written());
    assert forall|i: int| 0 <= i < s.pending().len() implies (#[trigger] s.pending()[i]).rank()
        >= 1 && s.pending()[i].operator() by {}
    drain_all(s.written(), s.pending());
}

/// The number of operands that wait after the elements `exprs`, where `d` waited before
/// them; `None` where an element is not sound or does not find its operands.
pub open spec fn operands_from(d: nat, exprs: Seq<Expr>) -> Option<nat>
    decreases exprs.len(),
{
    if exprs.len() == 0 {
        Some(d)
    } else {
        match operands_from(d, exprs.drop_last()) {
            Some(before) => if sound(exprs.last()) && before >= super::nfa::arity(exprs.last()) {
                Some((before - super::nfa::arity(exprs.last()) + 1) as nat)
            } else {
                None
            },
            None => None,
        }
    }
}

/// Counting over two lists one after the other is counting over their concatenation.
proof fn operands_concat(d: nat, a: Seq<Expr>, b: Seq<Expr>)
    ensures
        operands_from(d, a + b) == (match operands_from(d, a) {
            Some(m) => operands_from(m, b),
            None => None,
        }),
    decreases b.len(),
{
    if b.len() == 0 {
        assert(a + b == a);
    } else {
        operands_concat(d, a, b.drop_last());
        assert((a + b).drop_last() == a + b.drop_last());
        assert((a + b).last() == b.last());
    }
}

/// The count over the first elements of a list is the count from nothing.
proof fn operands_after_is_from(exprs: Seq<Expr>, n: nat)
    requires
        n <= exprs.len(),
    ensures
        operands_after(exprs, n) == operands_from(0, exprs.take(n as int)),
    decreases n,
{
    if n > 0 {
        operands_after_is_from(exprs, (n - 1) as nat);
        assert(exprs.take(n as int).drop_last() == exprs.take(n - 1));
        assert(exprs.take(n as int).last() == exprs[n - 1]);
    }
}

/// Counting over one element.
proof fn operands_one(d: nat, e: Expr)
    ensures
        operands_from(d, seq![e]) == (if sound(e) && d >= super::nfa::arity(e) {
            Some((d - super::nfa::arity(e) + 1) as nat)
        } else {
            None
        }),
{
    assert(seq![e].drop_last() == Seq::<Expr>::empty());
    assert(operands_from(d, seq![e].drop_last()) == Some(d));
}

/// The postfix form of a tree whose ranges are in ascending order leaves one operand
/// more than were there before.
pub proof fn post_adds_one_operand(s: Syntax, d: nat)
    requires
        s.ascending(),
    ensures
        operands_from(d, s.post()) == Some(d + 1),
    decreases s,
{
    match s {
        Syntax::Lit(c) => {
            operands_one(d, Expr::Literal(c));
        },
        Syntax::Range(a, b) => {
            operands_one(d, Expr::CharRange(a, b));
        },
        Syntax::Group(x) => {
            post_adds_one_operand(*x, d);
        },
        Syntax::Star(x) => {
            post_adds_one_operand(*x, d);
            operands_concat(d, x.post(), seq![Expr::Star]);
            operands_one(d + 1, Expr::Star);
        },
        Syntax::Opt(x) => {
            post_adds_one_operand(*x, d);
            operands_concat(d, x.post(), seq![Expr::Opt]);
            operands_one(d + 1, Expr::Opt);
        },
        Syntax::Plus(x) => {
            post_adds_one_operand(*x, d);
            operands_concat(d, x.post(), seq![Expr::Plus]);
            operands_one(d + 1, Expr::Plus);
        },
        Syntax::Concat(l, r) => {
            post_adds_one_operand(*l, d);
            post_adds_one_operand(*r, d + 1);
            operands_concat(d, l.post(), r.post());
            operands_concat(d, l.post() + r.post(), seq![Expr::Concat]);
            operands_one(d + 2, Expr::Concat);
        },
        Syntax::Alt(l, r) => {
            post_adds_one_operand(*l, d);
            post_adds_one_operand(*r, d + 1);
            operands_concat(d, l.post(), r.post());
            operands_concat(d, l.post() + r.post(), seq![Expr::Alt]);
            operands_one(d + 2, Expr::Alt);
        },
    }
}

/// True when `pattern` is well-formed with the syntax tree `s`: its symbols are those of
/// `s`, which is a tree of the grammar whose ranges are in ascending order.
pub open spec fn well_formed(pattern: Seq<char>, s: Syntax) -> bool {
    &&& s.wf()
    &&& s.ascending()
    &&& tokenize_spec(pattern) == Ok::<Seq<Token>, Seq<char>>(s.tokens())
}

/// Every well-formed pattern compiles: its postfix sequence is the postfix form of its
/// syntax tree, and its automaton is well-formed, with exactly one accept state.
pub proof fn well_formed_pattern_compiles(pattern: Seq<char>, s: Syntax)
    requires
        well_formed(pattern, s),
    ensures
        postfix_of(pattern) == Ok::<Seq<Expr>, Seq<char>>(s.post()),
        compile_spec(pattern) matches Ok(nfa) && nfa.wf() && nfa.states.last() is Accept
            && forall|i: int|
            0 <= i < nfa.states.len() - 1 ==> !(#[trigger] nfa.states[i] is Accept),
{
    grammar_gives_postfix(s);
    post_adds_one_operand(s, 0);
    let exprs = s.post();
    operands_after_is_from(exprs, exprs.len());
    assert(exprs.take(exprs.len() as int) == exprs);
    assert(balanced(exprs));
    build_succeeds_iff_balanced(exprs);
}

} // verus!
