//! The shape of the automaton that the construction gives for a pattern: the part for
//! each subpattern, state by state.
use super::expr::Expr;
use super::grammar::Syntax;
use super::meaning::emit_shape;
use super::nfa::{
    build_prefix, build_spec, patch, patch_effect, Builder, FragmentView, NfaView, StateView,
};
use vstd::prelude::*;

verus! {

impl Syntax {
    /// The states of the pattern's part whose edge out of the part is still open when the
    /// part has been built, where the part starts at the state `lo`.
    pub open spec fn exits(self, lo: int) -> Seq<int>
        decreases self,
    {
        match self {
            Syntax::Lit(_) | Syntax::Range(_, _) => seq![lo],
            Syntax::Group(x) => x.exits(lo),
            Syntax::Concat(l, r) => r.exits(lo + l.size()),
            Syntax::Alt(l, r) => l.exits(lo) + r.exits(lo + l.size()),
            Syntax::Opt(x) => x.exits(lo) + seq![lo + x.size()],
            Syntax::Star(x) | Syntax::Plus(x) => seq![lo + x.size()],
        }
    }
}

/// The postfix form of a pattern has as many elements as `places` says.
pub proof fn post_len(s: Syntax)
    ensures
        s.post().len() == s.places(),
    decreases s,
{
    match s {
        Syntax::Lit(_) | Syntax::Range(_, _) => {},
        Syntax::Group(x) | Syntax::Star(x) | Syntax::Opt(x) | Syntax::Plus(x) => {
            post_len(*x);
        },
        Syntax::Concat(l, r) | Syntax::Alt(l, r) => {
            post_len(*l);
            post_len(*r);
        },
    }
}

/// The open states of a part are states of the part; and the part with its edges out
/// set to `t` is the open part with the open edge of each of those states set to `t`.
pub proof fn emit_patched(s: Syntax, lo: int, id: int, t: int)
    ensures
        forall|j: int|
            0 <= j < s.exits(lo).len() ==> lo <= #[trigger] s.exits(lo)[j] < lo + s.size(),
        forall|k: int|
            0 <= k < s.size() ==> #[trigger] s.emit(lo, id, Some(t))[k] == (if s.exits(
                lo,
            ).contains(lo + k) {
                s.emit(lo, id, None)[k].set_out(Some(t))
            } else {
                s.emit(lo, id, None)[k]
            }),
    decreases s,
{
    emit_shape(s, lo, id, Some(t));
    emit_shape(s, lo, id, None);
    let open = s.emit(lo, id, None);
    let done = s.emit(lo, id, Some(t));
    let exits = s.exits(lo);
    match s {
        Syntax::Lit(_) | Syntax::Range(_, _) => {
            assert(exits[0] == lo);
            assert forall|j: int| 0 <= j < exits.len() implies lo <= #[trigger] exits[j] < lo
                + s.size() by {}
        },
        Syntax::Group(x) => {
            emit_patched(*x, lo, id, t);
            assert forall|j: int| 0 <= j < exits.len() implies lo <= #[trigger] exits[j] < lo
                + s.size() by {
                assert(lo <= x.exits(lo)[j] < lo + x.size());
            }
        },
        Syntax::Concat(l, r) => {
            let mid = lo + l.size();
            let next = r.entry(mid);
            emit_patched(*r, mid, id + l.places(), t);
            emit_shape(*l, lo, id, Some(next));
            emit_shape(*r, mid, id + l.places(), Some(t));
            emit_shape(*r, mid, id + l.places(), None);
            assert forall|j: int| 0 <= j < exits.len() implies lo <= #[trigger] exits[j] < lo
                + s.size() by {
                assert(mid <= r.exits(mid)[j] < mid + r.size());
            }
            assert forall|k: int| 0 <= k < s.size() implies #[trigger] done[k] == (if exits.contains(
                lo + k,
            ) {
                open[k].set_out(Some(t))
            } else {
                open[k]
            }) by {
                if k < l.size() {
                    if exits.contains(lo + k) {
                        let j = choose|j: int| 0 <= j < exits.len() && exits[j] == lo + k;
                        assert(mid <= r.exits(mid)[j]);
                    }
                } else {
                    assert(done[k] == r.emit(mid, id + l.places(), Some(t))[k - l.size()]);
                    assert(open[k] == r.emit(mid, id + l.places(), None)[k - l.size()]);
                    assert(mid + (k - l.size()) == lo + k);
                }
            }
        },
        Syntax::Alt(l, r) => {
            let mid = lo + l.size();
            emit_patched(*l, lo, id, t);
            emit_patched(*r, mid, id + l.places(), t);
            emit_shape(*l, lo, id, Some(t));
            emit_shape(*l, lo, id, None);
            emit_shape(*r, mid, id + l.places(), Some(t));
            emit_shape(*r, mid, id + l.places(), None);
            let le = l.exits(lo);
            let re = r.exits(mid);
            assert forall|j: int| 0 <= j < exits.len() implies lo <= #[trigger] exits[j] < lo
                + s.size() by {
                if j < le.len() {
                    assert(exits[j] == le[j]);
                } else {
                    assert(exits[j] == re[j - le.len()]);
                }
            }
            assert forall|k: int| 0 <= k < s.size() implies #[trigger] done[k] == (if exits.contains(
                lo + k,
            ) {
                open[k].set_out(Some(t))
            } else {
                open[k]
            }) by {
                if exits.contains(lo + k) {
                    let j = choose|j: int| 0 <= j < exits.len() && exits[j] == lo + k;
                    if j < le.len() {
                        assert(le[j] == lo + k);
                    } else {
                        assert(re[j - le.len()] == lo + k);
                    }
                }
                if k < l.size() {
                    assert(done[k] == l.emit(lo, id, Some(t))[k]);
                    assert(open[k] == l.emit(lo, id, None)[k]);
                    if le.contains(lo + k) {
                        let j = choose|j: int| 0 <= j < le.len() && le[j] == lo + k;
                        assert(exits[j] == lo + k);
                    }
                } else if k < l.size() + r.size() {
                    assert(done[k] == r.emit(mid, id + l.places(), Some(t))[k - l.size()]);
                    assert(open[k] == r.emit(mid, id + l.places(), None)[k - l.size()]);
                    assert(mid + (k - l.size()) == lo + k);
                    if re.contains(lo + k) {
                        let j = choose|j: int| 0 <= j < re.len() && re[j] == lo + k;
                        assert(exits[le.len() + j] == lo + k);
                    }
                } else {
                    assert(done[k] == open[k]);
                }
            }
        },
        Syntax::Opt(x) => {
            let at = lo + x.size();
            emit_patched(*x, lo, id, t);
            emit_shape(*x, lo, id, Some(t));
            emit_shape(*x, lo, id, None);
            let xe = x.exits(lo);
            assert forall|j: int| 0 <= j < exits.len() implies lo <= #[trigger] exits[j] < lo
                + s.size() by {
                if j < xe.len() {
                    assert(exits[j] == xe[j]);
                }
            }
            assert forall|k: int| 0 <= k < s.size() implies #[trigger] done[k] == (if exits.contains(
                lo + k,
            ) {
                open[k].set_out(Some(t))
            } else {
                open[k]
            }) by {
                if k < x.size() {
                    assert(done[k] == x.emit(lo, id, Some(t))[k]);
                    assert(open[k] == x.emit(lo, id, None)[k]);
                    if xe.contains(lo + k) {
                        let j = choose|j: int| 0 <= j < xe.len() && xe[j] == lo + k;
                        assert(exits[j] == lo + k);
                    }
                    if exits.contains(lo + k) {
                        let j = choose|j: int| 0 <= j < exits.len() && exits[j] == lo + k;
                        assert(xe[j] == lo + k);
                    }
                } else {
                    assert(exits[xe.len() as int] == at);
                }
            }
        },
        Syntax::Star(x) | Syntax::Plus(x) => {
            let at = lo + x.size();
            emit_shape(*x, lo, id, Some(at));
            assert(exits[0] == at);
            assert forall|j: int| 0 <= j < exits.len() implies lo <= #[trigger] exits[j] < lo
                + s.size() by {}
            assert forall|k: int| 0 <= k < s.size() implies #[trigger] done[k] == (if exits.contains(
                lo + k,
            ) {
                open[k].set_out(Some(t))
            } else {
                open[k]
            }) by {
                if k < x.size() {
                    if exits.contains(lo + k) {
                        let j = choose|j: int| 0 <= j < exits.len() && exits[j] == lo + k;
                    }
                }
            }
        },
    }
}

/// Patching the open states of a part within a list of states sets the edges out of the
/// part, and changes nothing else.
pub proof fn patch_part(
    before: Seq<StateView>,
    s: Syntax,
    id: int,
    t: int,
    behind: Seq<StateView>,
)
    ensures
        patch(
            before + s.emit(before.len() as int, id, None) + behind,
            s.exits(before.len() as int),
            t,
        ) == before + s.emit(before.len() as int, id, Some(t)) + behind,
{
    let lo = before.len() as int;
    let open = s.emit(lo, id, None);
    let done = s.emit(lo, id, Some(t));
    let all = before + open + behind;
    emit_shape(s, lo, id, None);
    emit_shape(s, lo, id, Some(t));
    emit_patched(s, lo, id, t);
    let exits = s.exits(lo);
    assert forall|j: int| 0 <= j < exits.len() implies 0 <= #[trigger] exits[j] < all.len() by {}
    patch_effect(all, exits, t);
    let patched = patch(all, exits, t);
    let want = before + done + behind;
    assert(patched =~= want) by {
        assert forall|i: int| 0 <= i < all.len() implies patched[i] == want[i] by {
            if exits.contains(i) {
                let j = choose|j: int| 0 <= j < exits.len() && exits[j] == i;
                assert(lo <= exits[j] < lo + s.size());
            }
            if lo <= i < lo + s.size() {
                assert(all[i] == open[i - lo]);
                assert(want[i] == done[i - lo]);
                assert(lo + (i - lo) == i);
            }
        }
    }
}

/// The builder after the elements `exprs`, which stand from the place `id` on in the
/// postfix sequence, taken one after the other from the builder `b`.
pub open spec fn build_from(b: Builder, exprs: Seq<Expr>, id: int) -> Result<Builder, Seq<char>>
    decreases exprs.len(),
{
    if exprs.len() == 0 {
        Ok(b)
    } else {
        match build_from(b, exprs.drop_last(), id) {
            Ok(z) => z.step(exprs.last(), id + exprs.len() - 1),
            Err(e) => Err(e),
        }
    }
}

/// Taking two lists of elements one after the other is taking their concatenation.
pub proof fn build_concat(b: Builder, x: Seq<Expr>, y: Seq<Expr>, id: int)
    ensures
        build_from(b, x + y, id) == (match build_from(b, x, id) {
            Ok(z) => build_from(z, y, id + x.len()),
            Err(e) => Err(e),
        }),
    decreases y.len(),
{
    if y.len() == 0 {
        assert(x + y == x);
    } else {
        build_concat(b, x, y.drop_last(), id);
        assert((x + y).drop_last() == x + y.drop_last());
        assert((x + y).last() == y.last());
    }
}

/// Taking one element.
pub proof fn build_one(b: Builder, e: Expr, id: int)
    ensures
        build_from(b, seq![e], id) == b.step(e, id),
{
    assert(seq![e].drop_last() == Seq::<Expr>::empty());
    assert(build_from(b, seq![e].drop_last(), id) == Ok::<Builder, Seq<char>>(b));
}

/// The builder of the construction over a whole sequence is the builder that taking the
/// sequence from the empty builder gives.
pub proof fn prefix_is_build(exprs: Seq<Expr>, n: nat)
    requires
        n <= exprs.len(),
    ensures
        build_prefix(exprs, n) == build_from(
            Builder { states: Seq::empty(), stack: Seq::empty() },
            exprs.take(n as int),
            0,
        ),
    decreases n,
{
    if n > 0 {
        prefix_is_build(exprs, (n - 1) as nat);
        assert(exprs.take(n as int).drop_last() == exprs.take(n - 1));
        assert(exprs.take(n as int).last() == exprs[n - 1]);
    }
}

impl Syntax {
    /// The builder `b` after the part for the pattern was built, where the pattern's
    /// first element stands at the place `id`: the states of the open part behind the
    /// states of `b`, and the part's fragment on top of the stack.
    pub open spec fn built_on(self, b: Builder, id: int) -> Builder {
        let lo = b.states.len() as int;
        Builder {
            states: b.states + self.emit(lo, id, None),
            stack: b.stack.push(FragmentView { head: self.entry(lo), out: self.exits(lo) }),
        }
    }
}

/// The step of the construction for a concatenation, behind the parts for its sides.
proof fn build_concat_step(l: Syntax, r: Syntax, b: Builder, id: int)
    requires
        build_from(b, l.post(), id) == Ok::<Builder, Seq<char>>(l.built_on(b, id)),
        build_from(l.built_on(b, id), r.post(), id + l.places()) == Ok::<Builder, Seq<char>>(
            r.built_on(l.built_on(b, id), id + l.places()),
        ),
    ensures
        build_from(b, Syntax::Concat(Box::new(l), Box::new(r)).post(), id) == Ok::<
            Builder,
            Seq<char>,
        >(Syntax::Concat(Box::new(l), Box::new(r)).built_on(b, id)),
{
    let s = Syntax::Concat(Box::new(l), Box::new(r));
    let lo = b.states.len() as int;
    let mid = lo + l.size();
    let b1 = l.built_on(b, id);
    let b2 = r.built_on(b1, id + l.places());
    emit_shape(l, lo, id, None);
    post_len(l);
    post_len(r);
    build_concat(b, l.post(), r.post(), id);
    build_concat(b, l.post() + r.post(), seq![Expr::Concat], id);
    build_one(b2, Expr::Concat, id + l.places() + r.places());
    let k = b2.stack.len() as int;
    assert(b2.stack[k - 1] == FragmentView { head: r.entry(mid), out: r.exits(mid) });
    assert(b2.stack[k - 2] == FragmentView { head: l.entry(lo), out: l.exits(lo) });
    assert(b2.stack.take(k - 2) == b.stack);
    patch_part(b.states, l, id, r.entry(mid), r.emit(mid, id + l.places(), None));
    assert(b2.states == b.states + l.emit(lo, id, None) + r.emit(mid, id + l.places(), None));
    assert(b.states + l.emit(lo, id, Some(r.entry(mid))) + r.emit(mid, id + l.places(), None)
        == b.states + s.emit(lo, id, None));
    assert(b2.step(Expr::Concat, id + l.places() + r.places()) == Ok::<Builder, Seq<char>>(
        s.built_on(b, id),
    ));
}

/// The step of the construction for an alternation, behind the parts for its sides.
proof fn build_alt_step(l: Syntax, r: Syntax, b: Builder, id: int)
    requires
        build_from(b, l.post(), id) == Ok::<Builder, Seq<char>>(l.built_on(b, id)),
        build_from(l.built_on(b, id), r.post(), id + l.places()) == Ok::<Builder, Seq<char>>(
            r.built_on(l.built_on(b, id), id + l.places()),
        ),
    ensures
        build_from(b, Syntax::Alt(Box::new(l), Box::new(r)).post(), id) == Ok::<
            Builder,
            Seq<char>,
        >(Syntax::Alt(Box::new(l), Box::new(r)).built_on(b, id)),
{
    let s = Syntax::Alt(Box::new(l), Box::new(r));
    let lo = b.states.len() as int;
    let mid = lo + l.size();
    let b1 = l.built_on(b, id);
    let b2 = r.built_on(b1, id + l.places());
    emit_shape(l, lo, id, None);
    emit_shape(r, mid, id + l.places(), None);
    post_len(l);
    post_len(r);
    build_concat(b, l.post(), r.post(), id);
    build_concat(b, l.post() + r.post(), seq![Expr::Alt], id);
    build_one(b2, Expr::Alt, id + l.places() + r.places());
    let k = b2.stack.len() as int;
    assert(b2.stack[k - 1] == FragmentView { head: r.entry(mid), out: r.exits(mid) });
    assert(b2.stack[k - 2] == FragmentView { head: l.entry(lo), out: l.exits(lo) });
    assert(b2.stack.take(k - 2) == b.stack);
    let split = StateView::Split {
        id: id + l.places() + r.places(),
        left: Some(l.entry(lo)),
        right: Some(r.entry(mid)),
    };
    assert(b2.states.push(split) == b.states + s.emit(lo, id, None));
    assert(b2.step(Expr::Alt, id + l.places() + r.places()) == Ok::<Builder, Seq<char>>(
        s.built_on(b, id),
    ));
}

/// The step of the construction for `?`, behind the part for its operand.
proof fn build_opt_step(x: Syntax, b: Builder, id: int)
    requires
        build_from(b, x.post(), id) == Ok::<Builder, Seq<char>>(x.built_on(b, id)),
    ensures
        build_from(b, Syntax::Opt(Box::new(x)).post(), id) == Ok::<Builder, Seq<char>>(
            Syntax::Opt(Box::new(x)).built_on(b, id),
        ),
{
    let s = Syntax::Opt(Box::new(x));
    let lo = b.states.len() as int;
    let b1 = x.built_on(b, id);
    emit_shape(x, lo, id, None);
    post_len(x);
    build_concat(b, x.post(), seq![Expr::Opt], id);
    build_one(b1, Expr::Opt, id + x.places());
    let k = b1.stack.len() as int;
    assert(b1.stack[k - 1] == FragmentView { head: x.entry(lo), out: x.exits(lo) });
    assert(b1.stack.take(k - 1) == b.stack);
    let split = StateView::Split { id: id + x.places(), left: Some(x.entry(lo)), right: None };
    assert(b1.states.push(split) == b.states + s.emit(lo, id, None));
    assert(b1.step(Expr::Opt, id + x.places()) == Ok::<Builder, Seq<char>>(s.built_on(b, id)));
}

/// The step of the construction for `*` and `+`, behind the part for the operand.
proof fn build_loop_step(x: Syntax, b: Builder, id: int, star: bool)
    requires
        build_from(b, x.post(), id) == Ok::<Builder, Seq<char>>(x.built_on(b, id)),
    ensures
        star ==> build_from(b, Syntax::Star(Box::new(x)).post(), id) == Ok::<Builder, Seq<char>>(
            Syntax::Star(Box::new(x)).built_on(b, id),
        ),
        !star ==> build_from(b, Syntax::Plus(Box::new(x)).post(), id) == Ok::<
            Builder,
            Seq<char>,
        >(Syntax::Plus(Box::new(x)).built_on(b, id)),
{
    let s = if star {
        Syntax::Star(Box::new(x))
    } else {
        Syntax::Plus(Box::new(x))
    };
    let e = if star {
        Expr::Star
    } else {
        Expr::Plus
    };
    let lo = b.states.len() as int;
    let at = lo + x.size();
    let b1 = x.built_on(b, id);
    emit_shape(x, lo, id, None);
    post_len(x);
    build_concat(b, x.post(), seq![e], id);
    build_one(b1, e, id + x.places());
    let k = b1.stack.len() as int;
    assert(b1.stack[k - 1] == FragmentView { head: x.entry(lo), out: x.exits(lo) });
    assert(b1.stack.take(k - 1) == b.stack);
    let split = StateView::Split { id: id + x.places(), left: Some(x.entry(lo)), right: None };
    patch_part(b.states, x, id, at, seq![split]);
    assert(b1.states.push(split) == b.states + x.emit(lo, id, None) + seq![split]);
    assert(b.states + x.emit(lo, id, Some(at)) + seq![split] == b.states + s.emit(lo, id, None));
    assert(b1.step(e, id + x.places()) == Ok::<Builder, Seq<char>>(s.built_on(b, id)));
}

/// The construction over the postfix form of a pattern builds the part for the pattern.
pub proof fn build_part(s: Syntax, b: Builder, id: int)
    requires
        s.ascending(),
    ensures
        build_from(b, s.post(), id) == Ok::<Builder, Seq<char>>(s.built_on(b, id)),
    decreases s,
{
    let lo = b.states.len() as int;
    match s {
        Syntax::Lit(c) => {
            build_one(b, Expr::Literal(c), id);
            assert(b.states.push(s.emit(lo, id, None)[0]) == b.states + s.emit(lo, id, None));
        },
        Syntax::Range(x, y) => {
            build_one(b, Expr::CharRange(x, y), id);
            assert(b.states.push(s.emit(lo, id, None)[0]) == b.states + s.emit(lo, id, None));
        },
        Syntax::Group(x) => {
            build_part(*x, b, id);
        },
        Syntax::Concat(l, r) => {
            build_part(*l, b, id);
            build_part(*r, l.built_on(b, id), id + l.places());
            build_concat_step(*l, *r, b, id);
        },
        Syntax::Alt(l, r) => {
            build_part(*l, b, id);
            build_part(*r, l.built_on(b, id), id + l.places());
            build_alt_step(*l, *r, b, id);
        },
        Syntax::Opt(x) => {
            build_part(*x, b, id);
            build_opt_step(*x, b, id);
        },
        Syntax::Star(x) => {
            build_part(*x, b, id);
            build_loop_step(*x, b, id, true);
        },
        Syntax::Plus(x) => {
            build_part(*x, b, id);
            build_loop_step(*x, b, id, false);
        },
    }
}

impl Syntax {
    /// The automaton of the pattern: the pattern's part from the first state on, with
    /// the accept state behind it as its target.
    pub open spec fn automaton(self) -> NfaView {
        NfaView {
            head: self.entry(0),
            states: self.emit(0, 0, Some(self.size() as int)) + seq![
                StateView::Accept { id: self.places() as int },
            ],
        }
    }
}

/// The construction over the postfix form of a pattern gives the pattern's automaton.
pub proof fn build_gives_automaton(s: Syntax)
    requires
        s.ascending(),
    ensures
        build_spec(s.post()) == Ok::<NfaView, Seq<char>>(s.automaton()),
{
    let empty = Builder { states: Seq::empty(), stack: Seq::empty() };
    let exprs = s.post();
    post_len(s);
    prefix_is_build(exprs, exprs.len());
    assert(exprs.take(exprs.len() as int) == exprs);
    build_part(s, empty, 0);
    let b = s.built_on(empty, 0);
    emit_shape(s, 0, 0, None);
    assert(b.stack.len() == 1);
    assert(b.stack[0] == FragmentView { head: s.entry(0), out: s.exits(0) });
    let accept = StateView::Accept { id: exprs.len() as int };
    assert(b.states == Seq::<StateView>::empty() + s.emit(0, 0, None));
    patch_part(Seq::empty(), s, 0, s.size() as int, seq![accept]);
    assert(b.states.push(accept) == Seq::<StateView>::empty() + s.emit(0, 0, None) + seq![
        accept,
    ]);
    assert(Seq::<StateView>::empty() + s.emit(0, 0, Some(s.size() as int)) + seq![accept]
        == s.automaton().states);
}

} // verus!
