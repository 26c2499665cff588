//! What a pattern means, and the proof that the automaton of a pattern accepts exactly
//! the strings that the pattern denotes.
use super::grammar::Syntax;
use super::nfa::{char_range, char_range_contains, ConditionView, NfaView, StateView};
use vstd::prelude::*;

verus! {

/// True when the place `p` cuts the stretch from `a` up to `b` in two.
pub open spec fn cut(a: int, p: int, b: int) -> bool {
    a <= p <= b
}

impl Syntax {
    /// True when the pattern denotes the part of `w` from `a` up to `b`: a literal its
    /// character, a range one character between its ends, a concatenation a text of the
    /// left side followed by one of the right side, an alternation the texts of either
    /// side, `?` the empty text and the texts of its operand, `*` any number of texts of
    /// its operand in a row, and `+` one or more.
    pub open spec fn spans(self, w: Seq<char>, a: int, b: int) -> bool
        decreases self, b - a, 0nat,
    {
        &&& 0 <= a <= b <= w.len()
        &&& match self {
            Syntax::Lit(c) => b == a + 1 && w[a] == c,
            Syntax::Range(lo, hi) => b == a + 1 && (lo as u32) <= (w[a] as u32) <= (hi as u32),
            Syntax::Group(x) => x.spans(w, a, b),
            Syntax::Concat(l, r) => exists|p: int|
                #[trigger] cut(a, p, b) && l.spans(w, a, p) && r.spans(w, p, b),
            Syntax::Alt(l, r) => l.spans(w, a, b) || r.spans(w, a, b),
            Syntax::Opt(x) => a == b || x.spans(w, a, b),
            Syntax::Star(x) => iterates(*x, w, a, b),
            Syntax::Plus(x) => exists|p: int|
                #[trigger] cut(a, p, b) && x.spans(w, a, p) && iterates(*x, w, p, b),
        }
    }

    /// True when the pattern denotes the whole of `w`.
    pub open spec fn denotes(self, w: Seq<char>) -> bool {
        self.spans(w, 0, w.len() as int)
    }

    /// The number of states that the pattern's automaton has for it.
    pub open spec fn size(self) -> nat
        decreases self,
    {
        match self {
            Syntax::Lit(_) | Syntax::Range(_, _) => 1,
            Syntax::Group(x) => x.size(),
            Syntax::Star(x) | Syntax::Opt(x) | Syntax::Plus(x) => x.size() + 1,
            Syntax::Concat(l, r) => l.size() + r.size(),
            Syntax::Alt(l, r) => l.size() + r.size() + 1,
        }
    }

    /// The number of elements of the pattern's postfix form.
    pub open spec fn places(self) -> nat
        decreases self,
    {
        match self {
            Syntax::Lit(_) | Syntax::Range(_, _) => 1,
            Syntax::Group(x) => x.places(),
            Syntax::Star(x) | Syntax::Opt(x) | Syntax::Plus(x) => x.places() + 1,
            Syntax::Concat(l, r) | Syntax::Alt(l, r) => l.places() + r.places() + 1,
        }
    }

    /// The state where the pattern's part of the automaton is entered, where the part
    /// starts at the state `lo`.
    pub open spec fn entry(self, lo: int) -> int
        decreases self,
    {
        match self {
            Syntax::Lit(_) | Syntax::Range(_, _) => lo,
            Syntax::Group(x) => x.entry(lo),
            Syntax::Star(x) | Syntax::Opt(x) => lo + x.size(),
            Syntax::Plus(x) => x.entry(lo),
            Syntax::Concat(l, _) => l.entry(lo),
            Syntax::Alt(l, r) => lo + l.size() + r.size(),
        }
    }

    /// The states of the pattern's part of the automaton, where the part starts at the
    /// state `lo`, its first element stands at the place `id` of the postfix sequence,
    /// and the edges that leave the part lead to `tgt`.
    pub open spec fn emit(self, lo: int, id: int, tgt: Option<int>) -> Seq<StateView>
        decreases self,
    {
        match self {
            Syntax::Lit(c) => seq![
                StateView::Transition { id, condition: ConditionView::Id(c), output: tgt },
            ],
            Syntax::Range(a, b) => seq![
                StateView::Transition {
                    id,
                    condition: ConditionView::CharClass(char_range(a, b)),
                    output: tgt,
                },
            ],
            Syntax::Group(x) => x.emit(lo, id, tgt),
            Syntax::Concat(l, r) => l.emit(lo, id, Some(r.entry(lo + l.size()))) + r.emit(
                lo + l.size(),
                id + l.places(),
                tgt,
            ),
            Syntax::Alt(l, r) => l.emit(lo, id, tgt) + r.emit(
                lo + l.size(),
                id + l.places(),
                tgt,
            ) + seq![
                StateView::Split {
                    id: id + l.places() + r.places(),
                    left: Some(l.entry(lo)),
                    right: Some(r.entry(lo + l.size())),
                },
            ],
            Syntax::Opt(x) => x.emit(lo, id, tgt) + seq![
                StateView::Split { id: id + x.places(), left: Some(x.entry(lo)), right: tgt },
            ],
            Syntax::Star(x) => x.emit(lo, id, Some(lo + x.size())) + seq![
                StateView::Split { id: id + x.places(), left: Some(x.entry(lo)), right: tgt },
            ],
            Syntax::Plus(x) => x.emit(lo, id, Some(lo + x.size())) + seq![
                StateView::Split { id: id + x.places(), left: Some(x.entry(lo)), right: tgt },
            ],
        }
    }
}

/// True when the part of `w` from `a` up to `b` consists of texts that `x` denotes, none
/// of them empty, in a row.
pub open spec fn iterates(x: Syntax, w: Seq<char>, a: int, b: int) -> bool
    decreases x, b - a, 1nat,
{
    &&& 0 <= a <= b <= w.len()
    &&& (a == b || exists|p: int|
        #[trigger] cut(a, p, b) && a < p && x.spans(w, a, p) && iterates(x, w, p, b))
}

/// True when the automaton can go in `n` moves from the state `i` with `k` characters of
/// `w` consumed to the state `tgt` with `end` characters consumed, through states from
/// `lo` up to `hi` only.
pub open spec fn arrives(
    nfa: NfaView,
    lo: int,
    hi: int,
    tgt: int,
    w: Seq<char>,
    end: int,
    i: int,
    k: int,
    n: nat,
) -> bool
    decreases n,
{
    if n == 0 {
        i == tgt && k == end
    } else {
        &&& lo <= i < hi
        &&& 0 <= i < nfa.states.len()
        &&& match nfa.states[i] {
            StateView::Transition { condition, output: Some(o), .. } => 0 <= k < w.len()
                && condition.admits(w[k]) && arrives(
                nfa,
                lo,
                hi,
                tgt,
                w,
                end,
                o,
                k + 1,
                (n - 1) as nat,
            ),
            StateView::Split { left: Some(l), right: Some(r), .. } => arrives(
                nfa,
                lo,
                hi,
                tgt,
                w,
                end,
                l,
                k,
                (n - 1) as nat,
            ) || arrives(nfa, lo, hi, tgt, w, end, r, k, (n - 1) as nat),
            _ => false,
        }
    }
}

/// True when every edge of the states from `lo` up to `hi` is set and leads to one of
/// these states or to `exit`.
pub open spec fn closed_part(nfa: NfaView, lo: int, hi: int, exit: int) -> bool {
    &&& 0 <= lo <= hi <= nfa.states.len()
    &&& forall|i: int|
        lo <= i < hi ==> match #[trigger] nfa.states[i] {
            StateView::Transition { output: Some(o), .. } => lo <= o < hi || o == exit,
            StateView::Split { left: Some(l), right: Some(r), .. } => (lo <= l < hi || l == exit)
                && (lo <= r < hi || r == exit),
            _ => false,
        }
}

/// True when the automaton holds the part for `s` at the states from `lo` on, with the
/// edges that leave the part set to `tgt`, which is no state of the part.
pub open spec fn holds_part(nfa: NfaView, s: Syntax, lo: int, id: int, tgt: int) -> bool {
    &&& 0 <= lo
    &&& lo + s.size() <= nfa.states.len()
    &&& nfa.states.subrange(lo, lo + s.size()) == s.emit(lo, id, Some(tgt))
    &&& !(lo <= tgt < lo + s.size())
}

/// The part for a pattern has as many states as `size` says, and is entered at one of
/// them.
pub proof fn emit_shape(s: Syntax, lo: int, id: int, tgt: Option<int>)
    ensures
        s.emit(lo, id, tgt).len() == s.size(),
        s.size() > 0,
        lo <= s.entry(lo) < lo + s.size(),
    decreases s,
{
    match s {
        Syntax::Lit(_) | Syntax::Range(_, _) => {},
        Syntax::Group(x) => {
            emit_shape(*x, lo, id, tgt);
        },
        Syntax::Concat(l, r) => {
            emit_shape(*l, lo, id, Some(r.entry(lo + l.size())));
            emit_shape(*r, lo + l.size(), id + l.places(), tgt);
        },
        Syntax::Alt(l, r) => {
            emit_shape(*l, lo, id, tgt);
            emit_shape(*r, lo + l.size(), id + l.places(), tgt);
        },
        Syntax::Opt(x) => {
            emit_shape(*x, lo, id, tgt);
        },
        Syntax::Star(x) | Syntax::Plus(x) => {
            emit_shape(*x, lo, id, Some(lo + x.size()));
        },
    }
}

/// A run through a part that lies within a larger part, followed by a run through the
/// larger part, is a run through the larger part.
pub proof fn arrives_chain(
    nfa: NfaView,
    lo: int,
    hi: int,
    tgt: int,
    w: Seq<char>,
    end: int,
    sub_lo: int,
    sub_hi: int,
    exit: int,
    p: int,
    i: int,
    k: int,
    n1: nat,
    n2: nat,
)
    requires
        lo <= sub_lo <= sub_hi <= hi,
        arrives(nfa, sub_lo, sub_hi, exit, w, p, i, k, n1),
        arrives(nfa, lo, hi, tgt, w, end, exit, p, n2),
    ensures
        arrives(nfa, lo, hi, tgt, w, end, i, k, n1 + n2),
    decreases n1,
{
    if n1 > 0 {
        match nfa.states[i] {
            StateView::Transition { condition, output: Some(o), .. } => {
                arrives_chain(
                    nfa,
                    lo,
                    hi,
                    tgt,
                    w,
                    end,
                    sub_lo,
                    sub_hi,
                    exit,
                    p,
                    o,
                    k + 1,
                    (n1 - 1) as nat,
                    n2,
                );
            },
            StateView::Split { left: Some(l), right: Some(r), .. } => {
                if arrives(nfa, sub_lo, sub_hi, exit, w, p, l, k, (n1 - 1) as nat) {
                    arrives_chain(
                        nfa,
                        lo,
                        hi,
                        tgt,
                        w,
                        end,
                        sub_lo,
                        sub_hi,
                        exit,
                        p,
                        l,
                        k,
                        (n1 - 1) as nat,
                        n2,
                    );
                } else {
                    arrives_chain(
                        nfa,
                        lo,
                        hi,
                        tgt,
                        w,
                        end,
                        sub_lo,
                        sub_hi,
                        exit,
                        p,
                        r,
                        k,
                        (n1 - 1) as nat,
                        n2,
                    );
                }
            },
            _ => {},
        }
    }
}

/// A run consumes characters only: it ends where it starts or behind it.
pub proof fn arrives_forward(
    nfa: NfaView,
    lo: int,
    hi: int,
    tgt: int,
    w: Seq<char>,
    end: int,
    i: int,
    k: int,
    n: nat,
)
    requires
        arrives(nfa, lo, hi, tgt, w, end, i, k, n),
        0 <= k <= w.len(),
    ensures
        k <= end <= w.len(),
    decreases n,
{
    if n > 0 {
        match nfa.states[i] {
            StateView::Transition { condition, output: Some(o), .. } => {
                arrives_forward(nfa, lo, hi, tgt, w, end, o, k + 1, (n - 1) as nat);
            },
            StateView::Split { left: Some(l), right: Some(r), .. } => {
                if arrives(nfa, lo, hi, tgt, w, end, l, k, (n - 1) as nat) {
                    arrives_forward(nfa, lo, hi, tgt, w, end, l, k, (n - 1) as nat);
                } else {
                    arrives_forward(nfa, lo, hi, tgt, w, end, r, k, (n - 1) as nat);
                }
            },
            _ => {},
        }
    }
}

/// Where a run through a larger part leaves a closed part within it: the number of
/// characters consumed when the run first reaches the exit of the closed part.
pub open spec fn leaves_at(
    nfa: NfaView,
    lo: int,
    hi: int,
    tgt: int,
    w: Seq<char>,
    end: int,
    sub_lo: int,
    sub_hi: int,
    i: int,
    k: int,
    n: nat,
) -> (int, nat)
    decreases n,
{
    if n == 0 || !(sub_lo <= i < sub_hi) || !(0 <= i < nfa.states.len()) {
        (k, 0nat)
    } else {
        match nfa.states[i] {
            StateView::Transition { output: Some(o), .. } => {
                let (p, m) = leaves_at(
                    nfa,
                    lo,
                    hi,
                    tgt,
                    w,
                    end,
                    sub_lo,
                    sub_hi,
                    o,
                    k + 1,
                    (n - 1) as nat,
                );
                (p, m + 1)
            },
            StateView::Split { left: Some(l), right: Some(r), .. } => {
                if arrives(nfa, lo, hi, tgt, w, end, l, k, (n - 1) as nat) {
                    let (p, m) = leaves_at(
                        nfa,
                        lo,
                        hi,
                        tgt,
                        w,
                        end,
                        sub_lo,
                        sub_hi,
                        l,
                        k,
                        (n - 1) as nat,
                    );
                    (p, m + 1)
                } else {
                    let (p, m) = leaves_at(
                        nfa,
                        lo,
                        hi,
                        tgt,
                        w,
                        end,
                        sub_lo,
                        sub_hi,
                        r,
                        k,
                        (n - 1) as nat,
                    );
                    (p, m + 1)
                }
            },
            _ => (k, 0nat),
        }
    }
}

/// At the exit of a closed part the run through the part is over.
proof fn left_at_once(
    nfa: NfaView,
    lo: int,
    hi: int,
    tgt: int,
    w: Seq<char>,
    end: int,
    sub_lo: int,
    sub_hi: int,
    exit: int,
    i: int,
    k: int,
    n: nat,
)
    requires
        i == exit,
        !(sub_lo <= exit < sub_hi),
    ensures
        leaves_at(nfa, lo, hi, tgt, w, end, sub_lo, sub_hi, i, k, n) == (k, 0nat),
        arrives(nfa, sub_lo, sub_hi, exit, w, k, i, k, 0),
{
}

/// A run through a larger part that starts in a closed part within it first runs through
/// the closed part to its exit, and goes on from there.
pub proof fn arrives_split(
    nfa: NfaView,
    lo: int,
    hi: int,
    tgt: int,
    w: Seq<char>,
    end: int,
    sub_lo: int,
    sub_hi: int,
    exit: int,
    i: int,
    k: int,
    n: nat,
)
    requires
        lo <= sub_lo <= sub_hi <= hi,
        closed_part(nfa, sub_lo, sub_hi, exit),
        !(sub_lo <= exit < sub_hi),
        !(lo <= tgt < hi),
        sub_lo <= i < sub_hi,
        arrives(nfa, lo, hi, tgt, w, end, i, k, n),
    ensures
        ({
            let (p, m) = leaves_at(nfa, lo, hi, tgt, w, end, sub_lo, sub_hi, i, k, n);
            &&& 0 < m <= n
            &&& arrives(nfa, sub_lo, sub_hi, exit, w, p, i, k, m)
            &&& arrives(nfa, lo, hi, tgt, w, end, exit, p, (n - m) as nat)
        }),
    decreases n,
{
    if n > 0 {
        assert(nfa.states[i] is Transition || nfa.states[i] is Split);
        match nfa.states[i] {
            StateView::Transition { condition, output: Some(o), .. } => {
                if sub_lo <= o < sub_hi {
                    arrives_split(
                        nfa,
                        lo,
                        hi,
                        tgt,
                        w,
                        end,
                        sub_lo,
                        sub_hi,
                        exit,
                        o,
                        k + 1,
                        (n - 1) as nat,
                    );
                } else {
                    left_at_once(nfa, lo, hi, tgt, w, end, sub_lo, sub_hi, exit, o, k + 1, (n - 1) as nat);
                }
            },
            StateView::Split { left: Some(l), right: Some(r), .. } => {
                if arrives(nfa, lo, hi, tgt, w, end, l, k, (n - 1) as nat) {
                    if sub_lo <= l < sub_hi {
                        arrives_split(
                            nfa,
                            lo,
                            hi,
                            tgt,
                            w,
                            end,
                            sub_lo,
                            sub_hi,
                            exit,
                            l,
                            k,
                            (n - 1) as nat,
                        );
                    } else {
                        left_at_once(nfa, lo, hi, tgt, w, end, sub_lo, sub_hi, exit, l, k, (n - 1) as nat);
                    }
                } else {
                    if sub_lo <= r < sub_hi {
                        arrives_split(
                            nfa,
                            lo,
                            hi,
                            tgt,
                            w,
                            end,
                            sub_lo,
                            sub_hi,
                            exit,
                            r,
                            k,
                            (n - 1) as nat,
                        );
                    } else {
                        left_at_once(nfa, lo, hi, tgt, w, end, sub_lo, sub_hi, exit, r, k, (n - 1) as nat);
                    }
                }
            },
            _ => {},
        }
    }
}


/// True when every edge of the states `part`, which stand at the places from `lo` on, is
/// set and leads to one of these states or to `exit`.
pub open spec fn closed_states(part: Seq<StateView>, lo: int, exit: int) -> bool {
    forall|k: int|
        0 <= k < part.len() ==> match #[trigger] part[k] {
            StateView::Transition { output: Some(o), .. } => lo <= o < lo + part.len() || o
                == exit,
            StateView::Split { left: Some(l), right: Some(r), .. } => (lo <= l < lo + part.len()
                || l == exit) && (lo <= r < lo + part.len() || r == exit),
            _ => false,
        }
}

/// The edges of the part for a pattern stay in the part or lead to its target.
pub proof fn emit_closed(s: Syntax, lo: int, id: int, tgt: int)
    ensures
        closed_states(s.emit(lo, id, Some(tgt)), lo, tgt),
    decreases s,
{
    emit_shape(s, lo, id, Some(tgt));
    let part = s.emit(lo, id, Some(tgt));
    match s {
        Syntax::Lit(_) | Syntax::Range(_, _) => {},
        Syntax::Group(x) => {
            emit_closed(*x, lo, id, tgt);
        },
        Syntax::Concat(l, r) => {
            let mid = lo + l.size();
            let first = l.emit(lo, id, Some(r.entry(mid)));
            let second = r.emit(mid, id + l.places(), Some(tgt));
            emit_closed(*l, lo, id, r.entry(mid));
            emit_closed(*r, mid, id + l.places(), tgt);
            emit_shape(*l, lo, id, Some(r.entry(mid)));
            emit_shape(*r, mid, id + l.places(), Some(tgt));
            assert forall|k: int| 0 <= k < part.len() implies match #[trigger] part[k] {
                StateView::Transition { output: Some(o), .. } => lo <= o < lo + part.len() || o
                    == tgt,
                StateView::Split { left: Some(l), right: Some(r), .. } => (lo <= l < lo
                    + part.len() || l == tgt) && (lo <= r < lo + part.len() || r == tgt),
                _ => false,
            } by {
                if k < first.len() {
                    assert(part[k] == first[k]);
                } else {
                    assert(part[k] == second[k - first.len()]);
                }
            }
        },
        Syntax::Alt(l, r) => {
            let mid = lo + l.size();
            let first = l.emit(lo, id, Some(tgt));
            let second = r.emit(mid, id + l.places(), Some(tgt));
            emit_closed(*l, lo, id, tgt);
            emit_closed(*r, mid, id + l.places(), tgt);
            emit_shape(*l, lo, id, Some(tgt));
            emit_shape(*r, mid, id + l.places(), Some(tgt));
            assert forall|k: int| 0 <= k < part.len() implies match #[trigger] part[k] {
                StateView::Transition { output: Some(o), .. } => lo <= o < lo + part.len() || o
                    == tgt,
                StateView::Split { left: Some(l), right: Some(r), .. } => (lo <= l < lo
                    + part.len() || l == tgt) && (lo <= r < lo + part.len() || r == tgt),
                _ => false,
            } by {
                if k < first.len() {
                    assert(part[k] == first[k]);
                } else if k < first.len() + second.len() {
                    assert(part[k] == second[k - first.len()]);
                }
            }
        },
        Syntax::Opt(x) => {
            let first = x.emit(lo, id, Some(tgt));
            emit_closed(*x, lo, id, tgt);
            emit_shape(*x, lo, id, Some(tgt));
            assert forall|k: int| 0 <= k < part.len() implies match #[trigger] part[k] {
                StateView::Transition { output: Some(o), .. } => lo <= o < lo + part.len() || o
                    == tgt,
                StateView::Split { left: Some(l), right: Some(r), .. } => (lo <= l < lo
                    + part.len() || l == tgt) && (lo <= r < lo + part.len() || r == tgt),
                _ => false,
            } by {
                if k < first.len() {
                    assert(part[k] == first[k]);
                }
            }
        },
        Syntax::Star(x) | Syntax::Plus(x) => {
            let first = x.emit(lo, id, Some(lo + x.size()));
            emit_closed(*x, lo, id, lo + x.size());
            emit_shape(*x, lo, id, Some(lo + x.size()));
            assert forall|k: int| 0 <= k < part.len() implies match #[trigger] part[k] {
                StateView::Transition { output: Some(o), .. } => lo <= o < lo + part.len() || o
                    == tgt,
                StateView::Split { left: Some(l), right: Some(r), .. } => (lo <= l < lo
                    + part.len() || l == tgt) && (lo <= r < lo + part.len() || r == tgt),
                _ => false,
            } by {
                if k < first.len() {
                    assert(part[k] == first[k]);
                }
            }
        },
    }
}

/// An automaton that holds the part for a pattern is closed there.
pub proof fn held_part_is_closed(nfa: NfaView, s: Syntax, lo: int, id: int, tgt: int)
    requires
        holds_part(nfa, s, lo, id, tgt),
    ensures
        closed_part(nfa, lo, lo + s.size(), tgt),
{
    emit_closed(s, lo, id, tgt);
    emit_shape(s, lo, id, Some(tgt));
    let part = s.emit(lo, id, Some(tgt));
    assert forall|i: int| lo <= i < lo + s.size() implies match #[trigger] nfa.states[i] {
        StateView::Transition { output: Some(o), .. } => lo <= o < lo + s.size() || o == tgt,
        StateView::Split { left: Some(l), right: Some(r), .. } => (lo <= l < lo + s.size() || l
            == tgt) && (lo <= r < lo + s.size() || r == tgt),
        _ => false,
    } by {
        assert(nfa.states.subrange(lo, lo + s.size())[i - lo] == nfa.states[i]);
        assert(part[i - lo] == nfa.states[i]);
    }
}

/// An automaton that holds the part for a pattern with two sides holds the parts for
/// the sides, one behind the other.
pub proof fn held_sides(
    nfa: NfaView,
    l: Syntax,
    r: Syntax,
    lo: int,
    id: int,
    first_tgt: int,
    tgt: int,
    whole: Seq<StateView>,
)
    requires
        0 <= lo,
        lo + whole.len() <= nfa.states.len(),
        nfa.states.subrange(lo, lo + whole.len()) == whole,
        l.emit(lo, id, Some(first_tgt)).is_prefix_of(whole),
        whole.len() >= l.size() + r.size(),
        whole.subrange(l.size() as int, l.size() as int + r.size()) == r.emit(
            lo + l.size(),
            id + l.places(),
            Some(tgt),
        ),
        !(lo <= first_tgt < lo + l.size()),
        !(lo + l.size() <= tgt < lo + l.size() + r.size()),
    ensures
        holds_part(nfa, l, lo, id, first_tgt),
        holds_part(nfa, r, lo + l.size(), id + l.places(), tgt),
{
    emit_shape(l, lo, id, Some(first_tgt));
    emit_shape(r, lo + l.size(), id + l.places(), Some(tgt));
    let first = l.emit(lo, id, Some(first_tgt));
    assert(nfa.states.subrange(lo, lo + l.size()) =~= first) by {
        assert forall|k: int| 0 <= k < l.size() implies nfa.states.subrange(lo, lo + l.size())[k]
            == first[k] by {
            assert(nfa.states.subrange(lo, lo + whole.len())[k] == whole[k]);
        }
    }
    let second = r.emit(lo + l.size(), id + l.places(), Some(tgt));
    assert(nfa.states.subrange(lo + l.size(), lo + l.size() + r.size()) =~= second) by {
        assert forall|k: int| 0 <= k < r.size() implies nfa.states.subrange(
            lo + l.size(),
            lo + l.size() + r.size(),
        )[k] == second[k] by {
            assert(nfa.states.subrange(lo, lo + whole.len())[l.size() + k] == whole[l.size()
                + k]);
            assert(whole.subrange(l.size() as int, l.size() as int + r.size())[k] == whole[l.size()
                + k]);
        }
    }
}

/// An automaton that holds the part for a pattern with one operand and a split behind
/// it holds the part for the operand, and the split behind it.
pub proof fn held_operand(
    nfa: NfaView,
    x: Syntax,
    lo: int,
    id: int,
    inner_tgt: int,
    split: StateView,
    whole: Seq<StateView>,
)
    requires
        0 <= lo,
        lo + whole.len() <= nfa.states.len(),
        nfa.states.subrange(lo, lo + whole.len()) == whole,
        whole == x.emit(lo, id, Some(inner_tgt)) + seq![split],
        !(lo <= inner_tgt < lo + x.size()),
    ensures
        holds_part(nfa, x, lo, id, inner_tgt),
        nfa.states[lo + x.size()] == split,
        whole.len() == x.size() + 1,
{
    emit_shape(x, lo, id, Some(inner_tgt));
    let first = x.emit(lo, id, Some(inner_tgt));
    assert(nfa.states.subrange(lo, lo + x.size()) =~= first) by {
        assert forall|k: int| 0 <= k < x.size() implies nfa.states.subrange(lo, lo + x.size())[k]
            == first[k] by {
            assert(nfa.states.subrange(lo, lo + whole.len())[k] == whole[k]);
        }
    }
    assert(nfa.states.subrange(lo, lo + whole.len())[x.size() as int] == whole[x.size() as int]);
}


/// A run that has arrived at its target, which lies outside the part, is over.
proof fn over_at_target(
    nfa: NfaView,
    lo: int,
    hi: int,
    tgt: int,
    w: Seq<char>,
    end: int,
    k: int,
    n: nat,
)
    requires
        !(lo <= tgt < hi),
        arrives(nfa, lo, hi, tgt, w, end, tgt, k, n),
    ensures
        n == 0,
        k == end,
{
}

/// True when the state of `nfa` at `at` is a split with the branches `left` and `right`.
pub open spec fn split_at(nfa: NfaView, at: int, left: int, right: int) -> bool {
    &&& 0 <= at < nfa.states.len()
    &&& nfa.states[at] matches StateView::Split { left: Some(l), right: Some(r), .. }
    &&& l == left
    &&& r == right
}

/// Soundness of the automaton, for every pattern: a run through the part for a pattern,
/// from its entry to its target, consumes a text that the pattern denotes.
pub proof fn run_spans(
    nfa: NfaView,
    s: Syntax,
    lo: int,
    id: int,
    tgt: int,
    w: Seq<char>,
    a: int,
    b: int,
    n: nat,
)
    requires
        holds_part(nfa, s, lo, id, tgt),
        0 <= a <= w.len(),
        arrives(nfa, lo, lo + s.size(), tgt, w, b, s.entry(lo), a, n),
    ensures
        s.spans(w, a, b),
    decreases s, 0nat, 0nat,
{
    let hi = lo + s.size();
    let part = s.emit(lo, id, Some(tgt));
    emit_shape(s, lo, id, Some(tgt));
    arrives_forward(nfa, lo, hi, tgt, w, b, s.entry(lo), a, n);
    assert(n > 0);
    assert(nfa.states.subrange(lo, hi)[s.entry(lo) - lo] == nfa.states[s.entry(lo)]);
    match s {
        Syntax::Lit(c) => {
            assert(part[0] == nfa.states[lo]);
            assert(nfa.states[lo] == StateView::Transition {
                id,
                condition: ConditionView::Id(c),
                output: Some(tgt),
            });
            assert(arrives(nfa, lo, hi, tgt, w, b, tgt, a + 1, (n - 1) as nat));
            over_at_target(nfa, lo, hi, tgt, w, b, a + 1, (n - 1) as nat);
            assert(w[a] == c);
            assert(b == a + 1);
            assert(s.spans(w, a, b));
        },
        Syntax::Range(x, y) => {
            assert(part[0] == nfa.states[lo]);
            over_at_target(nfa, lo, hi, tgt, w, b, a + 1, (n - 1) as nat);
            char_range_contains(x, y, w[a]);
        },
        Syntax::Group(x) => {
            run_spans(nfa, *x, lo, id, tgt, w, a, b, n);
        },
        Syntax::Concat(l, r) => {
            let mid = lo + l.size();
            let next = r.entry(mid);
            emit_shape(*l, lo, id, Some(next));
            emit_shape(*r, mid, id + l.places(), Some(tgt));
            assert(part.subrange(l.size() as int, l.size() as int + r.size()) =~= r.emit(
                mid,
                id + l.places(),
                Some(tgt),
            ));
            held_sides(nfa, *l, *r, lo, id, next, tgt, part);
            held_part_is_closed(nfa, *l, lo, id, next);
            held_part_is_closed(nfa, *r, mid, id + l.places(), tgt);
            arrives_split(nfa, lo, hi, tgt, w, b, lo, mid, next, l.entry(lo), a, n);
            let (p, m) = leaves_at(nfa, lo, hi, tgt, w, b, lo, mid, l.entry(lo), a, n);
            run_spans(nfa, *l, lo, id, next, w, a, p, m);
            arrives_forward(nfa, lo, mid, next, w, p, l.entry(lo), a, m);
            arrives_split(nfa, lo, hi, tgt, w, b, mid, hi, tgt, next, p, (n - m) as nat);
            let (q, m2) = leaves_at(nfa, lo, hi, tgt, w, b, mid, hi, next, p, (n - m) as nat);
            over_at_target(nfa, lo, hi, tgt, w, b, q, (n - m - m2) as nat);
            arrives_forward(nfa, mid, hi, tgt, w, q, next, p, m2);
            run_spans(nfa, *r, mid, id + l.places(), tgt, w, p, b, m2);
            assert(cut(a, p, b));
            assert(l.spans(w, a, p) && r.spans(w, p, b));
        },
        Syntax::Alt(l, r) => {
            let mid = lo + l.size();
            let at = mid + r.size();
            emit_shape(*l, lo, id, Some(tgt));
            emit_shape(*r, mid, id + l.places(), Some(tgt));
            assert(part.subrange(l.size() as int, l.size() as int + r.size()) =~= r.emit(
                mid,
                id + l.places(),
                Some(tgt),
            ));
            held_sides(nfa, *l, *r, lo, id, tgt, tgt, part);
            held_part_is_closed(nfa, *l, lo, id, tgt);
            held_part_is_closed(nfa, *r, mid, id + l.places(), tgt);
            assert(part[at - lo] == nfa.states[at]);
            if arrives(nfa, lo, hi, tgt, w, b, l.entry(lo), a, (n - 1) as nat) {
                let n1 = (n - 1) as nat;
                arrives_split(nfa, lo, hi, tgt, w, b, lo, mid, tgt, l.entry(lo), a, n1);
                let (q, m) = leaves_at(nfa, lo, hi, tgt, w, b, lo, mid, l.entry(lo), a, n1);
                over_at_target(nfa, lo, hi, tgt, w, b, q, (n1 - m) as nat);
                run_spans(nfa, *l, lo, id, tgt, w, a, b, m);
            } else {
                let n1 = (n - 1) as nat;
                arrives_split(nfa, lo, hi, tgt, w, b, mid, at, tgt, r.entry(mid), a, n1);
                let (q, m) = leaves_at(nfa, lo, hi, tgt, w, b, mid, at, r.entry(mid), a, n1);
                over_at_target(nfa, lo, hi, tgt, w, b, q, (n1 - m) as nat);
                run_spans(nfa, *r, mid, id + l.places(), tgt, w, a, b, m);
            }
        },
        Syntax::Opt(x) => {
            let at = lo + x.size();
            let split = StateView::Split {
                id: id + x.places(),
                left: Some(x.entry(lo)),
                right: Some(tgt),
            };
            held_operand(nfa, *x, lo, id, tgt, split, part);
            held_part_is_closed(nfa, *x, lo, id, tgt);
            emit_shape(*x, lo, id, Some(tgt));
            let n1 = (n - 1) as nat;
            if arrives(nfa, lo, hi, tgt, w, b, x.entry(lo), a, n1) {
                arrives_split(nfa, lo, hi, tgt, w, b, lo, at, tgt, x.entry(lo), a, n1);
                let (q, m) = leaves_at(nfa, lo, hi, tgt, w, b, lo, at, x.entry(lo), a, n1);
                over_at_target(nfa, lo, hi, tgt, w, b, q, (n1 - m) as nat);
                run_spans(nfa, *x, lo, id, tgt, w, a, b, m);
            } else {
                over_at_target(nfa, lo, hi, tgt, w, b, a, n1);
            }
        },
        Syntax::Star(x) => {
            let at = lo + x.size();
            let split = StateView::Split {
                id: id + x.places(),
                left: Some(x.entry(lo)),
                right: Some(tgt),
            };
            held_operand(nfa, *x, lo, id, at, split, part);
            loop_iterates(nfa, *x, lo, id, tgt, w, a, b, n);
        },
        Syntax::Plus(x) => {
            let at = lo + x.size();
            let split = StateView::Split {
                id: id + x.places(),
                left: Some(x.entry(lo)),
                right: Some(tgt),
            };
            held_operand(nfa, *x, lo, id, at, split, part);
            held_part_is_closed(nfa, *x, lo, id, at);
            emit_shape(*x, lo, id, Some(at));
            arrives_split(nfa, lo, hi, tgt, w, b, lo, at, at, x.entry(lo), a, n);
            let (p, m) = leaves_at(nfa, lo, hi, tgt, w, b, lo, at, x.entry(lo), a, n);
            run_spans(nfa, *x, lo, id, at, w, a, p, m);
            arrives_forward(nfa, lo, at, at, w, p, x.entry(lo), a, m);
            arrives_forward(nfa, lo, hi, tgt, w, b, at, p, (n - m) as nat);
            loop_iterates(nfa, *x, lo, id, tgt, w, p, b, (n - m) as nat);
            assert(cut(a, p, b));
            assert(x.spans(w, a, p) && iterates(*x, w, p, b));
        },
    }
}

/// A run from the split behind the part for `x`, which leads back into the part and on
/// to the target, consumes texts that `x` denotes in a row.
pub proof fn loop_iterates(
    nfa: NfaView,
    x: Syntax,
    lo: int,
    id: int,
    tgt: int,
    w: Seq<char>,
    a: int,
    b: int,
    n: nat,
)
    requires
        holds_part(nfa, x, lo, id, lo + x.size()),
        split_at(nfa, lo + x.size(), x.entry(lo), tgt),
        !(lo <= tgt < lo + x.size() + 1),
        0 <= a <= w.len(),
        arrives(nfa, lo, lo + x.size() + 1, tgt, w, b, lo + x.size(), a, n),
    ensures
        iterates(x, w, a, b),
    decreases x, 1nat, n,
{
    let at = lo + x.size();
    let hi = at + 1;
    emit_shape(x, lo, id, Some(at));
    held_part_is_closed(nfa, x, lo, id, at);
    arrives_forward(nfa, lo, hi, tgt, w, b, at, a, n);
    assert(n > 0);
    let n1 = (n - 1) as nat;
    if arrives(nfa, lo, hi, tgt, w, b, x.entry(lo), a, n1) {
        arrives_split(nfa, lo, hi, tgt, w, b, lo, at, at, x.entry(lo), a, n1);
        let (p, m) = leaves_at(nfa, lo, hi, tgt, w, b, lo, at, x.entry(lo), a, n1);
        run_spans(nfa, x, lo, id, at, w, a, p, m);
        arrives_forward(nfa, lo, at, at, w, p, x.entry(lo), a, m);
        arrives_forward(nfa, lo, hi, tgt, w, b, at, p, (n1 - m) as nat);
        loop_iterates(nfa, x, lo, id, tgt, w, p, b, (n1 - m) as nat);
        assert(cut(a, p, b));
        if p > a {
            assert(x.spans(w, a, p) && iterates(x, w, p, b));
            assert(iterates(x, w, a, b));
        } else {
            assert(iterates(x, w, a, b));
        }
    } else {
        assert(nfa.states[at] is Split);
        assert(arrives(nfa, lo, hi, tgt, w, b, tgt, a, n1));
        over_at_target(nfa, lo, hi, tgt, w, b, a, n1);
        assert(a == b);
        assert(iterates(x, w, a, b));
    }
}


/// True when some run goes from the state `i` with `a` characters of `w` consumed to the
/// state `tgt` with `b` characters consumed, through states from `lo` up to `hi` only.
pub open spec fn crosses(
    nfa: NfaView,
    lo: int,
    hi: int,
    tgt: int,
    w: Seq<char>,
    a: int,
    b: int,
    i: int,
) -> bool {
    exists|n: nat| arrives(nfa, lo, hi, tgt, w, b, i, a, n)
}

/// A run through a part within a larger part, which ends at the target of the larger
/// part, is a run through the larger part.
proof fn crosses_widen(
    nfa: NfaView,
    lo: int,
    hi: int,
    tgt: int,
    w: Seq<char>,
    a: int,
    b: int,
    sub_lo: int,
    sub_hi: int,
    i: int,
)
    requires
        lo <= sub_lo <= sub_hi <= hi,
        crosses(nfa, sub_lo, sub_hi, tgt, w, a, b, i),
    ensures
        crosses(nfa, lo, hi, tgt, w, a, b, i),
{
    let n = choose|n: nat| arrives(nfa, sub_lo, sub_hi, tgt, w, b, i, a, n);
    assert(arrives(nfa, lo, hi, tgt, w, b, tgt, b, 0));
    arrives_chain(nfa, lo, hi, tgt, w, b, sub_lo, sub_hi, tgt, b, i, a, n, 0);
}

/// A run through a part within a larger part to the exit of the part, and a run through
/// the larger part from there, make a run through the larger part.
proof fn crosses_chain(
    nfa: NfaView,
    lo: int,
    hi: int,
    tgt: int,
    w: Seq<char>,
    a: int,
    p: int,
    b: int,
    sub_lo: int,
    sub_hi: int,
    exit: int,
    i: int,
)
    requires
        lo <= sub_lo <= sub_hi <= hi,
        crosses(nfa, sub_lo, sub_hi, exit, w, a, p, i),
        crosses(nfa, lo, hi, tgt, w, p, b, exit),
    ensures
        crosses(nfa, lo, hi, tgt, w, a, b, i),
{
    let n1 = choose|n: nat| arrives(nfa, sub_lo, sub_hi, exit, w, p, i, a, n);
    let n2 = choose|n: nat| arrives(nfa, lo, hi, tgt, w, b, exit, p, n);
    arrives_chain(nfa, lo, hi, tgt, w, b, sub_lo, sub_hi, exit, p, i, a, n1, n2);
}

/// A run can start with a branch of a split.
proof fn crosses_branch(
    nfa: NfaView,
    lo: int,
    hi: int,
    tgt: int,
    w: Seq<char>,
    a: int,
    b: int,
    at: int,
    left: int,
    right: int,
    taken: int,
)
    requires
        lo <= at < hi,
        split_at(nfa, at, left, right),
        taken == left || taken == right,
        crosses(nfa, lo, hi, tgt, w, a, b, taken),
    ensures
        crosses(nfa, lo, hi, tgt, w, a, b, at),
{
    let n = choose|n: nat| arrives(nfa, lo, hi, tgt, w, b, taken, a, n);
    assert(arrives(nfa, lo, hi, tgt, w, b, at, a, n + 1));
}

/// At its target with all consumed, a run is over.
proof fn crosses_done(nfa: NfaView, lo: int, hi: int, tgt: int, w: Seq<char>, b: int)
    ensures
        crosses(nfa, lo, hi, tgt, w, b, b, tgt),
{
    assert(arrives(nfa, lo, hi, tgt, w, b, tgt, b, 0));
}

/// Completeness of the automaton, for every pattern: for a text that the pattern
/// denotes there is a run through the part for the pattern, from its entry to its
/// target, that consumes the text.
pub proof fn spans_has_run(
    nfa: NfaView,
    s: Syntax,
    lo: int,
    id: int,
    tgt: int,
    w: Seq<char>,
    a: int,
    b: int,
)
    requires
        holds_part(nfa, s, lo, id, tgt),
        s.spans(w, a, b),
    ensures
        crosses(nfa, lo, lo + s.size(), tgt, w, a, b, s.entry(lo)),
    decreases s, 0nat, 0int,
{
    let hi = lo + s.size();
    let part = s.emit(lo, id, Some(tgt));
    emit_shape(s, lo, id, Some(tgt));
    assert(nfa.states.subrange(lo, hi)[s.entry(lo) - lo] == nfa.states[s.entry(lo)]);
    match s {
        Syntax::Lit(c) => {
            assert(part[0] == nfa.states[lo]);
            assert(arrives(nfa, lo, hi, tgt, w, b, tgt, a + 1, 0));
            assert(arrives(nfa, lo, hi, tgt, w, b, lo, a, 1));
        },
        Syntax::Range(x, y) => {
            assert(part[0] == nfa.states[lo]);
            char_range_contains(x, y, w[a]);
            assert(arrives(nfa, lo, hi, tgt, w, b, tgt, a + 1, 0));
            assert(arrives(nfa, lo, hi, tgt, w, b, lo, a, 1));
        },
        Syntax::Group(x) => {
            spans_has_run(nfa, *x, lo, id, tgt, w, a, b);
        },
        Syntax::Concat(l, r) => {
            let mid = lo + l.size();
            let next = r.entry(mid);
            emit_shape(*l, lo, id, Some(next));
            emit_shape(*r, mid, id + l.places(), Some(tgt));
            assert(part.subrange(l.size() as int, l.size() as int + r.size()) =~= r.emit(
                mid,
                id + l.places(),
                Some(tgt),
            ));
            held_sides(nfa, *l, *r, lo, id, next, tgt, part);
            let p = choose|p: int| #[trigger] cut(a, p, b) && l.spans(w, a, p) && r.spans(w, p, b);
            spans_has_run(nfa, *l, lo, id, next, w, a, p);
            spans_has_run(nfa, *r, mid, id + l.places(), tgt, w, p, b);
            crosses_widen(nfa, lo, hi, tgt, w, p, b, mid, hi, next);
            crosses_chain(nfa, lo, hi, tgt, w, a, p, b, lo, mid, next, l.entry(lo));
        },
        Syntax::Alt(l, r) => {
            let mid = lo + l.size();
            let at = mid + r.size();
            emit_shape(*l, lo, id, Some(tgt));
            emit_shape(*r, mid, id + l.places(), Some(tgt));
            assert(part.subrange(l.size() as int, l.size() as int + r.size()) =~= r.emit(
                mid,
                id + l.places(),
                Some(tgt),
            ));
            held_sides(nfa, *l, *r, lo, id, tgt, tgt, part);
            assert(part[at - lo] == nfa.states[at]);
            if l.spans(w, a, b) {
                spans_has_run(nfa, *l, lo, id, tgt, w, a, b);
                crosses_widen(nfa, lo, hi, tgt, w, a, b, lo, mid, l.entry(lo));
                crosses_branch(
                    nfa,
                    lo,
                    hi,
                    tgt,
                    w,
                    a,
                    b,
                    at,
                    l.entry(lo),
                    r.entry(mid),
                    l.entry(lo),
                );
            } else {
                spans_has_run(nfa, *r, mid, id + l.places(), tgt, w, a, b);
                crosses_widen(nfa, lo, hi, tgt, w, a, b, mid, at, r.entry(mid));
                crosses_branch(
                    nfa,
                    lo,
                    hi,
                    tgt,
                    w,
                    a,
                    b,
                    at,
                    l.entry(lo),
                    r.entry(mid),
                    r.entry(mid),
                );
            }
        },
        Syntax::Opt(x) => {
            let at = lo + x.size();
            let split = StateView::Split {
                id: id + x.places(),
                left: Some(x.entry(lo)),
                right: Some(tgt),
            };
            held_operand(nfa, *x, lo, id, tgt, split, part);
            emit_shape(*x, lo, id, Some(tgt));
            if a == b {
                crosses_done(nfa, lo, hi, tgt, w, b);
                crosses_branch(nfa, lo, hi, tgt, w, a, b, at, x.entry(lo), tgt, tgt);
            } else {
                spans_has_run(nfa, *x, lo, id, tgt, w, a, b);
                crosses_widen(nfa, lo, hi, tgt, w, a, b, lo, at, x.entry(lo));
                crosses_branch(nfa, lo, hi, tgt, w, a, b, at, x.entry(lo), tgt, x.entry(lo));
            }
        },
        Syntax::Star(x) => {
            let at = lo + x.size();
            let split = StateView::Split {
                id: id + x.places(),
                left: Some(x.entry(lo)),
                right: Some(tgt),
            };
            held_operand(nfa, *x, lo, id, at, split, part);
            iterates_has_run(nfa, *x, lo, id, tgt, w, a, b);
        },
        Syntax::Plus(x) => {
            let at = lo + x.size();
            let split = StateView::Split {
                id: id + x.places(),
                left: Some(x.entry(lo)),
                right: Some(tgt),
            };
            held_operand(nfa, *x, lo, id, at, split, part);
            emit_shape(*x, lo, id, Some(at));
            let p = choose|p: int| #[trigger]
                cut(a, p, b) && x.spans(w, a, p) && iterates(*x, w, p, b);
            spans_has_run(nfa, *x, lo, id, at, w, a, p);
            iterates_has_run(nfa, *x, lo, id, tgt, w, p, b);
            crosses_chain(nfa, lo, hi, tgt, w, a, p, b, lo, at, at, x.entry(lo));
        },
    }
}

/// For texts that `x` denotes in a row there is a run from the split behind the part
/// for `x` to the target that consumes them.
pub proof fn iterates_has_run(
    nfa: NfaView,
    x: Syntax,
    lo: int,
    id: int,
    tgt: int,
    w: Seq<char>,
    a: int,
    b: int,
)
    requires
        holds_part(nfa, x, lo, id, lo + x.size()),
        split_at(nfa, lo + x.size(), x.entry(lo), tgt),
        iterates(x, w, a, b),
    ensures
        crosses(nfa, lo, lo + x.size() + 1, tgt, w, a, b, lo + x.size()),
    decreases x, 1nat, b - a,
{
    let at = lo + x.size();
    let hi = at + 1;
    emit_shape(x, lo, id, Some(at));
    if a == b {
        crosses_done(nfa, lo, hi, tgt, w, b);
        crosses_branch(nfa, lo, hi, tgt, w, a, b, at, x.entry(lo), tgt, tgt);
    } else {
        let p = choose|p: int| #[trigger]
            cut(a, p, b) && a < p && x.spans(w, a, p) && iterates(x, w, p, b);
        spans_has_run(nfa, x, lo, id, at, w, a, p);
        iterates_has_run(nfa, x, lo, id, tgt, w, p, b);
        crosses_chain(nfa, lo, hi, tgt, w, a, p, b, lo, at, at, x.entry(lo));
        crosses_branch(nfa, lo, hi, tgt, w, a, b, at, x.entry(lo), tgt, x.entry(lo));
    }
}


impl Syntax {
    /// True when the character `c` occurs in no text that the pattern denotes: no literal
    /// of the pattern is `c`, and no range of it holds `c`.
    pub open spec fn avoids(self, c: char) -> bool
        decreases self,
    {
        match self {
            Syntax::Lit(x) => x != c,
            Syntax::Range(lo, hi) => !((lo as u32) <= (c as u32) <= (hi as u32)),
            Syntax::Group(x) | Syntax::Star(x) | Syntax::Opt(x) | Syntax::Plus(x) => x.avoids(c),
            Syntax::Concat(l, r) | Syntax::Alt(l, r) => l.avoids(c) && r.avoids(c),
        }
    }
}

/// A character that a pattern avoids does not occur in the texts that the pattern
/// denotes.
pub proof fn avoided_is_absent(s: Syntax, c: char, w: Seq<char>, a: int, b: int, i: int)
    requires
        s.avoids(c),
        s.spans(w, a, b),
        a <= i < b,
    ensures
        w[i] != c,
    decreases s, b - a, 0nat,
{
    match s {
        Syntax::Lit(_) | Syntax::Range(_, _) => {},
        Syntax::Group(x) => {
            avoided_is_absent(*x, c, w, a, b, i);
        },
        Syntax::Concat(l, r) => {
            let p = choose|p: int| #[trigger] cut(a, p, b) && l.spans(w, a, p) && r.spans(w, p, b);
            if i < p {
                avoided_is_absent(*l, c, w, a, p, i);
            } else {
                avoided_is_absent(*r, c, w, p, b, i);
            }
        },
        Syntax::Alt(l, r) => {
            if l.spans(w, a, b) {
                avoided_is_absent(*l, c, w, a, b, i);
            } else {
                avoided_is_absent(*r, c, w, a, b, i);
            }
        },
        Syntax::Opt(x) => {
            avoided_is_absent(*x, c, w, a, b, i);
        },
        Syntax::Star(x) => {
            avoided_in_row(*x, c, w, a, b, i);
        },
        Syntax::Plus(x) => {
            let p = choose|p: int| #[trigger]
                cut(a, p, b) && x.spans(w, a, p) && iterates(*x, w, p, b);
            if i < p {
                avoided_is_absent(*x, c, w, a, p, i);
            } else {
                avoided_in_row(*x, c, w, p, b, i);
            }
        },
    }
}

/// A character that a pattern avoids does not occur in texts of the pattern in a row.
pub proof fn avoided_in_row(x: Syntax, c: char, w: Seq<char>, a: int, b: int, i: int)
    requires
        x.avoids(c),
        iterates(x, w, a, b),
        a <= i < b,
    ensures
        w[i] != c,
    decreases x, b - a, 1nat,
{
    let p = choose|p: int| #[trigger]
        cut(a, p, b) && a < p && x.spans(w, a, p) && iterates(x, w, p, b);
    if i < p {
        avoided_is_absent(x, c, w, a, p, i);
    } else {
        avoided_in_row(x, c, w, p, b, i);
    }
}

} // verus!
