use super::expr::Expr;
use crate::text::{contains_char, debug_char, decimal, push_decimal, quote_char};
use vstd::prelude::*;
use vstd::string::*;

verus! {

/// What a transition tests of the character it consumes.
#[derive(Debug)]
pub enum Condition {
    Id(char),
    CharClass(Vec<char>),
}

/// The mathematical value of a `Condition`.
pub enum ConditionView {
    Id(char),
    CharClass(Seq<char>),
}

impl ConditionView {
    /// True when the condition lets the character `ch` pass.
    pub open spec fn admits(self, ch: char) -> bool {
        match self {
            ConditionView::Id(c) => c == ch,
            ConditionView::CharClass(v) => v.contains(ch),
        }
    }
}

impl View for Condition {
    type V = ConditionView;

    open spec fn view(&self) -> ConditionView {
        match self {
            Condition::Id(c) => ConditionView::Id(*c),
            Condition::CharClass(v) => ConditionView::CharClass(v@),
        }
    }
}

impl Clone for Condition {
    fn clone(&self) -> (r: Self)
        ensures
            r@ == self@,
    {
        match self {
            Condition::Id(c) => Condition::Id(*c),
            Condition::CharClass(v) => Condition::CharClass(v.clone()),
        }
    }
}

/// An index into the state list, or none, as a mathematical value.
pub open spec fn link(o: Option<usize>) -> Option<int> {
    match o {
        Some(i) => Some(i as int),
        None => None,
    }
}

/// One state of the automaton.
#[derive(Debug)]
pub enum State {
    Transition { id: usize, condition: Condition, output: Option<usize> },
    Split { id: usize, left: Option<usize>, right: Option<usize> },
    Accept { id: usize },
}

/// The mathematical value of a `State`.
pub enum StateView {
    Transition { id: int, condition: ConditionView, output: Option<int> },
    Split { id: int, left: Option<int>, right: Option<int> },
    Accept { id: int },
}

impl StateView {
    /// The state with its open outgoing edge set to `next`: the output of a transition; the
    /// right branch of a split, and its left branch too while both are empty.
    pub open spec fn set_out(self, next: Option<int>) -> StateView {
        match self {
            StateView::Transition { id, condition, output } => StateView::Transition {
                id,
                condition,
                output: next,
            },
            StateView::Split { id, left, right } => StateView::Split {
                id,
                left: if left is None && right is None {
                    next
                } else {
                    left
                },
                right: next,
            },
            StateView::Accept { id } => self,
        }
    }

    /// The identifier that the state was created with.
    pub open spec fn id(self) -> int {
        match self {
            StateView::Transition { id, .. } => id,
            StateView::Split { id, .. } => id,
            StateView::Accept { id } => id,
        }
    }

    /// True when the state is a transition whose condition lets `ch` pass.
    pub open spec fn admits(self, ch: char) -> bool {
        match self {
            StateView::Transition { condition, .. } => condition.admits(ch),
            _ => false,
        }
    }
}

impl View for State {
    type V = StateView;

    open spec fn view(&self) -> StateView {
        match self {
            State::Transition { id, condition, output } => StateView::Transition {
                id: *id as int,
                condition: condition@,
                output: link(*output),
            },
            State::Split { id, left, right } => StateView::Split {
                id: *id as int,
                left: link(*left),
                right: link(*right),
            },
            State::Accept { id } => StateView::Accept { id: *id as int },
        }
    }
}

impl Clone for State {
    fn clone(&self) -> (r: Self)
        ensures
            r@ == self@,
    {
        match self {
            State::Transition { id, condition, output } => State::Transition {
                id: *id,
                condition: condition.clone(),
                output: *output,
            },
            State::Split { id, left, right } => State::Split {
                id: *id,
                left: *left,
                right: *right,
            },
            State::Accept { id } => State::Accept { id: *id },
        }
    }
}

impl State {
    /// Sets the open outgoing edge of the state.
    pub fn set_out(&mut self, next_state: Option<usize>)
        ensures
            final(self)@ == old(self)@.set_out(link(next_state)),
    {
        match self {
            State::Transition { output, .. } => {
                *output = next_state;
            },
            State::Split { left, right, .. } => {
                if left.is_none() && right.is_none() {
                    *left = next_state;
                }
                *right = next_state;
            },
            _ => {},
        }
    }

    /// The identifier that the state was created with.
    pub fn get_id(&self) -> (r: usize)
        ensures
            r == self@.id(),
    {
        match self {
            State::Transition { id, .. } => *id,
            State::Split { id, .. } => *id,
            State::Accept { id } => *id,
        }
    }

    /// Tests whether the state is a transition that consumes `ch`.
    pub fn matches_condition(&self, ch: char) -> (r: bool)
        ensures
            r == self@.admits(ch),
    {
        match self {
            State::Transition { condition, .. } => match condition {
                Condition::Id(c) => *c == ch,
                Condition::CharClass(v) => contains_char(v, ch),
            },
            _ => false,
        }
    }
}


/// All characters whose code point lies in `lo..hi`, in ascending order.
pub open spec fn scalars_between(lo: int, hi: int) -> Seq<char>
    decreases hi - lo,
{
    if hi <= lo {
        Seq::empty()
    } else if vstd::utf8::is_scalar((hi - 1) as u32) {
        scalars_between(lo, hi - 1).push((hi - 1) as u32 as char)
    } else {
        scalars_between(lo, hi - 1)
    }
}

/// The characters from `l` to `r`, both included, in ascending order.
pub open spec fn char_range(l: char, r: char) -> Seq<char> {
    scalars_between(l as u32 as int, r as u32 as int + 1)
}

/// A character occurs in `scalars_between(lo, hi)` exactly when its code point lies in `lo..hi`.
pub proof fn scalars_between_contains(lo: int, hi: int, c: char)
    requires
        0 <= lo,
        hi <= 0x110000,
    ensures
        scalars_between(lo, hi).contains(c) <==> lo <= (c as u32) < hi,
    decreases hi - lo,
{
    if hi > lo {
        scalars_between_contains(lo, hi - 1, c);
        let rest = scalars_between(lo, hi - 1);
        let u = (hi - 1) as u32;
        if vstd::utf8::is_scalar(u) {
            let full = rest.push(u as char);
            assert(full.last() == u as char);
            if c as u32 == u {
                vstd::utf8::char_u32_cast(c, u);
                assert(full[full.len() - 1] == c);
            }
            if rest.contains(c) {
                let k = choose|k: int| 0 <= k < rest.len() && rest[k] == c;
                assert(full[k] == c);
            }
        } else {
            vstd::utf8::char_is_scalar(c);
        }
    }
}

/// A character class made from `l` and `r` holds exactly the characters from `l` to `r`.
pub proof fn char_range_contains(l: char, r: char, c: char)
    ensures
        char_range(l, r).contains(c) <==> (l as u32) <= (c as u32) <= (r as u32),
{
    vstd::utf8::char_is_scalar(r);
    scalars_between_contains(l as u32 as int, r as u32 as int + 1, c);
}

/// A part of the automaton under construction: its entry state and the states whose
/// outgoing edge is still open.
#[derive(Debug)]
struct Fragment {
    head: usize,
    out: Vec<usize>,
}

/// The mathematical value of a fragment.
pub struct FragmentView {
    pub head: int,
    pub out: Seq<int>,
}

/// A list of indices as mathematical integers.
pub open spec fn indices(v: Seq<usize>) -> Seq<int> {
    v.map_values(|i: usize| i as int)
}

impl View for Fragment {
    type V = FragmentView;

    closed spec fn view(&self) -> FragmentView {
        FragmentView { head: self.head as int, out: indices(self.out@) }
    }
}

impl Fragment {
    fn detached(head: usize) -> (f: Self)
        ensures
            f@ == (FragmentView { head: head as int, out: seq![head as int] }),
    {
        let mut out: Vec<usize> = Vec::new();
        out.push(head);
        assert(indices(out@) == seq![head as int]);
        Self { head, out }
    }

    fn single_link(head: usize, out: usize) -> (f: Self)
        ensures
            f@ == (FragmentView { head: head as int, out: seq![out as int] }),
    {
        let mut outs: Vec<usize> = Vec::new();
        outs.push(out);
        assert(indices(outs@) == seq![out as int]);
        Self { head, out: outs }
    }

    fn multi_link(head: usize, left: Vec<usize>, right: Vec<usize>) -> (f: Self)
        ensures
            f@ == (FragmentView { head: head as int, out: indices(left@) + indices(right@) }),
    {
        let ghost joined = indices(left@) + indices(right@);
        let mut outs = left;
        let mut rest = right;
        outs.append(&mut rest);
        assert(indices(outs@) == joined);
        Self { head, out: outs }
    }
}

/// A nondeterministic finite automaton: a list of states addressed by index, and the index
/// of the state where matching starts.
#[derive(Debug)]
pub struct NFA {
    head: usize,
    state_list: Vec<State>,
}

/// The mathematical value of an automaton.
pub struct NfaView {
    pub head: int,
    pub states: Seq<StateView>,
}

/// The values of a list of states.
pub open spec fn state_views(v: Seq<State>) -> Seq<StateView> {
    v.map_values(|s: State| s@)
}

impl View for NFA {
    type V = NfaView;

    closed spec fn view(&self) -> NfaView {
        NfaView { head: self.head as int, states: state_views(self.state_list@) }
    }
}

/// The states after the open edge of each state listed in `out` was set to `target`, the
/// listed states taken in order.
pub open spec fn patch(states: Seq<StateView>, out: Seq<int>, target: int) -> Seq<StateView>
    decreases out.len(),
{
    if out.len() == 0 {
        states
    } else {
        let done = patch(states, out.drop_last(), target);
        let i = out.last();
        if 0 <= i < done.len() {
            done.update(i, done[i].set_out(Some(target)))
        } else {
            done
        }
    }
}

/// The construction so far: the states made, and the stack of fragments.
pub struct Builder {
    pub states: Seq<StateView>,
    pub stack: Seq<FragmentView>,
}

impl Builder {
    /// The builder with one more state, which forms a fragment of its own.
    pub open spec fn push_atom(self, id: int, condition: ConditionView) -> Builder {
        let n = self.states.len() as int;
        Builder {
            states: self.states.push(StateView::Transition { id, condition, output: None }),
            stack: self.stack.push(FragmentView { head: n, out: seq![n] }),
        }
    }

    /// The builder after the two topmost fragments were joined in sequence.
    pub open spec fn concat(self) -> Builder {
        let k = self.stack.len();
        let right = self.stack[k - 1];
        let left = self.stack[k - 2];
        Builder {
            states: patch(self.states, left.out, right.head),
            stack: self.stack.take(k - 2).push(FragmentView { head: left.head, out: right.out }),
        }
    }

    /// The builder after the two topmost fragments were joined as alternatives.
    pub open spec fn alt(self, id: int) -> Builder {
        let n = self.states.len() as int;
        let k = self.stack.len();
        let right = self.stack[k - 1];
        let left = self.stack[k - 2];
        Builder {
            states: self.states.push(
                StateView::Split { id, left: Some(left.head), right: Some(right.head) },
            ),
            stack: self.stack.take(k - 2).push(
                FragmentView { head: n, out: left.out + right.out },
            ),
        }
    }

    /// The builder after the topmost fragment was made optional.
    pub open spec fn opt(self, id: int) -> Builder {
        let n = self.states.len() as int;
        let k = self.stack.len();
        let e = self.stack[k - 1];
        Builder {
            states: self.states.push(StateView::Split { id, left: Some(e.head), right: None }),
            stack: self.stack.take(k - 1).push(FragmentView { head: n, out: e.out + seq![n] }),
        }
    }

    /// The builder after the topmost fragment was put under a star.
    pub open spec fn star(self, id: int) -> Builder {
        let n = self.states.len() as int;
        let k = self.stack.len();
        let e = self.stack[k - 1];
        Builder {
            states: patch(
                self.states.push(StateView::Split { id, left: Some(e.head), right: None }),
                e.out,
                n,
            ),
            stack: self.stack.take(k - 1).push(FragmentView { head: n, out: seq![n] }),
        }
    }

    /// The builder after the topmost fragment was put under a plus.
    pub open spec fn plus(self, id: int) -> Builder {
        let n = self.states.len() as int;
        let k = self.stack.len();
        let e = self.stack[k - 1];
        Builder {
            states: patch(
                self.states.push(StateView::Split { id, left: Some(e.head), right: None }),
                e.out,
                n,
            ),
            stack: self.stack.take(k - 1).push(FragmentView { head: e.head, out: seq![n] }),
        }
    }

    /// The builder after one more element of the postfix sequence, or the reason why the
    /// element cannot be taken. `id` is the element's position in the sequence.
    pub open spec fn step(self, e: Expr, id: int) -> Result<Builder, Seq<char>> {
        let k = self.stack.len();
        match e {
            Expr::Literal(c) => Ok(self.push_atom(id, ConditionView::Id(c))),
            Expr::CharRange(l, r) => if (l as u32) <= (r as u32) {
                Ok(self.push_atom(id, ConditionView::CharClass(char_range(l, r))))
            } else {
                Err("Ranges must be specified in ascending order"@)
            },
            Expr::Concat => if k == 0 {
                Err("Missing right fragment"@)
            } else if k == 1 {
                Err("Missing left fragment"@)
            } else {
                Ok(self.concat())
            },
            Expr::Alt => if k == 0 {
                Err("Missing right fragment"@)
            } else if k == 1 {
                Err("Missing left fragment"@)
            } else {
                Ok(self.alt(id))
            },
            Expr::Opt => if k == 0 {
                Err("Missing fragment for '?' operator"@)
            } else {
                Ok(self.opt(id))
            },
            Expr::Star => if k == 0 {
                Err("Missing fragment for '*' operator"@)
            } else {
                Ok(self.star(id))
            },
            Expr::Plus => if k == 0 {
                Err("Missing fragment for '+' operator"@)
            } else {
                Ok(self.plus(id))
            },
        }
    }

    /// The automaton that the builder stands for once the sequence has ended: the one
    /// fragment left, with an accept state behind it.
    pub open spec fn finish(self, id: int) -> Result<NfaView, Seq<char>> {
        let n = self.states.len() as int;
        if self.stack.len() == 0 {
            Err("No final fragment on stack"@)
        } else if self.stack.len() > 1 {
            Err("Leftover fragments on stack"@)
        } else {
            Ok(
                NfaView {
                    head: self.stack[0].head,
                    states: patch(
                        self.states.push(StateView::Accept { id }),
                        self.stack[0].out,
                        n,
                    ),
                },
            )
        }
    }
}

/// The builder after the first `n` elements of the postfix sequence `exprs`.
pub open spec fn build_prefix(exprs: Seq<Expr>, n: nat) -> Result<Builder, Seq<char>>
    decreases n,
{
    if n == 0 || n > exprs.len() {
        Ok(Builder { states: Seq::empty(), stack: Seq::empty() })
    } else {
        match build_prefix(exprs, (n - 1) as nat) {
            Ok(b) => b.step(exprs[n - 1], n - 1),
            Err(e) => Err(e),
        }
    }
}

/// The automaton of the postfix sequence `exprs` by Thompson's construction, or the reason
/// why the sequence has none.
pub open spec fn build_spec(exprs: Seq<Expr>) -> Result<NfaView, Seq<char>> {
    match build_prefix(exprs, exprs.len()) {
        Ok(b) => b.finish(exprs.len() as int),
        Err(e) => Err(e),
    }
}


/// True when `o` names a state of an automaton with `n` states.
pub open spec fn names_state(o: Option<int>, n: int) -> bool {
    o matches Some(i) && 0 <= i < n
}

/// True when the outgoing edge of `s` that a fragment may still fill is empty.
pub open spec fn has_open_edge(s: StateView) -> bool {
    match s {
        StateView::Transition { output, .. } => output is None,
        StateView::Split { right, .. } => right is None,
        StateView::Accept { .. } => false,
    }
}

/// True for a state as the construction makes it, among `n` states: no accept state; every
/// edge that is set names a state; the left branch of a split is set.
pub open spec fn under_construction(s: StateView, n: int) -> bool {
    match s {
        StateView::Transition { output, .. } => output is None || names_state(output, n),
        StateView::Split { left, right, .. } => names_state(left, n) && (right is None
            || names_state(right, n)),
        StateView::Accept { .. } => false,
    }
}

/// True when some fragment of the stack lists the state `i` as open.
pub open spec fn lists_open(stack: Seq<FragmentView>, i: int) -> bool {
    exists|f: int, k: int|
        0 <= f < stack.len() && 0 <= k < stack[f].out.len() && #[trigger] stack[f].out[k] == i
}

impl NfaView {
    /// True when every outgoing edge of `s` names a state of this automaton.
    pub open spec fn complete(self, s: StateView) -> bool {
        match s {
            StateView::Transition { output, .. } => names_state(output, self.states.len() as int),
            StateView::Split { left, right, .. } => names_state(left, self.states.len() as int)
                && names_state(right, self.states.len() as int),
            StateView::Accept { .. } => true,
        }
    }

    /// Well-formedness of a finished automaton: the head names a state; there is exactly one
    /// accept state, the last one; every edge of every other state is set and names a state.
    pub open spec fn wf(self) -> bool {
        &&& self.states.len() > 0
        &&& 0 <= self.head < self.states.len()
        &&& self.states.last() is Accept
        &&& forall|i: int|
            0 <= i < self.states.len() - 1 ==> !(#[trigger] self.states[i] is Accept)
        &&& forall|i: int| 0 <= i < self.states.len() ==> self.complete(#[trigger] self.states[i])
    }
}

impl Builder {
    /// What holds of the builder after every step: fragments name states only, no state is
    /// an accept state or has an edge out of range, and every open edge is listed by some
    /// fragment of the stack.
    pub open spec fn inv(self) -> bool {
        let n = self.states.len() as int;
        &&& forall|f: int| 0 <= f < self.stack.len() ==> 0 <= (#[trigger] self.stack[f]).head < n
        &&& forall|f: int, k: int|
            0 <= f < self.stack.len() && 0 <= k < self.stack[f].out.len() ==> 0
                <= #[trigger] self.stack[f].out[k] < n
        &&& forall|i: int| 0 <= i < n ==> under_construction(#[trigger] self.states[i], n)
        &&& forall|i: int|
            0 <= i < n && has_open_edge(#[trigger] self.states[i]) ==> lists_open(self.stack, i)
    }
}

/// Patching keeps the number of states, sets the open edge of the listed states and leaves
/// the others as they are.
pub proof fn patch_effect(states: Seq<StateView>, out: Seq<int>, target: int)
    requires
        forall|k: int| 0 <= k < out.len() ==> 0 <= #[trigger] out[k] < states.len(),
    ensures
        patch(states, out, target).len() == states.len(),
        forall|i: int|
            0 <= i < states.len() ==> #[trigger] patch(states, out, target)[i] == (if out.contains(
                i,
            ) {
                states[i].set_out(Some(target))
            } else {
                states[i]
            }),
    decreases out.len(),
{
    if out.len() > 0 {
        let front = out.drop_last();
        patch_effect(states, front, target);
        let done = patch(states, front, target);
        let last = out.last();
        assert(out[out.len() - 1] == last);
        assert forall|i: int| 0 <= i < states.len() implies #[trigger] patch(states, out, target)[i]
            == (if out.contains(i) {
            states[i].set_out(Some(target))
        } else {
            states[i]
        }) by {
            if front.contains(i) {
                let k = choose|k: int| 0 <= k < front.len() && front[k] == i;
                assert(out[k] == i);
            }
            if out.contains(i) && i != last {
                let k = choose|k: int| 0 <= k < out.len() && out[k] == i;
                assert(front[k] == i);
            }
        }
    }
}


/// Every step of the construction keeps the builder's invariant.
pub proof fn step_keeps_inv(b: Builder, e: Expr, id: int)
    requires
        b.inv(),
    ensures
        b.step(e, id) matches Ok(next) ==> next.inv(),
{
    let n = b.states.len() as int;
    let k = b.stack.len() as int;
    match b.step(e, id) {
        Err(_) => {},
        Ok(next) => {
            match e {
                Expr::Literal(_) | Expr::CharRange(_, _) => {
                    assert forall|i: int|
                        0 <= i < n + 1 && has_open_edge(#[trigger] next.states[i]) implies lists_open(
                        next.stack,
                        i,
                    ) by {
                        if i == n {
                            assert(next.stack[k].out[0] == n);
                        } else {
                            assert(has_open_edge(b.states[i]));
                            let (f, j) = choose|f: int, j: int|
                                0 <= f < k && 0 <= j < b.stack[f].out.len() && #[trigger] b.stack[f].out[j]
                                    == i;
                            assert(next.stack[f].out[j] == i);
                        }
                    }
                },
                Expr::Concat => {
                    let right = b.stack[k - 1];
                    let left = b.stack[k - 2];
                    assert forall|j: int| 0 <= j < left.out.len() implies 0 <= #[trigger] left.out[j]
                        < n by {
                        assert(0 <= b.stack[k - 2].out[j] < n);
                    }
                    patch_effect(b.states, left.out, right.head);
                    assert forall|i: int|
                        0 <= i < n && has_open_edge(#[trigger] next.states[i]) implies lists_open(
                        next.stack,
                        i,
                    ) by {
                        assert(!left.out.contains(i));
                        assert(has_open_edge(b.states[i]));
                        let (f, j) = choose|f: int, j: int|
                            0 <= f < k && 0 <= j < b.stack[f].out.len() && #[trigger] b.stack[f].out[j]
                                == i;
                        if f == k - 2 {
                            assert(left.out[j] == i);
                        } else if f == k - 1 {
                            assert(next.stack[k - 2].out[j] == i);
                        } else {
                            assert(next.stack[f].out[j] == i);
                        }
                    }
                    assert forall|i: int| 0 <= i < n implies under_construction(
                        #[trigger] next.states[i],
                        n,
                    ) by {
                        assert(under_construction(b.states[i], n));
                    }
                    assert forall|f: int, j: int|
                        0 <= f < next.stack.len() && 0 <= j < next.stack[f].out.len() implies 0
                        <= #[trigger] next.stack[f].out[j] < n by {
                        if f == k - 2 {
                            assert(0 <= b.stack[k - 1].out[j] < n);
                        } else {
                            assert(0 <= b.stack[f].out[j] < n);
                        }
                    }
                },
                Expr::Alt => {
                    let right = b.stack[k - 1];
                    let left = b.stack[k - 2];
                    assert forall|i: int|
                        0 <= i < n + 1 && has_open_edge(#[trigger] next.states[i]) implies lists_open(
                        next.stack,
                        i,
                    ) by {
                        assert(has_open_edge(b.states[i]));
                        let (f, j) = choose|f: int, j: int|
                            0 <= f < k && 0 <= j < b.stack[f].out.len() && #[trigger] b.stack[f].out[j]
                                == i;
                        if f == k - 2 {
                            assert(next.stack[k - 2].out[j] == i);
                        } else if f == k - 1 {
                            assert(next.stack[k - 2].out[left.out.len() + j] == i);
                        } else {
                            assert(next.stack[f].out[j] == i);
                        }
                    }
                    assert forall|i: int| 0 <= i < n + 1 implies under_construction(
                        #[trigger] next.states[i],
                        n + 1,
                    ) by {
                        if i < n {
                            assert(under_construction(b.states[i], n));
                        }
                    }
                    assert forall|f: int, j: int|
                        0 <= f < next.stack.len() && 0 <= j < next.stack[f].out.len() implies 0
                        <= #[trigger] next.stack[f].out[j] < n + 1 by {
                        if f == k - 2 {
                            if j < left.out.len() {
                                assert(0 <= b.stack[k - 2].out[j] < n);
                            } else {
                                assert(0 <= b.stack[k - 1].out[j - left.out.len()] < n);
                            }
                        } else {
                            assert(0 <= b.stack[f].out[j] < n);
                        }
                    }
                },
                Expr::Opt => {
                    let inner = b.stack[k - 1];
                    assert forall|i: int|
                        0 <= i < n + 1 && has_open_edge(#[trigger] next.states[i]) implies lists_open(
                        next.stack,
                        i,
                    ) by {
                        if i == n {
                            assert(next.stack[k - 1].out[inner.out.len() as int] == n);
                        } else {
                            assert(has_open_edge(b.states[i]));
                            let (f, j) = choose|f: int, j: int|
                                0 <= f < k && 0 <= j < b.stack[f].out.len() && #[trigger] b.stack[f].out[j]
                                    == i;
                            assert(next.stack[f].out[j] == i);
                        }
                    }
                    assert forall|i: int| 0 <= i < n + 1 implies under_construction(
                        #[trigger] next.states[i],
                        n + 1,
                    ) by {
                        if i < n {
                            assert(under_construction(b.states[i], n));
                        }
                    }
                    assert forall|f: int, j: int|
                        0 <= f < next.stack.len() && 0 <= j < next.stack[f].out.len() implies 0
                        <= #[trigger] next.stack[f].out[j] < n + 1 by {
                        if f == k - 1 {
                            if j < inner.out.len() {
                                assert(0 <= b.stack[k - 1].out[j] < n);
                            }
                        } else {
                            assert(0 <= b.stack[f].out[j] < n);
                        }
                    }
                },
                Expr::Star | Expr::Plus => {
                    let inner = b.stack[k - 1];
                    let grown = b.states.push(
                        StateView::Split { id, left: Some(inner.head), right: None },
                    );
                    assert forall|j: int| 0 <= j < inner.out.len() implies 0
                        <= #[trigger] inner.out[j] < n + 1 by {
                        assert(0 <= b.stack[k - 1].out[j] < n);
                    }
                    patch_effect(grown, inner.out, n);
                    assert(next.states == patch(grown, inner.out, n));
                    assert forall|i: int|
                        0 <= i < n + 1 && has_open_edge(#[trigger] next.states[i]) implies lists_open(
                        next.stack,
                        i,
                    ) by {
                        assert(!inner.out.contains(i));
                        if i == n {
                            assert(next.stack[k - 1].out[0] == n);
                        } else {
                            assert(has_open_edge(b.states[i]));
                            let (f, j) = choose|f: int, j: int|
                                0 <= f < k && 0 <= j < b.stack[f].out.len() && #[trigger] b.stack[f].out[j]
                                    == i;
                            if f == k - 1 {
                                assert(inner.out[j] == i);
                            } else {
                                assert(next.stack[f].out[j] == i);
                            }
                        }
                    }
                    assert forall|i: int| 0 <= i < n + 1 implies under_construction(
                        #[trigger] next.states[i],
                        n + 1,
                    ) by {
                        if i < n {
                            assert(under_construction(b.states[i], n));
                        }
                    }
                    assert forall|f: int, j: int|
                        0 <= f < next.stack.len() && 0 <= j < next.stack[f].out.len() implies 0
                        <= #[trigger] next.stack[f].out[j] < n + 1 by {
                        if f < k - 1 {
                            assert(0 <= b.stack[f].out[j] < n);
                        }
                    }
                },
            }
        },
    }
}

/// The builder's invariant holds after every prefix that the construction accepts.
pub proof fn build_prefix_inv(exprs: Seq<Expr>, n: nat)
    ensures
        build_prefix(exprs, n) matches Ok(b) ==> b.inv(),
    decreases n,
{
    if n == 0 || n > exprs.len() {
    } else {
        build_prefix_inv(exprs, (n - 1) as nat);
        match build_prefix(exprs, (n - 1) as nat) {
            Ok(b) => step_keeps_inv(b, exprs[n - 1], n - 1),
            Err(_) => {},
        }
    }
}

/// An automaton that ends a builder which kept its invariant is well-formed.
pub proof fn finish_is_wf(b: Builder, id: int)
    requires
        b.inv(),
    ensures
        b.finish(id) matches Ok(nfa) ==> nfa.wf() && nfa.states.len() == b.states.len() + 1,
{
    if b.stack.len() == 1 {
        let n = b.states.len() as int;
        let last = b.stack[0];
        let grown = b.states.push(StateView::Accept { id });
        let nfa = b.finish(id)->Ok_0;
        assert forall|j: int| 0 <= j < last.out.len() implies 0 <= #[trigger] last.out[j] < n
            + 1 by {
            assert(0 <= b.stack[0].out[j] < n);
        }
        patch_effect(grown, last.out, n);
        assert(!last.out.contains(n)) by {
            if last.out.contains(n) {
                let j = choose|j: int| 0 <= j < last.out.len() && last.out[j] == n;
                assert(0 <= b.stack[0].out[j] < n);
            }
        }
        assert(nfa.states[n] == grown[n]);
        assert forall|i: int| 0 <= i < n implies !(#[trigger] nfa.states[i] is Accept)
            && nfa.complete(nfa.states[i]) by {
            assert(under_construction(b.states[i], n));
            if !last.out.contains(i) {
                if has_open_edge(b.states[i]) {
                    let (f, j) = choose|f: int, j: int|
                        0 <= f < 1 && 0 <= j < b.stack[f].out.len() && #[trigger] b.stack[f].out[j]
                            == i;
                    assert(last.out[j] == i);
                }
            }
        }
        assert(0 <= b.stack[0].head < n);
    }
}


/// The values of a stack of fragments.
spec fn fragment_views(v: Seq<Fragment>) -> Seq<FragmentView> {
    v.map_values(|f: Fragment| f@)
}

impl NFA {
    /// An automaton without states.
    pub fn new() -> (r: Self)
        ensures
            r@ == (NfaView { head: 0, states: Seq::empty() }),
    {
        let r = Self { head: 0, state_list: Vec::new() };
        assert(state_views(r.state_list@) == Seq::<StateView>::empty());
        r
    }

    fn add_state(&mut self, state: State) -> (idx: usize)
        ensures
            idx == old(self)@.states.len(),
            final(self)@ == (NfaView {
                head: old(self)@.head,
                states: old(self)@.states.push(state@),
            }),
    {
        let idx = self.state_list.len();
        self.state_list.push(state);
        assert(state_views(self.state_list@) == state_views(old(self).state_list@).push(state@));
        idx
    }

    fn link_state(&mut self, f_idx: usize, t_idx: usize)
        requires
            f_idx < old(self)@.states.len(),
        ensures
            final(self)@ == (NfaView {
                head: old(self)@.head,
                states: old(self)@.states.update(
                    f_idx as int,
                    old(self)@.states[f_idx as int].set_out(Some(t_idx as int)),
                ),
            }),
    {
        self.state_list[f_idx].set_out(Some(t_idx));
        assert(state_views(self.state_list@) == state_views(old(self).state_list@).update(
            f_idx as int,
            old(self)@.states[f_idx as int].set_out(Some(t_idx as int)),
        ));
    }

    fn link_fragment(&mut self, frag: &Fragment, t_idx: usize)
        requires
            forall|k: int|
                0 <= k < frag@.out.len() ==> 0 <= #[trigger] frag@.out[k] < old(self)@.states.len(),
        ensures
            final(self)@ == (NfaView {
                head: old(self)@.head,
                states: patch(old(self)@.states, frag@.out, t_idx as int),
            }),
    {
        let mut j: usize = 0;
        while j < frag.out.len()
            invariant
                j <= frag.out.len(),
                frag@.out == indices(frag.out@),
                forall|k: int|
                    0 <= k < frag@.out.len() ==> 0 <= #[trigger] frag@.out[k] < old(
                        self,
                    )@.states.len(),
                self@ == (NfaView {
                    head: old(self)@.head,
                    states: patch(old(self)@.states, frag@.out.take(j as int), t_idx as int),
                }),
            decreases frag.out.len() - j,
        {
            proof {
                assert forall|k: int| 0 <= k < frag@.out.take(j as int).len() implies 0
                    <= #[trigger] frag@.out.take(j as int)[k] < old(self)@.states.len() by {
                    assert(frag@.out.take(j as int)[k] == frag@.out[k]);
                }
                patch_effect(old(self)@.states, frag@.out.take(j as int), t_idx as int);
                assert(0 <= frag@.out[j as int] < old(self)@.states.len());
                assert(frag@.out.take(j + 1).drop_last() == frag@.out.take(j as int));
            }
            self.link_state(frag.out[j], t_idx);
            j += 1;
        }
        assert(frag@.out.take(j as int) == frag@.out);
    }

    fn link_fragments(&mut self, from: Fragment, to: Fragment) -> (joined: Fragment)
        requires
            forall|k: int|
                0 <= k < from@.out.len() ==> 0 <= #[trigger] from@.out[k] < old(self)@.states.len(),
        ensures
            final(self)@ == (NfaView {
                head: old(self)@.head,
                states: patch(old(self)@.states, from@.out, to@.head),
            }),
            joined@ == (FragmentView { head: from@.head, out: to@.out }),
    {
        self.link_fragment(&from, to.head);
        Fragment { head: from.head, out: to.out }
    }

    fn range_chars(start: char, end: char) -> (r: Result<Vec<char>, String>)
        ensures
            match r {
                Ok(v) => (start as u32) <= (end as u32) && v@ == char_range(start, end),
                Err(e) => (start as u32) > (end as u32) && e@
                    == "Ranges must be specified in ascending order"@,
            },
    {
        let lo: u32 = start as u32;
        let hi: u32 = end as u32;
        if lo > hi {
            return Err(String::from_str("Ranges must be specified in ascending order"));
        }
        proof {
            vstd::utf8::char_is_scalar(end);
        }
        let mut v: Vec<char> = Vec::new();
        let mut u: u32 = lo;
        while u <= hi
            invariant
                lo <= u <= hi + 1,
                hi <= 0x10FFFF,
                v@ == scalars_between(lo as int, u as int),
            decreases hi + 1 - u,
        {
            match char::from_u32(u) {
                Some(c) => {
                    v.push(c);
                },
                None => {},
            }
            u += 1;
        }
        Ok(v)
    }

    /// Builds the automaton of a postfix sequence by Thompson's construction. The sequence
    /// must leave exactly one fragment; a sequence that does not, an operator that lacks an
    /// operand and a range in descending order are errors.
    pub fn build(expr: Vec<Expr>) -> (r: Result<Self, String>)
        ensures
            match r {
                Ok(nfa) => build_spec(expr@) == Ok::<NfaView, Seq<char>>(nfa@) && nfa@.wf(),
                Err(e) => build_spec(expr@) == Err::<NfaView, Seq<char>>(e@),
            },
    {
        let mut nfa = Self::new();
        let mut stack: Vec<Fragment> = Vec::new();
        let mut counter: usize = 0;
        assert(fragment_views(stack@) == Seq::<FragmentView>::empty());
        while counter < expr.len()
            invariant
                counter <= expr.len(),
                build_prefix(expr@, counter as nat) == Ok::<Builder, Seq<char>>(
                    Builder { states: nfa@.states, stack: fragment_views(stack@) },
                ),
            ensures
                counter == expr.len(),
            decreases expr.len() - counter,
        {
            let ghost before = Builder { states: nfa@.states, stack: fragment_views(stack@) };
            let ghost below = fragment_views(stack@);
            proof {
                build_prefix_inv(expr@, counter as nat);
                assert(build_prefix(expr@, (counter + 1) as nat) == before.step(
                    expr@[counter as int],
                    counter as int,
                ));
            }
            let depth = stack.len();
            match expr[counter] {
                Expr::Literal(c) => {
                    let st = State::Transition {
                        id: counter,
                        condition: Condition::Id(c),
                        output: None,
                    };
                    let idx = nfa.add_state(st);
                    stack.push(Fragment::detached(idx));
                    assert(fragment_views(stack@) == below.push(stack@.last()@));
                },
                Expr::CharRange(l, r) => {
                    let chars = match Self::range_chars(l, r) {
                        Ok(chars) => chars,
                        Err(e) => {
                            proof {
                                build_fails_from(expr@, (counter + 1) as nat);
                            }
                            return Err(e);
                        },
                    };
                    let st = State::Transition {
                        id: counter,
                        condition: Condition::CharClass(chars),
                        output: None,
                    };
                    let idx = nfa.add_state(st);
                    stack.push(Fragment::detached(idx));
                    assert(fragment_views(stack@) == below.push(stack@.last()@));
                },
                Expr::Concat => {
                    let right = match stack.pop() {
                        Some(f) => f,
                        None => {
                            proof {
                                build_fails_from(expr@, (counter + 1) as nat);
                            }
                            return Err(String::from_str("Missing right fragment"));
                        },
                    };
                    let left = match stack.pop() {
                        Some(f) => f,
                        None => {
                            proof {
                                build_fails_from(expr@, (counter + 1) as nat);
                            }
                            return Err(String::from_str("Missing left fragment"));
                        },
                    };
                    assert(right@ == below[depth - 1]);
                    assert(left@ == below[depth - 2]);
                    assert forall|k: int| 0 <= k < left@.out.len() implies 0
                        <= #[trigger] left@.out[k] < nfa@.states.len() by {
                        assert(0 <= before.stack[depth - 2].out[k] < nfa@.states.len());
                    }
                    let joined = nfa.link_fragments(left, right);
                    stack.push(joined);
                    assert(fragment_views(stack@) == below.take(depth - 2).push(joined@));
                },
                Expr::Alt => {
                    let right = match stack.pop() {
                        Some(f) => f,
                        None => {
                            proof {
                                build_fails_from(expr@, (counter + 1) as nat);
                            }
                            return Err(String::from_str("Missing right fragment"));
                        },
                    };
                    let left = match stack.pop() {
                        Some(f) => f,
                        None => {
                            proof {
                                build_fails_from(expr@, (counter + 1) as nat);
                            }
                            return Err(String::from_str("Missing left fragment"));
                        },
                    };
                    assert(right@ == below[depth - 1]);
                    assert(left@ == below[depth - 2]);
                    let split = State::Split {
                        id: counter,
                        left: Some(left.head),
                        right: Some(right.head),
                    };
                    let idx = nfa.add_state(split);
                    let merged = Fragment::multi_link(idx, left.out, right.out);
                    stack.push(merged);
                    assert(fragment_views(stack@) == below.take(depth - 2).push(merged@));
                },
                Expr::Opt => {
                    let inner = match stack.pop() {
                        Some(f) => f,
                        None => {
                            proof {
                                build_fails_from(expr@, (counter + 1) as nat);
                            }
                            return Err(String::from_str("Missing fragment for '?' operator"));
                        },
                    };
                    assert(inner@ == below[depth - 1]);
                    let split = State::Split { id: counter, left: Some(inner.head), right: None };
                    let idx = nfa.add_state(split);
                    let mut own: Vec<usize> = Vec::new();
                    own.push(idx);
                    assert(indices(own@) == seq![idx as int]);
                    let grown = Fragment::multi_link(idx, inner.out, own);
                    stack.push(grown);
                    assert(fragment_views(stack@) == below.take(depth - 1).push(grown@));
                },
                Expr::Star => {
                    let inner = match stack.pop() {
                        Some(f) => f,
                        None => {
                            proof {
                                build_fails_from(expr@, (counter + 1) as nat);
                            }
                            return Err(String::from_str("Missing fragment for '*' operator"));
                        },
                    };
                    assert(inner@ == below[depth - 1]);
                    let split = State::Split { id: counter, left: Some(inner.head), right: None };
                    let idx = nfa.add_state(split);
                    assert forall|k: int| 0 <= k < inner@.out.len() implies 0
                        <= #[trigger] inner@.out[k] < nfa@.states.len() by {
                        assert(0 <= before.stack[depth - 1].out[k] < before.states.len());
                    }
                    nfa.link_fragment(&inner, idx);
                    let looped = Fragment::detached(idx);
                    stack.push(looped);
                    assert(fragment_views(stack@) == below.take(depth - 1).push(looped@));
                },
                Expr::Plus => {
                    let inner = match stack.pop() {
                        Some(f) => f,
                        None => {
                            proof {
                                build_fails_from(expr@, (counter + 1) as nat);
                            }
                            return Err(String::from_str("Missing fragment for '+' operator"));
                        },
                    };
                    assert(inner@ == below[depth - 1]);
                    let split = State::Split { id: counter, left: Some(inner.head), right: None };
                    let idx = nfa.add_state(split);
                    assert forall|k: int| 0 <= k < inner@.out.len() implies 0
                        <= #[trigger] inner@.out[k] < nfa@.states.len() by {
                        assert(0 <= before.stack[depth - 1].out[k] < before.states.len());
                    }
                    nfa.link_fragment(&inner, idx);
                    let looped = Fragment::single_link(inner.head, idx);
                    stack.push(looped);
                    assert(fragment_views(stack@) == below.take(depth - 1).push(looped@));
                },
            }
            counter += 1;
        }
        let ghost last = Builder { states: nfa@.states, stack: fragment_views(stack@) };
        proof {
            build_prefix_inv(expr@, counter as nat);
            finish_is_wf(last, counter as int);
        }
        if stack.len() > 1 {
            return Err(String::from_str("Leftover fragments on stack"));
        }
        let final_fragment = match stack.pop() {
            Some(f) => f,
            None => {
                return Err(String::from_str("No final fragment on stack"));
            },
        };
        assert(final_fragment@ == last.stack[0]);
        let accept_idx = nfa.add_state(State::Accept { id: counter });
        assert forall|k: int| 0 <= k < final_fragment@.out.len() implies 0
            <= #[trigger] final_fragment@.out[k] < nfa@.states.len() by {
            assert(0 <= last.stack[0].out[k] < last.states.len());
        }
        nfa.link_fragment(&final_fragment, accept_idx);
        nfa.head = final_fragment.head;
        Ok(nfa)
    }

    /// The index of the state where matching starts.
    pub fn start(&self) -> (r: usize)
        ensures
            r == self@.head,
    {
        self.head
    }

    /// A copy of the state at `idx`.
    pub fn get_state(&self, idx: usize) -> (r: State)
        requires
            idx < self@.states.len(),
        ensures
            r@ == self@.states[idx as int],
    {
        self.state_list[idx].clone()
    }

    /// The state at `idx`.
    pub fn state(&self, idx: usize) -> (r: &State)
        requires
            idx < self@.states.len(),
        ensures
            r@ == self@.states[idx as int],
    {
        &self.state_list[idx]
    }

    /// The number of states.
    pub fn size(&self) -> (r: usize)
        ensures
            r == self@.states.len(),
    {
        self.state_list.len()
    }
}

/// Once the construction has failed on a prefix, it fails on the whole sequence with the
/// same reason.
pub proof fn build_fails_from(exprs: Seq<Expr>, n: nat)
    requires
        0 < n <= exprs.len(),
        build_prefix(exprs, n) is Err,
    ensures
        build_spec(exprs) == Err::<NfaView, Seq<char>>(build_prefix(exprs, n)->Err_0),
    decreases exprs.len() - n,
{
    if n < exprs.len() {
        assert(build_prefix(exprs, n + 1) == build_prefix(exprs, n));
        build_fails_from(exprs, n + 1);
    }
}


/// The first `n` characters of `v`, each as `{:?}` prints it, separated by a comma and a
/// space.
pub open spec fn quoted_chars(v: Seq<char>, n: nat) -> Seq<char>
    decreases n,
{
    if n == 0 || n > v.len() {
        Seq::empty()
    } else if n == 1 {
        debug_char(v[0])
    } else {
        quoted_chars(v, (n - 1) as nat) + ", "@ + debug_char(v[n - 1])
    }
}

/// An edge as text: `None`, or `Some(..)` around the decimal index.
pub open spec fn link_text(o: Option<int>) -> Seq<char> {
    match o {
        Some(i) => "Some("@ + decimal(i as nat) + ")"@,
        None => "None"@,
    }
}

impl ConditionView {
    /// The condition as text: the character itself, or the list of the class's characters
    /// in square brackets.
    pub open spec fn text(self) -> Seq<char> {
        match self {
            ConditionView::Id(c) => seq![c],
            ConditionView::CharClass(v) => "["@ + quoted_chars(v, v.len()) + "]"@,
        }
    }
}

impl StateView {
    /// The state as text.
    pub open spec fn text(self) -> Seq<char> {
        match self {
            StateView::Transition { condition, output, .. } => "[match '"@ + condition.text()
                + "' -> "@ + link_text(output) + "]"@,
            StateView::Split { left, right, .. } => "[-> ("@ + link_text(left) + " | "@ + link_text(
                right,
            ) + ")]"@,
            StateView::Accept { .. } => "[accept]"@,
        }
    }
}

impl NfaView {
    /// The lines that describe the first `n` states, one line a state.
    pub open spec fn state_lines(self, n: nat) -> Seq<char>
        decreases n,
    {
        if n == 0 || n > self.states.len() {
            Seq::empty()
        } else {
            self.state_lines((n - 1) as nat) + "(idx = "@ + decimal((n - 1) as nat) + " "@
                + self.states[n - 1].text() + ")\n"@
        }
    }

    /// The automaton as text: a line with the head, then one line for each state.
    pub open spec fn text(self) -> Seq<char> {
        "head = "@ + decimal(self.head as nat) + "\n"@ + self.state_lines(self.states.len())
    }
}

fn push_link(s: &mut String, o: Option<usize>)
    ensures
        final(s)@ == old(s)@ + link_text(link(o)),
{
    match o {
        Some(i) => {
            s.append("Some(");
            push_decimal(s, i);
            s.append(")");
            assert(s@ == old(s)@ + ("Some("@ + decimal(i as nat) + ")"@));
        },
        None => {
            s.append("None");
        },
    }
}

impl Condition {
    /// The condition as text.
    pub fn to_string(&self) -> (r: String)
        ensures
            r@ == self@.text(),
    {
        match self {
            Condition::Id(c) => {
                let mut r = String::new();
                r.push(*c);
                assert(r@ == seq![*c]);
                r
            },
            Condition::CharClass(chars) => {
                let mut r = String::from_str("[");
                let mut i: usize = 0;
                while i < chars.len()
                    invariant
                        i <= chars.len(),
                        r@ == "["@ + quoted_chars(chars@, i as nat),
                    decreases chars.len() - i,
                {
                    if i > 0 {
                        r.append(", ");
                    }
                    let quoted = quote_char(chars[i]);
                    r.append(quoted.as_str());
                    i += 1;
                    assert(r@ == "["@ + quoted_chars(chars@, i as nat));
                }
                r.append("]");
                r
            },
        }
    }
}

impl State {
    /// The state as text.
    pub fn to_string(&self) -> (r: String)
        ensures
            r@ == self@.text(),
    {
        match self {
            State::Transition { condition, output, .. } => {
                let mut r = String::from_str("[match '");
                let inner = condition.to_string();
                r.append(inner.as_str());
                r.append("' -> ");
                push_link(&mut r, *output);
                r.append("]");
                r
            },
            State::Split { left, right, .. } => {
                let mut r = String::from_str("[-> (");
                push_link(&mut r, *left);
                r.append(" | ");
                push_link(&mut r, *right);
                r.append(")]");
                r
            },
            State::Accept { .. } => String::from_str("[accept]"),
        }
    }
}

impl NFA {
    /// The automaton as text: a line with the head, then one line for each state.
    pub fn to_string(&self) -> (r: String)
        ensures
            r@ == self@.text(),
    {
        let mut r = String::from_str("head = ");
        push_decimal(&mut r, self.head);
        r.append("\n");
        let mut i: usize = 0;
        while i < self.state_list.len()
            invariant
                i <= self.state_list.len(),
                r@ == "head = "@ + decimal(self@.head as nat) + "\n"@ + self@.state_lines(i as nat),
            decreases self.state_list.len() - i,
        {
            let ghost before = r@;
            r.append("(idx = ");
            push_decimal(&mut r, i);
            r.append(" ");
            let line = self.state_list[i].to_string();
            r.append(line.as_str());
            r.append(")\n");
            i += 1;
            assert(r@ == before + ("(idx = "@ + decimal((i - 1) as nat) + " "@ + self@.states[i
                - 1].text() + ")\n"@));
            assert(self@.state_lines(i as nat) == self@.state_lines((i - 1) as nat) + "(idx = "@
                + decimal((i - 1) as nat) + " "@ + self@.states[i - 1].text() + ")\n"@);
        }
        r
    }
}


/// The number of operands that an element of a postfix sequence takes.
pub open spec fn arity(e: Expr) -> nat {
    match e {
        Expr::Literal(_) | Expr::CharRange(_, _) => 0,
        Expr::Star | Expr::Opt | Expr::Plus => 1,
        Expr::Concat | Expr::Alt => 2,
    }
}

/// True when the element can stand in a postfix sequence: any element but a range whose
/// ends are in descending order.
pub open spec fn sound(e: Expr) -> bool {
    e matches Expr::CharRange(l, r) ==> (l as u32) <= (r as u32)
}

/// The number of operands that wait after the first `n` elements of `exprs`, where each of
/// those elements is sound and finds the operands it takes; `None` otherwise.
pub open spec fn operands_after(exprs: Seq<Expr>, n: nat) -> Option<nat>
    decreases n,
{
    if n == 0 || n > exprs.len() {
        Some(0)
    } else {
        match operands_after(exprs, (n - 1) as nat) {
            Some(d) => if sound(exprs[n - 1]) && d >= arity(exprs[n - 1]) {
                Some((d - arity(exprs[n - 1]) + 1) as nat)
            } else {
                None
            },
            None => None,
        }
    }
}

/// True for a postfix sequence that denotes one regular expression: every element is sound
/// and finds its operands, and one result is left at the end.
pub open spec fn balanced(exprs: Seq<Expr>) -> bool {
    operands_after(exprs, exprs.len()) == Some(1nat)
}

/// The construction gets through a prefix exactly when every element of it is sound and
/// finds its operands; its stack then holds one fragment for each operand that waits.
pub proof fn build_prefix_follows_operands(exprs: Seq<Expr>, n: nat)
    ensures
        match build_prefix(exprs, n) {
            Ok(b) => operands_after(exprs, n) == Some(b.stack.len()),
            Err(_) => operands_after(exprs, n) is None,
        },
    decreases n,
{
    if n == 0 || n > exprs.len() {
    } else {
        build_prefix_follows_operands(exprs, (n - 1) as nat);
    }
}

/// The construction succeeds exactly on the balanced postfix sequences, and the automaton
/// that it yields is well-formed: among other things it has exactly one accept state.
pub proof fn build_succeeds_iff_balanced(exprs: Seq<Expr>)
    ensures
        build_spec(exprs) is Ok <==> balanced(exprs),
        build_spec(exprs) matches Ok(nfa) ==> nfa.wf(),
{
    build_prefix_follows_operands(exprs, exprs.len());
    build_prefix_inv(exprs, exprs.len());
    match build_prefix(exprs, exprs.len()) {
        Ok(b) => finish_is_wf(b, exprs.len() as int),
        Err(_) => {},
    }
}

} // verus!
