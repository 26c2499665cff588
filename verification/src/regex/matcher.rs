use super::expr::{postfix_of, Expr};
use super::nfa::{balanced, build_spec, build_succeeds_iff_balanced, NfaView, State, StateView, NFA};
use crate::text::chars_of;
use vstd::prelude::*;

verus! {

impl NfaView {
    /// True when the state `i` is a split with a branch to `j`: an edge that consumes no
    /// character.
    pub open spec fn eps_edge(self, i: int, j: int) -> bool {
        &&& 0 <= i < self.states.len()
        &&& self.states[i] matches StateView::Split { left, right, .. }
        &&& (left == Some(j) || right == Some(j))
    }

    /// True when `p` is a walk along edges that consume no character.
    pub open spec fn eps_path(self, p: Seq<int>) -> bool {
        &&& p.len() > 0
        &&& forall|k: int| 0 <= k < p.len() - 1 ==> self.eps_edge(#[trigger] p[k], p[k + 1])
    }

    /// True when `j` can be reached from `i` without consuming a character.
    pub open spec fn eps_reaches(self, i: int, j: int) -> bool {
        exists|p: Seq<int>| #[trigger] self.eps_path(p) && p[0] == i && p.last() == j
    }

    /// The epsilon-closure of the state `i`: the states that can be reached from it without
    /// consuming a character, `i` itself among them.
    pub open spec fn closure(self, i: int) -> Set<int> {
        Set::new(|j: int| self.eps_reaches(i, j))
    }

    /// True when the automaton can go from the state `i` to the state `j` by consuming
    /// `ch`: `i` is a transition that lets `ch` pass, and `j` lies in the closure of the
    /// state behind it.
    pub open spec fn moves(self, i: int, ch: char, j: int) -> bool {
        &&& 0 <= i < self.states.len()
        &&& self.states[i] matches StateView::Transition { output: Some(o), .. }
        &&& self.states[i].admits(ch)
        &&& self.closure(o).contains(j)
    }

    /// The states that the automaton may be in after it has consumed the first `n`
    /// characters of `s`.
    pub open spec fn active(self, s: Seq<char>, n: nat) -> Set<int>
        decreases n,
    {
        if n == 0 || n > s.len() {
            self.closure(self.head)
        } else {
            let before = self.active(s, (n - 1) as nat);
            Set::new(|j: int| exists|i: int| before.contains(i) && #[trigger] self.moves(i, s[n - 1], j))
        }
    }

    /// True when the automaton accepts the whole of `s`: after the last character an
    /// accept state is among the active states.
    pub open spec fn accepts(self, s: Seq<char>) -> bool {
        exists|i: int|
            0 <= i < self.states.len() && #[trigger] self.active(s, s.len()).contains(i)
                && self.states[i] is Accept
    }
}

/// Every state lies in its own closure.
pub proof fn closure_holds_self(nfa: NfaView, i: int)
    ensures
        nfa.closure(i).contains(i),
{
    let p = seq![i];
    assert(nfa.eps_path(p) && p[0] == i && p.last() == i);
}

/// A closure is closed under the edges that consume no character.
pub proof fn closure_follows_edges(nfa: NfaView, i: int, j: int, k: int)
    requires
        nfa.closure(i).contains(j),
        nfa.eps_edge(j, k),
    ensures
        nfa.closure(i).contains(k),
{
    let p = choose|p: Seq<int>| #[trigger] nfa.eps_path(p) && p[0] == i && p.last() == j;
    let q = p.push(k);
    assert forall|m: int| 0 <= m < q.len() - 1 implies nfa.eps_edge(#[trigger] q[m], q[m + 1]) by {
        if m < p.len() - 1 {
            assert(nfa.eps_edge(p[m], p[m + 1]));
        }
    }
    assert(nfa.eps_path(q) && q[0] == i && q.last() == k);
}

/// A set that holds `i` and is closed under the edges that consume no character holds the
/// end of every walk from `i`.
proof fn closed_set_holds_walk(nfa: NfaView, i: int, set: Set<int>, p: Seq<int>)
    requires
        set.contains(i),
        forall|a: int, b: int| set.contains(a) && #[trigger] nfa.eps_edge(a, b) ==> set.contains(b),
        nfa.eps_path(p),
        p[0] == i,
    ensures
        set.contains(p.last()),
    decreases p.len(),
{
    if p.len() > 1 {
        let q = p.drop_last();
        assert forall|m: int| 0 <= m < q.len() - 1 implies nfa.eps_edge(#[trigger] q[m], q[m + 1]) by {
            assert(nfa.eps_edge(p[m], p[m + 1]));
        }
        closed_set_holds_walk(nfa, i, set, q);
        assert(nfa.eps_edge(p[p.len() - 2], p[p.len() - 2 + 1]));
    }
}

/// A list of distinct numbers below `n` has at most `n` items.
proof fn distinct_below(s: Seq<int>, n: int)
    requires
        0 <= n,
        s.no_duplicates(),
        forall|k: int| 0 <= k < s.len() ==> 0 <= #[trigger] s[k] < n,
    ensures
        s.len() <= n,
{
    s.unique_seq_to_set();
    vstd::set_lib::lemma_int_range(0, n);
    assert(s.to_set().subset_of(vstd::set_lib::set_int_range(0, n))) by {
        assert forall|x: int| s.to_set().contains(x) implies vstd::set_lib::set_int_range(
            0,
            n,
        ).contains(x) by {
            let k = choose|k: int| 0 <= k < s.len() && s[k] == x;
            assert(0 <= s[k] < n);
        }
    }
    vstd::set_lib::lemma_len_subset(s.to_set(), vstd::set_lib::set_int_range(0, n));
}

/// True when the list `v` holds exactly the members of the closure of `i`.
pub open spec fn lists_closure(nfa: NfaView, i: int, v: Seq<usize>) -> bool {
    &&& forall|k: int| 0 <= k < v.len() ==> nfa.closure(i).contains(#[trigger] v[k] as int)
    &&& forall|j: int| nfa.closure(i).contains(j) ==> exists|k: int| 0 <= k < v.len() && #[trigger] v[k] == j
}

/// True when the list `out` holds the number `j`.
pub open spec fn listed(out: Seq<usize>, j: int) -> bool {
    exists|k: int| 0 <= k < out.len() && #[trigger] out[k] == j
}

/// True when `out` lists, without repetition, exactly the states that `mark` marks.
pub open spec fn tracks(mark: Seq<bool>, out: Seq<usize>) -> bool {
    &&& forall|k: int| 0 <= k < out.len() ==> #[trigger] out[k] < mark.len() && mark[out[k] as int]
    &&& forall|j: int| 0 <= j < mark.len() && #[trigger] mark[j] ==> listed(out, j)
    &&& forall|k1: int, k2: int|
        0 <= k1 < k2 < out.len() ==> #[trigger] out[k1] != #[trigger] out[k2]
}

/// A matcher for one pattern: the pattern's automaton and, for each state, its
/// epsilon-closure, computed once.
pub struct Matcher {
    nfa: NFA,
    closures: Vec<Vec<usize>>,
}

/// What can test a string against a pattern.
pub trait Match: Sync {
    /// True when the pattern matches the whole of `s`.
    spec fn accepts(&self, s: Seq<char>) -> bool;

    /// Tests whether the pattern matches the whole of `s`.
    fn matches(&self, s: &str) -> (r: bool)
        ensures
            r == self.accepts(s@),
    ;
}

impl View for Matcher {
    type V = NfaView;

    closed spec fn view(&self) -> NfaView {
        self.nfa@
    }
}

impl Matcher {
    /// The invariant of a matcher: its automaton is well-formed, and the cached list of
    /// each state holds exactly the state's closure.
    #[verifier::type_invariant]
    pub closed spec fn inv(&self) -> bool {
        &&& self.nfa@.wf()
        &&& self.closures@.len() == self.nfa@.states.len()
        &&& forall|i: int|
            0 <= i < self.closures@.len() ==> lists_closure(self.nfa@, i, #[trigger] self.closures@[i]@)
    }

    /// The cached closure of the state `i`, as a set.
    pub closed spec fn cached(&self, i: int) -> Set<int> {
        Set::new(|j: int| exists|k: int| 0 <= k < self.closures@[i]@.len() && #[trigger] self.closures@[i]@[k] == j)
    }

    /// Marks the state `v` as seen and lists it, unless it was seen before.
    fn visit(mark: &mut Vec<bool>, out: &mut Vec<usize>, v: usize)
        requires
            v < old(mark).len(),
            tracks(old(mark)@, old(out)@),
        ensures
            tracks(final(mark)@, final(out)@),
            final(mark).len() == old(mark).len(),
            final(mark)@[v as int],
            forall|j: int| 0 <= j < old(mark).len() && old(mark)@[j] ==> final(mark)@[j],
            old(out).len() <= final(out).len(),
            forall|k: int| 0 <= k < old(out).len() ==> final(out)@[k] == old(out)@[k],
            forall|k: int| old(out).len() <= k < final(out).len() ==> final(out)@[k] == v,
    {
        if !mark[v] {
            mark[v] = true;
            out.push(v);
            proof {
                assert forall|j: int| 0 <= j < mark.len() && #[trigger] mark@[j] implies listed(
                    out@,
                    j,
                ) by {
                    if j == v {
                        assert(out@[out.len() - 1] == j);
                    } else {
                        assert(old(mark)@[j]);
                        let k = choose|k: int| 0 <= k < old(out).len() && #[trigger] old(out)@[k] == j;
                        assert(out@[k] == j);
                    }
                }
            }
        }
    }

    /// The closure of the state `start`, listed without repetition.
    fn compute_epsilon_closure(nfa: &NFA, start: usize) -> (out: Vec<usize>)
        requires
            nfa@.wf(),
            start < nfa@.states.len(),
        ensures
            lists_closure(nfa@, start as int, out@),
    {
        let n = nfa.size();
        let mut mark = blank(n);
        let mut out: Vec<usize> = Vec::new();
        Self::visit(&mut mark, &mut out, start);
        proof {
            closure_holds_self(nfa@, start as int);
        }
        let mut i: usize = 0;
        while i < out.len()
            invariant
                n == nfa@.states.len(),
                nfa@.wf(),
                mark.len() == n,
                i <= out.len(),
                mark@[start as int],
                tracks(mark@, out@),
                forall|k: int|
                    0 <= k < out.len() ==> nfa@.closure(start as int).contains(
                        #[trigger] out@[k] as int,
                    ),
                forall|k: int, j: int|
                    0 <= k < i && #[trigger] nfa@.eps_edge(out@[k] as int, j) ==> 0 <= j < n
                        && mark@[j],
            decreases n - i,
        {
            proof {
                let as_ints = out@.map_values(|x: usize| x as int);
                assert(as_ints.no_duplicates()) by {
                    assert forall|a: int, b: int|
                        0 <= a < as_ints.len() && 0 <= b < as_ints.len() && a != b implies as_ints[a]
                        != as_ints[b] by {
                        if a < b {
                            assert(out@[a] != out@[b]);
                        } else {
                            assert(out@[b] != out@[a]);
                        }
                    }
                }
                assert forall|k: int| 0 <= k < as_ints.len() implies 0 <= #[trigger] as_ints[k]
                    < n by {
                    assert(out@[k] < n);
                }
                distinct_below(as_ints, n as int);
            }
            let u = out[i];
            assert(out@[i as int] < n);
            assert(nfa@.complete(nfa@.states[u as int]));
            let (left, right) = match nfa.state(u) {
                State::Split { left, right, .. } => (*left, *right),
                _ => (None, None),
            };
            match left {
                Some(v) => {
                    proof {
                        closure_follows_edges(nfa@, start as int, u as int, v as int);
                    }
                    Self::visit(&mut mark, &mut out, v);
                },
                None => {},
            }
            match right {
                Some(v) => {
                    proof {
                        closure_follows_edges(nfa@, start as int, u as int, v as int);
                    }
                    Self::visit(&mut mark, &mut out, v);
                },
                None => {},
            }
            i += 1;
        }
        proof {
            let set = Set::new(|j: int| 0 <= j < n && mark@[j]);
            assert forall|a: int, b: int| set.contains(a) && #[trigger] nfa@.eps_edge(a, b) implies set.contains(b) by {
                let k = choose|k: int| 0 <= k < out.len() && #[trigger] out@[k] == a;
                assert(nfa@.eps_edge(out@[k] as int, b));
            }
            assert forall|j: int| nfa@.closure(start as int).contains(j) implies exists|k: int|
                0 <= k < out@.len() && #[trigger] out@[k] == j by {
                let p = choose|p: Seq<int>| #[trigger] nfa@.eps_path(p) && p[0] == start as int && p.last() == j;
                closed_set_holds_walk(nfa@, start as int, set, p);
                assert(mark@[j]);
            }
        }
        out
    }

    /// The closure of every state of the automaton, by index.
    fn precompute_epsilon_closures(nfa: &NFA) -> (all: Vec<Vec<usize>>)
        requires
            nfa@.wf(),
        ensures
            all@.len() == nfa@.states.len(),
            forall|i: int| 0 <= i < all@.len() ==> lists_closure(nfa@, i, #[trigger] all@[i]@),
    {
        let n = nfa.size();
        let mut all: Vec<Vec<usize>> = Vec::new();
        let mut idx: usize = 0;
        while idx < n
            invariant
                n == nfa@.states.len(),
                nfa@.wf(),
                idx <= n,
                all@.len() == idx,
                forall|i: int| 0 <= i < all@.len() ==> lists_closure(nfa@, i, #[trigger] all@[i]@),
            decreases n - idx,
        {
            let one = Self::compute_epsilon_closure(nfa, idx);
            all.push(one);
            idx += 1;
        }
        all
    }
}


/// The pattern's automaton, or the reason why the pattern has none: the postfix sequence
/// of the pattern, then Thompson's construction.
pub open spec fn compile_spec(s: Seq<char>) -> Result<NfaView, Seq<char>> {
    match postfix_of(s) {
        Ok(exprs) => build_spec(exprs),
        Err(e) => Err(e),
    }
}

/// `n` marks, none of them set.
fn blank(n: usize) -> (marks: Vec<bool>)
    ensures
        marks.len() == n,
        forall|j: int| 0 <= j < n ==> !marks@[j],
{
    let mut marks: Vec<bool> = Vec::new();
    while marks.len() < n
        invariant
            marks.len() <= n,
            forall|j: int| 0 <= j < marks.len() ==> !marks@[j],
        decreases n - marks.len(),
    {
        marks.push(false);
    }
    marks
}

/// Sets the mark of every state that `list` holds.
fn mark_list(marks: &mut Vec<bool>, list: &Vec<usize>)
    requires
        forall|k: int| 0 <= k < list.len() ==> #[trigger] list@[k] < old(marks).len(),
    ensures
        final(marks).len() == old(marks).len(),
        forall|j: int|
            0 <= j < old(marks).len() ==> #[trigger] final(marks)@[j] == (old(marks)@[j] || listed(
                list@,
                j,
            )),
{
    let mut k: usize = 0;
    while k < list.len()
        invariant
            k <= list.len(),
            marks.len() == old(marks).len(),
            forall|m: int| 0 <= m < list.len() ==> #[trigger] list@[m] < marks.len(),
            forall|j: int|
                0 <= j < marks.len() ==> #[trigger] marks@[j] == (old(marks)@[j] || listed(
                    list@.take(k as int),
                    j,
                )),
        decreases list.len() - k,
    {
        let ghost before = marks@;
        let v = list[k];
        marks[v] = true;
        k += 1;
        proof {
            let shorter = list@.take(k - 1);
            let longer = list@.take(k as int);
            assert forall|j: int| 0 <= j < marks.len() implies #[trigger] marks@[j] == (old(
                marks,
            )@[j] || listed(longer, j)) by {
                if listed(shorter, j) {
                    let m = choose|m: int| 0 <= m < shorter.len() && #[trigger] shorter[m] == j;
                    assert(longer[m] == j);
                }
                if j == v {
                    assert(longer[k - 1] == j);
                }
                if listed(longer, j) && j != v {
                    let m = choose|m: int| 0 <= m < longer.len() && #[trigger] longer[m] == j;
                    assert(shorter[m] == j);
                }
            }
        }
    }
    assert(list@.take(k as int) == list@);
}

impl Matcher {
    /// Compiles a pattern into a matcher. Fails exactly when the pattern has no automaton,
    /// with the reason.
    pub fn new(s: &str) -> (r: Result<Self, String>)
        ensures
            match r {
                Ok(m) => compile_spec(s@) == Ok::<NfaView, Seq<char>>(m@) && m@.wf() && m.inv(),
                Err(e) => compile_spec(s@) == Err::<NfaView, Seq<char>>(e@),
            },
    {
        let expr = match Expr::build(s) {
            Ok(expr) => expr,
            Err(e) => {
                return Err(e);
            },
        };
        let nfa = match NFA::build(expr) {
            Ok(nfa) => nfa,
            Err(e) => {
                return Err(e);
            },
        };
        let closures = Self::precompute_epsilon_closures(&nfa);
        Ok(Self { nfa, closures })
    }

    /// The pattern's automaton.
    pub fn nfa(&self) -> (r: &NFA)
        ensures
            r@ == self@,
            r@.wf(),
    {
        proof {
            use_type_invariant(self);
        }
        &self.nfa
    }

    /// The cached closure of the state `idx`: the states that can be reached from it
    /// without consuming a character, each listed once. There is none for a number that
    /// names no state.
    pub fn closure(&self, idx: usize) -> (r: Option<&Vec<usize>>)
        ensures
            match r {
                Some(list) => idx < self@.states.len() && lists_closure(self@, idx as int, list@)
                    && self.cached(idx as int) == self@.closure(idx as int),
                None => idx >= self@.states.len(),
            },
    {
        proof {
            use_type_invariant(self);
        }
        if idx < self.closures.len() {
            proof {
                cached_closure_is_closed(self, idx as int, 0, 0);
            }
            Some(&self.closures[idx])
        } else {
            None
        }
    }

    /// Tests whether the pattern matches the whole of `s`.
    pub fn matches(&self, s: &str) -> (r: bool)
        ensures
            r == self@.accepts(s@),
    {
        let chars = chars_of(s);
        assert(chars@.subrange(0, chars.len() as int) == s@);
        self.matches_range(&chars, 0, chars.len())
    }

    /// Tests whether the pattern matches the whole of `text[from..to]`.
    pub fn matches_range(&self, text: &Vec<char>, from: usize, to: usize) -> (r: bool)
        requires
            from <= to <= text.len(),
        ensures
            r == self@.accepts(text@.subrange(from as int, to as int)),
    {
        proof {
            use_type_invariant(self);
        }
        let ghost s = text@.subrange(from as int, to as int);
        let n = self.nfa.size();
        let head = self.nfa.start();
        let mut current = blank(n);
        proof {
            assert forall|k: int| 0 <= k < self.closures@[head as int]@.len() implies #[trigger] self.closures@[head as int]@[k]
                < n by {
                self.closure_in_range(head as int, k);
            }
        }
        mark_list(&mut current, &self.closures[head]);
        let mut k: usize = from;
        while k < to
            invariant
                self.inv(),
                n == self@.states.len(),
                from <= k <= to <= text.len(),
                s == text@.subrange(from as int, to as int),
                current.len() == n,
                forall|j: int|
                    0 <= j < n ==> #[trigger] current@[j] == self@.active(
                        s,
                        (k - from) as nat,
                    ).contains(j),
            decreases to - k,
        {
            let c = text[k];
            assert(s[k - from] == c);
            let mut next = blank(n);
            let mut i: usize = 0;
            while i < n
                invariant
                    self.inv(),
                    n == self@.states.len(),
                    i <= n,
                    current.len() == n,
                    next.len() == n,
                    forall|j: int|
                        0 <= j < n ==> #[trigger] next@[j] == (exists|i2: int|
                            0 <= i2 < i && current@[i2] && #[trigger] self@.moves(i2, c, j)),
                decreases n - i,
            {
                let ghost before = next@;
                let st = self.nfa.state(i);
                if current[i] && st.matches_condition(c) {
                    match st {
                        State::Transition { output: Some(o), .. } => {
                            proof {
                                assert(self@.complete(self@.states[i as int]));
                                assert forall|m: int| 0 <= m < self.closures@[*o as int]@.len() implies #[trigger] self.closures@[*o as int]@[m]
                                    < n by {
                                    self.closure_in_range(*o as int, m);
                                }
                            }
                            mark_list(&mut next, &self.closures[*o]);
                            proof {
                                assert forall|j: int| 0 <= j < n implies (listed(
                                    self.closures@[*o as int]@,
                                    j,
                                ) <==> self@.moves(i as int, c, j)) by {
                                    assert(lists_closure(self@, *o as int, self.closures@[*o as int]@));
                                    if listed(self.closures@[*o as int]@, j) {
                                        let m = choose|m: int|
                                            0 <= m < self.closures@[*o as int]@.len() && #[trigger] self.closures@[*o as int]@[m] == j;
                                        assert(self@.closure(*o as int).contains(self.closures@[*o as int]@[m] as int));
                                    }
                                }
                            }
                        },
                        _ => {},
                    }
                }
                proof {
                    assert forall|j: int| 0 <= j < n implies #[trigger] next@[j] == (exists|i2: int|
                        0 <= i2 < i + 1 && current@[i2] && #[trigger] self@.moves(i2, c, j)) by {
                        if next@[j] {
                            if before[j] {
                                let i2 = choose|i2: int|
                                    0 <= i2 < i && current@[i2] && #[trigger] self@.moves(i2, c, j);
                                assert(0 <= i2 < i + 1 && current@[i2] && self@.moves(i2, c, j));
                            } else {
                                assert(current@[i as int] && self@.moves(i as int, c, j));
                            }
                        }
                        if exists|i2: int|
                            0 <= i2 < i + 1 && current@[i2] && #[trigger] self@.moves(i2, c, j) {
                            let i2 = choose|i2: int|
                                0 <= i2 < i + 1 && current@[i2] && #[trigger] self@.moves(i2, c, j);
                            if i2 < i {
                                assert(before[j]);
                            }
                        }
                    }
                }
                i += 1;
            }
            proof {
                let before = self@.active(s, (k - from) as nat);
                assert forall|j: int| 0 <= j < n implies #[trigger] next@[j] == self@.active(
                    s,
                    (k - from + 1) as nat,
                ).contains(j) by {
                    if next@[j] {
                        let i2 = choose|i2: int|
                            0 <= i2 < n && current@[i2] && #[trigger] self@.moves(i2, c, j);
                        assert(before.contains(i2) && self@.moves(i2, s[k - from], j));
                    }
                    if self@.active(s, (k - from + 1) as nat).contains(j) {
                        let i2 = choose|i2: int| before.contains(i2) && #[trigger] self@.moves(i2, s[k - from], j);
                        assert(0 <= i2 < n && current@[i2] && self@.moves(i2, c, j));
                    }
                }
            }
            current = next;
            k += 1;
        }
        proof {
            if current@[n - 1] {
                assert(self@.active(s, s.len()).contains(n - 1));
            }
        }
        current[n - 1]
    }

    /// The cached lists hold states of the automaton only.
    proof fn closure_in_range(&self, i: int, k: int)
        requires
            self.inv(),
            0 <= i < self@.states.len(),
            0 <= k < self.closures@[i]@.len(),
        ensures
            self.closures@[i]@[k] < self@.states.len(),
    {
        assert(lists_closure(self@, i, self.closures@[i]@));
        let j = self.closures@[i]@[k] as int;
        assert(self@.closure(i).contains(j));
        closure_in_bounds(self@, i, j);
    }
}

impl Match for Matcher {
    open spec fn accepts(&self, s: Seq<char>) -> bool {
        self@.accepts(s)
    }

    fn matches(&self, s: &str) -> (r: bool) {
        Matcher::matches(self, s)
    }
}

/// In a well-formed automaton the closure of a state holds states of the automaton only.
pub proof fn closure_in_bounds(nfa: NfaView, i: int, j: int)
    requires
        nfa.wf(),
        0 <= i < nfa.states.len(),
        nfa.closure(i).contains(j),
    ensures
        0 <= j < nfa.states.len(),
{
    let set = Set::new(|x: int| 0 <= x < nfa.states.len());
    assert forall|a: int, b: int| set.contains(a) && #[trigger] nfa.eps_edge(a, b) implies set.contains(b) by {
        assert(nfa.complete(nfa.states[a]));
    }
    let p = choose|p: Seq<int>| #[trigger] nfa.eps_path(p) && p[0] == i && p.last() == j;
    closed_set_holds_walk(nfa, i, set, p);
}


/// Every pattern whose postfix sequence is balanced compiles, and its automaton is
/// well-formed: it has exactly one accept state, the last one.
pub proof fn balanced_pattern_compiles(pattern: Seq<char>)
    requires
        postfix_of(pattern) matches Ok(exprs) && balanced(exprs),
    ensures
        compile_spec(pattern) matches Ok(nfa) && nfa.wf() && nfa.states.last() is Accept
            && forall|i: int|
            0 <= i < nfa.states.len() - 1 ==> !(#[trigger] nfa.states[i] is Accept),
{
    build_succeeds_iff_balanced(postfix_of(pattern)->Ok_0);
}

/// Matching is a function of the automaton and the input: on equal automata and equal
/// inputs the answer is the same.
pub proof fn matching_is_deterministic(a: &Matcher, b: &Matcher, s: Seq<char>, t: Seq<char>)
    requires
        a@ == b@,
        s == t,
    ensures
        a@.accepts(s) == b@.accepts(t),
{
}

/// The cached closure of every state holds exactly the state's closure. So it holds the
/// state itself, and with a state every state that a branch of it leads to.
pub proof fn cached_closure_is_closed(m: &Matcher, s: int, a: int, b: int)
    requires
        m.inv(),
        0 <= s < m@.states.len(),
    ensures
        m.cached(s) == m@.closure(s),
        m.cached(s).contains(s),
        m.cached(s).contains(a) && m@.eps_edge(a, b) ==> m.cached(s).contains(b),
{
    assert(lists_closure(m@, s, m.closures@[s]@));
    assert forall|j: int| m.cached(s).contains(j) == m@.closure(s).contains(j) by {
        if m.cached(s).contains(j) {
            let k = choose|k: int| 0 <= k < m.closures@[s]@.len() && #[trigger] m.closures@[s]@[k] == j;
            assert(m@.closure(s).contains(m.closures@[s]@[k] as int));
        }
    }
    assert(m.cached(s) =~= m@.closure(s));
    closure_holds_self(m@, s);
    if m@.closure(s).contains(a) && m@.eps_edge(a, b) {
        closure_follows_edges(m@, s, a, b);
    }
}

} // verus!
