//! Runs of an automaton, and the proof that the matcher's sets of active states hold
//! exactly the states that a run can reach: a string is accepted exactly when a run over
//! the whole of it ends in the accept state.
use super::matcher::{closure_follows_edges, closure_holds_self};
use super::nfa::{NfaView, StateView};
use vstd::prelude::*;

verus! {

impl NfaView {
    /// True when the automaton can go in one move from the state `i` with `k` characters
    /// of `w` consumed to the state `j` with `m` characters consumed: along a branch of a
    /// split, which consumes nothing, or along a transition that lets the next character
    /// pass and consumes it.
    pub open spec fn step(self, w: Seq<char>, i: int, k: int, j: int, m: int) -> bool {
        ||| m == k && self.eps_edge(i, j)
        ||| {
            &&& m == k + 1
            &&& 0 <= k < w.len()
            &&& 0 <= i < self.states.len()
            &&& self.states[i] matches StateView::Transition { output: Some(o), .. }
            &&& o == j
            &&& self.states[i].admits(w[k])
        }
    }

    /// True when `run` is a run over `w`: a list of states, each with the number of
    /// characters consumed on arrival, which starts at the head with nothing consumed
    /// and goes on move by move.
    pub open spec fn is_run(self, w: Seq<char>, run: Seq<(int, int)>) -> bool {
        &&& run.len() > 0
        &&& run[0] == (self.head, 0int)
        &&& forall|t: int|
            0 <= t < run.len() - 1 ==> self.step(
                w,
                (#[trigger] run[t]).0,
                run[t].1,
                run[t + 1].0,
                run[t + 1].1,
            )
    }

    /// True when some run over `w` arrives at the state `j` with `n` characters consumed.
    pub open spec fn reaches(self, w: Seq<char>, j: int, n: int) -> bool {
        exists|run: Seq<(int, int)>| #[trigger] self.is_run(w, run) && run.last() == (j, n)
    }
}

/// A run that is extended by one move is a run.
proof fn run_push(nfa: NfaView, w: Seq<char>, run: Seq<(int, int)>, j: int, m: int)
    requires
        nfa.is_run(w, run),
        nfa.step(w, run.last().0, run.last().1, j, m),
    ensures
        nfa.is_run(w, run.push((j, m))),
        run.push((j, m)).last() == (j, m),
{
    let longer = run.push((j, m));
    assert forall|t: int| 0 <= t < longer.len() - 1 implies nfa.step(
        w,
        (#[trigger] longer[t]).0,
        longer[t].1,
        longer[t + 1].0,
        longer[t + 1].1,
    ) by {
        if t < run.len() - 1 {
            assert(nfa.step(w, run[t].0, run[t].1, run[t + 1].0, run[t + 1].1));
        }
    }
}

/// A run can go on along a walk of moves that consume nothing.
proof fn run_follows_walk(
    nfa: NfaView,
    w: Seq<char>,
    run: Seq<(int, int)>,
    walk: Seq<int>,
    upto: int,
)
    requires
        nfa.is_run(w, run),
        nfa.eps_path(walk),
        walk[0] == run.last().0,
        0 <= upto < walk.len(),
    ensures
        nfa.reaches(w, walk[upto], run.last().1),
    decreases upto,
{
    if upto == 0 {
        assert(nfa.is_run(w, run) && run.last() == (walk[0], run.last().1));
    } else {
        run_follows_walk(nfa, w, run, walk, upto - 1);
        let before = choose|r: Seq<(int, int)>| #[trigger]
            nfa.is_run(w, r) && r.last() == (walk[upto - 1], run.last().1);
        assert(nfa.eps_edge(walk[upto - 1], walk[upto - 1 + 1]));
        run_push(nfa, w, before, walk[upto], run.last().1);
    }
}

/// Every active state is reached by a run.
pub proof fn active_is_reached(nfa: NfaView, w: Seq<char>, n: nat, j: int)
    requires
        n <= w.len(),
        nfa.active(w, n).contains(j),
    ensures
        nfa.reaches(w, j, n as int),
    decreases n,
{
    if n == 0 {
        let walk = choose|p: Seq<int>| #[trigger]
            nfa.eps_path(p) && p[0] == nfa.head && p.last() == j;
        let start = seq![(nfa.head, 0int)];
        assert(nfa.is_run(w, start));
        run_follows_walk(nfa, w, start, walk, walk.len() - 1);
    } else {
        let before = nfa.active(w, (n - 1) as nat);
        let i = choose|i: int| before.contains(i) && #[trigger] nfa.moves(i, w[n - 1], j);
        active_is_reached(nfa, w, (n - 1) as nat, i);
        let run = choose|r: Seq<(int, int)>| #[trigger]
            nfa.is_run(w, r) && r.last() == (i, n - 1);
        let o = nfa.states[i]->Transition_output->Some_0;
        run_push(nfa, w, run, o, n as int);
        let walk = choose|p: Seq<int>| #[trigger] nfa.eps_path(p) && p[0] == o && p.last() == j;
        run_follows_walk(nfa, w, run.push((o, n as int)), walk, walk.len() - 1);
    }
}

/// The active states are closed under the moves that consume nothing.
pub proof fn active_follows_edges(nfa: NfaView, w: Seq<char>, n: nat, i: int, j: int)
    requires
        n <= w.len(),
        nfa.active(w, n).contains(i),
        nfa.eps_edge(i, j),
    ensures
        nfa.active(w, n).contains(j),
{
    if n == 0 {
        closure_follows_edges(nfa, nfa.head, i, j);
    } else {
        let before = nfa.active(w, (n - 1) as nat);
        let from = choose|x: int| before.contains(x) && #[trigger] nfa.moves(x, w[n - 1], i);
        let o = nfa.states[from]->Transition_output->Some_0;
        closure_follows_edges(nfa, o, i, j);
        assert(nfa.moves(from, w[n - 1], j));
    }
}

/// In a run the number of consumed characters never goes down, and never goes beyond
/// the length of the input.
proof fn run_positions(nfa: NfaView, w: Seq<char>, run: Seq<(int, int)>, t: int)
    requires
        nfa.is_run(w, run),
        0 <= t < run.len(),
    ensures
        0 <= run[t].1 <= w.len(),
        t > 0 ==> run[t - 1].1 <= run[t].1,
    decreases t,
{
    if t > 0 {
        run_positions(nfa, w, run, t - 1);
        assert(nfa.step(w, run[t - 1].0, run[t - 1].1, run[t - 1 + 1].0, run[t - 1 + 1].1));
    }
}

/// Every state that a run reaches is active.
pub proof fn reached_is_active(nfa: NfaView, w: Seq<char>, run: Seq<(int, int)>)
    requires
        nfa.is_run(w, run),
    ensures
        0 <= run.last().1 <= w.len(),
        nfa.active(w, run.last().1 as nat).contains(run.last().0),
    decreases run.len(),
{
    run_positions(nfa, w, run, run.len() - 1);
    if run.len() == 1 {
        closure_holds_self(nfa, nfa.head);
    } else {
        let shorter = run.drop_last();
        assert forall|t: int| 0 <= t < shorter.len() - 1 implies nfa.step(
            w,
            (#[trigger] shorter[t]).0,
            shorter[t].1,
            shorter[t + 1].0,
            shorter[t + 1].1,
        ) by {
            assert(nfa.step(w, run[t].0, run[t].1, run[t + 1].0, run[t + 1].1));
        }
        reached_is_active(nfa, w, shorter);
        let (i, k) = shorter.last();
        let (j, m) = run.last();
        assert(shorter.last() == run[run.len() - 2]);
        assert(nfa.step(w, run[run.len() - 2].0, run[run.len() - 2].1, run[run.len() - 2 + 1].0, run[run.len() - 2 + 1].1));
        if m == k && nfa.eps_edge(i, j) {
            active_follows_edges(nfa, w, k as nat, i, j);
        } else {
            closure_holds_self(nfa, j);
            assert(nfa.moves(i, w[k], j));
            assert(nfa.active(w, (k + 1) as nat).contains(j));
        }
    }
}

/// The matcher accepts a string exactly when some run over the whole string ends in an
/// accept state.
pub proof fn accepts_iff_run(nfa: NfaView, w: Seq<char>)
    ensures
        nfa.accepts(w) <==> exists|j: int|
            0 <= j < nfa.states.len() && nfa.states[j] is Accept && #[trigger] nfa.reaches(
                w,
                j,
                w.len() as int,
            ),
{
    if nfa.accepts(w) {
        let j = choose|j: int|
            0 <= j < nfa.states.len() && #[trigger] nfa.active(w, w.len()).contains(j)
                && nfa.states[j] is Accept;
        active_is_reached(nfa, w, w.len(), j);
    }
    if exists|j: int|
        0 <= j < nfa.states.len() && nfa.states[j] is Accept && #[trigger] nfa.reaches(
            w,
            j,
            w.len() as int,
        ) {
        let j = choose|j: int|
            0 <= j < nfa.states.len() && nfa.states[j] is Accept && #[trigger] nfa.reaches(
                w,
                j,
                w.len() as int,
            );
        let run = choose|r: Seq<(int, int)>| #[trigger]
            nfa.is_run(w, r) && r.last() == (j, w.len() as int);
        reached_is_active(nfa, w, run);
        assert(nfa.active(w, w.len()).contains(j));
    }
}

} // verus!
