//! The regular-expression engine is correct: the matcher of a well-formed pattern
//! accepts exactly the strings that the pattern denotes.
use super::grammar::{well_formed, well_formed_pattern_compiles, Syntax};
use super::layout::build_gives_automaton;
use super::matcher::{closure_holds_self, compile_spec};
use super::meaning::{arrives, closed_part, emit_shape, held_part_is_closed, holds_part, run_spans, spans_has_run};
use super::nfa::{build_spec, NfaView, StateView};
use super::runs::{accepts_iff_run, active_follows_edges};
use vstd::prelude::*;

verus! {

/// The target of a run from an active state is active when the run is over.
proof fn arrival_is_active(
    nfa: NfaView,
    lo: int,
    hi: int,
    tgt: int,
    w: Seq<char>,
    end: int,
    i: int,
    k: int,
    n: nat,
)
    requires
        arrives(nfa, lo, hi, tgt, w, end, i, k, n),
        0 <= k <= w.len(),
        nfa.active(w, k as nat).contains(i),
    ensures
        0 <= end <= w.len(),
        nfa.active(w, end as nat).contains(tgt),
    decreases n,
{
    if n > 0 {
        match nfa.states[i] {
            StateView::Transition { condition, output: Some(o), .. } => {
                closure_holds_self(nfa, o);
                assert(nfa.moves(i, w[k], o));
                assert(nfa.active(w, (k + 1) as nat).contains(o));
                arrival_is_active(nfa, lo, hi, tgt, w, end, o, k + 1, (n - 1) as nat);
            },
            StateView::Split { left: Some(l), right: Some(r), .. } => {
                if arrives(nfa, lo, hi, tgt, w, end, l, k, (n - 1) as nat) {
                    assert(nfa.eps_edge(i, l));
                    active_follows_edges(nfa, w, k as nat, i, l);
                    arrival_is_active(nfa, lo, hi, tgt, w, end, l, k, (n - 1) as nat);
                } else {
                    assert(nfa.eps_edge(i, r));
                    active_follows_edges(nfa, w, k as nat, i, r);
                    arrival_is_active(nfa, lo, hi, tgt, w, end, r, k, (n - 1) as nat);
                }
            },
            _ => {},
        }
    }
}

/// From every place of a run that ends in the accept state with all consumed, the rest
/// of the run arrives there.
proof fn run_arrives(nfa: NfaView, size: int, w: Seq<char>, run: Seq<(int, int)>, t: int)
    requires
        nfa.is_run(w, run),
        run.last() == (size, w.len() as int),
        closed_part(nfa, 0, size, size),
        nfa.states.len() == size + 1,
        nfa.states[size] is Accept,
        0 <= t < run.len(),
    ensures
        arrives(
            nfa,
            0,
            size,
            size,
            w,
            w.len() as int,
            run[t].0,
            run[t].1,
            (run.len() - 1 - t) as nat,
        ),
    decreases run.len() - t,
{
    if t < run.len() - 1 {
        run_arrives(nfa, size, w, run, t + 1);
        assert(nfa.step(w, run[t].0, run[t].1, run[t + 1].0, run[t + 1].1));
        let i = run[t].0;
        assert(0 <= i < size);
        assert(nfa.states[i] is Transition || nfa.states[i] is Split);
    }
}

/// The automaton of a pattern accepts exactly the strings that the pattern denotes.
pub proof fn automaton_accepts_denoted(s: Syntax, w: Seq<char>)
    requires
        s.ascending(),
    ensures
        build_spec(s.post()) == Ok::<NfaView, Seq<char>>(s.automaton()),
        s.automaton().accepts(w) <==> s.denotes(w),
{
    build_gives_automaton(s);
    let nfa = s.automaton();
    let size = s.size() as int;
    let part = s.emit(0, 0, Some(size));
    emit_shape(s, 0, 0, Some(size));
    assert(nfa.states.subrange(0, size) =~= part);
    assert(holds_part(nfa, s, 0, 0, size));
    held_part_is_closed(nfa, s, 0, 0, size);
    assert(nfa.states[size] is Accept);
    accepts_iff_run(nfa, w);
    if nfa.accepts(w) {
        let j = choose|j: int|
            0 <= j < nfa.states.len() && nfa.states[j] is Accept && #[trigger] nfa.reaches(
                w,
                j,
                w.len() as int,
            );
        assert(j == size) by {
            if j < size {
                assert(nfa.states[j] is Transition || nfa.states[j] is Split);
            }
        }
        let run = choose|r: Seq<(int, int)>| #[trigger]
            nfa.is_run(w, r) && r.last() == (j, w.len() as int);
        run_arrives(nfa, size, w, run, 0);
        run_spans(nfa, s, 0, 0, size, w, 0, w.len() as int, (run.len() - 1) as nat);
    }
    if s.denotes(w) {
        spans_has_run(nfa, s, 0, 0, size, w, 0, w.len() as int);
        let n = choose|n: nat| arrives(nfa, 0, size, size, w, w.len() as int, s.entry(0), 0, n);
        closure_holds_self(nfa, nfa.head);
        arrival_is_active(nfa, 0, size, size, w, w.len() as int, s.entry(0), 0, n);
        assert(nfa.active(w, w.len()).contains(size));
    }
}

/// The matcher of a well-formed pattern holds the automaton of the pattern's syntax
/// tree, and accepts exactly the strings that the pattern denotes.
pub proof fn matcher_accepts_denoted(pattern: Seq<char>, s: Syntax, w: Seq<char>)
    requires
        well_formed(pattern, s),
    ensures
        compile_spec(pattern) == Ok::<NfaView, Seq<char>>(s.automaton()),
        s.automaton().accepts(w) <==> s.denotes(w),
{
    well_formed_pattern_compiles(pattern, s);
    automaton_accepts_denoted(s, w);
}

} // verus!
