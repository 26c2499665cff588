//! The order of the traversal of a program: every node of the tree is visited exactly
//! once, the article first.
use super::parser::{children_rank_below, find_section, find_section_bounds, forest, AstNodeView, ProgramView};
use vstd::prelude::*;

verus! {

/// The node that `path` leads to from `node`: each number of the path picks a child, the
/// children counted from zero. A number that picks no child leads nowhere.
pub open spec fn node_at(node: AstNodeView, program: ProgramView, path: Seq<int>) -> Option<
    AstNodeView,
>
    decreases path.len(),
{
    if path.len() == 0 {
        Some(node)
    } else {
        let kids = node.children(program);
        if 0 <= path[0] < kids.len() {
            node_at(kids[path[0]], program, path.drop_first())
        } else {
            None
        }
    }
}

/// The place in the traversal of the subtree of `node` at which the node that `path`
/// leads to is visited: behind the node itself, behind the subtrees of the children to
/// the left of the path, and as far into the subtree of the child on the path as the rest
/// of the path says.
pub open spec fn visit_of(node: AstNodeView, program: ProgramView, path: Seq<int>) -> int
    decreases path.len(),
{
    if path.len() == 0 {
        0
    } else {
        let kids = node.children(program);
        1 + forest(kids.take(path[0]), program, node.rank()).len() + visit_of(
            kids[path[0]],
            program,
            path.drop_first(),
        )
    }
}

/// The subtrees of the first `j + 1` nodes are the subtrees of the first `j` nodes and
/// the subtree of the next.
pub proof fn forest_take_step(kids: Seq<AstNodeView>, program: ProgramView, bound: nat, j: int)
    requires
        0 <= j < kids.len(),
        kids[j].rank() < bound,
    ensures
        forest(kids.take(j + 1), program, bound) == forest(kids.take(j), program, bound)
            + kids[j].subtree(program),
{
    let t = kids.take(j + 1);
    assert(t.last() == kids[j]);
    assert(t.drop_last() == kids.take(j));
}

/// The subtrees of fewer nodes stand at the start of the subtrees of more nodes.
pub proof fn forest_take_prefix(
    kids: Seq<AstNodeView>,
    program: ProgramView,
    bound: nat,
    a: int,
    b: int,
)
    requires
        0 <= a <= b <= kids.len(),
        forall|i: int| 0 <= i < kids.len() ==> (#[trigger] kids[i]).rank() < bound,
    ensures
        forest(kids.take(a), program, bound).len() <= forest(kids.take(b), program, bound).len(),
        forall|t: int|
            0 <= t < forest(kids.take(a), program, bound).len() ==> forest(
                kids.take(b),
                program,
                bound,
            )[t] == forest(kids.take(a), program, bound)[t],
    decreases b - a,
{
    if a < b {
        forest_take_prefix(kids, program, bound, a, b - 1);
        forest_take_step(kids, program, bound, b - 1);
    }
}

/// Every node of the tree is visited: the node that a path leads to stands in the
/// traversal, at the place that `visit_of` gives.
pub proof fn node_is_visited(node: AstNodeView, program: ProgramView, path: Seq<int>)
    requires
        node_at(node, program, path) is Some,
    ensures
        0 <= visit_of(node, program, path) < node.subtree(program).len(),
        node.subtree(program)[visit_of(node, program, path)] == node_at(
            node,
            program,
            path,
        )->Some_0,
    decreases path.len(),
{
    if path.len() > 0 {
        let kids = node.children(program);
        let j = path[0];
        let bound = node.rank();
        children_rank_below(node, program);
        node_is_visited(kids[j], program, path.drop_first());
        forest_take_step(kids, program, bound, j);
        forest_take_prefix(kids, program, bound, j + 1, kids.len() as int);
        assert(kids.take(kids.len() as int) == kids);
        let inner = visit_of(kids[j], program, path.drop_first());
        let left = forest(kids.take(j), program, bound).len();
        assert(forest(kids.take(j + 1), program, bound)[left + inner] == kids[j].subtree(
            program,
        )[inner]);
    }
}

/// No node is visited twice: paths that differ lead to visits at places that differ.
pub proof fn visits_differ(
    node: AstNodeView,
    program: ProgramView,
    path: Seq<int>,
    other: Seq<int>,
)
    requires
        node_at(node, program, path) is Some,
        node_at(node, program, other) is Some,
        path != other,
    ensures
        visit_of(node, program, path) != visit_of(node, program, other),
    decreases path.len(),
{
    let kids = node.children(program);
    let bound = node.rank();
    children_rank_below(node, program);
    if path.len() == 0 {
        if other.len() == 0 {
            assert(path =~= other);
        } else {
            node_is_visited(kids[other[0]], program, other.drop_first());
        }
    } else if other.len() == 0 {
        node_is_visited(kids[path[0]], program, path.drop_first());
    } else {
        let j = path[0];
        let k = other[0];
        node_is_visited(kids[j], program, path.drop_first());
        node_is_visited(kids[k], program, other.drop_first());
        if j == k {
            if path.drop_first() == other.drop_first() {
                assert(path =~= seq![j] + path.drop_first());
                assert(other =~= seq![k] + other.drop_first());
            }
            visits_differ(kids[j], program, path.drop_first(), other.drop_first());
        } else if j < k {
            forest_take_step(kids, program, bound, j);
            forest_take_prefix(kids, program, bound, j + 1, k);
        } else {
            forest_take_step(kids, program, bound, k);
            forest_take_prefix(kids, program, bound, k + 1, j);
        }
    }
}

/// The child in whose subtree the place `i` of the subtrees of `kids` lies: the last of
/// the first `n` children whose subtree starts at or before `i`.
pub open spec fn child_holding(
    kids: Seq<AstNodeView>,
    program: ProgramView,
    bound: nat,
    i: int,
    n: nat,
) -> int
    decreases n,
{
    if n <= 1 || n > kids.len() {
        0
    } else if forest(kids.take(n - 1), program, bound).len() <= i {
        n - 1
    } else {
        child_holding(kids, program, bound, i, (n - 1) as nat)
    }
}

/// The child that `child_holding` gives holds the place: its subtree starts at or before
/// the place and ends behind it.
pub proof fn child_holding_bounds(
    kids: Seq<AstNodeView>,
    program: ProgramView,
    bound: nat,
    i: int,
    n: nat,
)
    requires
        0 < n <= kids.len(),
        0 <= i < forest(kids.take(n as int), program, bound).len(),
        forall|m: int| 0 <= m < kids.len() ==> (#[trigger] kids[m]).rank() < bound,
    ensures
        0 <= child_holding(kids, program, bound, i, n) < n,
        forest(kids.take(child_holding(kids, program, bound, i, n)), program, bound).len() <= i,
        i < forest(kids.take(child_holding(kids, program, bound, i, n) + 1), program, bound).len(),
    decreases n,
{
    if n == 1 {
        assert(kids.take(0) == Seq::<AstNodeView>::empty());
    } else if forest(kids.take(n - 1), program, bound).len() <= i {
    } else {
        child_holding_bounds(kids, program, bound, i, (n - 1) as nat);
    }
}

/// The path to the node that is visited at the place `i` of the traversal of the subtree
/// of `node`.
pub open spec fn path_to(node: AstNodeView, program: ProgramView, i: int) -> Seq<int>
    decreases node.rank(),
{
    let kids = node.children(program);
    if i <= 0 || kids.len() == 0 {
        Seq::empty()
    } else {
        let j = child_holding(kids, program, node.rank(), i - 1, kids.len());
        if 0 <= j < kids.len() && kids[j].rank() < node.rank() {
            seq![j] + path_to(
                kids[j],
                program,
                i - 1 - forest(kids.take(j), program, node.rank()).len(),
            )
        } else {
            Seq::empty()
        }
    }
}

/// Nothing but the nodes of the tree is visited: every place of the traversal is the
/// visit of the node that some path leads to.
pub proof fn visit_has_path(node: AstNodeView, program: ProgramView, i: int)
    requires
        0 <= i < node.subtree(program).len(),
    ensures
        node_at(node, program, path_to(node, program, i)) is Some,
        visit_of(node, program, path_to(node, program, i)) == i,
    decreases node.rank(),
{
    let kids = node.children(program);
    let bound = node.rank();
    children_rank_below(node, program);
    if i > 0 {
        assert(kids.take(kids.len() as int) == kids);
        if kids.len() == 0 {
            assert(forest(kids, program, bound).len() == 0);
        } else {
            child_holding_bounds(kids, program, bound, i - 1, kids.len());
            let j = child_holding(kids, program, bound, i - 1, kids.len());
            let left = forest(kids.take(j), program, bound).len();
            forest_take_step(kids, program, bound, j);
            visit_has_path(kids[j], program, i - 1 - left);
            let rest = path_to(kids[j], program, i - 1 - left);
            let path = seq![j] + rest;
            assert(path[0] == j);
            assert(path.drop_first() == rest);
        }
    }
}

impl ProgramView {
    /// True when the article calls every section once: no name is called twice, every
    /// name that is called is the name of a section, and every section is called.
    pub open spec fn calls_each_section_once(self) -> bool {
        let calls = self.article.section_calls;
        &&& calls.no_duplicates()
        &&& forall|i: int| 0 <= i < calls.len() ==> self.has_section(#[trigger] calls[i])
        &&& forall|k: int| 0 <= k < self.sections.len() ==> calls.contains(
            (#[trigger] self.sections[k]).name,
        )
    }
}

/// Where every one of the first `n` names is the name of a section, the names stand for
/// one section each, in order.
pub proof fn resolve_all(program: ProgramView, calls: Seq<Seq<char>>, n: nat)
    requires
        n <= calls.len(),
        forall|i: int| 0 <= i < n ==> program.has_section(#[trigger] calls[i]),
    ensures
        program.resolve(calls, n).len() == n,
        forall|i: int|
            0 <= i < n ==> (#[trigger] program.resolve(calls, n)[i]).name == calls[i]
                && program.resolve(calls, n)[i] == program.sections[find_section(
                program.sections,
                calls[i],
                0,
            )],
    decreases n,
{
    if n > 0 {
        resolve_all(program, calls, (n - 1) as nat);
        find_section_bounds(program.sections, calls[n - 1], 0);
    }
}

/// In a program that calls each of its sections once, every section is a child of the
/// article exactly once: the children of the article are the sections, in the order of
/// the calls.
pub proof fn sections_are_visited_once(program: ProgramView, k: int)
    requires
        program.wf(),
        program.calls_each_section_once(),
        0 <= k < program.sections.len(),
    ensures
        ({
            let kids = AstNodeView::Article(program.article).children(program);
            let calls = program.article.section_calls;
            let place = calls.index_of(program.sections[k].name);
            &&& 0 <= place < kids.len()
            &&& kids[place] == AstNodeView::Section(program.sections[k])
            &&& forall|other: int|
                0 <= other < kids.len() && other != place ==> kids[other] != AstNodeView::Section(
                    program.sections[k],
                )
        }),
{
    let calls = program.article.section_calls;
    let name = program.sections[k].name;
    resolve_all(program, calls, calls.len());
    let place = calls.index_of(name);
    let resolved = program.resolve(calls, calls.len());
    find_section_bounds(program.sections, name, 0);
    let found = find_section(program.sections, name, 0);
    if found < k {
        assert(program.sections[found].name != program.sections[k].name);
    }
    assert(resolved[place] == program.sections[k]);
    let kids = AstNodeView::Article(program.article).children(program);
    assert forall|other: int| 0 <= other < kids.len() && other != place implies kids[other]
        != AstNodeView::Section(program.sections[k]) by {
        assert(resolved[other].name == calls[other]);
        assert(calls[other] != calls[place]);
    }
}

impl ProgramView {
    /// The traversal starts with the article.
    pub proof fn article_is_first(self)
        ensures
            self.preorder().len() > 0,
            self.preorder()[0] == AstNodeView::Article(self.article),
    {
    }
}

} // verus!
