use super::error::{empty_span, no_span, ParserError, ParserErrorView};
use crate::diag::{Span, SpanView};
use crate::lexer::error::{LexerError, LexerErrorView};
use crate::lexer::lexer::{item_views, Lexer};
use crate::lexer::tokens::{Token, TokenKind, TokenKindView, TokenView};
use vstd::prelude::*;
use vstd::string::*;

verus! {

/// A program: its one article, and its sections in the order of their declaration. No two
/// sections of a parsed program have the same name.
#[derive(Debug)]
pub struct Program {
    pub article: ArticleDeclaration,
    pub sections: Vec<SectionDeclaration>,
}

/// The article: its name, and the names of the sections that it calls, in order.
#[derive(Debug, Clone)]
pub struct ArticleDeclaration {
    pub name: String,
    pub section_calls: Vec<String>,
}

/// A section: its name and its paragraphs.
#[derive(Debug, Clone)]
pub struct SectionDeclaration {
    pub name: String,
    pub paragraphs: Vec<Paragraph>,
}

/// A paragraph: its statements.
#[derive(Debug, Clone)]
pub struct Paragraph {
    pub statements: Vec<Statement>,
}

/// A statement of a paragraph. A heading holds its level and its text.
#[derive(Debug, Clone)]
pub enum Statement {
    Heading(String, String),
    TextBlock(String),
    CodeBlock(String),
    Aside(String),
    List(List),
}

/// A list of items, numbered or not.
#[derive(Debug, Clone)]
pub enum List {
    Ordered(Vec<String>),
    Unordered(Vec<String>),
}

/// The mathematical value of a `List`.
pub enum ListView {
    Ordered(Seq<Seq<char>>),
    Unordered(Seq<Seq<char>>),
}

/// The mathematical value of a `Statement`.
pub enum StatementView {
    Heading(Seq<char>, Seq<char>),
    TextBlock(Seq<char>),
    CodeBlock(Seq<char>),
    Aside(Seq<char>),
    List(ListView),
}

/// The mathematical value of a `Paragraph`.
pub struct ParagraphView {
    pub statements: Seq<StatementView>,
}

/// The mathematical value of a `SectionDeclaration`.
pub struct SectionView {
    pub name: Seq<char>,
    pub paragraphs: Seq<ParagraphView>,
}

/// The mathematical value of an `ArticleDeclaration`.
pub struct ArticleView {
    pub name: Seq<char>,
    pub section_calls: Seq<Seq<char>>,
}

/// The mathematical value of a `Program`.
pub struct ProgramView {
    pub article: ArticleView,
    pub sections: Seq<SectionView>,
}

/// The texts of a list of strings.
pub open spec fn strings(v: Seq<String>) -> Seq<Seq<char>> {
    v.map_values(|s: String| s@)
}

impl View for List {
    type V = ListView;

    open spec fn view(&self) -> ListView {
        match self {
            List::Ordered(items) => ListView::Ordered(strings(items@)),
            List::Unordered(items) => ListView::Unordered(strings(items@)),
        }
    }
}

impl View for Statement {
    type V = StatementView;

    open spec fn view(&self) -> StatementView {
        match self {
            Statement::Heading(level, text) => StatementView::Heading(level@, text@),
            Statement::TextBlock(text) => StatementView::TextBlock(text@),
            Statement::CodeBlock(text) => StatementView::CodeBlock(text@),
            Statement::Aside(text) => StatementView::Aside(text@),
            Statement::List(list) => StatementView::List(list@),
        }
    }
}

/// The values of a list of statements.
pub open spec fn statement_views(v: Seq<Statement>) -> Seq<StatementView> {
    v.map_values(|s: Statement| s@)
}

impl View for Paragraph {
    type V = ParagraphView;

    open spec fn view(&self) -> ParagraphView {
        ParagraphView { statements: statement_views(self.statements@) }
    }
}

/// The values of a list of paragraphs.
pub open spec fn paragraph_views(v: Seq<Paragraph>) -> Seq<ParagraphView> {
    v.map_values(|p: Paragraph| p@)
}

impl View for SectionDeclaration {
    type V = SectionView;

    open spec fn view(&self) -> SectionView {
        SectionView { name: self.name@, paragraphs: paragraph_views(self.paragraphs@) }
    }
}

/// The values of a list of sections.
pub open spec fn section_views(v: Seq<SectionDeclaration>) -> Seq<SectionView> {
    v.map_values(|s: SectionDeclaration| s@)
}

impl View for ArticleDeclaration {
    type V = ArticleView;

    open spec fn view(&self) -> ArticleView {
        ArticleView { name: self.name@, section_calls: strings(self.section_calls@) }
    }
}

impl View for Program {
    type V = ProgramView;

    open spec fn view(&self) -> ProgramView {
        ProgramView { article: self.article@, sections: section_views(self.sections@) }
    }
}

/// The place of the first section at or behind `from` that has the name `name`, or the
/// number of sections if there is none.
pub open spec fn find_section(sections: Seq<SectionView>, name: Seq<char>, from: int) -> int
    decreases sections.len() - from,
{
    if from < 0 || from >= sections.len() {
        sections.len() as int
    } else if sections[from].name == name {
        from
    } else {
        find_section(sections, name, from + 1)
    }
}

/// The place that `find_section` gives lies at or behind `from`; the section there has
/// the name, and no section between has it.
pub proof fn find_section_bounds(sections: Seq<SectionView>, name: Seq<char>, from: int)
    requires
        0 <= from <= sections.len(),
    ensures
        from <= find_section(sections, name, from) <= sections.len(),
        find_section(sections, name, from) < sections.len() ==> sections[find_section(
            sections,
            name,
            from,
        )].name == name,
        forall|i: int|
            from <= i < find_section(sections, name, from) ==> (#[trigger] sections[i]).name
                != name,
    decreases sections.len() - from,
{
    if from < sections.len() && sections[from].name != name {
        find_section_bounds(sections, name, from + 1);
    }
}

/// True when no two of the sections have the same name.
pub open spec fn distinct_names(sections: Seq<SectionView>) -> bool {
    forall|i: int, j: int|
        0 <= i < j < sections.len() ==> (#[trigger] sections[i]).name != (
        #[trigger] sections[j]).name
}

/// A section whose name none of the sections has can join them.
pub proof fn distinct_names_after_push(sections: Seq<SectionView>, added: SectionView)
    requires
        distinct_names(sections),
        find_section(sections, added.name, 0) >= sections.len(),
    ensures
        distinct_names(sections.push(added)),
{
    find_section_bounds(sections, added.name, 0);
    let grown = sections.push(added);
    assert forall|i: int, j: int| 0 <= i < j < grown.len() implies (#[trigger] grown[i]).name != (
    #[trigger] grown[j]).name by {
        if j < sections.len() {
            assert(sections[i].name != sections[j].name);
        } else {
            assert(sections[i].name != added.name);
        }
    }
}

impl ProgramView {
    /// True when no two sections have the same name.
    pub open spec fn wf(self) -> bool {
        distinct_names(self.sections)
    }

    /// True when the program has a section with the name `name`.
    pub open spec fn has_section(self, name: Seq<char>) -> bool {
        find_section(self.sections, name, 0) < self.sections.len()
    }

    /// The sections that the first `n` of the names `calls` stand for, in the order of the
    /// names. A name that no section has stands for none.
    pub open spec fn resolve(self, calls: Seq<Seq<char>>, n: nat) -> Seq<SectionView>
        decreases n,
    {
        if n == 0 || n > calls.len() {
            Seq::empty()
        } else if self.has_section(calls[n - 1]) {
            self.resolve(calls, (n - 1) as nat).push(
                self.sections[find_section(self.sections, calls[n - 1], 0)],
            )
        } else {
            self.resolve(calls, (n - 1) as nat)
        }
    }
}

impl Program {
    /// The section with the name `name`, if the program has one.
    pub fn section(&self, name: &str) -> (r: Option<&SectionDeclaration>)
        ensures
            match r {
                Some(s) => self@.has_section(name@) && s@ == self@.sections[find_section(
                    self@.sections,
                    name@,
                    0,
                )],
                None => !self@.has_section(name@),
            },
    {
        let key = String::from_str(name);
        let mut i: usize = 0;
        while i < self.sections.len()
            invariant
                i <= self.sections.len(),
                key@ == name@,
                find_section(self@.sections, name@, i as int) == find_section(
                    self@.sections,
                    name@,
                    0,
                ),
            decreases self.sections.len() - i,
        {
            if self.sections[i].name == key {
                return Some(&self.sections[i]);
            }
            i += 1;
        }
        None
    }
}


/// A node of the tree that a program forms, as a reference into the program.
#[derive(Debug, Clone, Copy)]
pub enum AstNode<'a> {
    Article(&'a ArticleDeclaration),
    Section(&'a SectionDeclaration),
    Paragraph(&'a Paragraph),
    Statement(&'a Statement),
    List(&'a List),
}

/// The mathematical value of an `AstNode`.
pub enum AstNodeView {
    Article(ArticleView),
    Section(SectionView),
    Paragraph(ParagraphView),
    Statement(StatementView),
    List(ListView),
}

impl<'a> View for AstNode<'a> {
    type V = AstNodeView;

    open spec fn view(&self) -> AstNodeView {
        match self {
            AstNode::Article(a) => AstNodeView::Article(a@),
            AstNode::Section(s) => AstNodeView::Section(s@),
            AstNode::Paragraph(p) => AstNodeView::Paragraph(p@),
            AstNode::Statement(s) => AstNodeView::Statement(s@),
            AstNode::List(l) => AstNodeView::List(l@),
        }
    }
}

/// The values of a list of nodes.
pub open spec fn node_views(v: Seq<AstNode>) -> Seq<AstNodeView> {
    v.map_values(|n: AstNode| n@)
}

impl AstNodeView {
    /// How far above the leaves a node of this kind stands.
    pub open spec fn rank(self) -> nat {
        match self {
            AstNodeView::Article(_) => 4,
            AstNodeView::Section(_) => 3,
            AstNodeView::Paragraph(_) => 2,
            AstNodeView::Statement(_) => 1,
            AstNodeView::List(_) => 0,
        }
    }

    /// The children of the node, from left to right: of the article, the sections that
    /// its calls stand for; of a section, its paragraphs; of a paragraph, its statements;
    /// of a statement that is a list, that list. Other nodes have none.
    pub open spec fn children(self, program: ProgramView) -> Seq<AstNodeView> {
        match self {
            AstNodeView::Article(a) => program.resolve(
                a.section_calls,
                a.section_calls.len(),
            ).map_values(|s: SectionView| AstNodeView::Section(s)),
            AstNodeView::Section(s) => s.paragraphs.map_values(
                |p: ParagraphView| AstNodeView::Paragraph(p),
            ),
            AstNodeView::Paragraph(p) => p.statements.map_values(
                |s: StatementView| AstNodeView::Statement(s),
            ),
            AstNodeView::Statement(s) => match s {
                StatementView::List(l) => seq![AstNodeView::List(l)],
                _ => Seq::empty(),
            },
            AstNodeView::List(_) => Seq::empty(),
        }
    }

    /// The node and what stands below it, in preorder: the node first, then the subtree
    /// of each child, from left to right.
    pub open spec fn subtree(self, program: ProgramView) -> Seq<AstNodeView>
        decreases self.rank(), 1nat, 0nat,
    {
        seq![self] + forest(self.children(program), program, self.rank())
    }
}

/// The subtrees of `nodes`, one after the other; `bound` lies above the rank of every
/// node in `nodes`.
pub open spec fn forest(nodes: Seq<AstNodeView>, program: ProgramView, bound: nat) -> Seq<
    AstNodeView,
>
    decreases bound, 0nat, nodes.len(),
{
    if nodes.len() == 0 {
        Seq::empty()
    } else if nodes.last().rank() < bound {
        forest(nodes.drop_last(), program, bound) + nodes.last().subtree(program)
    } else {
        forest(nodes.drop_last(), program, bound)
    }
}

/// The nodes that a traversal with the stack `stack` has yet to visit, in the order of
/// the visits: the subtree of the topmost node first.
pub open spec fn pending(stack: Seq<AstNodeView>, program: ProgramView) -> Seq<AstNodeView>
    decreases stack.len(),
{
    if stack.len() == 0 {
        Seq::empty()
    } else {
        stack.last().subtree(program) + pending(stack.drop_last(), program)
    }
}

impl ProgramView {
    /// The nodes of the program in the order of a traversal: the article first, then each
    /// section that the article calls with all that stands below it.
    pub open spec fn preorder(self) -> Seq<AstNodeView> {
        AstNodeView::Article(self.article).subtree(self)
    }
}

/// The children of a node stand below the node.
pub proof fn children_rank_below(node: AstNodeView, program: ProgramView)
    ensures
        forall|i: int|
            0 <= i < node.children(program).len() ==> (#[trigger] node.children(
                program,
            )[i]).rank() < node.rank(),
{
}

/// The subtrees of a list of nodes are the subtree of the first node and the subtrees of
/// the rest.
pub proof fn forest_unfold_front(nodes: Seq<AstNodeView>, program: ProgramView, bound: nat)
    requires
        nodes.len() > 0,
        forall|i: int| 0 <= i < nodes.len() ==> (#[trigger] nodes[i]).rank() < bound,
    ensures
        forest(nodes, program, bound) == nodes[0].subtree(program) + forest(
            nodes.drop_first(),
            program,
            bound,
        ),
    decreases nodes.len(),
{
    if nodes.len() == 1 {
        assert(nodes.drop_last() == Seq::<AstNodeView>::empty());
        assert(nodes.drop_first() == Seq::<AstNodeView>::empty());
        assert(forest(nodes.drop_last(), program, bound) == Seq::<AstNodeView>::empty());
        assert(nodes.last() == nodes[0]);
    } else {
        let front = nodes.drop_last();
        assert(front[0] == nodes[0]);
        forest_unfold_front(front, program, bound);
        assert(front.drop_first() == nodes.drop_first().drop_last());
        assert(nodes.drop_first().last() == nodes.last());
        assert(nodes.last().rank() < bound);
    }
}

/// Pushing the children of a node in reverse, so that the leftmost comes to lie on top,
/// puts their subtrees in front of what was pending.
pub proof fn pending_after_push(
    rest: Seq<AstNodeView>,
    kids: Seq<AstNodeView>,
    program: ProgramView,
    bound: nat,
    from: int,
)
    requires
        0 <= from <= kids.len(),
        forall|i: int| 0 <= i < kids.len() ==> (#[trigger] kids[i]).rank() < bound,
    ensures
        pending(rest + kids.subrange(from, kids.len() as int).reverse(), program) == forest(
            kids.subrange(from, kids.len() as int),
            program,
            bound,
        ) + pending(rest, program),
    decreases kids.len() - from,
{
    let tail = kids.subrange(from, kids.len() as int);
    if from == kids.len() {
        assert(tail.reverse() == Seq::<AstNodeView>::empty());
        assert(rest + tail.reverse() == rest);
    } else {
        let shorter = kids.subrange(from + 1, kids.len() as int);
        pending_after_push(rest, kids, program, bound, from + 1);
        let stack = rest + tail.reverse();
        assert(stack.last() == kids[from]);
        assert(stack.drop_last() == rest + shorter.reverse());
        assert(tail[0] == kids[from]);
        assert(tail.drop_first() == shorter);
        assert forall|i: int| 0 <= i < tail.len() implies (#[trigger] tail[i]).rank() < bound by {
            assert(tail[i] == kids[from + i]);
        }
        forest_unfold_front(tail, program, bound);
    }
}

impl<'a> AstNode<'a> {
    /// The children of the node in `program`, from left to right.
    pub fn children(&self, program: &'a Program) -> (r: Vec<AstNode<'a>>)
        ensures
            node_views(r@) == self@.children(program@),
    {
        let mut out: Vec<AstNode<'a>> = Vec::new();
        match self {
            AstNode::Article(article) => {
                let calls = &article.section_calls;
                let ghost names = strings(calls@);
                let mut i: usize = 0;
                assert(node_views(out@) == program@.resolve(names, 0).map_values(
                    |s: SectionView| AstNodeView::Section(s),
                ));
                while i < calls.len()
                    invariant
                        i <= calls.len(),
                        names == strings(calls@),
                        node_views(out@) == program@.resolve(names, i as nat).map_values(
                            |s: SectionView| AstNodeView::Section(s),
                        ),
                    decreases calls.len() - i,
                {
                    let ghost before = node_views(out@);
                    assert(names[i as int] == calls@[i as int]@);
                    match program.section(calls[i].as_str()) {
                        Some(section) => {
                            out.push(AstNode::Section(section));
                            assert(node_views(out@) == before.push(AstNodeView::Section(section@)));
                            assert(program@.resolve(names, (i + 1) as nat).map_values(
                                |s: SectionView| AstNodeView::Section(s),
                            ) == before.push(AstNodeView::Section(section@)));
                        },
                        None => {},
                    }
                    i += 1;
                }
            },
            AstNode::Section(section) => {
                let mut i: usize = 0;
                while i < section.paragraphs.len()
                    invariant
                        i <= section.paragraphs.len(),
                        node_views(out@) == section@.paragraphs.take(i as int).map_values(
                            |p: ParagraphView| AstNodeView::Paragraph(p),
                        ),
                    decreases section.paragraphs.len() - i,
                {
                    let ghost before = node_views(out@);
                    let ghost one = section@.paragraphs[i as int];
                    out.push(AstNode::Paragraph(&section.paragraphs[i]));
                    i += 1;
                    assert(node_views(out@) == before.push(AstNodeView::Paragraph(one)));
                    assert(section@.paragraphs.take(i as int) == section@.paragraphs.take(
                        i - 1,
                    ).push(one));
                    assert(section@.paragraphs.take(i as int).map_values(
                        |p: ParagraphView| AstNodeView::Paragraph(p),
                    ) == before.push(AstNodeView::Paragraph(one)));
                }
                assert(section@.paragraphs.take(i as int) == section@.paragraphs);
            },
            AstNode::Paragraph(paragraph) => {
                let mut i: usize = 0;
                while i < paragraph.statements.len()
                    invariant
                        i <= paragraph.statements.len(),
                        node_views(out@) == paragraph@.statements.take(i as int).map_values(
                            |s: StatementView| AstNodeView::Statement(s),
                        ),
                    decreases paragraph.statements.len() - i,
                {
                    let ghost before = node_views(out@);
                    let ghost one = paragraph@.statements[i as int];
                    out.push(AstNode::Statement(&paragraph.statements[i]));
                    i += 1;
                    assert(node_views(out@) == before.push(AstNodeView::Statement(one)));
                    assert(paragraph@.statements.take(i as int) == paragraph@.statements.take(
                        i - 1,
                    ).push(one));
                    assert(paragraph@.statements.take(i as int).map_values(
                        |s: StatementView| AstNodeView::Statement(s),
                    ) == before.push(AstNodeView::Statement(one)));
                }
                assert(paragraph@.statements.take(i as int) == paragraph@.statements);
            },
            AstNode::Statement(stmt) => {
                match stmt {
                    Statement::List(list) => {
                        out.push(AstNode::List(list));
                        assert(node_views(out@) == seq![AstNodeView::List(list@)]);
                    },
                    _ => {
                        assert(node_views(out@) == Seq::<AstNodeView>::empty());
                    },
                }
            },
            AstNode::List(_) => {
                assert(node_views(out@) == Seq::<AstNodeView>::empty());
            },
        }
        out
    }
}

/// A traversal of a program in preorder, one node at a call.
pub struct ASTIterator<'a> {
    program: &'a Program,
    stack: Vec<AstNode<'a>>,
}

/// The mathematical value of a traversal: the program, and the nodes that wait on the
/// stack, the topmost last.
pub struct TraversalView {
    pub program: ProgramView,
    pub stack: Seq<AstNodeView>,
}

impl TraversalView {
    /// The nodes that the traversal has yet to visit, in the order of the visits.
    pub open spec fn remaining(self) -> Seq<AstNodeView> {
        pending(self.stack, self.program)
    }
}

impl<'a> View for ASTIterator<'a> {
    type V = TraversalView;

    closed spec fn view(&self) -> TraversalView {
        TraversalView { program: self.program@, stack: node_views(self.stack@) }
    }
}

impl<'a> ASTIterator<'a> {
    /// A traversal of `program` that has visited nothing yet.
    pub fn new(program: &'a Program) -> (r: Self)
        ensures
            r@.program == program@,
            r@.remaining() == program@.preorder(),
    {
        let mut stack: Vec<AstNode<'a>> = Vec::new();
        stack.push(AstNode::Article(&program.article));
        proof {
            let top = AstNodeView::Article(program@.article);
            assert(node_views(stack@) == seq![top]);
            assert(seq![top].drop_last() == Seq::<AstNodeView>::empty());
            assert(pending(seq![top].drop_last(), program@) == Seq::<AstNodeView>::empty());
            assert(pending(seq![top], program@) == top.subtree(program@));
        }
        Self { program, stack }
    }

    /// Visits the next node: hands out the first of the nodes that remain, and leaves the
    /// others. Hands out nothing when none remains.
    pub fn next_node(&mut self) -> (r: Option<AstNode<'a>>)
        ensures
            final(self)@.program == old(self)@.program,
            match r {
                Some(node) => old(self)@.remaining() == seq![node@] + final(self)@.remaining(),
                None => old(self)@.remaining() == Seq::<AstNodeView>::empty() && final(self)@
                    == old(self)@,
            },
    {
        let ghost before = node_views(self.stack@);
        match self.stack.pop() {
            None => None,
            Some(node) => {
                let ghost rest = node_views(self.stack@);
                assert(rest == before.drop_last());
                assert(before.last() == node@);
                let kids = node.children(self.program);
                let ghost kv = node_views(kids@);
                proof {
                    children_rank_below(node@, self.program@);
                }
                let mut i: usize = kids.len();
                assert(kv.subrange(i as int, kv.len() as int).reverse() == Seq::<
                    AstNodeView,
                >::empty());
                while i > 0
                    invariant
                        i <= kids.len(),
                        kv == node_views(kids@),
                        node_views(self.stack@) == rest + kv.subrange(
                            i as int,
                            kv.len() as int,
                        ).reverse(),
                        self.program == old(self).program,
                    decreases i,
                {
                    i -= 1;
                    let ghost below = node_views(self.stack@);
                    self.stack.push(kids[i]);
                    assert(node_views(self.stack@) == below.push(kv[i as int]));
                    assert(kv.subrange(i as int, kv.len() as int).reverse() == kv.subrange(
                        i + 1,
                        kv.len() as int,
                    ).reverse().push(kv[i as int]));
                    assert(below.push(kv[i as int]) == rest + kv.subrange(
                        i + 1,
                        kv.len() as int,
                    ).reverse().push(kv[i as int]));
                }
                proof {
                    pending_after_push(rest, kv, self.program@, node@.rank(), 0);
                    assert(kv.subrange(0, kv.len() as int) == kv);
                    assert(node@.subtree(self.program@) + pending(rest, self.program@) == seq![
                        node@,
                    ] + (forest(kv, self.program@, node@.rank()) + pending(rest, self.program@)));
                }
                Some(node)
            },
        }
    }

    /// Visits all the nodes that remain, and hands them out in the order of the visits.
    pub fn collect_nodes(&mut self) -> (r: Vec<AstNode<'a>>)
        ensures
            node_views(r@) == old(self)@.remaining(),
            final(self)@.program == old(self)@.program,
    {
        let mut out: Vec<AstNode<'a>> = Vec::new();
        assert(node_views(out@) == Seq::<AstNodeView>::empty());
        loop
            invariant_except_break
                node_views(out@) + self@.remaining() == old(self)@.remaining(),
            invariant
                self@.program == old(self)@.program,
            ensures
                node_views(out@) == old(self)@.remaining(),
            decreases self@.remaining().len(),
        {
            let ghost done = node_views(out@);
            match self.next_node() {
                Some(node) => {
                    out.push(node);
                    assert(node_views(out@) == done.push(node@));
                    assert(done.push(node@) + self@.remaining() == done + (seq![node@]
                        + self@.remaining()));
                },
                None => {
                    assert(done + Seq::<AstNodeView>::empty() == done);
                    break ;
                },
            }
        }
        out
    }
}

impl Program {
    /// A traversal of the program in preorder: the article, then each section that the
    /// article calls, in the order of the calls, with its paragraphs and their statements.
    pub fn iter_ast(&self) -> (r: ASTIterator<'_>)
        ensures
            r@.program == self@,
            r@.remaining() == self@.preorder(),
    {
        ASTIterator::new(self)
    }
}


/// What the lexer gave for one token: the token or an error.
pub type TokenItem = Result<TokenView, LexerErrorView>;

/// What a step of the parser gives: a value and the place behind the tokens that it took,
/// or an error.
pub type Parsed<T> = Result<(T, nat), ParserErrorView>;

/// What the parser reads: the items that the lexer gave, and the source for the errors.
pub struct Input {
    pub tokens: Seq<TokenItem>,
    pub src: Seq<char>,
}

/// A result with `front` put before the list that it holds.
pub open spec fn prepend<T>(front: Seq<T>, r: Parsed<Seq<T>>) -> Parsed<Seq<T>> {
    match r {
        Ok((rest, p)) => Ok((front + rest, p)),
        Err(e) => Err(e),
    }
}

impl Input {
    /// An error with the message `msg` at `span`, against the parser's source.
    pub open spec fn error(self, msg: Seq<char>, span: SpanView) -> ParserErrorView {
        ParserErrorView { msg, span, src: self.src }
    }

    /// The token at `pos`, without taking it: nothing at the end of the tokens, and the
    /// lexer's error where the lexer failed.
    pub open spec fn peek(self, pos: nat) -> Result<Option<TokenView>, ParserErrorView> {
        if pos < self.tokens.len() {
            match self.tokens[pos as int] {
                Ok(t) => Ok(Some(t)),
                Err(e) => Err(ParserErrorView::from_lexer(e)),
            }
        } else {
            Ok(None)
        }
    }

    /// Takes the token at `pos`. At the end of the tokens there is none to take.
    pub open spec fn next(self, pos: nat) -> Parsed<TokenView> {
        if pos < self.tokens.len() {
            match self.tokens[pos as int] {
                Ok(t) => Ok((t, pos + 1)),
                Err(e) => Err(ParserErrorView::from_lexer(e)),
            }
        } else {
            Err(self.error("Unexpected end of input"@, no_span()))
        }
    }

    /// Takes the token at `pos`, which must be of the kind `expected`.
    pub open spec fn expect_token(self, pos: nat, expected: TokenKindView) -> Parsed<()> {
        match self.next(pos) {
            Ok((t, p)) => if t.kind == expected {
                Ok(((), p))
            } else {
                Err(
                    self.error(
                        "Expected "@ + expected.debug() + " but found "@ + t.kind.debug(),
                        t.span,
                    ),
                )
            },
            Err(e) => Err(e),
        }
    }

    /// Takes the token at `pos`, which must be an identifier, and gives its text.
    pub open spec fn expect_ident(self, pos: nat) -> Parsed<Seq<char>> {
        match self.next(pos) {
            Ok((t, p)) => match t.kind {
                TokenKindView::Ident(s) => Ok((s, p)),
                other => Err(
                    self.error("Expected identifier, found "@ + other.debug(), t.span),
                ),
            },
            Err(e) => Err(e),
        }
    }

    /// Takes the token at `pos`, which must be an identifier or a text block, and gives
    /// its text. `complaint` starts the message for another token.
    pub open spec fn text_or_ident(self, pos: nat, complaint: Seq<char>) -> Parsed<Seq<char>> {
        match self.next(pos) {
            Ok((t, p)) => match t.kind {
                TokenKindView::Ident(s) => Ok((s, p)),
                TokenKindView::TextBlock(s) => Ok((s, p)),
                other => Err(self.error(complaint + other.debug(), t.span)),
            },
            Err(e) => Err(e),
        }
    }

    /// Tests whether a list of items ends at `pos`: at a closing brace, or at the end of
    /// the tokens.
    pub open spec fn at_end(self, pos: nat) -> Result<bool, ParserErrorView> {
        match self.peek(pos) {
            Ok(Some(t)) => Ok(t.kind == TokenKindView::RBrace),
            Ok(None) => Ok(true),
            Err(e) => Err(e),
        }
    }

    /// The identifiers from `pos` up to the end of their list.
    pub open spec fn idents_until(self, pos: nat) -> Parsed<Seq<Seq<char>>>
        decreases self.tokens.len() - pos,
    {
        match self.at_end(pos) {
            Err(e) => Err(e),
            Ok(true) => Ok((Seq::empty(), pos)),
            Ok(false) => match self.expect_ident(pos) {
                Err(e) => Err(e),
                Ok((x, p)) => prepend(seq![x], self.idents_until(p)),
            },
        }
    }

    /// The heading's or aside's or item's text between braces, from the opening brace at
    /// `pos` on.
    pub open spec fn braced_text(self, pos: nat, complaint: Seq<char>) -> Parsed<Seq<char>> {
        match self.expect_token(pos, TokenKindView::LBrace) {
            Err(e) => Err(e),
            Ok((_, pb)) => match self.text_or_ident(pb, complaint) {
                Err(e) => Err(e),
                Ok((text, pc)) => match self.expect_token(pc, TokenKindView::RBrace) {
                    Err(e) => Err(e),
                    Ok((_, pd)) => Ok((text, pd)),
                },
            },
        }
    }

    /// An item of a list: `li`, then a text between braces.
    pub open spec fn list_item(self, pos: nat) -> Parsed<Seq<char>> {
        match self.expect_token(pos, TokenKindView::LItem) {
            Err(e) => Err(e),
            Ok((_, p)) => self.braced_text(p, "Expected TextBlock or Ident in list item, found "@),
        }
    }

    /// The items of a list from `pos` up to the end of their list.
    pub open spec fn list_items_until(self, pos: nat) -> Parsed<Seq<Seq<char>>>
        decreases self.tokens.len() - pos,
    {
        match self.at_end(pos) {
            Err(e) => Err(e),
            Ok(true) => Ok((Seq::empty(), pos)),
            Ok(false) => match self.list_item(pos) {
                Err(e) => Err(e),
                Ok((x, p)) => prepend(seq![x], self.list_items_until(p)),
            },
        }
    }

    /// A list: `ol` or `ul`, then the items between braces.
    #[verifier::opaque]
    pub open spec fn list(self, pos: nat) -> Parsed<ListView> {
        match self.next(pos) {
            Err(e) => Err(e),
            Ok((t, pa)) => if t.kind != TokenKindView::OList && t.kind != TokenKindView::UList {
                Err(self.error("Expected OList or UList, found "@ + t.debug(), t.span))
            } else {
                match self.expect_token(pa, TokenKindView::LBrace) {
                    Err(e) => Err(e),
                    Ok((_, pb)) => match self.list_items_until(pb) {
                        Err(e) => Err(e),
                        Ok((items, pc)) => match self.expect_token(pc, TokenKindView::RBrace) {
                            Err(e) => Err(e),
                            Ok((_, pd)) => Ok(
                                (
                                    if t.kind == TokenKindView::OList {
                                        ListView::Ordered(items)
                                    } else {
                                        ListView::Unordered(items)
                                    },
                                    pd,
                                ),
                            ),
                        },
                    },
                }
            },
        }
    }

    /// An aside: `aside`, then a text between braces.
    pub open spec fn aside(self, pos: nat) -> Parsed<StatementView> {
        match self.expect_token(pos, TokenKindView::Aside) {
            Err(e) => Err(e),
            Ok((_, p)) => match self.braced_text(
                p,
                "Expected TextBlock or Ident in aside, found "@,
            ) {
                Err(e) => Err(e),
                Ok((text, q)) => Ok((StatementView::Aside(text), q)),
            },
        }
    }

    /// A code block behind its keyword at `pos`: a token between braces, which must be a
    /// text block. The closing brace is asked for before the token is looked at.
    pub open spec fn code_body(self, pos: nat) -> Parsed<StatementView> {
        match self.expect_token(pos, TokenKindView::LBrace) {
            Err(e) => Err(e),
            Ok((_, pb)) => match self.next(pb) {
                Err(e) => Err(e),
                Ok((t, pc)) => match self.expect_token(pc, TokenKindView::RBrace) {
                    Err(e) => Err(e),
                    Ok((_, pd)) => match t.kind {
                        TokenKindView::TextBlock(text) => Ok((StatementView::CodeBlock(text), pd)),
                        _ => Err(self.error("Expected text block inside code block"@, t.span)),
                    },
                },
            },
        }
    }

    /// A statement: a heading, a text block, a code block, an aside or a list.
    #[verifier::opaque]
    pub open spec fn statement(self, pos: nat) -> Parsed<StatementView> {
        match self.peek(pos) {
            Err(e) => Err(e),
            Ok(None) => Err(
                self.error("Unexpected end of input while parsing statement"@, no_span()),
            ),
            Ok(Some(t)) => match t.kind {
                TokenKindView::Heading(level) => match self.braced_text(
                    pos + 1,
                    "Expected heading content, found "@,
                ) {
                    Err(e) => Err(e),
                    Ok((text, q)) => Ok((StatementView::Heading(level, text), q)),
                },
                TokenKindView::TextBlock(text) => Ok((StatementView::TextBlock(text), pos + 1)),
                TokenKindView::Code => self.code_body(pos + 1),
                TokenKindView::Aside => self.aside(pos),
                TokenKindView::OList => match self.list(pos) {
                    Err(e) => Err(e),
                    Ok((l, q)) => Ok((StatementView::List(l), q)),
                },
                TokenKindView::UList => match self.list(pos) {
                    Err(e) => Err(e),
                    Ok((l, q)) => Ok((StatementView::List(l), q)),
                },
                _ => Err(self.error("Unexpected token in statement: "@ + t.debug(), t.span)),
            },
        }
    }

    /// The statements from `pos` up to the end of their list.
    pub open spec fn statements_until(self, pos: nat) -> Parsed<Seq<StatementView>>
        decreases self.tokens.len() - pos,
    {
        match self.at_end(pos) {
            Err(e) => Err(e),
            Ok(true) => Ok((Seq::empty(), pos)),
            Ok(false) => match self.statement(pos) {
                Err(e) => Err(e),
                Ok((x, p)) => {
                    proof {
                        self.statement_advances(pos);
                    }
                    prepend(seq![x], self.statements_until(p))
                },
            },
        }
    }

    /// A paragraph: `paragraph`, then the statements between braces.
    #[verifier::opaque]
    pub open spec fn paragraph(self, pos: nat) -> Parsed<ParagraphView> {
        match self.expect_token(pos, TokenKindView::Paragraph) {
            Err(e) => Err(e),
            Ok((_, pa)) => match self.expect_token(pa, TokenKindView::LBrace) {
                Err(e) => Err(e),
                Ok((_, pb)) => match self.statements_until(pb) {
                    Err(e) => Err(e),
                    Ok((statements, pc)) => match self.expect_token(pc, TokenKindView::RBrace) {
                        Err(e) => Err(e),
                        Ok((_, pd)) => Ok((ParagraphView { statements }, pd)),
                    },
                },
            },
        }
    }

    /// The paragraphs from `pos` up to the end of their list.
    pub open spec fn paragraphs_until(self, pos: nat) -> Parsed<Seq<ParagraphView>>
        decreases self.tokens.len() - pos,
    {
        match self.at_end(pos) {
            Err(e) => Err(e),
            Ok(true) => Ok((Seq::empty(), pos)),
            Ok(false) => match self.paragraph(pos) {
                Err(e) => Err(e),
                Ok((x, p)) => {
                    proof {
                        self.paragraph_advances(pos);
                    }
                    prepend(seq![x], self.paragraphs_until(p))
                },
            },
        }
    }

    /// A section: `section`, its name, then the paragraphs between braces.
    #[verifier::opaque]
    pub open spec fn section(self, pos: nat) -> Parsed<SectionView> {
        match self.expect_token(pos, TokenKindView::Section) {
            Err(e) => Err(e),
            Ok((_, pa)) => match self.expect_ident(pa) {
                Err(e) => Err(e),
                Ok((name, pb)) => match self.expect_token(pb, TokenKindView::LBrace) {
                    Err(e) => Err(e),
                    Ok((_, pc)) => match self.paragraphs_until(pc) {
                        Err(e) => Err(e),
                        Ok((paragraphs, pd)) => match self.expect_token(
                            pd,
                            TokenKindView::RBrace,
                        ) {
                            Err(e) => Err(e),
                            Ok((_, pe)) => Ok((SectionView { name, paragraphs }, pe)),
                        },
                    },
                },
            },
        }
    }

    /// The name of an article, which may be left out: an opening brace at `pos` stands
    /// for the empty name.
    pub open spec fn article_name(self, pos: nat) -> Parsed<Seq<char>> {
        match self.peek(pos) {
            Err(e) => Err(e),
            Ok(Some(t)) => if t.kind == TokenKindView::LBrace {
                Ok((Seq::empty(), pos))
            } else {
                self.expect_ident(pos)
            },
            Ok(None) => self.expect_ident(pos),
        }
    }

    /// The article: `article`, its name if it has one, then the names of the sections
    /// that it calls between braces.
    #[verifier::opaque]
    pub open spec fn article(self, pos: nat) -> Parsed<ArticleView> {
        match self.expect_token(pos, TokenKindView::Article) {
            Err(e) => Err(e),
            Ok((_, pa)) => match self.article_name(pa) {
                Err(e) => Err(e),
                Ok((name, pb)) => match self.expect_token(pb, TokenKindView::LBrace) {
                    Err(e) => Err(e),
                    Ok((_, pc)) => match self.idents_until(pc) {
                        Err(e) => Err(e),
                        Ok((section_calls, pd)) => match self.expect_token(
                            pd,
                            TokenKindView::RBrace,
                        ) {
                            Err(e) => Err(e),
                            Ok((_, pe)) => Ok((ArticleView { name, section_calls }, pe)),
                        },
                    },
                },
            },
        }
    }

    /// The program that the tokens from `pos` on complete, where `article` and `sections`
    /// were declared before `pos`. A second article, a section whose name another section
    /// has, a token that starts no declaration and a missing article are errors.
    pub open spec fn program(
        self,
        pos: nat,
        article: Option<ArticleView>,
        sections: Seq<SectionView>,
    ) -> Result<ProgramView, ParserErrorView>
        decreases self.tokens.len() - pos,
    {
        match self.peek(pos) {
            Err(e) => Err(e),
            Ok(None) => match article {
                Some(a) => Ok(ProgramView { article: a, sections }),
                None => Err(self.error("Missing article declaration"@, no_span())),
            },
            Ok(Some(t)) => match t.kind {
                TokenKindView::Article => if article is Some {
                    Err(self.error("Multiple article declarations found"@, t.span))
                } else {
                    match self.article(pos) {
                        Err(e) => Err(e),
                        Ok((a, p)) => {
                            proof {
                                self.article_advances(pos);
                            }
                            self.program(p, Some(a), sections)
                        },
                    }
                },
                TokenKindView::Section => match self.section(pos) {
                    Err(e) => Err(e),
                    Ok((s, p)) => if find_section(sections, s.name, 0) < sections.len() {
                        Err(self.error("Duplicate section: "@ + s.name, t.span))
                    } else {
                        proof {
                            self.section_advances(pos);
                        }
                        self.program(p, article, sections.push(s))
                    },
                },
                _ => Err(
                    self.error("Unexpected token at program level: "@ + t.debug(), t.span),
                ),
            },
        }
    }

    /// The program that the tokens make up.
    pub open spec fn parse(self) -> Result<ProgramView, ParserErrorView> {
        self.program(0, None, Seq::empty())
    }
}


impl Input {
    /// A list of items ends at or behind the place where it starts, within the tokens.
    pub proof fn idents_until_bounds(self, pos: nat)
        requires
            pos <= self.tokens.len(),
        ensures
            self.idents_until(pos) matches Ok((_, q)) ==> pos <= q <= self.tokens.len(),
        decreases self.tokens.len() - pos,
    {
        if self.at_end(pos) == Ok::<bool, ParserErrorView>(false) {
            if let Ok((_, p)) = self.expect_ident(pos) {
                self.idents_until_bounds(p);
            }
        }
    }

    /// A list of items ends at or behind the place where it starts, within the tokens.
    pub proof fn list_items_until_bounds(self, pos: nat)
        requires
            pos <= self.tokens.len(),
        ensures
            self.list_items_until(pos) matches Ok((_, q)) ==> pos <= q <= self.tokens.len(),
        decreases self.tokens.len() - pos,
    {
        if self.at_end(pos) == Ok::<bool, ParserErrorView>(false) {
            if let Ok((_, p)) = self.list_item(pos) {
                self.list_items_until_bounds(p);
            }
        }
    }

    /// A statement takes at least one token, and tokens that are there only.
    pub proof fn statement_advances(self, pos: nat)
        ensures
            self.statement(pos) matches Ok((_, q)) ==> pos < q <= self.tokens.len(),
    {
        reveal(Input::statement);
        reveal(Input::list);
        if let Ok(Some(t)) = self.peek(pos) {
            if t.kind == TokenKindView::OList || t.kind == TokenKindView::UList {
                if let Ok((_, pb)) = self.expect_token(pos + 1, TokenKindView::LBrace) {
                    self.list_items_until_bounds(pb);
                }
            }
        }
    }

    /// A list of items ends at or behind the place where it starts, within the tokens.
    pub proof fn statements_until_bounds(self, pos: nat)
        requires
            pos <= self.tokens.len(),
        ensures
            self.statements_until(pos) matches Ok((_, q)) ==> pos <= q <= self.tokens.len(),
        decreases self.tokens.len() - pos,
    {
        if self.at_end(pos) == Ok::<bool, ParserErrorView>(false) {
            if let Ok((_, p)) = self.statement(pos) {
                self.statement_advances(pos);
                self.statements_until_bounds(p);
            }
        }
    }

    /// A paragraph takes at least one token, and tokens that are there only.
    pub proof fn paragraph_advances(self, pos: nat)
        ensures
            self.paragraph(pos) matches Ok((_, q)) ==> pos < q <= self.tokens.len(),
    {
        reveal(Input::paragraph);
        if let Ok((_, pa)) = self.expect_token(pos, TokenKindView::Paragraph) {
            if let Ok((_, pb)) = self.expect_token(pa, TokenKindView::LBrace) {
                self.statements_until_bounds(pb);
            }
        }
    }

    /// A list of items ends at or behind the place where it starts, within the tokens.
    pub proof fn paragraphs_until_bounds(self, pos: nat)
        requires
            pos <= self.tokens.len(),
        ensures
            self.paragraphs_until(pos) matches Ok((_, q)) ==> pos <= q <= self.tokens.len(),
        decreases self.tokens.len() - pos,
    {
        if self.at_end(pos) == Ok::<bool, ParserErrorView>(false) {
            if let Ok((_, p)) = self.paragraph(pos) {
                self.paragraph_advances(pos);
                self.paragraphs_until_bounds(p);
            }
        }
    }

    /// A section takes at least one token, and tokens that are there only.
    pub proof fn section_advances(self, pos: nat)
        ensures
            self.section(pos) matches Ok((_, q)) ==> pos < q <= self.tokens.len(),
    {
        reveal(Input::section);
        if let Ok((_, pa)) = self.expect_token(pos, TokenKindView::Section) {
            if let Ok((_, pb)) = self.expect_ident(pa) {
                if let Ok((_, pc)) = self.expect_token(pb, TokenKindView::LBrace) {
                    self.paragraphs_until_bounds(pc);
                }
            }
        }
    }

    /// An article takes at least one token, and tokens that are there only.
    pub proof fn article_advances(self, pos: nat)
        ensures
            self.article(pos) matches Ok((_, q)) ==> pos < q <= self.tokens.len(),
    {
        reveal(Input::article);
        if let Ok((_, pa)) = self.expect_token(pos, TokenKindView::Article) {
            if let Ok((_, pb)) = self.article_name(pa) {
                if let Ok((_, pc)) = self.expect_token(pb, TokenKindView::LBrace) {
                    self.idents_until_bounds(pc);
                }
            }
        }
    }
}


impl Input {
    /// Sections whose names differ keep names that differ as the parser reads on: the
    /// sections of every program that it accepts have pairwise distinct names.
    pub proof fn program_has_distinct_names(
        self,
        pos: nat,
        article: Option<ArticleView>,
        sections: Seq<SectionView>,
    )
        requires
            distinct_names(sections),
        ensures
            self.program(pos, article, sections) matches Ok(p) ==> p.wf(),
        decreases self.tokens.len() - pos,
    {
        if let Ok(Some(t)) = self.peek(pos) {
            match t.kind {
                TokenKindView::Article => {
                    if article is None {
                        if let Ok((a, p)) = self.article(pos) {
                            self.article_advances(pos);
                            self.program_has_distinct_names(p, Some(a), sections);
                        }
                    }
                },
                TokenKindView::Section => {
                    if let Ok((s, p)) = self.section(pos) {
                        if find_section(sections, s.name, 0) >= sections.len() {
                            self.section_advances(pos);
                            distinct_names_after_push(sections, s);
                            self.program_has_distinct_names(p, article, sections.push(s));
                        }
                    }
                },
                _ => {},
            }
        }
    }

    /// Every program that the parser accepts has sections with pairwise distinct names.
    pub proof fn parsed_sections_are_distinct(self)
        ensures
            self.parse() matches Ok(p) ==> p.wf(),
    {
        self.program_has_distinct_names(0, None, Seq::empty());
    }
}

/// A declaration at the top of a program.
pub enum DeclarationView {
    Article(ArticleView),
    Section(SectionView),
}

/// The number of articles among the declarations.
pub open spec fn count_articles(declarations: Seq<DeclarationView>) -> nat
    decreases declarations.len(),
{
    if declarations.len() == 0 {
        0
    } else if declarations[0] is Article {
        1 + count_articles(declarations.drop_first())
    } else {
        count_articles(declarations.drop_first())
    }
}

impl Input {
    /// The declarations that the tokens from `pos` on consist of, read one after the
    /// other without regard to their number and their names.
    pub open spec fn declarations(self, pos: nat) -> Result<Seq<DeclarationView>, ParserErrorView>
        decreases self.tokens.len() - pos,
    {
        match self.peek(pos) {
            Err(e) => Err(e),
            Ok(None) => Ok(Seq::empty()),
            Ok(Some(t)) => match t.kind {
                TokenKindView::Article => match self.article(pos) {
                    Err(e) => Err(e),
                    Ok((a, p)) => {
                        proof {
                            self.article_advances(pos);
                        }
                        match self.declarations(p) {
                            Err(e) => Err(e),
                            Ok(rest) => Ok(seq![DeclarationView::Article(a)] + rest),
                        }
                    },
                },
                TokenKindView::Section => match self.section(pos) {
                    Err(e) => Err(e),
                    Ok((s, p)) => {
                        proof {
                            self.section_advances(pos);
                        }
                        match self.declarations(p) {
                            Err(e) => Err(e),
                            Ok(rest) => Ok(seq![DeclarationView::Section(s)] + rest),
                        }
                    },
                },
                _ => Err(
                    self.error("Unexpected token at program level: "@ + t.debug(), t.span),
                ),
            },
        }
    }

    /// Where the parser accepts the tokens from `pos` on, they consist of declarations,
    /// and the articles among them and the article declared before make one article.
    pub proof fn accepted_program_counts_one_article(
        self,
        pos: nat,
        article: Option<ArticleView>,
        sections: Seq<SectionView>,
    )
        ensures
            self.program(pos, article, sections) is Ok ==> (self.declarations(pos) matches Ok(ds)
                && count_articles(ds) + (if article is Some {
                1nat
            } else {
                0nat
            }) == 1),
        decreases self.tokens.len() - pos,
    {
        if let Ok(Some(t)) = self.peek(pos) {
            match t.kind {
                TokenKindView::Article => {
                    if article is None {
                        if let Ok((a, p)) = self.article(pos) {
                            self.article_advances(pos);
                            self.accepted_program_counts_one_article(p, Some(a), sections);
                            if let Ok(rest) = self.declarations(p) {
                                let ds = seq![DeclarationView::Article(a)] + rest;
                                assert(ds.drop_first() == rest);
                            }
                        }
                    }
                },
                TokenKindView::Section => {
                    if let Ok((s, p)) = self.section(pos) {
                        if find_section(sections, s.name, 0) >= sections.len() {
                            self.section_advances(pos);
                            self.accepted_program_counts_one_article(
                                p,
                                article,
                                sections.push(s),
                            );
                            if let Ok(rest) = self.declarations(p) {
                                let ds = seq![DeclarationView::Section(s)] + rest;
                                assert(ds.drop_first() == rest);
                            }
                        }
                    }
                },
                _ => {},
            }
        }
    }

    /// The article is declared exactly once: what the parser accepts consists of
    /// declarations with one article among them, and declarations with no article or
    /// with more than one are not accepted.
    pub proof fn article_is_declared_once(self)
        ensures
            self.parse() is Ok ==> (self.declarations(0) matches Ok(ds) && count_articles(ds)
                == 1),
            (self.declarations(0) matches Ok(ds) && count_articles(ds) != 1) ==> self.parse() is Err,
    {
        self.accepted_program_counts_one_article(0, None, Seq::empty());
    }
}

/// A parser over the tokens of one source text.
pub struct Parser<'a> {
    tokens: Vec<Result<Token, LexerError>>,
    pos: usize,
    source: &'a String,
}

/// The mathematical value of a parser: what it reads, and the place of the next token.
pub struct ParserView {
    pub input: Input,
    pub pos: nat,
}

impl<'a> View for Parser<'a> {
    type V = ParserView;

    closed spec fn view(&self) -> ParserView {
        ParserView {
            input: Input { tokens: item_views(self.tokens@), src: self.source@ },
            pos: self.pos as nat,
        }
    }
}

/// Tests whether one of `sections` has the name `name`.
fn has_section_named(sections: &Vec<SectionDeclaration>, name: &String) -> (r: bool)
    ensures
        r == (find_section(section_views(sections@), name@, 0) < sections.len()),
{
    let mut i: usize = 0;
    while i < sections.len()
        invariant
            i <= sections.len(),
            find_section(section_views(sections@), name@, i as int) == find_section(
                section_views(sections@),
                name@,
                0,
            ),
        decreases sections.len() - i,
    {
        if sections[i].name == *name {
            return true;
        }
        i += 1;
    }
    false
}

impl<'a> Parser<'a> {
    /// A parser for the tokens that `lexer` gives, with `source` for the errors.
    pub fn new(lexer: Lexer<'a>, source: &'a String) -> (r: Self)
        ensures
            r@ == (ParserView {
                input: Input { tokens: lexer@.stream(), src: source@ },
                pos: 0,
            }),
    {
        let mut lexer = lexer;
        let tokens = lexer.collect_tokens();
        Self { tokens, pos: 0, source }
    }

    fn fail(&self, msg: &str, span: Span) -> (e: ParserError)
        ensures
            e@ == self@.input.error(msg@, span@),
    {
        ParserError::new_with_source(msg, span, self.source.as_str())
    }

    fn peek_token(&self) -> (r: Result<Option<Token>, ParserError>)
        ensures
            match r {
                Ok(Some(t)) => self@.input.peek(self@.pos) matches Ok(Some(x)) && x == t@,
                Ok(None) => self@.input.peek(self@.pos) matches Ok(None),
                Err(e) => self@.input.peek(self@.pos) matches Err(x) && x == e@,
            },
    {
        if self.pos < self.tokens.len() {
            match &self.tokens[self.pos] {
                Ok(t) => Ok(Some(t.clone())),
                Err(e) => Err(ParserError::from_lexer(e)),
            }
        } else {
            Ok(None)
        }
    }

    fn next_token(&mut self) -> (r: Result<Token, ParserError>)
        ensures
            final(self)@.input == old(self)@.input,
            match r {
                Ok(t) => old(self)@.input.next(old(self)@.pos) matches Ok((x, q)) && x == t@ && q
                    == final(self)@.pos,
                Err(e) => old(self)@.input.next(old(self)@.pos) matches Err(x) && x == e@,
            },
    {
        if self.pos < self.tokens.len() {
            match &self.tokens[self.pos] {
                Ok(t) => {
                    let t = t.clone();
                    self.pos = self.pos + 1;
                    Ok(t)
                },
                Err(e) => Err(ParserError::from_lexer(e)),
            }
        } else {
            Err(self.fail("Unexpected end of input", empty_span()))
        }
    }

    fn expect_token(&mut self, expected: TokenKind) -> (r: Result<(), ParserError>)
        ensures
            final(self)@.input == old(self)@.input,
            match r {
                Ok(_) => old(self)@.input.expect_token(old(self)@.pos, expected@) matches Ok(
                    (_, q),
                ) && q == final(self)@.pos,
                Err(e) => old(self)@.input.expect_token(old(self)@.pos, expected@) matches Err(x)
                    && x == e@,
            },
    {
        let token = match self.next_token() {
            Ok(t) => t,
            Err(e) => {
                return Err(e);
            },
        };
        if token.kind.same(&expected) {
            Ok(())
        } else {
            let mut msg = String::from_str("Expected ");
            expected.push_debug(&mut msg);
            msg.append(" but found ");
            token.kind.push_debug(&mut msg);
            assert(msg@ == "Expected "@ + expected@.debug() + " but found "@ + token@.kind.debug());
            Err(self.fail(msg.as_str(), token.span))
        }
    }

    fn expect_ident(&mut self) -> (r: Result<String, ParserError>)
        ensures
            final(self)@.input == old(self)@.input,
            match r {
                Ok(v) => old(self)@.input.expect_ident(old(self)@.pos) matches Ok((x, q)) && x
                    == v@ && q == final(self)@.pos,
                Err(e) => old(self)@.input.expect_ident(old(self)@.pos) matches Err(x) && x == e@,
            },
    {
        let token = match self.next_token() {
            Ok(t) => t,
            Err(e) => {
                return Err(e);
            },
        };
        match token.kind {
            TokenKind::Ident(s) => Ok(s),
            other => {
                let mut msg = String::from_str("Expected identifier, found ");
                other.push_debug(&mut msg);
                Err(self.fail(msg.as_str(), token.span))
            },
        }
    }

    fn text_or_ident(&mut self, complaint: &str) -> (r: Result<String, ParserError>)
        ensures
            final(self)@.input == old(self)@.input,
            match r {
                Ok(v) => old(self)@.input.text_or_ident(old(self)@.pos, complaint@) matches Ok(
                    (x, q),
                ) && x == v@ && q == final(self)@.pos,
                Err(e) => old(self)@.input.text_or_ident(old(self)@.pos, complaint@) matches Err(
                    x,
                ) && x == e@,
            },
    {
        let token = match self.next_token() {
            Ok(t) => t,
            Err(e) => {
                return Err(e);
            },
        };
        match token.kind {
            TokenKind::Ident(s) => Ok(s),
            TokenKind::TextBlock(s) => Ok(s),
            other => {
                let mut msg = String::from_str(complaint);
                other.push_debug(&mut msg);
                Err(self.fail(msg.as_str(), token.span))
            },
        }
    }

    fn parse_heading_content(&mut self) -> (r: Result<String, ParserError>)
        ensures
            final(self)@.input == old(self)@.input,
            match r {
                Ok(v) => old(self)@.input.text_or_ident(
                    old(self)@.pos,
                    "Expected heading content, found "@,
                ) matches Ok((x, q)) && x == v@ && q == final(self)@.pos,
                Err(e) => old(self)@.input.text_or_ident(
                    old(self)@.pos,
                    "Expected heading content, found "@,
                ) matches Err(x) && x == e@,
            },
    {
        self.text_or_ident("Expected heading content, found ")
    }

    fn at_end(&self) -> (r: Result<bool, ParserError>)
        ensures
            match r {
                Ok(b) => self@.input.at_end(self@.pos) matches Ok(x) && x == b,
                Err(e) => self@.input.at_end(self@.pos) matches Err(x) && x == e@,
            },
    {
        match self.peek_token() {
            Ok(Some(t)) => Ok(t.kind.same(&TokenKind::RBrace)),
            Ok(None) => Ok(true),
            Err(e) => Err(e),
        }
    }

    fn braced_text(&mut self, complaint: &str) -> (r: Result<String, ParserError>)
        ensures
            final(self)@.input == old(self)@.input,
            match r {
                Ok(v) => old(self)@.input.braced_text(old(self)@.pos, complaint@) matches Ok(
                    (x, q),
                ) && x == v@ && q == final(self)@.pos,
                Err(e) => old(self)@.input.braced_text(old(self)@.pos, complaint@) matches Err(x)
                    && x == e@,
            },
    {
        match self.expect_token(TokenKind::LBrace) {
            Ok(_) => {},
            Err(e) => {
                return Err(e);
            },
        }
        let text = match self.text_or_ident(complaint) {
            Ok(text) => text,
            Err(e) => {
                return Err(e);
            },
        };
        match self.expect_token(TokenKind::RBrace) {
            Ok(_) => {},
            Err(e) => {
                return Err(e);
            },
        }
        Ok(text)
    }

    fn idents_until(&mut self) -> (r: Result<Vec<String>, ParserError>)
        ensures
            final(self)@.input == old(self)@.input,
            match r {
                Ok(v) => old(self)@.input.idents_until(old(self)@.pos) matches Ok((x, q)) && x
                    == strings(v@) && q == final(self)@.pos,
                Err(e) => old(self)@.input.idents_until(old(self)@.pos) matches Err(x) && x == e@,
            },
    {
        let ghost input = self@.input;
        let ghost start = self@.pos;
        let mut items: Vec<String> = Vec::new();
        assert(strings(items@) == Seq::<Seq<char>>::empty());
        assert(Seq::<Seq<char>>::empty() + input.idents_until(start)->Ok_0.0 == input.idents_until(
            start,
        )->Ok_0.0);
        loop
            invariant
                self@.input == input,
                input == old(self)@.input,
                start == old(self)@.pos,
                input.idents_until(start) == prepend(
                    strings(items@),
                    input.idents_until(self@.pos),
                ),
            decreases input.tokens.len() - self@.pos,
        {
            let ghost pos = self@.pos;
            let ghost done = strings(items@);
            match self.at_end() {
                Err(e) => {
                    return Err(e);
                },
                Ok(true) => {
                    assert(done + Seq::<Seq<char>>::empty() == done);
                    return Ok(items);
                },
                Ok(false) => {},
            }
            match self.expect_ident() {
                Err(e) => {
                    return Err(e);
                },
                Ok(x) => {
                    let ghost xv = x@;
                    items.push(x);
                    proof {
                        assert(strings(items@) == done.push(xv));
                        if let Ok((rest, q)) = input.idents_until(self@.pos) {
                            assert(done + (seq![xv] + rest) == done.push(xv) + rest);
                        }
                    }
                },
            }
        }
    }

    fn parse_list_item(&mut self) -> (r: Result<String, ParserError>)
        ensures
            final(self)@.input == old(self)@.input,
            match r {
                Ok(v) => old(self)@.input.list_item(old(self)@.pos) matches Ok((x, q)) && x == v@
                    && q == final(self)@.pos,
                Err(e) => old(self)@.input.list_item(old(self)@.pos) matches Err(x) && x == e@,
            },
    {
        match self.expect_token(TokenKind::LItem) {
            Ok(_) => {},
            Err(e) => {
                return Err(e);
            },
        }
        self.braced_text("Expected TextBlock or Ident in list item, found ")
    }

    fn list_items_until(&mut self) -> (r: Result<Vec<String>, ParserError>)
        ensures
            final(self)@.input == old(self)@.input,
            match r {
                Ok(v) => old(self)@.input.list_items_until(old(self)@.pos) matches Ok((x, q))
                    && x == strings(v@) && q == final(self)@.pos,
                Err(e) => old(self)@.input.list_items_until(old(self)@.pos) matches Err(x) && x
                    == e@,
            },
    {
        let ghost input = self@.input;
        let ghost start = self@.pos;
        let mut items: Vec<String> = Vec::new();
        assert(strings(items@) == Seq::<Seq<char>>::empty());
        assert(Seq::<Seq<char>>::empty() + input.list_items_until(start)->Ok_0.0
            == input.list_items_until(start)->Ok_0.0);
        loop
            invariant
                self@.input == input,
                input == old(self)@.input,
                start == old(self)@.pos,
                input.list_items_until(start) == prepend(
                    strings(items@),
                    input.list_items_until(self@.pos),
                ),
            decreases input.tokens.len() - self@.pos,
        {
            let ghost done = strings(items@);
            match self.at_end() {
                Err(e) => {
                    return Err(e);
                },
                Ok(true) => {
                    assert(done + Seq::<Seq<char>>::empty() == done);
                    return Ok(items);
                },
                Ok(false) => {},
            }
            match self.parse_list_item() {
                Err(e) => {
                    return Err(e);
                },
                Ok(x) => {
                    let ghost xv = x@;
                    items.push(x);
                    proof {
                        assert(strings(items@) == done.push(xv));
                        if let Ok((rest, q)) = input.list_items_until(self@.pos) {
                            assert(done + (seq![xv] + rest) == done.push(xv) + rest);
                        }
                    }
                },
            }
        }
    }

    fn parse_list(&mut self) -> (r: Result<List, ParserError>)
        ensures
            final(self)@.input == old(self)@.input,
            match r {
                Ok(v) => old(self)@.input.list(old(self)@.pos) matches Ok((x, q)) && x == v@ && q
                    == final(self)@.pos,
                Err(e) => old(self)@.input.list(old(self)@.pos) matches Err(x) && x == e@,
            },
    {
        proof {
            reveal(Input::list);
        }
        let list_token = match self.next_token() {
            Ok(t) => t,
            Err(e) => {
                return Err(e);
            },
        };
        let is_ordered = match list_token.kind {
            TokenKind::OList => true,
            TokenKind::UList => false,
            _ => {
                let mut msg = String::from_str("Expected OList or UList, found ");
                let shown = list_token.debug_string();
                msg.append(shown.as_str());
                return Err(self.fail(msg.as_str(), list_token.span));
            },
        };
        match self.expect_token(TokenKind::LBrace) {
            Ok(_) => {},
            Err(e) => {
                return Err(e);
            },
        }
        let items = match self.list_items_until() {
            Ok(items) => items,
            Err(e) => {
                return Err(e);
            },
        };
        match self.expect_token(TokenKind::RBrace) {
            Ok(_) => {},
            Err(e) => {
                return Err(e);
            },
        }
        Ok(
            if is_ordered {
                List::Ordered(items)
            } else {
                List::Unordered(items)
            },
        )
    }

    fn parse_aside(&mut self) -> (r: Result<Statement, ParserError>)
        ensures
            final(self)@.input == old(self)@.input,
            match r {
                Ok(v) => old(self)@.input.aside(old(self)@.pos) matches Ok((x, q)) && x == v@ && q
                    == final(self)@.pos,
                Err(e) => old(self)@.input.aside(old(self)@.pos) matches Err(x) && x == e@,
            },
    {
        match self.expect_token(TokenKind::Aside) {
            Ok(_) => {},
            Err(e) => {
                return Err(e);
            },
        }
        match self.braced_text("Expected TextBlock or Ident in aside, found ") {
            Ok(text) => Ok(Statement::Aside(text)),
            Err(e) => Err(e),
        }
    }

    fn parse_code_body(&mut self) -> (r: Result<Statement, ParserError>)
        ensures
            final(self)@.input == old(self)@.input,
            match r {
                Ok(v) => old(self)@.input.code_body(old(self)@.pos) matches Ok((x, q)) && x == v@
                    && q == final(self)@.pos,
                Err(e) => old(self)@.input.code_body(old(self)@.pos) matches Err(x) && x == e@,
            },
    {
        match self.expect_token(TokenKind::LBrace) {
            Ok(_) => {},
            Err(e) => {
                return Err(e);
            },
        }
        let tb_token = match self.next_token() {
            Ok(t) => t,
            Err(e) => {
                return Err(e);
            },
        };
        match self.expect_token(TokenKind::RBrace) {
            Ok(_) => {},
            Err(e) => {
                return Err(e);
            },
        }
        match tb_token.kind {
            TokenKind::TextBlock(code_text) => Ok(Statement::CodeBlock(code_text)),
            _ => Err(self.fail("Expected text block inside code block", tb_token.span)),
        }
    }

    fn parse_statement(&mut self) -> (r: Result<Statement, ParserError>)
        ensures
            final(self)@.input == old(self)@.input,
            match r {
                Ok(v) => old(self)@.input.statement(old(self)@.pos) matches Ok((x, q)) && x == v@
                    && q == final(self)@.pos,
                Err(e) => old(self)@.input.statement(old(self)@.pos) matches Err(x) && x == e@,
            },
    {
        proof {
            reveal(Input::statement);
        }
        let token = match self.peek_token() {
            Err(e) => {
                return Err(e);
            },
            Ok(None) => {
                return Err(
                    self.fail("Unexpected end of input while parsing statement", empty_span()),
                );
            },
            Ok(Some(token)) => token,
        };
        match token.kind {
            TokenKind::Heading(level) => {
                match self.next_token() {
                    Ok(_) => {},
                    Err(e) => {
                        return Err(e);
                    },
                }
                match self.braced_text("Expected heading content, found ") {
                    Ok(text) => Ok(Statement::Heading(level, text)),
                    Err(e) => Err(e),
                }
            },
            TokenKind::TextBlock(text) => {
                match self.next_token() {
                    Ok(_) => {},
                    Err(e) => {
                        return Err(e);
                    },
                }
                Ok(Statement::TextBlock(text))
            },
            TokenKind::Code => {
                match self.next_token() {
                    Ok(_) => {},
                    Err(e) => {
                        return Err(e);
                    },
                }
                self.parse_code_body()
            },
            TokenKind::Aside => self.parse_aside(),
            TokenKind::OList => match self.parse_list() {
                Ok(list) => Ok(Statement::List(list)),
                Err(e) => Err(e),
            },
            TokenKind::UList => match self.parse_list() {
                Ok(list) => Ok(Statement::List(list)),
                Err(e) => Err(e),
            },
            other => {
                let shown = (Token { kind: other, span: token.span }).debug_string();
                let mut msg = String::from_str("Unexpected token in statement: ");
                msg.append(shown.as_str());
                Err(self.fail(msg.as_str(), token.span))
            },
        }
    }

    fn statements_until(&mut self) -> (r: Result<Vec<Statement>, ParserError>)
        ensures
            final(self)@.input == old(self)@.input,
            match r {
                Ok(v) => old(self)@.input.statements_until(old(self)@.pos) matches Ok((x, q))
                    && x == statement_views(v@) && q == final(self)@.pos,
                Err(e) => old(self)@.input.statements_until(old(self)@.pos) matches Err(x) && x
                    == e@,
            },
    {
        let ghost input = self@.input;
        let ghost start = self@.pos;
        let mut items: Vec<Statement> = Vec::new();
        assert(statement_views(items@) == Seq::<StatementView>::empty());
        assert(Seq::<StatementView>::empty() + input.statements_until(start)->Ok_0.0
            == input.statements_until(start)->Ok_0.0);
        loop
            invariant
                self@.input == input,
                input == old(self)@.input,
                start == old(self)@.pos,
                input.statements_until(start) == prepend(
                    statement_views(items@),
                    input.statements_until(self@.pos),
                ),
            decreases input.tokens.len() - self@.pos,
        {
            let ghost done = statement_views(items@);
            proof {
                input.statement_advances(self@.pos);
            }
            match self.at_end() {
                Err(e) => {
                    return Err(e);
                },
                Ok(true) => {
                    assert(done + Seq::<StatementView>::empty() == done);
                    return Ok(items);
                },
                Ok(false) => {},
            }
            match self.parse_statement() {
                Err(e) => {
                    return Err(e);
                },
                Ok(x) => {
                    let ghost xv = x@;
                    items.push(x);
                    proof {
                        assert(statement_views(items@) == done.push(xv));
                        if let Ok((rest, q)) = input.statements_until(self@.pos) {
                            assert(done + (seq![xv] + rest) == done.push(xv) + rest);
                        }
                    }
                },
            }
        }
    }

    fn parse_paragraph(&mut self) -> (r: Result<Paragraph, ParserError>)
        ensures
            final(self)@.input == old(self)@.input,
            match r {
                Ok(v) => old(self)@.input.paragraph(old(self)@.pos) matches Ok((x, q)) && x == v@
                    && q == final(self)@.pos,
                Err(e) => old(self)@.input.paragraph(old(self)@.pos) matches Err(x) && x == e@,
            },
    {
        proof {
            reveal(Input::paragraph);
        }
        match self.expect_token(TokenKind::Paragraph) {
            Ok(_) => {},
            Err(e) => {
                return Err(e);
            },
        }
        match self.expect_token(TokenKind::LBrace) {
            Ok(_) => {},
            Err(e) => {
                return Err(e);
            },
        }
        let statements = match self.statements_until() {
            Ok(statements) => statements,
            Err(e) => {
                return Err(e);
            },
        };
        match self.expect_token(TokenKind::RBrace) {
            Ok(_) => {},
            Err(e) => {
                return Err(e);
            },
        }
        Ok(Paragraph { statements })
    }

    fn paragraphs_until(&mut self) -> (r: Result<Vec<Paragraph>, ParserError>)
        ensures
            final(self)@.input == old(self)@.input,
            match r {
                Ok(v) => old(self)@.input.paragraphs_until(old(self)@.pos) matches Ok((x, q))
                    && x == paragraph_views(v@) && q == final(self)@.pos,
                Err(e) => old(self)@.input.paragraphs_until(old(self)@.pos) matches Err(x) && x
                    == e@,
            },
    {
        let ghost input = self@.input;
        let ghost start = self@.pos;
        let mut items: Vec<Paragraph> = Vec::new();
        assert(paragraph_views(items@) == Seq::<ParagraphView>::empty());
        assert(Seq::<ParagraphView>::empty() + input.paragraphs_until(start)->Ok_0.0
            == input.paragraphs_until(start)->Ok_0.0);
        loop
            invariant
                self@.input == input,
                input == old(self)@.input,
                start == old(self)@.pos,
                input.paragraphs_until(start) == prepend(
                    paragraph_views(items@),
                    input.paragraphs_until(self@.pos),
                ),
            decreases input.tokens.len() - self@.pos,
        {
            let ghost done = paragraph_views(items@);
            proof {
                input.paragraph_advances(self@.pos);
            }
            match self.at_end() {
                Err(e) => {
                    return Err(e);
                },
                Ok(true) => {
                    assert(done + Seq::<ParagraphView>::empty() == done);
                    return Ok(items);
                },
                Ok(false) => {},
            }
            match self.parse_paragraph() {
                Err(e) => {
                    return Err(e);
                },
                Ok(x) => {
                    let ghost xv = x@;
                    items.push(x);
                    proof {
                        assert(paragraph_views(items@) == done.push(xv));
                        if let Ok((rest, q)) = input.paragraphs_until(self@.pos) {
                            assert(done + (seq![xv] + rest) == done.push(xv) + rest);
                        }
                    }
                },
            }
        }
    }

    fn parse_section_declaration(&mut self) -> (r: Result<SectionDeclaration, ParserError>)
        ensures
            final(self)@.input == old(self)@.input,
            match r {
                Ok(v) => old(self)@.input.section(old(self)@.pos) matches Ok((x, q)) && x == v@
                    && q == final(self)@.pos,
                Err(e) => old(self)@.input.section(old(self)@.pos) matches Err(x) && x == e@,
            },
    {
        proof {
            reveal(Input::section);
        }
        match self.expect_token(TokenKind::Section) {
            Ok(_) => {},
            Err(e) => {
                return Err(e);
            },
        }
        let name = match self.expect_ident() {
            Ok(name) => name,
            Err(e) => {
                return Err(e);
            },
        };
        match self.expect_token(TokenKind::LBrace) {
            Ok(_) => {},
            Err(e) => {
                return Err(e);
            },
        }
        let paragraphs = match self.paragraphs_until() {
            Ok(paragraphs) => paragraphs,
            Err(e) => {
                return Err(e);
            },
        };
        match self.expect_token(TokenKind::RBrace) {
            Ok(_) => {},
            Err(e) => {
                return Err(e);
            },
        }
        Ok(SectionDeclaration { name, paragraphs })
    }

    fn parse_article_name(&mut self) -> (r: Result<String, ParserError>)
        ensures
            final(self)@.input == old(self)@.input,
            match r {
                Ok(v) => old(self)@.input.article_name(old(self)@.pos) matches Ok((x, q)) && x
                    == v@ && q == final(self)@.pos,
                Err(e) => old(self)@.input.article_name(old(self)@.pos) matches Err(x) && x == e@,
            },
    {
        match self.peek_token() {
            Err(e) => Err(e),
            Ok(Some(token)) => {
                if token.kind.same(&TokenKind::LBrace) {
                    Ok(String::new())
                } else {
                    self.expect_ident()
                }
            },
            Ok(None) => self.expect_ident(),
        }
    }

    fn parse_article_declaration(&mut self) -> (r: Result<ArticleDeclaration, ParserError>)
        ensures
            final(self)@.input == old(self)@.input,
            match r {
                Ok(v) => old(self)@.input.article(old(self)@.pos) matches Ok((x, q)) && x == v@
                    && q == final(self)@.pos,
                Err(e) => old(self)@.input.article(old(self)@.pos) matches Err(x) && x == e@,
            },
    {
        proof {
            reveal(Input::article);
        }
        match self.expect_token(TokenKind::Article) {
            Ok(_) => {},
            Err(e) => {
                return Err(e);
            },
        }
        let name = match self.parse_article_name() {
            Ok(name) => name,
            Err(e) => {
                return Err(e);
            },
        };
        match self.expect_token(TokenKind::LBrace) {
            Ok(_) => {},
            Err(e) => {
                return Err(e);
            },
        }
        let section_calls = match self.idents_until() {
            Ok(calls) => calls,
            Err(e) => {
                return Err(e);
            },
        };
        match self.expect_token(TokenKind::RBrace) {
            Ok(_) => {},
            Err(e) => {
                return Err(e);
            },
        }
        Ok(ArticleDeclaration { name, section_calls })
    }

    /// Parses the tokens into a program. The program has exactly one article, and no two
    /// of its sections have the same name; the first token that does not fit is an error.
    pub fn parse(&mut self) -> (r: Result<Program, ParserError>)
        ensures
            final(self)@.input == old(self)@.input,
            match r {
                Ok(p) => old(self)@.input.program(old(self)@.pos, None, Seq::empty()) matches Ok(
                    x,
                ) && x == p@ && p@.wf(),
                Err(e) => old(self)@.input.program(
                    old(self)@.pos,
                    None,
                    Seq::empty(),
                ) matches Err(x) && x == e@,
            },
    {
        let ghost input = self@.input;
        let ghost start = self@.pos;
        let mut article_opt: Option<ArticleDeclaration> = None;
        let mut sections: Vec<SectionDeclaration> = Vec::new();
        assert(section_views(sections@) == Seq::<SectionView>::empty());
        loop
            invariant
                self@.input == input,
                input == old(self)@.input,
                start == old(self)@.pos,
                input.program(start, None, Seq::empty()) == input.program(
                    self@.pos,
                    match article_opt {
                        Some(a) => Some(a@),
                        None => None,
                    },
                    section_views(sections@),
                ),
                distinct_names(section_views(sections@)),
            decreases input.tokens.len() - self@.pos,
        {
            let ghost declared = section_views(sections@);
            proof {
                input.article_advances(self@.pos);
                input.section_advances(self@.pos);
            }
            let token = match self.peek_token() {
                Err(e) => {
                    return Err(e);
                },
                Ok(None) => {
                    return match article_opt {
                        Some(article) => Ok(Program { article, sections }),
                        None => Err(self.fail("Missing article declaration", empty_span())),
                    };
                },
                Ok(Some(token)) => token,
            };
            match token.kind {
                TokenKind::Article => {
                    if article_opt.is_some() {
                        return Err(self.fail("Multiple article declarations found", token.span));
                    }
                    match self.parse_article_declaration() {
                        Ok(article) => {
                            article_opt = Some(article);
                        },
                        Err(e) => {
                            return Err(e);
                        },
                    }
                },
                TokenKind::Section => {
                    let sec = match self.parse_section_declaration() {
                        Ok(sec) => sec,
                        Err(e) => {
                            return Err(e);
                        },
                    };
                    if has_section_named(&sections, &sec.name) {
                        let mut msg = String::from_str("Duplicate section: ");
                        msg.append(sec.name.as_str());
                        return Err(self.fail(msg.as_str(), token.span));
                    }
                    proof {
                        distinct_names_after_push(declared, sec@);
                    }
                    let ghost sv = sec@;
                    sections.push(sec);
                    assert(section_views(sections@) == declared.push(sv));
                },
                other => {
                    let shown = (Token { kind: other, span: token.span }).debug_string();
                    let mut msg = String::from_str("Unexpected token at program level: ");
                    msg.append(shown.as_str());
                    return Err(self.fail(msg.as_str(), token.span));
                },
            }
        }
    }
}

} // verus!
