use crate::parser::parser::{
    AstNode, AstNodeView, List, ListView, Program, ProgramView, Statement, StatementView,
    strings, ArticleDeclaration, Paragraph, SectionDeclaration,
};
use vstd::prelude::*;
use vstd::string::*;

verus! {

/// The lines of the first `n` items of a list, one `<li>` element a line.
pub open spec fn item_lines(items: Seq<Seq<char>>, n: nat) -> Seq<char>
    decreases n,
{
    if n == 0 || n > items.len() {
        Seq::empty()
    } else {
        item_lines(items, (n - 1) as nat) + "<li>"@ + items[n - 1] + "</li>\n"@
    }
}

impl ListView {
    /// The lines of the list: the opening tag, the items, the closing tag.
    pub open spec fn html(self) -> Seq<char> {
        match self {
            ListView::Ordered(items) => "<ol className='list-inside list-decimal px-8'>\n"@
                + item_lines(items, items.len()) + "</ol>\n"@,
            ListView::Unordered(items) => "<ul className='list-disc list-inside px-8'>\n"@
                + item_lines(items, items.len()) + "</ul>\n"@,
        }
    }
}

impl StatementView {
    /// The lines of the statement. A heading is written as `<h3>` whatever its level.
    pub open spec fn html(self) -> Seq<char> {
        match self {
            StatementView::Heading(_, text) => "<h3 className='text-3xl'>"@ + text + "</h3>\n"@,
            StatementView::TextBlock(text) => "<p>"@ + text + "</p>\n"@,
            StatementView::CodeBlock(text) => "<pre className='w-full overflow-x-auto'><code>{`"@
                + text + "`}</code></pre>\n"@,
            StatementView::Aside(text) => "\n            <div className='p-8 bg-opacity-10 bg-black italic'>\n                <p>"@
                + text + "</p>\n            </div>\n            \n"@,
            StatementView::List(list) => list.html(),
        }
    }
}

impl AstNodeView {
    /// What the visit of the node writes. A list is written at the visit of its
    /// statement, and writes nothing at its own.
    pub open spec fn html(self) -> Seq<char> {
        match self {
            AstNodeView::Article(a) => "<h1 className='text-4xl font-bold'>"@ + a.name
                + "</h1>\n"@,
            AstNodeView::Section(_) => "<br/>\n"@,
            AstNodeView::Paragraph(_) => "<br/>\n"@,
            AstNodeView::Statement(s) => s.html(),
            AstNodeView::List(_) => Seq::empty(),
        }
    }
}

/// What the visits of `nodes` write, in order.
pub open spec fn html_of(nodes: Seq<AstNodeView>) -> Seq<char>
    decreases nodes.len(),
{
    if nodes.len() == 0 {
        Seq::empty()
    } else {
        nodes[0].html() + html_of(nodes.drop_first())
    }
}

impl ProgramView {
    /// The output for the program: what the visits of its nodes write, in the order of
    /// the traversal.
    pub open spec fn html(self) -> Seq<char> {
        html_of(self.preorder())
    }
}

/// A failure of the emitter.
#[derive(Debug)]
pub struct GenerationError {
    pub msg: String,
}

impl View for GenerationError {
    type V = Seq<char>;

    open spec fn view(&self) -> Seq<char> {
        self.msg@
    }
}

impl GenerationError {
    /// An error with the message `msg`.
    pub fn new(msg: &str) -> (r: Self)
        ensures
            r@ == msg@,
    {
        GenerationError { msg: String::from_str(msg) }
    }

    /// The error as it is shown to the user.
    pub fn to_string(&self) -> (r: String)
        ensures
            r@ == "Compile error: "@ + self@,
    {
        let mut r = String::from_str("Compile error: ");
        r.append(self.msg.as_str());
        r
    }
}

/// The emitter of one program.
pub struct Generator {
    program: Program,
}

impl View for Generator {
    type V = ProgramView;

    closed spec fn view(&self) -> ProgramView {
        self.program@
    }
}

impl Generator {
    /// An emitter for `input`.
    pub fn new(input: Program) -> (r: Self)
        ensures
            r@ == input@,
    {
        Self { program: input }
    }

    /// Appends the line `s` to `buf`.
    fn write_buf(buf: &mut String, s: &str)
        ensures
            final(buf)@ == old(buf)@ + s@ + "\n"@,
    {
        buf.append(s);
        buf.append("\n");
    }

    fn generate_article(buf: &mut String, article: &ArticleDeclaration)
        ensures
            final(buf)@ == old(buf)@ + AstNodeView::Article(article@).html(),
    {
        buf.append("<h1 className='text-4xl font-bold'>");
        buf.append(article.name.as_str());
        buf.append("</h1>\n");
        assert(buf@ == old(buf)@ + ("<h1 className='text-4xl font-bold'>"@ + article@.name
            + "</h1>\n"@));
    }

    fn generate_section(buf: &mut String, section: &SectionDeclaration)
        ensures
            final(buf)@ == old(buf)@ + AstNodeView::Section(section@).html(),
    {
        Self::write_buf(buf, "<br/>");
        proof {
            reveal_strlit("<br/>");
            reveal_strlit("\n");
            reveal_strlit("<br/>\n");
            assert("<br/>"@ + "\n"@ =~= "<br/>\n"@);
        }
    }

    fn generate_paragraph(buf: &mut String, paragraph: &Paragraph)
        ensures
            final(buf)@ == old(buf)@ + AstNodeView::Paragraph(paragraph@).html(),
    {
        Self::write_buf(buf, "<br/>");
        proof {
            reveal_strlit("<br/>");
            reveal_strlit("\n");
            reveal_strlit("<br/>\n");
            assert("<br/>"@ + "\n"@ =~= "<br/>\n"@);
        }
    }

    fn generate_items(buf: &mut String, items: &Vec<String>)
        ensures
            final(buf)@ == old(buf)@ + item_lines(strings(items@), items.len() as nat),
    {
        let mut i: usize = 0;
        assert(buf@ == old(buf)@ + item_lines(strings(items@), 0));
        while i < items.len()
            invariant
                i <= items.len(),
                buf@ == old(buf)@ + item_lines(strings(items@), i as nat),
            decreases items.len() - i,
        {
            let ghost before = buf@;
            buf.append("<li>");
            buf.append(items[i].as_str());
            buf.append("</li>\n");
            i += 1;
            assert(strings(items@)[i - 1] == items@[i - 1]@);
            assert(buf@ == old(buf)@ + (item_lines(strings(items@), (i - 1) as nat) + "<li>"@
                + strings(items@)[i - 1] + "</li>\n"@));
        }
    }

    fn generate_list(buf: &mut String, list: &List)
        ensures
            final(buf)@ == old(buf)@ + list@.html(),
    {
        match list {
            List::Ordered(items) => {
                buf.append("<ol className='list-inside list-decimal px-8'>\n");
                Self::generate_items(buf, items);
                buf.append("</ol>\n");
                assert(buf@ == old(buf)@ + list@.html());
            },
            List::Unordered(items) => {
                buf.append("<ul className='list-disc list-inside px-8'>\n");
                Self::generate_items(buf, items);
                buf.append("</ul>\n");
                assert(buf@ == old(buf)@ + list@.html());
            },
        }
    }

    fn generate_statement(buf: &mut String, statement: &Statement)
        ensures
            final(buf)@ == old(buf)@ + statement@.html(),
    {
        match statement {
            Statement::Heading(_, c) => {
                buf.append("<h3 className='text-3xl'>");
                buf.append(c.as_str());
                buf.append("</h3>\n");
                assert(buf@ == old(buf)@ + statement@.html());
            },
            Statement::TextBlock(c) => {
                buf.append("<p>");
                buf.append(c.as_str());
                buf.append("</p>\n");
                assert(buf@ == old(buf)@ + statement@.html());
            },
            Statement::CodeBlock(c) => {
                buf.append("<pre className='w-full overflow-x-auto'><code>{`");
                buf.append(c.as_str());
                buf.append("`}</code></pre>\n");
                assert(buf@ == old(buf)@ + statement@.html());
            },
            Statement::Aside(c) => {
                buf.append(
                    "\n            <div className='p-8 bg-opacity-10 bg-black italic'>\n                <p>",
                );
                buf.append(c.as_str());
                buf.append("</p>\n            </div>\n            \n");
                assert(buf@ == old(buf)@ + statement@.html());
            },
            Statement::List(l) => Self::generate_list(buf, l),
        }
    }

    fn generate_node(buf: &mut String, node: &AstNode)
        ensures
            final(buf)@ == old(buf)@ + node@.html(),
    {
        match node {
            AstNode::Article(v) => Self::generate_article(buf, v),
            AstNode::Section(v) => Self::generate_section(buf, v),
            AstNode::Paragraph(v) => Self::generate_paragraph(buf, v),
            AstNode::Statement(v) => Self::generate_statement(buf, v),
            AstNode::List(_) => {
                assert(buf@ + Seq::<char>::empty() == buf@);
            },
        }
    }

    /// Appends the output for the program to `buf`, node by node in the order of the
    /// traversal.
    fn emit(&self, buf: &mut String)
        ensures
            final(buf)@ == old(buf)@ + self@.html(),
    {
        let mut nodes = self.program.iter_ast();
        let ghost all = self.program@.preorder();
        loop
            invariant
                old(buf)@ + html_of(all) == buf@ + html_of(nodes@.remaining()),
                all == self@.preorder(),
            ensures
                buf@ == old(buf)@ + self@.html(),
            decreases nodes@.remaining().len(),
        {
            let ghost before = nodes@.remaining();
            let ghost written = buf@;
            match nodes.next_node() {
                Some(node) => {
                    Self::generate_node(buf, &node);
                    proof {
                        let rest = nodes@.remaining();
                        assert(before[0] == node@);
                        assert(before.drop_first() == rest);
                        assert(written + (node@.html() + html_of(rest)) == (written
                            + node@.html()) + html_of(rest));
                    }
                },
                None => {
                    assert(written + Seq::<char>::empty() == written);
                    break ;
                },
            }
        }
    }

    /// Writes the output for the program to `buf`. Writing to a string cannot fail.
    pub fn compile(&mut self, buf: &mut String) -> (r: Result<(), GenerationError>)
        ensures
            r is Ok,
            final(self)@ == old(self)@,
            final(buf)@ == old(buf)@ + old(self)@.html(),
    {
        self.emit(buf);
        Ok(())
    }

    /// The output for the program as a string.
    pub fn render(&self) -> (r: String)
        ensures
            r@ == self@.html(),
    {
        let mut buf = String::new();
        self.emit(&mut buf);
        buf
    }
}

} // verus!
