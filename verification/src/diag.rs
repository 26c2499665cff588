use crate::text::{
    char_is_whitespace, char_width, chars_of, decimal, is_whitespace, push_decimal, push_range,
    utf8_len, utf8_len_monotonic, utf8_len_of_subrange, utf8_width, byte_len,
};
use vstd::prelude::*;
use vstd::string::*;

verus! {

/// A place in a source text: the number of bytes before it, and the line and the column
/// it stands in, both counted from zero. Columns count characters.
#[derive(Debug, Clone, Copy, PartialEq, Eq)]
pub struct Position {
    offset: usize,
    line: usize,
    column: usize,
}

/// The mathematical value of a `Position`.
pub struct PositionView {
    pub offset: nat,
    pub line: nat,
    pub column: nat,
}

impl PositionView {
    /// The place where every text starts.
    pub open spec fn origin() -> PositionView {
        PositionView { offset: 0, line: 0, column: 0 }
    }

    /// The place behind the character `ch`, which stands at this place.
    pub open spec fn advance(self, ch: char) -> PositionView {
        PositionView {
            offset: self.offset + utf8_width(ch),
            line: if ch == '\n' {
                self.line + 1
            } else {
                self.line
            },
            column: if ch == '\n' {
                0
            } else {
                self.column + 1
            },
        }
    }

    /// The place behind the first `n` characters of `src`.
    pub open spec fn at(src: Seq<char>, n: nat) -> PositionView
        decreases n,
    {
        if n == 0 || n > src.len() {
            PositionView::origin()
        } else {
            PositionView::at(src, (n - 1) as nat).advance(src[n - 1])
        }
    }

    /// True when the three numbers fit the machine's word.
    pub open spec fn fits(self) -> bool {
        self.offset <= usize::MAX && self.line <= usize::MAX && self.column <= usize::MAX
    }
}

/// The place behind `n` characters lies `utf8_len` bytes into the text, and neither its
/// line nor its column exceeds `n`.
pub proof fn position_bounds(src: Seq<char>, n: nat)
    requires
        n <= src.len(),
    ensures
        PositionView::at(src, n).offset == utf8_len(src, n),
        PositionView::at(src, n).line <= n,
        PositionView::at(src, n).column <= n,
    decreases n,
{
    if n > 0 {
        position_bounds(src, (n - 1) as nat);
    }
}

impl PositionView {
    /// The place as `{:?}` prints a `Position`.
    pub open spec fn debug(self) -> Seq<char> {
        "Position { offset: "@ + decimal(self.offset) + ", line: "@ + decimal(self.line)
            + ", column: "@ + decimal(self.column) + " }"@
    }
}

impl View for Position {
    type V = PositionView;

    closed spec fn view(&self) -> PositionView {
        PositionView {
            offset: self.offset as nat,
            line: self.line as nat,
            column: self.column as nat,
        }
    }
}

impl Default for Position {
    fn default() -> (r: Self)
        ensures
            r@ == PositionView::origin(),
    {
        Self { offset: 0, line: 0, column: 0 }
    }
}

impl Position {
    /// The place where every text starts.
    pub fn new() -> (r: Self)
        ensures
            r@ == PositionView::origin(),
    {
        Self { offset: 0, line: 0, column: 0 }
    }

    /// The place behind the character `ch`, which stands at this place.
    pub fn advance(&self, ch: char) -> (r: Self)
        requires
            self@.advance(ch).fits(),
        ensures
            r@ == self@.advance(ch),
    {
        Self {
            offset: self.offset + char_width(ch),
            line: if ch == '\n' {
                self.line + 1
            } else {
                self.line
            },
            column: if ch == '\n' {
                0
            } else {
                self.column + 1
            },
        }
    }

    /// Appends the place to `s` as `{:?}` prints it.
    pub fn push_debug(&self, s: &mut String)
        ensures
            final(s)@ == old(s)@ + self@.debug(),
    {
        s.append("Position { offset: ");
        push_decimal(s, self.offset);
        s.append(", line: ");
        push_decimal(s, self.line);
        s.append(", column: ");
        push_decimal(s, self.column);
        s.append(" }");
        assert(s@ == old(s)@ + self@.debug());
    }

    /// The number of bytes before this place.
    pub fn offset(&self) -> (r: usize)
        ensures
            r == self@.offset,
    {
        self.offset
    }

    /// The line of this place, counted from zero.
    pub fn line(&self) -> (r: usize)
        ensures
            r == self@.line,
    {
        self.line
    }

    /// The column of this place, counted from zero.
    pub fn column(&self) -> (r: usize)
        ensures
            r == self@.column,
    {
        self.column
    }
}

/// A stretch of a source text, from `start` up to `end`.
#[derive(Debug, Clone, Copy)]
pub struct Span {
    start: Position,
    end: Position,
}

/// The mathematical value of a `Span`.
pub struct SpanView {
    pub start: PositionView,
    pub end: PositionView,
}

impl SpanView {
    /// The stretch as `{:?}` prints a `Span`.
    pub open spec fn debug(self) -> Seq<char> {
        "Span { start: "@ + self.start.debug() + ", end: "@ + self.end.debug() + " }"@
    }
}

impl View for Span {
    type V = SpanView;

    closed spec fn view(&self) -> SpanView {
        SpanView { start: self.start@, end: self.end@ }
    }
}

/// The first place at or behind `from` where `src` holds a line feed, or the length of
/// `src` if there is none.
pub open spec fn line_end(src: Seq<char>, from: int) -> int
    decreases src.len() - from,
{
    if from < 0 || from >= src.len() {
        src.len() as int
    } else if src[from] == '\n' {
        from
    } else {
        line_end(src, from + 1)
    }
}

/// The place where the line `k` of `src` starts, or `None` if `src` holds fewer than `k`
/// line feeds.
pub open spec fn line_start(src: Seq<char>, k: nat) -> Option<int>
    decreases k,
{
    if k == 0 {
        Some(0)
    } else {
        match line_start(src, (k - 1) as nat) {
            Some(a) => if line_end(src, a) < src.len() {
                Some(line_end(src, a) + 1)
            } else {
                None
            },
            None => None,
        }
    }
}

/// The line `k` of `src`, without the line feed that ends it and without a carriage
/// return right before that line feed. It is empty if `src` has no such line.
pub open spec fn line_text(src: Seq<char>, k: nat) -> Seq<char> {
    match line_start(src, k) {
        Some(a) => {
            let e = line_end(src, a);
            if a < e < src.len() && src[e - 1] == '\r' {
                src.subrange(a, e - 1)
            } else {
                src.subrange(a, e)
            }
        },
        None => Seq::empty(),
    }
}

/// The number of whitespace characters that `s` holds from the place `from` on, up to its
/// first other character.
pub open spec fn leading_space(s: Seq<char>, from: int) -> nat
    decreases s.len() - from,
{
    if from < 0 || from >= s.len() || !is_whitespace(s[from]) {
        0
    } else {
        1 + leading_space(s, from + 1)
    }
}

/// `s` without the whitespace that it starts with.
pub open spec fn trim_start(s: Seq<char>) -> Seq<char> {
    s.subrange(leading_space(s, 0) as int, s.len() as int)
}

/// A row of `len` marks, with `^` in the columns from `from` to `to`, both included, and
/// `-` elsewhere.
pub open spec fn underline(len: nat, from: nat, to: nat) -> Seq<char> {
    Seq::new(
        len,
        |i: int|
            if from <= i <= to {
                '^'
            } else {
                '-'
            },
    )
}

impl SpanView {
    /// The rendering of the span against its source: the line and column where it starts,
    /// the source line where it starts, without the whitespace in front, and under it a
    /// row of as many marks as the line has bytes, which shows the span's columns.
    pub open spec fn snippet(self, src: Seq<char>) -> Seq<char> {
        let line = trim_start(line_text(src, self.start.line));
        "\nLine: "@ + decimal(self.start.line) + ", Column: "@ + decimal(self.start.column)
            + "\n>> '"@ + line + "'\n   "@ + underline(
            utf8_len(line, line.len()),
            self.start.column,
            self.end.column,
        )
    }
}

/// The place at or behind `from` where the line that holds `from` ends.
fn find_line_end(src: &Vec<char>, from: usize) -> (e: usize)
    requires
        from <= src.len(),
    ensures
        e == line_end(src@, from as int),
        from <= e <= src.len(),
    decreases src.len() - from,
{
    let mut e: usize = from;
    while e < src.len() && src[e] != '\n'
        invariant
            from <= e <= src.len(),
            line_end(src@, e as int) == line_end(src@, from as int),
        decreases src.len() - e,
    {
        e += 1;
    }
    e
}

/// The bounds of the line `k` of `src`, as places in `src`.
fn find_line(src: &Vec<char>, k: usize) -> (r: (usize, usize))
    ensures
        r.0 <= r.1 <= src.len(),
        src@.subrange(r.0 as int, r.1 as int) == line_text(src@, k as nat),
{
    let mut a: usize = 0;
    let mut i: usize = 0;
    while i < k
        invariant
            i <= k,
            a <= src.len(),
            line_start(src@, i as nat) == Some(a as int),
        decreases k - i,
    {
        let e = find_line_end(src, a);
        if e >= src.len() {
            proof {
                no_later_line(src@, (i + 1) as nat, k as nat);
            }
            assert(src@.subrange(0, 0) == Seq::<char>::empty());
            return (0, 0);
        }
        a = e + 1;
        i += 1;
    }
    let e = find_line_end(src, a);
    if a < e && e < src.len() && src[e - 1] == '\r' {
        (a, e - 1)
    } else {
        (a, e)
    }
}

/// A text that has no line `k` has no later line either.
proof fn no_later_line(src: Seq<char>, k: nat, m: nat)
    requires
        k <= m,
        line_start(src, k) is None,
    ensures
        line_start(src, m) is None,
    decreases m,
{
    if k < m {
        no_later_line(src, k, (m - 1) as nat);
    }
}

impl Span {
    /// The stretch from `start` up to `end`.
    pub fn new(start: Position, end: Position) -> (r: Self)
        ensures
            r@ == (SpanView { start: start@, end: end@ }),
    {
        Self { start, end }
    }

    /// The place where the stretch starts.
    pub fn start(&self) -> (r: Position)
        ensures
            r@ == self@.start,
    {
        self.start
    }

    /// The place where the stretch ends.
    pub fn end(&self) -> (r: Position)
        ensures
            r@ == self@.end,
    {
        self.end
    }

    /// Appends the stretch to `s` as `{:?}` prints it.
    pub fn push_debug(&self, s: &mut String)
        ensures
            final(s)@ == old(s)@ + self@.debug(),
    {
        s.append("Span { start: ");
        self.start.push_debug(s);
        s.append(", end: ");
        self.end.push_debug(s);
        s.append(" }");
        assert(s@ == old(s)@ + self@.debug());
    }

    /// Renders the span against the source `src`.
    pub fn snippet(&self, src: &str) -> (r: String)
        ensures
            r@ == self@.snippet(src@),
    {
        let total = byte_len(src);
        let chars = chars_of(src);
        let (a0, e) = find_line(&chars, self.start.line);
        let ghost line = chars@.subrange(a0 as int, e as int);
        let mut a: usize = a0;
        while a < e && char_is_whitespace(chars[a])
            invariant
                a0 <= a <= e <= chars.len(),
                line == chars@.subrange(a0 as int, e as int),
                leading_space(line, 0) == (a - a0) + leading_space(line, a - a0),
            decreases e - a,
        {
            a += 1;
        }
        let ghost trimmed = chars@.subrange(a as int, e as int);
        assert(trimmed == trim_start(line));
        let mut width: usize = 0;
        let mut i: usize = a;
        while i < e
            invariant
                a <= i <= e <= chars.len(),
                chars@ == src@,
                total == utf8_len(src@, src@.len()),
                width == utf8_len(chars@, i as nat) - utf8_len(chars@, a as nat),
            decreases e - i,
        {
            proof {
                utf8_len_monotonic(chars@, a as nat, i as nat);
                utf8_len_monotonic(chars@, (i + 1) as nat, chars@.len());
                utf8_len_monotonic(chars@, 0, a as nat);
            }
            width += char_width(chars[i]);
            i += 1;
        }
        proof {
            utf8_len_of_subrange(chars@, a as int, e as int, (e - a) as nat);
        }
        let mut r = String::from_str("\nLine: ");
        push_decimal(&mut r, self.start.line);
        r.append(", Column: ");
        push_decimal(&mut r, self.start.column);
        r.append("\n>> '");
        push_range(&mut r, &chars, a, e);
        r.append("'\n   ");
        let ghost head = r@;
        let mut j: usize = 0;
        while j < width
            invariant
                j <= width,
                r@ == head + underline(j as nat, self@.start.column, self@.end.column),
            decreases width - j,
        {
            if j >= self.start.column && j <= self.end.column {
                r.push('^');
            } else {
                r.push('-');
            }
            j += 1;
            assert(underline(j as nat, self@.start.column, self@.end.column) == underline(
                (j - 1) as nat,
                self@.start.column,
                self@.end.column,
            ).push(
                if self@.start.column <= j - 1 <= self@.end.column {
                    '^'
                } else {
                    '-'
                },
            ));
        }
        r
    }
}

} // verus!
