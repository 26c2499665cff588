use super::error::{LexerError, LexerErrorKind, LexerErrorView};
use super::tokens::{spec_views, Token, TokenKind, TokenKindView, TokenSpec, TokenSpecView, TokenView};
use crate::diag::{position_bounds, Position, PositionView, Span, SpanView};
use crate::text::{
    byte_len, char_is_ascii_space, chars_of, is_ascii_space, string_of_range, utf8_len,
    utf8_len_monotonic,
};
use vstd::prelude::*;

verus! {

/// How the lexer reads: `Normal` for tokens, `Block` for the text behind a backtick.
#[derive(Debug, Clone, Copy, PartialEq, Eq)]
pub enum Mode {
    Normal,
    Block,
}

/// The first place at or behind `from` where `src` holds no whitespace of ASCII, or the
/// length of `src` if there is none.
pub open spec fn skip_space(src: Seq<char>, from: int) -> int
    decreases src.len() - from,
{
    if from < 0 || from >= src.len() || !is_ascii_space(src[from]) {
        from
    } else {
        skip_space(src, from + 1)
    }
}

/// The first rule at or behind `from` whose pattern matches the whole of `text`, or the
/// number of rules if there is none.
pub open spec fn first_accepting(specs: Seq<TokenSpecView>, text: Seq<char>, from: int) -> int
    decreases specs.len() - from,
{
    if from < 0 || from >= specs.len() {
        specs.len() as int
    } else if specs[from].nfa.accepts(text) {
        from
    } else {
        first_accepting(specs, text, from + 1)
    }
}

/// True when some rule's pattern matches the whole of `text`.
pub open spec fn accepted(specs: Seq<TokenSpecView>, text: Seq<char>) -> bool {
    first_accepting(specs, text, 0) < specs.len()
}

/// The length that a window of `k` characters at `start` grows to, one character at a
/// time, as long as some rule accepts the grown window.
pub open spec fn extend(specs: Seq<TokenSpecView>, src: Seq<char>, start: int, k: nat) -> nat
    decreases src.len() - start - k,
{
    if 0 <= start && start + k < src.len() && accepted(
        specs,
        src.subrange(start, start + k + 1),
    ) {
        extend(specs, src, start, k + 1)
    } else {
        k
    }
}

/// The length of the token that starts at `start`: the window grows from nothing while
/// some rule accepts it.
pub open spec fn longest(specs: Seq<TokenSpecView>, src: Seq<char>, start: int) -> nat {
    extend(specs, src, start, 0)
}

/// The first place at or behind `from` where `src` holds a backtick, or the length of
/// `src` if there is none.
pub open spec fn closing_tick(src: Seq<char>, from: int) -> int
    decreases src.len() - from,
{
    if from < 0 || from >= src.len() {
        src.len() as int
    } else if src[from] == '`' {
        from
    } else {
        closing_tick(src, from + 1)
    }
}

/// The stretch of `src` between the characters `from` and `to`.
pub open spec fn span_between(src: Seq<char>, from: int, to: int) -> SpanView {
    SpanView { start: PositionView::at(src, from as nat), end: PositionView::at(src, to as nat) }
}

/// What the lexer hands out at one call: nothing at the end of the source, else a token
/// or an error.
pub type LexItem = Option<Result<TokenView, LexerErrorView>>;

/// The mathematical value of a lexer: the source, the place of the cursor counted in
/// characters, the mode and the rules.
pub struct LexerView {
    pub src: Seq<char>,
    pub cursor: nat,
    pub mode: Mode,
    pub specs: Seq<TokenSpecView>,
}

impl LexerView {
    /// The lexer with its cursor at `cursor` and in the mode `mode`.
    pub open spec fn moved(self, cursor: int, mode: Mode) -> LexerView {
        LexerView { src: self.src, cursor: cursor as nat, mode, specs: self.specs }
    }

    /// Reads a text block: the text from the cursor up to the next backtick. The lexer
    /// goes on behind that backtick in normal mode. Without a backtick the block is
    /// unterminated, and the lexer stays where it is.
    pub open spec fn lex_block(self) -> (LexItem, LexerView) {
        let start = self.cursor as int;
        let tick = closing_tick(self.src, start);
        if tick >= self.src.len() {
            (
                Some(
                    Err(
                        LexerErrorView {
                            kind: LexerErrorKind::UnterminatedBlock,
                            span: span_between(self.src, start, start),
                            src: self.src,
                        },
                    ),
                ),
                self.moved(start, Mode::Block),
            )
        } else {
            (
                Some(
                    Ok(
                        TokenView {
                            kind: TokenKindView::TextBlock(self.src.subrange(start, tick)),
                            span: span_between(self.src, start, tick + 1),
                        },
                    ),
                ),
                self.moved(tick + 1, Mode::Normal),
            )
        }
    }

    /// Reads a token at the cursor, which stands before a character: the longest window
    /// that the rules accept while it grows, with the kind that the first rule which
    /// accepts it gives. A window that is a lone backtick is no token: it opens a text
    /// block. Where no rule accepts the first character, that character is unexpected.
    pub open spec fn lex_normal(self) -> (LexItem, LexerView) {
        let start = self.cursor as int;
        let n = longest(self.specs, self.src, start);
        if n == 0 {
            (
                Some(
                    Err(
                        LexerErrorView {
                            kind: LexerErrorKind::UnexpectedChar(self.src[start]),
                            span: span_between(self.src, start, start),
                            src: self.src,
                        },
                    ),
                ),
                self,
            )
        } else {
            let text = self.src.subrange(start, start + n);
            let kind = self.specs[first_accepting(self.specs, text, 0)].class.kind(text);
            if kind == TokenKindView::TextBlock(seq!['`']) {
                self.moved(start + n, Mode::Block).lex_block()
            } else {
                (
                    Some(Ok(TokenView { kind, span: span_between(self.src, start, start + n) })),
                    self.moved(start + n, self.mode),
                )
            }
        }
    }

    /// One call of the lexer: what it hands out, and the lexer afterwards. Whitespace
    /// before the cursor is skipped first; at the end of the source nothing is handed
    /// out.
    pub open spec fn next(self) -> (LexItem, LexerView) {
        let at = skip_space(self.src, self.cursor as int);
        let here = self.moved(at, self.mode);
        if at >= self.src.len() {
            (None, here)
        } else if self.mode == Mode::Block {
            here.lex_block()
        } else {
            here.lex_normal()
        }
    }

    /// What the lexer hands out call by call, up to the end of the source or up to the
    /// first error, which is the last item then.
    pub open spec fn stream(self) -> Seq<Result<TokenView, LexerErrorView>>
        decreases self.src.len() - self.cursor,
    {
        match self.next().0 {
            None => Seq::empty(),
            Some(Err(e)) => seq![Err(e)],
            Some(Ok(t)) => {
                proof {
                    next_advances(self);
                }
                seq![Ok(t)] + self.next().1.stream()
            },
        }
    }
}

/// Skipping whitespace moves the cursor forward, and not beyond the end.
pub proof fn skip_space_bounds(src: Seq<char>, from: int)
    requires
        0 <= from <= src.len(),
    ensures
        from <= skip_space(src, from) <= src.len(),
        forall|i: int| from <= i < skip_space(src, from) ==> is_ascii_space(#[trigger] src[i]),
        skip_space(src, from) < src.len() ==> !is_ascii_space(src[skip_space(src, from)]),
    decreases src.len() - from,
{
    if from < src.len() && is_ascii_space(src[from]) {
        skip_space_bounds(src, from + 1);
    }
}

/// A window grows within the source only.
pub proof fn extend_bounds(specs: Seq<TokenSpecView>, src: Seq<char>, start: int, k: nat)
    requires
        0 <= start,
        start + k <= src.len(),
    ensures
        k <= extend(specs, src, start, k),
        start + extend(specs, src, start, k) <= src.len(),
    decreases src.len() - start - k,
{
    if start + k < src.len() && accepted(specs, src.subrange(start, start + k + 1)) {
        extend_bounds(specs, src, start, k + 1);
    }
}

/// The next backtick lies at or behind the place where the search starts.
pub proof fn closing_tick_bounds(src: Seq<char>, from: int)
    requires
        0 <= from <= src.len(),
    ensures
        from <= closing_tick(src, from) <= src.len(),
        forall|i: int| from <= i < closing_tick(src, from) ==> #[trigger] src[i] != '`',
        closing_tick(src, from) < src.len() ==> src[closing_tick(src, from)] == '`',
    decreases src.len() - from,
{
    if from < src.len() && src[from] != '`' {
        closing_tick_bounds(src, from + 1);
    }
}

/// A call of the lexer keeps the source and the rules and never moves the cursor back;
/// where it hands out a token, the cursor has moved forward.
pub proof fn next_advances(lexer: LexerView)
    requires
        lexer.cursor <= lexer.src.len(),
    ensures
        lexer.next().1.src == lexer.src,
        lexer.next().1.specs == lexer.specs,
        lexer.cursor <= lexer.next().1.cursor <= lexer.src.len(),
        lexer.next().0 matches Some(Ok(_)) ==> lexer.cursor < lexer.next().1.cursor,
{
    let src = lexer.src;
    skip_space_bounds(src, lexer.cursor as int);
    let at = skip_space(src, lexer.cursor as int);
    if at < src.len() {
        closing_tick_bounds(src, at);
        extend_bounds(lexer.specs, src, at, 0);
        let n = longest(lexer.specs, src, at);
        closing_tick_bounds(src, at + n);
    }
}


/// The rule that `first_accepting` gives accepts the text, and no rule before it does;
/// where it gives none, no rule accepts the text.
pub proof fn first_accepting_bounds(specs: Seq<TokenSpecView>, text: Seq<char>, from: int)
    requires
        0 <= from <= specs.len(),
    ensures
        from <= first_accepting(specs, text, from) <= specs.len(),
        first_accepting(specs, text, from) < specs.len() ==> specs[first_accepting(
            specs,
            text,
            from,
        )].nfa.accepts(text),
        forall|i: int|
            from <= i < first_accepting(specs, text, from) ==> !(#[trigger] specs[i]).nfa.accepts(
                text,
            ),
    decreases specs.len() - from,
{
    if from < specs.len() && !specs[from].nfa.accepts(text) {
        first_accepting_bounds(specs, text, from + 1);
    }
}

/// A text is accepted exactly when the pattern of some rule matches the whole of it.
pub proof fn accepted_means_some_rule(specs: Seq<TokenSpecView>, text: Seq<char>)
    ensures
        accepted(specs, text) <==> exists|i: int|
            0 <= i < specs.len() && (#[trigger] specs[i]).nfa.accepts(text),
{
    first_accepting_bounds(specs, text, 0);
    if exists|i: int| 0 <= i < specs.len() && (#[trigger] specs[i]).nfa.accepts(text) {
        let i = choose|i: int| 0 <= i < specs.len() && (#[trigger] specs[i]).nfa.accepts(text);
        if !accepted(specs, text) {
            assert(!specs[i].nfa.accepts(text));
        }
    }
}

/// What a window grows to: every window on the way was accepted, and the next one is not
/// or does not exist.
pub proof fn extend_stops(specs: Seq<TokenSpecView>, src: Seq<char>, start: int, k: nat)
    requires
        0 <= start,
        start + k <= src.len(),
    ensures
        forall|m: int|
            k < m <= extend(specs, src, start, k) ==> accepted(
                specs,
                #[trigger] src.subrange(start, start + m),
            ),
        start + extend(specs, src, start, k) < src.len() ==> !accepted(
            specs,
            src.subrange(start, start + extend(specs, src, start, k) + 1),
        ),
    decreases src.len() - start - k,
{
    extend_bounds(specs, src, start, k);
    if start + k < src.len() && accepted(specs, src.subrange(start, start + k + 1)) {
        extend_stops(specs, src, start, k + 1);
    }
}

/// The token at `start` is the longest that can be reached one character at a time: each
/// of its prefixes is accepted by some rule, and no rule accepts it with the next
/// character of the source.
pub proof fn longest_is_reachable(specs: Seq<TokenSpecView>, src: Seq<char>, start: int)
    requires
        0 <= start <= src.len(),
    ensures
        start + longest(specs, src, start) <= src.len(),
        forall|m: int|
            0 < m <= longest(specs, src, start) ==> accepted(
                specs,
                #[trigger] src.subrange(start, start + m),
            ),
        start + longest(specs, src, start) < src.len() ==> !accepted(
            specs,
            src.subrange(start, start + longest(specs, src, start) + 1),
        ),
{
    extend_bounds(specs, src, start, 0);
    extend_stops(specs, src, start, 0);
}

/// Longest match: a window at `start` that some rule accepts, and whose shorter windows
/// are accepted too, is no longer than the token that the lexer takes at `start`. (A
/// window that is accepted behind a shorter one that is not is never tried.)
pub proof fn longest_is_maximal(specs: Seq<TokenSpecView>, src: Seq<char>, start: int, len: nat)
    requires
        0 <= start,
        start + len <= src.len(),
        forall|m: int| 0 < m <= len ==> accepted(specs, #[trigger] src.subrange(start, start + m)),
    ensures
        len <= longest(specs, src, start),
{
    let n = longest(specs, src, start);
    longest_is_reachable(specs, src, start);
    if n < len {
        assert(accepted(specs, src.subrange(start, start + (n + 1))));
    }
}

/// The cursor of a lexer: the number of characters before it, and the same place as a
/// position in bytes, lines and columns.
#[derive(Debug, Clone, Copy)]
struct Cursor {
    index: usize,
    position: Position,
}

/// A lexer over one source text: it hands out the tokens of the source one by one.
pub struct Lexer<'a> {
    input: &'a str,
    chars: Vec<char>,
    cursor: Cursor,
    specs: Vec<TokenSpec>,
    mode: Mode,
}

impl<'a> View for Lexer<'a> {
    type V = LexerView;

    closed spec fn view(&self) -> LexerView {
        LexerView {
            src: self.chars@,
            cursor: self.cursor.index as nat,
            mode: self.mode,
            specs: spec_views(self.specs@),
        }
    }
}

/// The value of what the lexer hands out at one call.
pub open spec fn item_view(o: Option<Result<Token, LexerError>>) -> LexItem {
    match o {
        None => None,
        Some(Ok(t)) => Some(Ok(t@)),
        Some(Err(e)) => Some(Err(e@)),
    }
}

/// The values of a list of items that the lexer handed out.
pub open spec fn item_views(v: Seq<Result<Token, LexerError>>) -> Seq<
    Result<TokenView, LexerErrorView>,
> {
    v.map_values(
        |r: Result<Token, LexerError>|
            match r {
                Ok(t) => Ok(t@),
                Err(e) => Err(e@),
            },
    )
}

impl<'a> Lexer<'a> {
    /// The invariant of a lexer: it holds the characters of its source, the cursor lies
    /// within them, its position is the place of the cursor, and the source's bytes can
    /// be counted in a machine word.
    #[verifier::type_invariant]
    closed spec fn inv(&self) -> bool {
        &&& self.chars@ == self.input@
        &&& self.cursor.index <= self.chars.len()
        &&& self.cursor.position@ == PositionView::at(self.chars@, self.cursor.index as nat)
        &&& utf8_len(self.chars@, self.chars@.len()) <= usize::MAX
    }

    /// A lexer at the start of `input`, in normal mode, with the rules `specs`.
    pub fn new(input: &'a str, specs: Vec<TokenSpec>) -> (r: Self)
        ensures
            r@ == (LexerView {
                src: input@,
                cursor: 0,
                mode: Mode::Normal,
                specs: spec_views(specs@),
            }),
    {
        let total = byte_len(input);
        let chars = chars_of(input);
        Self {
            input,
            chars,
            cursor: Cursor { index: 0, position: Position::new() },
            specs,
            mode: Mode::Normal,
        }
    }

    /// The source that the lexer reads.
    pub fn source(&self) -> (r: &'a str)
        ensures
            r@ == self@.src,
    {
        proof {
            use_type_invariant(self);
        }
        self.input
    }

    /// The character at the cursor, if the cursor is not at the end.
    fn peek_char(&self) -> (r: Option<char>)
        ensures
            r == (if self@.cursor < self@.src.len() {
                Some(self@.src[self@.cursor as int])
            } else {
                None
            }),
    {
        proof {
            use_type_invariant(self);
        }
        if self.cursor.index < self.chars.len() {
            Some(self.chars[self.cursor.index])
        } else {
            None
        }
    }

    /// Moves the cursor behind the character it stands at, if there is one.
    fn advance_char(&mut self)
        ensures
            final(self)@ == old(self)@.moved(
                if old(self)@.cursor < old(self)@.src.len() {
                    old(self)@.cursor as int + 1
                } else {
                    old(self)@.cursor as int
                },
                old(self)@.mode,
            ),
    {
        proof {
            use_type_invariant(&*self);
        }
        if self.cursor.index < self.chars.len() {
            let ch = self.chars[self.cursor.index];
            proof {
                position_bounds(self.chars@, (self.cursor.index + 1) as nat);
                utf8_len_monotonic(
                    self.chars@,
                    (self.cursor.index + 1) as nat,
                    self.chars@.len(),
                );
                utf8_len_monotonic(self.chars@, 0, self.chars@.len());
            }
            self.cursor = Cursor {
                index: self.cursor.index + 1,
                position: self.cursor.position.advance(ch),
            };
        }
    }

    /// Moves the cursor forward to the place `to`.
    fn advance_to(&mut self, to: usize)
        requires
            old(self)@.cursor <= to <= old(self)@.src.len(),
        ensures
            final(self)@ == old(self)@.moved(to as int, old(self)@.mode),
    {
        proof {
            use_type_invariant(&*self);
        }
        while self.cursor.index < to
            invariant
                old(self)@.cursor <= self@.cursor <= to <= self@.src.len(),
                self@ == old(self)@.moved(self@.cursor as int, old(self)@.mode),
            decreases to - self@.cursor,
        {
            self.advance_char();
        }
    }

    /// Moves the cursor over the whitespace that it stands before.
    fn skip_whitespace(&mut self)
        ensures
            final(self)@ == old(self)@.moved(
                skip_space(old(self)@.src, old(self)@.cursor as int),
                old(self)@.mode,
            ),
            final(self)@.cursor <= final(self)@.src.len(),
    {
        proof {
            use_type_invariant(&*self);
        }
        loop
            invariant
                self@.cursor <= self@.src.len(),
                self@ == old(self)@.moved(self@.cursor as int, old(self)@.mode),
                skip_space(self@.src, self@.cursor as int) == skip_space(
                    old(self)@.src,
                    old(self)@.cursor as int,
                ),
            ensures
                self@ == old(self)@.moved(
                    skip_space(old(self)@.src, old(self)@.cursor as int),
                    old(self)@.mode,
                ),
                self@.cursor <= self@.src.len(),
            decreases self@.src.len() - self@.cursor,
        {
            match self.peek_char() {
                Some(ch) => {
                    if !char_is_ascii_space(ch) {
                        break ;
                    }
                    self.advance_char();
                },
                None => {
                    break ;
                },
            }
        }
    }

    /// The first rule whose pattern matches the whole of the window from `from` to `to`,
    /// or the number of rules if there is none.
    fn first_match(&self, from: usize, to: usize) -> (r: usize)
        requires
            from <= to <= self@.src.len(),
        ensures
            r == first_accepting(self@.specs, self@.src.subrange(from as int, to as int), 0),
            r <= self@.specs.len(),
    {
        let ghost text = self.chars@.subrange(from as int, to as int);
        let mut i: usize = 0;
        while i < self.specs.len()
            invariant
                i <= self.specs.len(),
                from <= to <= self.chars.len(),
                text == self.chars@.subrange(from as int, to as int),
                first_accepting(spec_views(self.specs@), text, i as int) == first_accepting(
                    spec_views(self.specs@),
                    text,
                    0,
                ),
            decreases self.specs.len() - i,
        {
            if self.specs[i].accepts_range(&self.chars, from, to) {
                return i;
            }
            i += 1;
        }
        i
    }

    /// Finds the longest token at the cursor and moves the cursor behind it.
    fn best_match(&mut self) -> (r: Option<(TokenKind, usize)>)
        requires
            old(self)@.cursor <= old(self)@.src.len(),
        ensures
            match r {
                Some((kind, len)) => {
                    let start = old(self)@.cursor as int;
                    let text = old(self)@.src.subrange(start, start + len);
                    &&& len > 0
                    &&& len == longest(old(self)@.specs, old(self)@.src, start)
                    &&& kind@ == old(self)@.specs[first_accepting(
                        old(self)@.specs,
                        text,
                        0,
                    )].class.kind(text)
                    &&& final(self)@ == old(self)@.moved(start + len, old(self)@.mode)
                },
                None => longest(old(self)@.specs, old(self)@.src, old(self)@.cursor as int) == 0
                    && final(self)@ == old(self)@,
            },
    {
        proof {
            use_type_invariant(&*self);
        }
        let start = self.cursor.index;
        let mut len: usize = 0;
        let mut rule: usize = 0;
        loop
            invariant
                self@ == old(self)@,
                start == self@.cursor,
                start + len <= self@.src.len(),
                self@.src.len() == self.chars.len(),
                extend(self@.specs, self@.src, start as int, len as nat) == longest(
                    self@.specs,
                    self@.src,
                    start as int,
                ),
                len > 0 ==> rule < self@.specs.len() && rule == first_accepting(
                    self@.specs,
                    self@.src.subrange(start as int, start + len),
                    0,
                ),
            ensures
                self@ == old(self)@,
                start == self@.cursor,
                start + len <= self@.src.len(),
                len == longest(self@.specs, self@.src, start as int),
                len > 0 ==> rule < self@.specs.len() && rule == first_accepting(
                    self@.specs,
                    self@.src.subrange(start as int, start + len),
                    0,
                ),
            decreases self@.src.len() - start - len,
        {
            if start + len >= self.chars.len() {
                break ;
            }
            let found = self.first_match(start, start + len + 1);
            if found >= self.specs.len() {
                break ;
            }
            len += 1;
            rule = found;
        }
        if len == 0 {
            return None;
        }
        let text = string_of_range(&self.chars, start, start + len);
        let kind = self.specs[rule].class().make(text);
        self.advance_to(start + len);
        Some((kind, len))
    }

    /// A token of the kind `kind` that stands between `start` and `end`.
    fn make_token(&self, kind: TokenKind, start: Position, end: Position) -> (r: Token)
        ensures
            r@ == (TokenView { kind: kind@, span: SpanView { start: start@, end: end@ } }),
    {
        Token { kind, span: Span::new(start, end) }
    }

    /// Reads a text block at the cursor.
    fn lex_block(&mut self) -> (r: Result<Token, LexerError>)
        requires
            old(self)@.cursor <= old(self)@.src.len(),
        ensures
            (item_view(Some(r)), final(self)@) == old(self)@.lex_block(),
    {
        proof {
            use_type_invariant(&*self);
        }
        let start = self.cursor.position;
        let from = self.cursor.index;
        let mut tick: usize = from;
        while tick < self.chars.len() && self.chars[tick] != '`'
            invariant
                from <= tick <= self.chars.len(),
                self@ == old(self)@,
                self.chars@ == self@.src,
                closing_tick(self@.src, tick as int) == closing_tick(self@.src, from as int),
            decreases self.chars.len() - tick,
        {
            tick += 1;
        }
        if tick >= self.chars.len() {
            self.mode = Mode::Block;
            Err(
                LexerError::new(
                    LexerErrorKind::UnterminatedBlock,
                    Span::new(start, start),
                    self.input,
                ),
            )
        } else {
            let text = string_of_range(&self.chars, from, tick);
            self.advance_to(tick + 1);
            proof {
                use_type_invariant(&*self);
            }
            self.mode = Mode::Normal;
            Ok(self.make_token(TokenKind::TextBlock(text), start, self.cursor.position))
        }
    }

    /// Reads a token at the cursor, which stands before a character.
    fn lex_normal(&mut self) -> (r: Result<Token, LexerError>)
        requires
            old(self)@.cursor < old(self)@.src.len(),
        ensures
            (item_view(Some(r)), final(self)@) == old(self)@.lex_normal(),
    {
        proof {
            use_type_invariant(&*self);
            extend_bounds(self@.specs, self@.src, self@.cursor as int, 0);
        }
        let start = self.cursor.position;
        let from = self.cursor.index;
        match self.best_match() {
            Some((kind, len)) => {
                proof {
                    use_type_invariant(&*self);
                }
                let opens_block = match &kind {
                    TokenKind::TextBlock(_) => len == 1 && self.chars[from] == '`',
                    _ => false,
                };
                proof {
                    let text = self@.src.subrange(from as int, from + len);
                    if opens_block {
                        assert(text =~= seq!['`']);
                    }
                    if kind@ == TokenKindView::TextBlock(seq!['`']) {
                        assert(text == seq!['`']);
                        assert(text.len() == 1);
                        assert(text[0] == '`');
                    }
                }
                if opens_block {
                    self.mode = Mode::Block;
                    return self.lex_block();
                }
                Ok(self.make_token(kind, start, self.cursor.position))
            },
            None => {
                proof {
                    use_type_invariant(&*self);
                }
                let ch = self.chars[from];
                Err(
                    LexerError::new(
                        LexerErrorKind::UnexpectedChar(ch),
                        Span::new(start, start),
                        self.input,
                    ),
                )
            },
        }
    }

    /// Hands out the next token of the source, an error, or nothing at the end of the
    /// source.
    pub fn next_token(&mut self) -> (r: Option<Result<Token, LexerError>>)
        ensures
            (item_view(r), final(self)@) == old(self)@.next(),
    {
        proof {
            use_type_invariant(&*self);
            skip_space_bounds(self@.src, self@.cursor as int);
        }
        self.skip_whitespace();
        proof {
            use_type_invariant(&*self);
        }
        if self.cursor.index >= self.chars.len() {
            return None;
        }
        Some(
            match self.mode {
                Mode::Normal => self.lex_normal(),
                Mode::Block => self.lex_block(),
            },
        )
    }

    /// Reads the source to its end or to the first error, and hands out all that the
    /// calls gave, in order.
    pub fn collect_tokens(&mut self) -> (r: Vec<Result<Token, LexerError>>)
        ensures
            item_views(r@) == old(self)@.stream(),
            final(self)@.src == old(self)@.src,
    {
        proof {
            use_type_invariant(&*self);
        }
        let mut out: Vec<Result<Token, LexerError>> = Vec::new();
        assert(item_views(out@) == Seq::<Result<TokenView, LexerErrorView>>::empty());
        loop
            invariant_except_break
                item_views(out@) + self@.stream() == old(self)@.stream(),
            invariant
                self@.cursor <= self@.src.len(),
                self@.src == old(self)@.src,
            ensures
                item_views(out@) == old(self)@.stream(),
                self@.src == old(self)@.src,
            decreases self@.src.len() - self@.cursor,
        {
            let ghost before = self@;
            let ghost done = item_views(out@);
            proof {
                next_advances(before);
            }
            match self.next_token() {
                None => {
                    assert(before.stream() == Seq::<Result<TokenView, LexerErrorView>>::empty());
                    assert(done + before.stream() == done);
                    break ;
                },
                Some(Err(e)) => {
                    let ghost ev = e@;
                    out.push(Err(e));
                    assert(item_views(out@) == done.push(Err(ev)));
                    assert(done + seq![Err::<TokenView, LexerErrorView>(ev)] == done.push(Err(ev)));
                    break ;
                },
                Some(Ok(t)) => {
                    let ghost tv = t@;
                    out.push(Ok(t));
                    assert(item_views(out@) == done.push(Ok(tv)));
                    assert(done.push(Ok(tv)) + self@.stream() == done + (seq![
                        Ok::<TokenView, LexerErrorView>(tv),
                    ] + self@.stream()));
                },
            }
        }
        out
    }
}

} // verus!
