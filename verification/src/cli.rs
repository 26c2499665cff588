use crate::errors::{BloggerError, BloggerErrorView};
use crate::regex::correct::matcher_accepts_denoted;
use crate::regex::grammar::{well_formed, Syntax};
use crate::regex::matcher::Matcher;
use crate::regex::written::text_is_well_formed;
use crate::text::{chars_of, string_of_range};
use vstd::prelude::*;
use vstd::string::*;

verus! {

/// The flags of a command line: each key with its value, if it has one.
#[derive(Debug)]
pub struct Flags {
    inner: Vec<(String, Option<String>)>,
}

/// The value of an optional string.
pub open spec fn text_of(o: Option<String>) -> Option<Seq<char>> {
    match o {
        Some(s) => Some(s@),
        None => None,
    }
}

/// The map that the first `n` entries make up; a later entry replaces an earlier one
/// with the same key.
pub open spec fn entries_map(entries: Seq<(String, Option<String>)>, n: nat) -> Map<
    Seq<char>,
    Option<Seq<char>>,
>
    decreases n,
{
    if n == 0 || n > entries.len() {
        Map::empty()
    } else {
        entries_map(entries, (n - 1) as nat).insert(entries[n - 1].0@, text_of(entries[n - 1].1))
    }
}

impl View for Flags {
    type V = Map<Seq<char>, Option<Seq<char>>>;

    closed spec fn view(&self) -> Map<Seq<char>, Option<Seq<char>>> {
        entries_map(self.inner@, self.inner@.len())
    }
}

/// The map of a list of entries is the map of the entries but the last, with the last
/// entry put in.
proof fn entries_map_push(entries: Seq<(String, Option<String>)>, last: (String, Option<String>))
    ensures
        entries_map(entries.push(last), entries.len() + 1) == entries_map(
            entries,
            entries.len(),
        ).insert(last.0@, text_of(last.1)),
{
    entries_map_prefix(entries.push(last), entries, entries.len());
}

/// The map of the first entries depends on those entries only.
proof fn entries_map_prefix(
    a: Seq<(String, Option<String>)>,
    b: Seq<(String, Option<String>)>,
    n: nat,
)
    requires
        n <= a.len(),
        n <= b.len(),
        forall|i: int| 0 <= i < n ==> a[i] == b[i],
    ensures
        entries_map(a, n) == entries_map(b, n),
    decreases n,
{
    if n > 0 {
        entries_map_prefix(a, b, (n - 1) as nat);
    }
}

impl Flags {
    /// No flags.
    pub fn new() -> (r: Self)
        ensures
            r@ == Map::<Seq<char>, Option<Seq<char>>>::empty(),
    {
        Flags { inner: Vec::new() }
    }

    /// Puts in the flag `key` with `value`, in place of what the key had.
    pub fn insert(&mut self, key: String, value: Option<String>)
        ensures
            final(self)@ == old(self)@.insert(key@, text_of(value)),
    {
        proof {
            entries_map_push(self.inner@, (key, value));
        }
        self.inner.push((key, value));
    }

    /// The place of the last entry with the key `key`, if there is one.
    fn find(&self, key: &str) -> (r: Option<usize>)
        ensures
            match r {
                Some(i) => i < self.inner.len() && self.inner@[i as int].0@ == key@ && self@[key@]
                    == text_of(self.inner@[i as int].1) && self@.contains_key(key@),
                None => !self@.contains_key(key@),
            },
    {
        let wanted = String::from_str(key);
        let mut i: usize = self.inner.len();
        while i > 0
            invariant
                i <= self.inner.len(),
                wanted@ == key@,
                self@.contains_key(key@) == entries_map(self.inner@, i as nat).contains_key(key@),
                self@.contains_key(key@) ==> self@[key@] == entries_map(self.inner@, i as nat)[key@],
            decreases i,
        {
            i -= 1;
            if self.inner[i].0 == wanted {
                return Some(i);
            }
        }
        None
    }

    /// Tests whether the flag `key` was given.
    pub fn contains(&self, key: &str) -> (r: bool)
        ensures
            r == self@.contains_key(key@),
    {
        self.find(key).is_some()
    }

    /// The value of the flag `key`, if the flag was given with one.
    pub fn get(&self, key: &str) -> (r: Option<&String>)
        ensures
            match r {
                Some(v) => self@.contains_key(key@) && self@[key@] == Some(v@),
                None => !self@.contains_key(key@) || self@[key@] is None,
            },
    {
        match self.find(key) {
            Some(i) => match &self.inner[i].1 {
                Some(v) => Some(v),
                None => None,
            },
            None => None,
        }
    }

    /// Asks for every flag of `keys`: the first that was not given is an error.
    pub fn must(&self, keys: &[&str]) -> (r: Result<(), BloggerError>)
        ensures
            match r {
                Ok(_) => forall|i: int| 0 <= i < keys@.len() ==> self@.contains_key(keys@[i]@),
                Err(e) => exists|i: int|
                    0 <= i < keys@.len() && !self@.contains_key(keys@[i]@) && e@
                        == BloggerErrorView::CommandError("expected flag "@ + keys@[i]@) && forall|
                        j: int,
                    | 0 <= j < i ==> self@.contains_key(keys@[j]@),
            },
    {
        let mut i: usize = 0;
        while i < keys.len()
            invariant
                i <= keys@.len(),
                forall|j: int| 0 <= j < i ==> self@.contains_key(keys@[j]@),
            decreases keys@.len() - i,
        {
            if !self.contains(keys[i]) {
                let mut msg = String::from_str("expected flag ");
                msg.append(keys[i]);
                return Err(BloggerError::CommandError(msg));
            }
            i += 1;
        }
        Ok(())
    }
}

/// The pattern of a flag: two hyphens, a name in small letters, an equals sign, and a
/// value of small letters, slashes, dots and underscores.
pub open spec fn flag_pattern() -> Seq<char> {
    "(-.-).([a-z]*).=.(([a-z]|/|\\.|_)*)"@
}

/// The syntax tree of what the value of a flag consists of: a small letter, a slash, a
/// dot or an underscore.
pub open spec fn flag_value_char() -> Syntax {
    Syntax::Alt(
        Box::new(
            Syntax::Alt(
                Box::new(
                    Syntax::Alt(Box::new(Syntax::Range('a', 'z')), Box::new(Syntax::Lit('/'))),
                ),
                Box::new(Syntax::Lit('.')),
            ),
        ),
        Box::new(Syntax::Lit('_')),
    )
}

/// The syntax tree of the start of a flag: two hyphens and a name in small letters.
pub open spec fn flag_name() -> Syntax {
    Syntax::Concat(
        Box::new(
            Syntax::Group(
                Box::new(Syntax::Concat(Box::new(Syntax::Lit('-')), Box::new(Syntax::Lit('-')))),
            ),
        ),
        Box::new(Syntax::Group(Box::new(Syntax::Star(Box::new(Syntax::Range('a', 'z')))))),
    )
}

/// The syntax tree of the pattern of a flag.
pub open spec fn flag_syntax() -> Syntax {
    Syntax::Concat(
        Box::new(Syntax::Concat(Box::new(flag_name()), Box::new(Syntax::Lit('=')))),
        Box::new(
            Syntax::Group(
                Box::new(Syntax::Star(Box::new(Syntax::Group(Box::new(flag_value_char()))))),
            ),
        ),
    )
}

/// The pattern of a flag is well-formed.
pub proof fn flag_pattern_is_well_formed()
    ensures
        well_formed(flag_pattern(), flag_syntax()),
{
    reveal_strlit("(-.-).([a-z]*).=.(([a-z]|/|\\.|_)*)");
    let hyphen = Syntax::Lit('-');
    let letter = Syntax::Range('a', 'z');
    let slash = Syntax::Lit('/');
    let dot = Syntax::Lit('.');
    let under = Syntax::Lit('_');
    let equals = Syntax::Lit('=');
    assert(hyphen.wf() && hyphen.ascending() && hyphen.writable());
    assert(letter.wf() && letter.ascending() && letter.writable());
    assert(slash.wf() && slash.ascending() && slash.writable());
    assert(dot.wf() && dot.ascending() && dot.writable());
    assert(under.wf() && under.ascending() && under.writable());
    assert(equals.wf() && equals.ascending() && equals.writable());
    assert(hyphen.text() =~= seq!['-']);
    assert(letter.text() =~= seq!['[', 'a', '-', 'z', ']']);
    assert(slash.text() =~= seq!['/']);
    assert(dot.text() =~= seq!['\\', '.']);
    assert(under.text() =~= seq!['_']);
    assert(equals.text() =~= seq!['=']);
    let hyphens = Syntax::Concat(Box::new(hyphen), Box::new(hyphen));
    assert(hyphens.wf() && hyphens.ascending() && hyphens.writable());
    assert(hyphens.text() =~= seq!['-', '.', '-']);
    let start = Syntax::Group(Box::new(hyphens));
    assert(start.wf() && start.ascending() && start.writable());
    assert(start.text() =~= seq!['(', '-', '.', '-', ')']);
    let letters = Syntax::Star(Box::new(letter));
    assert(letters.wf() && letters.ascending() && letters.writable());
    assert(letters.text() =~= seq!['[', 'a', '-', 'z', ']', '*']);
    let name = Syntax::Group(Box::new(letters));
    assert(name.wf() && name.ascending() && name.writable());
    assert(name.text() =~= seq!['(', '[', 'a', '-', 'z', ']', '*', ')']);
    let named = Syntax::Concat(Box::new(start), Box::new(name));
    assert(named == flag_name());
    assert(named.wf() && named.ascending() && named.writable());
    assert(named.text() =~= start.text() + seq!['.'] + name.text());
    let assigned = Syntax::Concat(Box::new(named), Box::new(equals));
    assert(assigned.wf() && assigned.ascending() && assigned.writable());
    assert(assigned.text() =~= named.text() + seq!['.', '=']);
    let one = Syntax::Alt(Box::new(letter), Box::new(slash));
    assert(one.wf() && one.ascending() && one.writable());
    assert(one.text() =~= seq!['[', 'a', '-', 'z', ']', '|', '/']);
    let two = Syntax::Alt(Box::new(one), Box::new(dot));
    assert(two.wf() && two.ascending() && two.writable());
    assert(two.text() =~= one.text() + seq!['|', '\\', '.']);
    let any = Syntax::Alt(Box::new(two), Box::new(under));
    assert(any == flag_value_char());
    assert(any.wf() && any.ascending() && any.writable());
    assert(any.text() =~= two.text() + seq!['|', '_']);
    let grouped = Syntax::Group(Box::new(any));
    assert(grouped.wf() && grouped.ascending() && grouped.writable());
    assert(grouped.text() =~= seq!['('] + any.text() + seq![')']);
    let row = Syntax::Star(Box::new(grouped));
    assert(row.wf() && row.ascending() && row.writable());
    assert(row.text() =~= grouped.text() + seq!['*']);
    let value = Syntax::Group(Box::new(row));
    assert(value.wf() && value.ascending() && value.writable());
    assert(value.text() =~= seq!['('] + row.text() + seq![')']);
    let flag = Syntax::Concat(Box::new(assigned), Box::new(value));
    assert(flag == flag_syntax());
    assert(flag.wf() && flag.ascending() && flag.writable());
    assert(flag.text() =~= assigned.text() + seq!['.'] + value.text());
    assert(flag.text() =~= flag_pattern());
    text_is_well_formed(flag);
}

/// The place of the first equals sign in `s` at or behind `from`, or the length of `s` if
/// there is none.
pub open spec fn equals_at(s: Seq<char>, from: int) -> int
    decreases s.len() - from,
{
    if from < 0 || from >= s.len() {
        s.len() as int
    } else if s[from] == '=' {
        from
    } else {
        equals_at(s, from + 1)
    }
}

/// The two halves of an argument with exactly one equals sign: what stands before the
/// sign and what stands behind it. Another argument has none.
pub open spec fn halves(arg: Seq<char>) -> Option<(Seq<char>, Seq<char>)> {
    let at = equals_at(arg, 0);
    if at < arg.len() && equals_at(arg, at + 1) >= arg.len() {
        Some((arg.subrange(0, at), arg.subrange(at + 1, arg.len() as int)))
    } else {
        None
    }
}

/// The flags that the first `n` arguments give: each argument that the pattern of a flag
/// denotes and that has two halves gives its first half as a key and its second as the
/// value.
pub open spec fn flags_of(args: Seq<Seq<char>>, n: nat) -> Map<Seq<char>, Option<Seq<char>>>
    decreases n,
{
    if n == 0 || n > args.len() {
        Map::empty()
    } else {
        let before = flags_of(args, (n - 1) as nat);
        match halves(args[n - 1]) {
            Some((key, value)) => if flag_syntax().denotes(args[n - 1]) {
                before.insert(key, Some(value))
            } else {
                before
            },
            None => before,
        }
    }
}

/// The place of the first equals sign in `s` at or behind `from`.
fn find_equals(s: &Vec<char>, from: usize) -> (r: usize)
    requires
        from <= s.len(),
    ensures
        r == equals_at(s@, from as int),
        from <= r <= s.len(),
{
    let mut i: usize = from;
    while i < s.len() && s[i] != '='
        invariant
            from <= i <= s.len(),
            equals_at(s@, i as int) == equals_at(s@, from as int),
        decreases s.len() - i,
    {
        i += 1;
    }
    i
}

/// The texts of a list of arguments.
pub open spec fn arg_texts(args: Seq<String>) -> Seq<Seq<char>> {
    args.map_values(|s: String| s@)
}

/// Reads the flags from the arguments of a command line. The arguments that are no flags
/// are passed over.
pub fn parse_flags(args: &[String]) -> (flags: Flags)
    ensures
        flags@ == flags_of(arg_texts(args@), args@.len()),
{
    let compiled = Matcher::new("(-.-).([a-z]*).=.(([a-z]|/|\\.|_)*)");
    proof {
        flag_pattern_is_well_formed();
        matcher_accepts_denoted(flag_pattern(), flag_syntax(), Seq::empty());
    }
    let m = compiled.unwrap();
    let mut f = Flags::new();
    let mut i: usize = 0;
    while i < args.len()
        invariant
            i <= args@.len(),
            m@ == flag_syntax().automaton(),
            well_formed(flag_pattern(), flag_syntax()),
            f@ == flags_of(arg_texts(args@), i as nat),
        decreases args@.len() - i,
    {
        let a = &args[i];
        assert(arg_texts(args@)[i as int] == a@);
        let chars = chars_of(a.as_str());
        assert(chars@.subrange(0, chars.len() as int) == a@);
        proof {
            matcher_accepts_denoted(flag_pattern(), flag_syntax(), a@);
        }
        let at = find_equals(&chars, 0);
        if at < chars.len() {
            let again = find_equals(&chars, at + 1);
            if again >= chars.len() {
                assert(halves(a@) == Some(
                    (a@.subrange(0, at as int), a@.subrange(at + 1, a@.len() as int)),
                ));
                if m.matches_range(&chars, 0, chars.len()) {
                    let key = string_of_range(&chars, 0, at);
                    let value = string_of_range(&chars, at + 1, chars.len());
                    f.insert(key, Some(value));
                }
            } else {
                assert(halves(a@) is None);
            }
        } else {
            assert(halves(a@) is None);
        }
        i += 1;
    }
    f
}

/// What the program can be asked to do.
#[derive(Debug, Clone, Copy, PartialEq, Eq)]
pub enum Command {
    Lex,
    Parse,
    Compile,
}

/// The command with the name `name`. Another name than `lex`, `parse` and `compile` is
/// an error.
pub fn command_named(name: &str) -> (r: Result<Command, BloggerError>)
    ensures
        match r {
            Ok(c) => name@ == (match c {
                Command::Lex => "lex"@,
                Command::Parse => "parse"@,
                Command::Compile => "compile"@,
            }),
            Err(e) => name@ != "lex"@ && name@ != "parse"@ && name@ != "compile"@ && e@
                == BloggerErrorView::CommandError("unknown command: "@ + name@),
        },
{
    let given = String::from_str(name);
    if given == String::from_str("lex") {
        Ok(Command::Lex)
    } else if given == String::from_str("compile") {
        Ok(Command::Compile)
    } else if given == String::from_str("parse") {
        Ok(Command::Parse)
    } else {
        let mut msg = String::from_str("unknown command: ");
        msg.append(name);
        Err(BloggerError::CommandError(msg))
    }
}

} // verus!
