//! Token types and the resolver that builds the token tree.

use vstd::prelude::*;

use crate::model::{lemma_view_tokens, token_view, view_tokens, Coord, TokenModel};
use crate::rules::{
    advance, close_span, delimiter_step, finish, in_verbatim, initial_state, is_gap,
    last_opener_of, lemma_last_opener_bounds, lemma_step_keeps_openers_valid, literal,
    openers_valid, resolved, run, step, OpenerModel, ResolverState,
};
use crate::tokenizer::{is_delimiter_char, BasicToken, BasicTokenType};

verus! {

/// A zero-based (line, column) coordinate, counted in characters.
#[derive(Debug, Clone, Copy, PartialEq, Eq, Structural)]
pub struct Position {
    pub line_counter: u32,
    pub char_counter: u32,
}

impl View for Position {
    type V = Coord;

    open spec fn view(&self) -> Coord {
        (self.line_counter as nat, self.char_counter as nat)
    }
}

impl Position {
    pub fn new(line_counter: u32, char_counter: u32) -> (r: Position)
        ensures
            r.line_counter == line_counter,
            r.char_counter == char_counter,
    {
        Position { line_counter, char_counter }
    }
}

/// The eleven kinds of attached modifier.
#[derive(Debug, Clone, Copy, PartialEq, Eq, Structural)]
pub enum AttachedModifierType {
    Bold,
    Italic,
    Underline,
    Strikethrough,
    Spoiler,
    Verbatim,
    Superscript,
    Subscript,
    Math,
    Variable,
    Comment,
}

/// The modifier kind that a delimiter character stands for.
pub open spec fn modifier_of(c: char) -> AttachedModifierType
    recommends
        is_delimiter_char(c),
{
    if c == '*' {
        AttachedModifierType::Bold
    } else if c == '/' {
        AttachedModifierType::Italic
    } else if c == '_' {
        AttachedModifierType::Underline
    } else if c == '-' {
        AttachedModifierType::Strikethrough
    } else if c == '|' {
        AttachedModifierType::Spoiler
    } else if c == '`' {
        AttachedModifierType::Verbatim
    } else if c == '^' {
        AttachedModifierType::Superscript
    } else if c == ',' {
        AttachedModifierType::Subscript
    } else if c == '$' {
        AttachedModifierType::Math
    } else if c == '=' {
        AttachedModifierType::Variable
    } else {
        AttachedModifierType::Comment
    }
}

/// The delimiter character of a modifier kind.
pub open spec fn delimiter_of(kind: AttachedModifierType) -> char {
    match kind {
        AttachedModifierType::Bold => '*',
        AttachedModifierType::Italic => '/',
        AttachedModifierType::Underline => '_',
        AttachedModifierType::Strikethrough => '-',
        AttachedModifierType::Spoiler => '|',
        AttachedModifierType::Verbatim => '`',
        AttachedModifierType::Superscript => '^',
        AttachedModifierType::Subscript => ',',
        AttachedModifierType::Math => '$',
        AttachedModifierType::Variable => '=',
        AttachedModifierType::Comment => '+',
    }
}

impl AttachedModifierType {
    pub fn new(special_char: char) -> (r: AttachedModifierType)
        requires
            is_delimiter_char(special_char),
        ensures
            r == modifier_of(special_char),
    {
        match special_char {
            '*' => AttachedModifierType::Bold,
            '/' => AttachedModifierType::Italic,
            '_' => AttachedModifierType::Underline,
            '-' => AttachedModifierType::Strikethrough,
            '|' => AttachedModifierType::Spoiler,
            '`' => AttachedModifierType::Verbatim,
            '^' => AttachedModifierType::Superscript,
            ',' => AttachedModifierType::Subscript,
            '$' => AttachedModifierType::Math,
            '=' => AttachedModifierType::Variable,
            _ => AttachedModifierType::Comment,
        }
    }
}

impl From<AttachedModifierType> for char {
    fn from(attached_modifier_type: AttachedModifierType) -> (r: char) {
        match attached_modifier_type {
            AttachedModifierType::Bold => '*',
            AttachedModifierType::Italic => '/',
            AttachedModifierType::Underline => '_',
            AttachedModifierType::Strikethrough => '-',
            AttachedModifierType::Spoiler => '|',
            AttachedModifierType::Verbatim => '`',
            AttachedModifierType::Superscript => '^',
            AttachedModifierType::Subscript => ',',
            AttachedModifierType::Math => '$',
            AttachedModifierType::Variable => '=',
            AttachedModifierType::Comment => '+',
        }
    }
}

impl vstd::std_specs::convert::FromSpecImpl<AttachedModifierType> for char {
    open spec fn obeys_from_spec() -> bool {
        true
    }

    open spec fn from_spec(v: AttachedModifierType) -> char {
        delimiter_of(v)
    }
}

/// The kinds of link target.
#[derive(Debug, Clone, Copy, PartialEq, Eq, Structural)]
pub enum LinkType {
    Url,
}

/// A link: its kind and the raw text between the braces.
#[derive(Debug, PartialEq, Eq)]
pub struct Link {
    pub variant: LinkType,
    pub content: String,
}

/// What a token is.
#[derive(Debug, PartialEq, Eq)]
pub enum ParsedTokenData {
    /// A run of ordinary characters, or one literal delimiter or brace.
    Word(String),
    /// A run of spaces and tabs.
    Space,
    /// One line break.
    SoftBreak,
    /// Two line breaks.
    ParagraphBreak,
    /// A braced link.
    Link(Link),
    /// A matched modifier span and the tokens between its delimiters.
    AttachedModifier(AttachedModifierType, Vec<ParsedToken>),
}

/// A token and its range `[start, end)`.
#[derive(Debug, PartialEq, Eq)]
pub struct ParsedToken {
    pub range: [Position; 2],
    pub data: ParsedTokenData,
}

/// Relies on String::push: the character is appended at the end.
pub assume_specification[ String::push ](string: &mut String, ch: char)
    ensures
        final(string)@ == old(string)@.push(ch),
;

/// A pending opener: its delimiter character and the index of its
/// placeholder among the top-level tokens.
#[derive(Debug, Clone, Copy, PartialEq, Eq, Structural)]
pub struct UnclosedModifier {
    pub char: char,
    pub index: usize,
}

/// The model of the opener stack.
pub open spec fn openers_view(s: Seq<UnclosedModifier>) -> Seq<OpenerModel> {
    s.map_values(|o: UnclosedModifier| (o.char, o.index as int))
}

/// A one-character string.
fn one_char(c: char) -> (r: String)
    ensures
        r@ == seq![c],
{
    let mut s = String::new();
    s.push(c);
    s
}

/// A one-character word token.
fn literal_token(c: char, start: Position, end: Position) -> (t: ParsedToken)
    ensures
        token_view(t) == literal(c, start@, end@),
{
    ParsedToken { range: [start, end], data: ParsedTokenData::Word(one_char(c)) }
}

/// Index of the innermost pending opener of `c`, if any.
fn find_opener(openers: &Vec<UnclosedModifier>, c: char) -> (r: Option<usize>)
    ensures
        match r {
            Some(j) => j == last_opener_of(openers_view(openers@), c),
            None => last_opener_of(openers_view(openers@), c) == -1,
        },
{
    let ghost v = openers_view(openers@);
    let mut j: usize = openers.len();
    assert(v.take(j as int) =~= v);
    while j > 0
        invariant
            j <= openers.len(),
            v == openers_view(openers@),
            last_opener_of(v, c) == last_opener_of(v.take(j as int), c),
        decreases j,
    {
        assert(v.take(j as int).drop_last() =~= v.take(j - 1));
        if openers[j - 1].char == c {
            return Some(j - 1);
        }
        j = j - 1;
    }
    None
}

/// Space and line-break atoms separate words.
fn gap(a: BasicToken) -> (r: bool)
    ensures
        r == is_gap(a),
{
    matches!(a.token_type, BasicTokenType::Space | BasicTokenType::LineBreak)
}

/// The resolver's working state.
struct Resolver {
    tokens: Vec<ParsedToken>,
    openers: Vec<UnclosedModifier>,
    line: u32,
    column: u32,
    link: Option<(Position, String)>,
}

impl Resolver {
    spec fn model(&self) -> ResolverState {
        ResolverState {
            tokens: view_tokens(self.tokens@),
            openers: openers_view(self.openers@),
            pos: (self.line as nat, self.column as nat),
            link: match self.link {
                Some((p, text)) => Some((p@, text@)),
                None => None,
            },
        }
    }

    spec fn wf(&self, consumed: int) -> bool {
        &&& self.line + self.column <= consumed
        &&& openers_valid(self.model())
    }

    fn new() -> (r: Resolver)
        ensures
            r.model() == initial_state(),
            r.wf(0),
    {
        let r = Resolver {
            tokens: Vec::new(),
            openers: Vec::new(),
            line: 0,
            column: 0,
            link: None,
        };
        proof {
            assert(view_tokens(r.tokens@) == Seq::<TokenModel>::empty());
            assert(openers_view(r.openers@) =~= Seq::<OpenerModel>::empty());
        }
        r
    }

    /// Appends one token.
    fn push_token(&mut self, t: ParsedToken)
        ensures
            view_tokens(final(self).tokens@) == view_tokens(old(self).tokens@).push(token_view(t)),
            final(self).tokens@ == old(self).tokens@.push(t),
            final(self).openers == old(self).openers,
            final(self).line == old(self).line,
            final(self).column == old(self).column,
            final(self).link == old(self).link,
    {
        self.tokens.push(t);
        proof {
            lemma_view_tokens(old(self).tokens@);
            lemma_view_tokens(self.tokens@);
            assert(view_tokens(self.tokens@) =~= view_tokens(old(self).tokens@).push(token_view(t)));
        }
    }

    /// Closes the opener at index `j` of the stack with a delimiter ending at `end`.
    fn close(&mut self, j: usize, end: Position)
        requires
            openers_valid(old(self).model()),
            j < old(self).openers.len(),
        ensures
            final(self).model() == close_span(old(self).model(), j as int, end@),
            final(self).line == end.line_counter,
            final(self).column == end.char_counter,
    {
        let ghost st = self.model();
        proof {
            lemma_view_tokens(self.tokens@);
            assert(st.openers[j as int] == (self.openers@[j as int].char, self.openers@[j as int].index as int));
            assert(0 <= st.openers[j as int].1 < st.tokens.len());
        }
        let opener = self.openers[j];
        let k = opener.index;
        let n = self.tokens.len();
        assert(k < n);
        let children = self.tokens.split_off(k + 1);
        let placeholder = self.tokens.pop().unwrap();
        let kind = AttachedModifierType::new(opener.char);
        let span = ParsedToken {
            range: [placeholder.range[0], end],
            data: ParsedTokenData::AttachedModifier(kind, children),
        };
        self.tokens.push(span);
        self.openers.truncate(j);
        self.line = end.line_counter;
        self.column = end.char_counter;
        proof {
            lemma_view_tokens(children@);
            lemma_view_tokens(self.tokens@);
            assert(view_tokens(children@) =~= st.tokens.subrange(k + 1, st.tokens.len() as int));
            assert(view_tokens(self.tokens@) =~= close_span(st, j as int, end@).tokens);
            assert(openers_view(self.openers@) =~= st.openers.take(j as int));
        }
    }

    /// Resolves the delimiter atom at `i`.
    fn delimiter(&mut self, atoms: &Vec<BasicToken>, i: usize, p: Position, np: Position)
        requires
            old(self).wf(i as int),
            i < atoms.len(),
            atoms@[i as int].wf(),
            atoms@[i as int].token_type is Delimiter,
            p@ == old(self).model().pos,
            np@ == advance(p@, atoms@[i as int]),
        ensures
            final(self).model() == delimiter_step(old(self).model(), atoms@, i as int),
    {
        let ghost st = self.model();
        let c = atoms[i].char;
        let doubled = (i > 0 && atoms[i - 1].char == c) || (i + 1 < atoms.len() && atoms[i + 1].char
            == c);
        let opens = i == 0 || gap(atoms[i - 1]);
        let closes = i + 1 == atoms.len() || gap(atoms[i + 1]);
        let verbatim = self.openers.len() > 0 && self.openers[self.openers.len() - 1].char == '`';
        let found = find_opener(&self.openers, c);
        proof {
            lemma_last_opener_bounds(st.openers, c);
            assert(verbatim == in_verbatim(st.openers));
        }
        if doubled {
            self.push_token(literal_token(c, p, np));
        } else if closes && found.is_some() && (!verbatim || c == '`') {
            self.close(found.unwrap(), np);
            return ;
        } else if opens && !verbatim {
            let index = self.tokens.len();
            proof {
                lemma_view_tokens(self.tokens@);
            }
            self.push_token(literal_token(c, p, np));
            self.openers.push(UnclosedModifier { char: c, index });
            proof {
                assert(openers_view(self.openers@) =~= st.openers.push((c, st.tokens.len() as int)));
            }
        } else {
            self.push_token(literal_token(c, p, np));
        }
        self.line = np.line_counter;
        self.column = np.char_counter;
    }

    /// Removes the last token, which must exist.
    fn pop_token(&mut self) -> (t: ParsedToken)
        requires
            old(self).tokens.len() > 0,
        ensures
            t == old(self).tokens@.last(),
            view_tokens(final(self).tokens@) == view_tokens(old(self).tokens@).drop_last(),
            token_view(t) == view_tokens(old(self).tokens@).last(),
            final(self).openers == old(self).openers,
            final(self).line == old(self).line,
            final(self).column == old(self).column,
            final(self).link == old(self).link,
    {
        let t = self.tokens.pop().unwrap();
        proof {
            lemma_view_tokens(old(self).tokens@);
            lemma_view_tokens(self.tokens@);
            assert(view_tokens(self.tokens@) =~= view_tokens(old(self).tokens@).drop_last());
        }
        t
    }

    /// The last token exists and is a word.
    fn last_is_word(&self) -> (r: bool)
        ensures
            r == (self.tokens.len() > 0 && self.tokens@.last().data is Word),
    {
        self.tokens.len() > 0 && matches!(self.tokens[self.tokens.len() - 1].data, ParsedTokenData::Word(_))
    }

    /// The last token exists and is a space run.
    fn last_is_space(&self) -> (r: bool)
        ensures
            r == (self.tokens.len() > 0 && self.tokens@.last().data is Space),
    {
        self.tokens.len() > 0 && matches!(self.tokens[self.tokens.len() - 1].data, ParsedTokenData::Space)
    }

    /// The last token exists and is a soft break.
    fn last_is_soft_break(&self) -> (r: bool)
        ensures
            r == (self.tokens.len() > 0 && self.tokens@.last().data is SoftBreak),
    {
        self.tokens.len() > 0 && matches!(
            self.tokens[self.tokens.len() - 1].data,
            ParsedTokenData::SoftBreak
        )
    }

    /// Consumes the atom at `i`.
    fn step(&mut self, atoms: &Vec<BasicToken>, i: usize)
        requires
            old(self).wf(i as int),
            i < atoms.len(),
            atoms.len() <= u32::MAX,
            atoms@[i as int].wf(),
        ensures
            final(self).model() == step(old(self).model(), atoms@, i as int),
            final(self).wf(i + 1),
    {
        let ghost st = self.model();
        proof {
            lemma_view_tokens(self.tokens@);
        }
        let a = atoms[i];
        let p = Position::new(self.line, self.column);
        let np = match a.token_type {
            BasicTokenType::LineBreak => Position::new(self.line + 1, 0),
            _ => Position::new(self.line, self.column + 1),
        };
        match self.link.take() {
            Some((start, text)) => {
                if matches!(a.token_type, BasicTokenType::LinkClose) {
                    let t = ParsedToken {
                        range: [start, np],
                        data: ParsedTokenData::Link(Link { variant: LinkType::Url, content: text }),
                    };
                    self.push_token(t);
                } else {
                    let mut text = text;
                    text.push(a.char);
                    self.link = Some((start, text));
                }
                self.line = np.line_counter;
                self.column = np.char_counter;
            },
            None => {
                match a.token_type {
                    BasicTokenType::Character => {
                        if i > 0 && matches!(atoms[i - 1].token_type, BasicTokenType::Character)
                            && self.last_is_word() {
                            let ParsedToken { range, data } = self.pop_token();
                            match data {
                                ParsedTokenData::Word(w) => {
                                    let mut w = w;
                                    w.push(a.char);
                                    let t = ParsedToken {
                                        range: [range[0], np],
                                        data: ParsedTokenData::Word(w),
                                    };
                                    self.push_token(t);
                                },
                                other => {
                                    self.push_token(ParsedToken { range, data: other });
                                },
                            }
                        } else {
                            let t = ParsedToken {
                                range: [p, np],
                                data: ParsedTokenData::Word(one_char(a.char)),
                            };
                            self.push_token(t);
                        }
                    },
                    BasicTokenType::Space => {
                        let t = if i > 0 && matches!(atoms[i - 1].token_type, BasicTokenType::Space)
                            && self.last_is_space() {
                            let last = self.pop_token();
                            ParsedToken { range: [last.range[0], np], data: ParsedTokenData::Space }
                        } else {
                            ParsedToken { range: [p, np], data: ParsedTokenData::Space }
                        };
                        self.push_token(t);
                    },
                    BasicTokenType::LineBreak => {
                        let t = if i > 0 && matches!(
                            atoms[i - 1].token_type,
                            BasicTokenType::LineBreak
                        ) && !(i > 1 && matches!(atoms[i - 2].token_type, BasicTokenType::LineBreak))
                            && self.last_is_soft_break() {
                            let last = self.pop_token();
                            ParsedToken {
                                range: [last.range[0], np],
                                data: ParsedTokenData::ParagraphBreak,
                            }
                        } else {
                            ParsedToken { range: [p, np], data: ParsedTokenData::SoftBreak }
                        };
                        self.push_token(t);
                    },
                    BasicTokenType::LinkOpen => {
                        if self.openers.len() > 0 && self.openers[self.openers.len() - 1].char
                            == '`' {
                            self.push_token(literal_token(a.char, p, np));
                        } else {
                            self.link = Some((p, String::new()));
                        }
                    },
                    BasicTokenType::LinkClose => {
                        self.push_token(literal_token(a.char, p, np));
                    },
                    BasicTokenType::Delimiter(_) => {
                        self.delimiter(atoms, i, p, np);
                    },
                }
                self.line = np.line_counter;
                self.column = np.char_counter;
            },
        }
        proof {
            lemma_step_keeps_openers_valid(st, atoms@, i as int);
        }
    }

    /// The tokens at end of input.
    fn finish(self) -> (r: Vec<ParsedToken>)
        ensures
            view_tokens(r@) == finish(self.model()),
    {
        let mut this = self;
        match this.link.take() {
            Some((start, text)) => {
                let mut w = one_char('{');
                w.append(text.as_str());
                let t = ParsedToken {
                    range: [start, Position::new(this.line, this.column)],
                    data: ParsedTokenData::Word(w),
                };
                this.push_token(t);
            },
            None => {},
        }
        this.tokens
    }
}

/// Groups a sequence of classified atoms into words, space runs and breaks,
/// resolves attached modifiers into nested spans and collects braced links,
/// in one left-to-right pass. Every token carries its `[start, end)` range
/// in (line, column) coordinates. The result is exactly the token tree that
/// the resolution rules give for these atoms; coordinates are 32-bit, so
/// the input holds at most `u32::MAX` atoms.
pub fn parse(basic_tokens: Vec<BasicToken>) -> (r: Vec<ParsedToken>)
    requires
        basic_tokens.len() <= u32::MAX,
        forall|i: int| 0 <= i < basic_tokens.len() ==> #[trigger] basic_tokens@[i].wf(),
    ensures
        view_tokens(r@) == resolved(basic_tokens@),
{
    let mut resolver = Resolver::new();
    let mut i: usize = 0;
    while i < basic_tokens.len()
        invariant
            i <= basic_tokens.len() <= u32::MAX,
            forall|j: int| 0 <= j < basic_tokens.len() ==> #[trigger] basic_tokens@[j].wf(),
            resolver.wf(i as int),
            resolver.model() == run(basic_tokens@, i as int),
        decreases basic_tokens.len() - i,
    {
        resolver.step(&basic_tokens, i);
        i = i + 1;
    }
    resolver.finish()
}

} // verus!
