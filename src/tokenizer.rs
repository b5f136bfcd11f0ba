//! The classifier: each character becomes one typed atom.

use vstd::prelude::*;

verus! {

/// The kind of one classified input character.
#[derive(Debug, Clone, Copy, PartialEq, Eq, Structural)]
pub enum BasicTokenType {
    /// Any character that is not given a role below.
    Character,
    /// Horizontal whitespace: a space or a tab.
    Space,
    /// A newline.
    LineBreak,
    /// One of the attached-modifier delimiter characters.
    Delimiter(char),
    /// `{`
    LinkOpen,
    /// `}`
    LinkClose,
}

/// One classified input character: an atom.
#[derive(Debug, Clone, Copy, PartialEq, Eq, Structural)]
pub struct BasicToken {
    pub token_type: BasicTokenType,
    pub char: char,
}

/// The eleven characters that can delimit an attached modifier.
pub open spec fn is_delimiter_char(c: char) -> bool {
    c == '*' || c == '/' || c == '_' || c == '-' || c == '|' || c == '`' || c == '^' || c == ','
        || c == '$' || c == '=' || c == '+'
}

/// The atom kind of a character, by fixed table.
pub open spec fn kind_of(c: char) -> BasicTokenType {
    if c == ' ' || c == '\t' {
        BasicTokenType::Space
    } else if c == '\n' {
        BasicTokenType::LineBreak
    } else if is_delimiter_char(c) {
        BasicTokenType::Delimiter(c)
    } else if c == '{' {
        BasicTokenType::LinkOpen
    } else if c == '}' {
        BasicTokenType::LinkClose
    } else {
        BasicTokenType::Character
    }
}

/// The atom that a character is classified as.
pub open spec fn atom_of(c: char) -> BasicToken {
    BasicToken { token_type: kind_of(c), char: c }
}

/// The atom sequence of a text.
pub open spec fn atoms_of(s: Seq<char>) -> Seq<BasicToken> {
    s.map_values(|c: char| atom_of(c))
}

impl BasicToken {
    /// An atom is well formed when its kind is the one its character is classified as.
    pub open spec fn wf(self) -> bool {
        self.token_type == kind_of(self.char)
    }

    pub fn new(input_char: char) -> (r: BasicToken)
        ensures
            r == atom_of(input_char),
    {
        BasicToken { token_type: BasicTokenType::from(input_char), char: input_char }
    }
}

impl From<char> for BasicTokenType {
    fn from(input_char: char) -> (r: BasicTokenType) {
        match input_char {
            '\t' | ' ' => BasicTokenType::Space,
            '\n' => BasicTokenType::LineBreak,
            '*' | '/' | '_' | '-' | '|' | '`' | '^' | ',' | '$' | '=' | '+' => BasicTokenType::Delimiter(
                input_char,
            ),
            '{' => BasicTokenType::LinkOpen,
            '}' => BasicTokenType::LinkClose,
            _ => BasicTokenType::Character,
        }
    }
}

impl vstd::std_specs::convert::FromSpecImpl<char> for BasicTokenType {
    open spec fn obeys_from_spec() -> bool {
        true
    }

    open spec fn from_spec(v: char) -> BasicTokenType {
        kind_of(v)
    }
}

/// Classification is a function of the character alone: two atoms made
/// from the same character always have the same kind.
pub proof fn lemma_classification_pure(a: BasicToken, b: BasicToken)
    requires
        a.wf(),
        b.wf(),
        a.char == b.char,
    ensures
        a.token_type == b.token_type,
        a == b,
{
}

/// Classifies every character of `input`, in order.
pub fn tokenize(input: &str) -> (r: Vec<BasicToken>)
    ensures
        r@ == atoms_of(input@),
{
    let mut out: Vec<BasicToken> = Vec::new();
    for c in it: input.chars()
        invariant
            it.seq() == input@,
            out@ == atoms_of(input@.take(it.index() as int)),
    {
        proof {
            assert(input@.take(it.index() + 1) == input@.take(it.index() as int).push(c));
        }
        out.push(BasicToken::new(c));
    }
    proof {
        assert(input@.take(input@.len() as int) == input@);
    }
    out
}

} // verus!
