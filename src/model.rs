//! Tokens as mathematical values.

use vstd::prelude::*;

use crate::parser::{AttachedModifierType, ParsedToken, ParsedTokenData};

verus! {

/// A coordinate as a pair of naturals: (line, column).
pub type Coord = (nat, nat);

/// What a token is, as a mathematical value.
pub enum Payload {
    Word(Seq<char>),
    Space,
    SoftBreak,
    ParagraphBreak,
    Link(Seq<char>),
    Modifier(AttachedModifierType, Seq<TokenModel>),
}

/// A token as a mathematical value: its range and what it is.
pub struct TokenModel {
    pub start: Coord,
    pub end: Coord,
    pub payload: Payload,
}

/// The model of a sequence of tokens, children included.
pub open spec fn view_tokens(s: Seq<ParsedToken>) -> Seq<TokenModel>
    decreases s,
{
    if s.len() == 0 {
        Seq::empty()
    } else {
        let t = s.last();
        view_tokens(s.drop_last()).push(
            TokenModel { start: t.range[0]@, end: t.range[1]@, payload: payload_view(t.data) },
        )
    }
}

/// The model of what a token is, children included.
pub open spec fn payload_view(d: ParsedTokenData) -> Payload
    decreases d,
{
    match d {
        ParsedTokenData::Word(w) => Payload::Word(w@),
        ParsedTokenData::Space => Payload::Space,
        ParsedTokenData::SoftBreak => Payload::SoftBreak,
        ParsedTokenData::ParagraphBreak => Payload::ParagraphBreak,
        ParsedTokenData::Link(l) => Payload::Link(l.content@),
        ParsedTokenData::AttachedModifier(kind, children) => Payload::Modifier(
            kind,
            view_tokens(children@),
        ),
    }
}

/// The model of one token.
pub open spec fn token_view(t: ParsedToken) -> TokenModel {
    TokenModel { start: t.range[0]@, end: t.range[1]@, payload: payload_view(t.data) }
}

pub(crate) proof fn lemma_view_tokens(s: Seq<ParsedToken>)
    ensures
        view_tokens(s).len() == s.len(),
        forall|i: int| 0 <= i < s.len() ==> #[trigger] view_tokens(s)[i] == token_view(s[i]),
    decreases s.len(),
{
    if s.len() > 0 {
        lemma_view_tokens(s.drop_last());
        assert forall|i: int| 0 <= i < s.len() implies #[trigger] view_tokens(s)[i] == token_view(
            s[i],
        ) by {
            if i < s.len() - 1 {
                assert(s.drop_last()[i] == s[i]);
            }
        }
    }
}

} // verus!
