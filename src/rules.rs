//! The resolution rules: a state machine that consumes one atom at a time.

use vstd::prelude::*;

use crate::model::{Coord, Payload, TokenModel};
use crate::parser::modifier_of;
use crate::tokenizer::{is_delimiter_char, BasicToken, BasicTokenType};

verus! {

/// A pending opener: its delimiter character and the index of its
/// placeholder among the top-level tokens.
pub type OpenerModel = (char, int);

/// The resolver's state after some prefix of the atoms.
pub struct ResolverState {
    /// The top-level tokens so far; a pending opener stands among them as
    /// a literal one-character word until it is matched.
    pub tokens: Seq<TokenModel>,
    /// Pending openers, innermost last.
    pub openers: Seq<OpenerModel>,
    /// The coordinate after the atoms consumed so far.
    pub pos: Coord,
    /// A link being collected: where its `{` stands and the text since.
    pub link: Option<(Coord, Seq<char>)>,
}

/// The coordinate after `p` once an atom is consumed.
pub open spec fn advance(p: Coord, a: BasicToken) -> Coord {
    if a.token_type is LineBreak {
        (p.0 + 1, 0)
    } else {
        (p.0, p.1 + 1)
    }
}

/// Space and line-break atoms separate words.
pub open spec fn is_gap(a: BasicToken) -> bool {
    a.token_type is Space || a.token_type is LineBreak
}

/// The atom at `i` is not glued to what comes before it.
pub open spec fn can_open(atoms: Seq<BasicToken>, i: int) -> bool {
    i == 0 || is_gap(atoms[i - 1])
}

/// The atom at `i` is not glued to what comes after it.
pub open spec fn can_close(atoms: Seq<BasicToken>, i: int) -> bool {
    i + 1 == atoms.len() || is_gap(atoms[i + 1])
}

/// The atom at `i` stands next to an atom of the same character.
pub open spec fn is_doubled(atoms: Seq<BasicToken>, i: int) -> bool {
    (i > 0 && atoms[i - 1].char == atoms[i].char) || (i + 1 < atoms.len() && atoms[i + 1].char
        == atoms[i].char)
}

/// The atom before `i` exists and has the given kind.
pub open spec fn follows(atoms: Seq<BasicToken>, i: int, kind: BasicTokenType) -> bool {
    i > 0 && atoms[i - 1].token_type == kind
}

/// The innermost pending span is verbatim: delimiters other than its own
/// are literal text.
pub open spec fn in_verbatim(openers: Seq<OpenerModel>) -> bool {
    openers.len() > 0 && openers.last().0 == '`'
}

/// Index of the innermost pending opener of character `c`, or -1.
pub open spec fn last_opener_of(openers: Seq<OpenerModel>, c: char) -> int
    decreases openers.len(),
{
    if openers.len() == 0 {
        -1
    } else if openers.last().0 == c {
        openers.len() - 1
    } else {
        last_opener_of(openers.drop_last(), c)
    }
}

/// A one-character word token.
pub open spec fn literal(c: char, start: Coord, end: Coord) -> TokenModel {
    TokenModel { start, end, payload: Payload::Word(seq![c]) }
}

/// `st` with one more token at the end.
pub open spec fn with_token(st: ResolverState, t: TokenModel, pos: Coord) -> ResolverState {
    ResolverState { tokens: st.tokens.push(t), pos, ..st }
}

/// `st` with its last token replaced.
pub open spec fn with_last(st: ResolverState, t: TokenModel, pos: Coord) -> ResolverState {
    ResolverState { tokens: st.tokens.drop_last().push(t), pos, ..st }
}

/// Closes the pending opener at index `j` of the opener stack, with the
/// closing delimiter ending at `end`: the opener's placeholder and every
/// token after it become one modifier token, and every opener from `j` up
/// is dropped.
pub open spec fn close_span(st: ResolverState, j: int, end: Coord) -> ResolverState {
    let (c, k) = st.openers[j];
    let span = TokenModel {
        start: st.tokens[k].start,
        end,
        payload: Payload::Modifier(modifier_of(c), st.tokens.subrange(k + 1, st.tokens.len() as int)),
    };
    ResolverState {
        tokens: st.tokens.take(k).push(span),
        openers: st.openers.take(j),
        pos: end,
        link: st.link,
    }
}

/// How a delimiter atom at `i` is resolved. Next to an atom of the same
/// character it is literal. Otherwise, when nothing glues it to what
/// follows and an opener of its character is pending, it closes the
/// innermost such opener (inside a verbatim span only the verbatim
/// delimiter does). Otherwise, when nothing glues it to what precedes it
/// and no verbatim span is pending innermost, it opens: it stands as a
/// literal placeholder and is pushed on the opener stack. Otherwise it is
/// literal.
pub open spec fn delimiter_step(st: ResolverState, atoms: Seq<BasicToken>, i: int) -> ResolverState {
    let c = atoms[i].char;
    let p = st.pos;
    let np = advance(p, atoms[i]);
    let j = last_opener_of(st.openers, c);
    let verbatim = in_verbatim(st.openers);
    if is_doubled(atoms, i) {
        with_token(st, literal(c, p, np), np)
    } else if can_close(atoms, i) && j >= 0 && (!verbatim || c == '`') {
        close_span(st, j, np)
    } else if can_open(atoms, i) && !verbatim {
        ResolverState {
            tokens: st.tokens.push(literal(c, p, np)),
            openers: st.openers.push((c, st.tokens.len() as int)),
            pos: np,
            link: st.link,
        }
    } else {
        with_token(st, literal(c, p, np), np)
    }
}

/// The resolver's state after the atom at `i`, given the state before it.
/// Inside a link every atom but `}` joins the link's text. Elsewhere a
/// character continues the word before it or starts one, a space continues
/// a space run or starts one, a line break right after a single line break
/// turns that soft break into a paragraph break and otherwise is a soft
/// break, `{` starts a link (outside verbatim), and a stray `}` is literal.
pub open spec fn step(st: ResolverState, atoms: Seq<BasicToken>, i: int) -> ResolverState {
    let a = atoms[i];
    let c = a.char;
    let p = st.pos;
    let np = advance(p, a);
    match st.link {
        Some(pending) => {
            if a.token_type is LinkClose {
                let t = TokenModel { start: pending.0, end: np, payload: Payload::Link(pending.1) };
                ResolverState { tokens: st.tokens.push(t), openers: st.openers, pos: np, link: None }
            } else {
                ResolverState { pos: np, link: Some((pending.0, pending.1.push(c))), ..st }
            }
        },
        None => match a.token_type {
            BasicTokenType::Character => {
                if follows(atoms, i, BasicTokenType::Character) && st.tokens.len() > 0
                    && st.tokens.last().payload is Word {
                    let last = st.tokens.last();
                    let w = TokenModel {
                        start: last.start,
                        end: np,
                        payload: Payload::Word(last.payload->Word_0.push(c)),
                    };
                    with_last(st, w, np)
                } else {
                    with_token(st, TokenModel { start: p, end: np, payload: Payload::Word(seq![c]) }, np)
                }
            },
            BasicTokenType::Space => {
                if follows(atoms, i, BasicTokenType::Space) && st.tokens.len() > 0
                    && st.tokens.last().payload is Space {
                    with_last(st, TokenModel { end: np, ..st.tokens.last() }, np)
                } else {
                    with_token(st, TokenModel { start: p, end: np, payload: Payload::Space }, np)
                }
            },
            BasicTokenType::LineBreak => {
                if follows(atoms, i, BasicTokenType::LineBreak) && !follows(
                    atoms,
                    i - 1,
                    BasicTokenType::LineBreak,
                ) && st.tokens.len() > 0 && st.tokens.last().payload is SoftBreak {
                    let pb = TokenModel {
                        start: st.tokens.last().start,
                        end: np,
                        payload: Payload::ParagraphBreak,
                    };
                    with_last(st, pb, np)
                } else {
                    with_token(st, TokenModel { start: p, end: np, payload: Payload::SoftBreak }, np)
                }
            },
            BasicTokenType::LinkOpen => {
                if in_verbatim(st.openers) {
                    with_token(st, literal(c, p, np), np)
                } else {
                    ResolverState { pos: np, link: Some((p, Seq::empty())), ..st }
                }
            },
            BasicTokenType::LinkClose => with_token(st, literal(c, p, np), np),
            BasicTokenType::Delimiter(_) => delimiter_step(st, atoms, i),
        },
    }
}

/// The state before any atom.
pub open spec fn initial_state() -> ResolverState {
    ResolverState { tokens: Seq::empty(), openers: Seq::empty(), pos: (0, 0), link: None }
}

/// The state after the first `n` atoms.
pub open spec fn run(atoms: Seq<BasicToken>, n: int) -> ResolverState
    decreases n,
{
    if n <= 0 {
        initial_state()
    } else {
        step(run(atoms, n - 1), atoms, n - 1)
    }
}

/// The tokens at end of input: a link left open becomes one word holding
/// its brace and everything after it; pending openers already stand as
/// literal words.
pub open spec fn finish(st: ResolverState) -> Seq<TokenModel> {
    match st.link {
        Some(pending) => st.tokens.push(
            TokenModel {
                start: pending.0,
                end: st.pos,
                payload: Payload::Word(seq!['{'] + pending.1),
            },
        ),
        None => st.tokens,
    }
}

/// The token tree of an atom sequence.
pub open spec fn resolved(atoms: Seq<BasicToken>) -> Seq<TokenModel> {
    finish(run(atoms, atoms.len() as int))
}

/// Pending openers are delimiter characters whose placeholders stand, in
/// order, among the top-level tokens.
pub open spec fn openers_valid(st: ResolverState) -> bool {
    &&& forall|j: int|
        0 <= j < st.openers.len() ==> 0 <= #[trigger] st.openers[j].1 < st.tokens.len()
            && is_delimiter_char(st.openers[j].0)
    &&& forall|j: int, j2: int|
        0 <= j < j2 < st.openers.len() ==> #[trigger] st.openers[j].1 < #[trigger] st.openers[j2].1
}

pub(crate) proof fn lemma_last_opener_bounds(openers: Seq<OpenerModel>, c: char)
    ensures
        -1 <= last_opener_of(openers, c) < openers.len(),
        last_opener_of(openers, c) >= 0 ==> openers[last_opener_of(openers, c)].0 == c,
    decreases openers.len(),
{
    if openers.len() > 0 && openers.last().0 != c {
        lemma_last_opener_bounds(openers.drop_last(), c);
    }
}

pub(crate) proof fn lemma_step_keeps_openers_valid(st: ResolverState, atoms: Seq<BasicToken>, i: int)
    requires
        openers_valid(st),
        0 <= i < atoms.len(),
        atoms[i].wf(),
    ensures
        openers_valid(step(st, atoms, i)),
{
    let c = atoms[i].char;
    lemma_last_opener_bounds(st.openers, c);
    let j = last_opener_of(st.openers, c);
    let nst = step(st, atoms, i);
    if st.link is None && atoms[i].token_type is Delimiter && !is_doubled(atoms, i) && can_close(
        atoms,
        i,
    ) && j >= 0 && (!in_verbatim(st.openers) || c == '`') {
        assert forall|j1: int| 0 <= j1 < nst.openers.len() implies 0 <= #[trigger] nst.openers[j1].1
            < nst.tokens.len() by {
            assert(st.openers[j1].1 < st.openers[j].1);
        }
    } else if st.link is None && atoms[i].token_type is Delimiter {
        assert(is_delimiter_char(c));
        let k = st.openers.len() as int;
        if nst.openers.len() > k {
            assert(nst.openers == st.openers.push((c, st.tokens.len() as int)));
            assert(nst.openers[k].0 == c);
        }
    }
}

} // verus!
