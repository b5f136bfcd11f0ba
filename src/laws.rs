//! What holds of the token tree of every text: it spells the text out,
//! its ranges are ordered, and every delimiter is accounted for.

use vstd::prelude::*;

use crate::model::{Coord, Payload, TokenModel};
use crate::parser::{delimiter_of, modifier_of};
use crate::rules::{
    advance, can_close, can_open, close_span, follows, in_verbatim, is_doubled, last_opener_of,
    lemma_last_opener_bounds, lemma_step_keeps_openers_valid, literal, openers_valid, resolved,
    run, step, OpenerModel, ResolverState,
};
use crate::tokenizer::{atom_of, atoms_of, is_delimiter_char, BasicTokenType};

verus! {

/// The coordinate reached after reading `s` from the start of a document.
pub open spec fn pos_after(s: Seq<char>) -> Coord
    decreases s.len(),
{
    if s.len() == 0 {
        (0, 0)
    } else {
        let p = pos_after(s.drop_last());
        if s.last() == '\n' {
            (p.0 + 1, 0)
        } else {
            (p.0, p.1 + 1)
        }
    }
}

/// Coordinates in reading order.
pub open spec fn pos_le(a: Coord, b: Coord) -> bool {
    a.0 < b.0 || (a.0 == b.0 && a.1 <= b.1)
}

/// The opening delimiter of a span starting at `start`, as a literal word.
pub open spec fn opening_leaf(c: char, start: Coord) -> TokenModel {
    literal(c, start, (start.0, start.1 + 1))
}

/// The closing delimiter of a span ending at `end`, as a literal word.
pub open spec fn closing_leaf(c: char, end: Coord) -> TokenModel {
    literal(c, (end.0, (end.1 - 1) as nat), end)
}

/// The tokens with every modifier decayed: its two delimiters become
/// literal words around its own children, flattened likewise.
pub open spec fn flatten(ts: Seq<TokenModel>) -> Seq<TokenModel>
    decreases ts,
{
    if ts.len() == 0 {
        Seq::empty()
    } else {
        let t = ts.last();
        let tail = match t.payload {
            Payload::Modifier(kind, children) => seq![opening_leaf(delimiter_of(kind), t.start)]
                + flatten(children) + seq![closing_leaf(delimiter_of(kind), t.end)],
            _ => seq![t],
        };
        flatten(ts.drop_last()) + tail
    }
}

/// How many characters of the source a flattened token stands for.
pub open spec fn source_len(t: TokenModel) -> int {
    match t.payload {
        Payload::Word(w) => w.len() as int,
        Payload::Space => t.end.1 - t.start.1,
        Payload::SoftBreak => 1,
        Payload::ParagraphBreak => 2,
        Payload::Link(target) => target.len() + 2int,
        Payload::Modifier(_, _) => 0,
    }
}

/// Horizontal whitespace.
pub open spec fn is_space_char(c: char) -> bool {
    c == ' ' || c == '\t'
}

/// `src` is the source text of the flattened token `t`.
pub open spec fn leaf_matches(t: TokenModel, src: Seq<char>) -> bool {
    match t.payload {
        Payload::Word(w) => src == w,
        Payload::Space => src.len() > 0 && forall|k: int| 0 <= k < src.len() ==> is_space_char(src[k]),
        Payload::SoftBreak => src == seq!['\n'],
        Payload::ParagraphBreak => src == seq!['\n', '\n'],
        Payload::Link(target) => src == seq!['{'] + target + seq!['}'],
        Payload::Modifier(_, _) => false,
    }
}

/// The flattened tokens `leaves` spell out `s[b..e]` in order: each one's
/// source text is the next slice of it, and its range runs between the
/// coordinates at the two ends of that slice.
pub open spec fn covers(leaves: Seq<TokenModel>, s: Seq<char>, b: int, e: int) -> bool
    decreases leaves.len(),
{
    if leaves.len() == 0 {
        b == e
    } else {
        let t = leaves.last();
        let m = e - source_len(t);
        &&& b <= m <= e <= s.len()
        &&& t.start == pos_after(s.take(m))
        &&& t.end == pos_after(s.take(e))
        &&& leaf_matches(t, s.subrange(m, e))
        &&& covers(leaves.drop_last(), s, b, m)
    }
}

/// The placeholder of the opener at `j` is its delimiter as a literal word.
spec fn placeholder_ok(tokens: Seq<TokenModel>, openers: Seq<OpenerModel>, j: int) -> bool {
    let (c, k) = openers[j];
    tokens[k] == opening_leaf(c, tokens[k].start)
}

/// What holds of the resolver's state after the first `i` characters of `s`.
spec fn consistent(s: Seq<char>, i: int, st: ResolverState) -> bool {
    &&& 0 <= i <= s.len()
    &&& st.pos == pos_after(s.take(i))
    &&& openers_valid(st)
    &&& forall|j: int| 0 <= j < st.openers.len() ==> #[trigger] placeholder_ok(st.tokens, st.openers, j)
    &&& (st.link is None && i > 0 && atom_of(s[i - 1]).token_type is Character) ==> forall|j: int|
        0 <= j < st.openers.len() ==> #[trigger] st.openers[j].1 != st.tokens.len() - 1
    &&& match st.link {
        None => covers(flatten(st.tokens), s, 0, i),
        Some(pending) => {
            let m = i - pending.1.len() - 1;
            &&& 0 <= m
            &&& s[m] == '{'
            &&& s.subrange(m + 1, i) == pending.1
            &&& pending.0 == pos_after(s.take(m))
            &&& covers(flatten(st.tokens), s, 0, m)
        },
    }
}

proof fn lemma_pos_step(s: Seq<char>, i: int)
    requires
        0 <= i < s.len(),
    ensures
        pos_after(s.take(i + 1)) == advance(pos_after(s.take(i)), atom_of(s[i])),
{
    assert(s.take(i + 1).drop_last() =~= s.take(i));
}

proof fn lemma_flatten_push(ts: Seq<TokenModel>, t: TokenModel)
    ensures
        flatten(ts.push(t)) == flatten(ts) + flatten(seq![t]),
{
    assert(ts.push(t).drop_last() =~= ts);
    assert(seq![t].drop_last() =~= Seq::<TokenModel>::empty());
    assert(flatten(Seq::<TokenModel>::empty()) + flatten(seq![t]) =~= flatten(seq![t]));
}

proof fn lemma_flatten_concat(a: Seq<TokenModel>, b: Seq<TokenModel>)
    ensures
        flatten(a + b) == flatten(a) + flatten(b),
    decreases b.len(),
{
    if b.len() == 0 {
        assert(a + b =~= a);
        assert(flatten(b) =~= Seq::<TokenModel>::empty());
        assert(flatten(a) + flatten(b) =~= flatten(a));
    } else {
        lemma_flatten_concat(a, b.drop_last());
        assert((a + b).drop_last() =~= a + b.drop_last());
        assert((a + b).last() == b.last());
        assert(flatten(a + b) =~= flatten(a) + flatten(b));
    }
}

proof fn lemma_flatten_leaf(t: TokenModel)
    requires
        !(t.payload is Modifier),
    ensures
        flatten(seq![t]) == seq![t],
{
    assert(seq![t].drop_last() =~= Seq::<TokenModel>::empty());
    assert(seq![t].last() == t);
    assert(flatten(Seq::<TokenModel>::empty()) =~= Seq::<TokenModel>::empty());
    assert(flatten(seq![t]) =~= seq![t]);
}

/// Pushing one leaf that spells `s[m..e]` after leaves that spell `s[b..m]`.
proof fn lemma_covers_push(ls: Seq<TokenModel>, t: TokenModel, s: Seq<char>, b: int, m: int, e: int)
    requires
        covers(ls, s, b, m),
        m == e - source_len(t),
        m <= e <= s.len(),
        t.start == pos_after(s.take(m)),
        t.end == pos_after(s.take(e)),
        leaf_matches(t, s.subrange(m, e)),
    ensures
        covers(ls.push(t), s, b, e),
{
    assert(ls.push(t).drop_last() =~= ls);
    lemma_covers_order(ls, s, b, m);
}

proof fn lemma_covers_order(ls: Seq<TokenModel>, s: Seq<char>, b: int, e: int)
    requires
        covers(ls, s, b, e),
    ensures
        b <= e,
    decreases ls.len(),
{
    if ls.len() > 0 {
        lemma_covers_order(ls.drop_last(), s, b, e - source_len(ls.last()));
    }
}

/// Pushing a token that spells the character at `i`.
proof fn lemma_push_one(s: Seq<char>, i: int, st: ResolverState, t: TokenModel)
    requires
        consistent(s, i, st),
        st.link is None,
        i < s.len(),
        !(t.payload is Modifier),
        source_len(t) == 1,
        t.start == pos_after(s.take(i)),
        t.end == pos_after(s.take(i + 1)),
        leaf_matches(t, s.subrange(i, i + 1)),
    ensures
        covers(flatten(st.tokens.push(t)), s, 0, i + 1),
        forall|j: int|
            0 <= j < st.openers.len() ==> #[trigger] placeholder_ok(st.tokens.push(t), st.openers, j),
        openers_valid(ResolverState { tokens: st.tokens.push(t), ..st }),
{
    lemma_flatten_push(st.tokens, t);
    lemma_flatten_leaf(t);
    assert(flatten(st.tokens) + seq![t] =~= flatten(st.tokens).push(t));
    lemma_covers_push(flatten(st.tokens), t, s, 0, i, i + 1);
    assert forall|j: int| 0 <= j < st.openers.len() implies #[trigger] placeholder_ok(
        st.tokens.push(t),
        st.openers,
        j,
    ) by {
        assert(placeholder_ok(st.tokens, st.openers, j));
        assert(st.tokens.push(t)[st.openers[j].1] == st.tokens[st.openers[j].1]);
    }
}

/// Replacing the last token, which is a leaf that spells `s[m..i]`, by a
/// leaf that spells `s[m..i + 1]`.
proof fn lemma_extend_last(s: Seq<char>, i: int, st: ResolverState, t: TokenModel)
    requires
        consistent(s, i, st),
        st.link is None,
        i < s.len(),
        st.tokens.len() > 0,
        !(st.tokens.last().payload is Modifier),
        !(t.payload is Modifier),
        source_len(t) == source_len(st.tokens.last()) + 1,
        t.start == st.tokens.last().start,
        t.end == pos_after(s.take(i + 1)),
        leaf_matches(t, s.subrange(i - source_len(st.tokens.last()), i + 1)),
        forall|j: int| 0 <= j < st.openers.len() ==> #[trigger] st.openers[j].1 != st.tokens.len() - 1,
    ensures
        covers(flatten(st.tokens.drop_last().push(t)), s, 0, i + 1),
        forall|j: int|
            0 <= j < st.openers.len() ==> #[trigger] placeholder_ok(st.tokens.drop_last().push(t), st.openers, j),
        openers_valid(ResolverState { tokens: st.tokens.drop_last().push(t), ..st }),
{
    let rest = st.tokens.drop_last();
    let last = st.tokens.last();
    assert(rest.push(last) =~= st.tokens);
    lemma_flatten_push(rest, last);
    lemma_flatten_leaf(last);
    lemma_flatten_push(rest, t);
    lemma_flatten_leaf(t);
    let fl = flatten(st.tokens);
    assert(fl.drop_last() =~= flatten(rest));
    assert(fl.last() == last);
    let m = i - source_len(last);
    assert(flatten(rest) + seq![t] =~= flatten(rest).push(t));
    lemma_covers_push(flatten(rest), t, s, 0, m, i + 1);
    assert forall|j: int| 0 <= j < st.openers.len() implies #[trigger] placeholder_ok(
        rest.push(t),
        st.openers,
        j,
    ) by {
        assert(placeholder_ok(st.tokens, st.openers, j));
        assert(rest.push(t)[st.openers[j].1] == st.tokens[st.openers[j].1]);
    }
}

proof fn lemma_delimiter_round_trip(c: char)
    requires
        is_delimiter_char(c),
    ensures
        delimiter_of(modifier_of(c)) == c,
{
}

/// Closing the opener at `j` with the delimiter at `i`.
proof fn lemma_close(s: Seq<char>, i: int, st: ResolverState, j: int)
    requires
        consistent(s, i, st),
        st.link is None,
        i < s.len(),
        0 <= j < st.openers.len(),
        st.openers[j].0 == s[i],
        s[i] != '\n',
    ensures
        covers(flatten(close_span(st, j, pos_after(s.take(i + 1))).tokens), s, 0, i + 1),
        forall|j2: int|
            0 <= j2 < j ==> #[trigger] placeholder_ok(
                close_span(st, j, pos_after(s.take(i + 1))).tokens,
                close_span(st, j, pos_after(s.take(i + 1))).openers,
                j2,
            ),
{
    let np = pos_after(s.take(i + 1));
    lemma_pos_step(s, i);
    let t = st.tokens;
    let (c, k) = st.openers[j];
    assert(placeholder_ok(st.tokens, st.openers, j));
    let ph = t[k];
    let children = t.subrange(k + 1, t.len() as int);
    let kind = modifier_of(c);
    lemma_delimiter_round_trip(c);
    let span = TokenModel { start: ph.start, end: np, payload: Payload::Modifier(kind, children) };
    let st2 = close_span(st, j, np);
    assert(st2.tokens == t.take(k).push(span));
    lemma_flatten_push(t.take(k), span);
    let one = seq![span];
    assert(one.drop_last() =~= Seq::<TokenModel>::empty());
    assert(one.last() == span);
    assert(flatten(Seq::<TokenModel>::empty()) =~= Seq::<TokenModel>::empty());
    let cl = closing_leaf(c, np);
    assert(flatten(one) =~= seq![opening_leaf(c, ph.start)] + flatten(children) + seq![cl]);
    assert(t =~= t.take(k).push(ph) + children);
    lemma_flatten_concat(t.take(k).push(ph), children);
    lemma_flatten_push(t.take(k), ph);
    lemma_flatten_leaf(ph);
    assert(flatten(st2.tokens) =~= flatten(t).push(cl));
    assert(cl.start == pos_after(s.take(i)));
    assert(s.subrange(i, i + 1) =~= seq![c]);
    lemma_covers_push(flatten(t), cl, s, 0, i, i + 1);
    assert forall|j2: int| 0 <= j2 < j implies #[trigger] placeholder_ok(st2.tokens, st2.openers, j2) by {
        assert(placeholder_ok(st.tokens, st.openers, j2));
        assert(st.openers[j2].1 < k);
        assert(st2.openers[j2] == st.openers[j2]);
        assert(st2.tokens[st.openers[j2].1] == t[st.openers[j2].1]);
    }
}

/// The last token, when it is a leaf, spells the characters just before `i`.
proof fn lemma_last_leaf(s: Seq<char>, i: int, st: ResolverState)
    requires
        consistent(s, i, st),
        st.link is None,
        st.tokens.len() > 0,
        !(st.tokens.last().payload is Modifier),
    ensures
        0 <= i - source_len(st.tokens.last()) <= i,
        leaf_matches(st.tokens.last(), s.subrange(i - source_len(st.tokens.last()), i)),
        st.tokens.last().start == pos_after(s.take(i - source_len(st.tokens.last()))),
        st.tokens.last().end == pos_after(s.take(i)),
{
    let rest = st.tokens.drop_last();
    let last = st.tokens.last();
    assert(rest.push(last) =~= st.tokens);
    lemma_flatten_push(rest, last);
    lemma_flatten_leaf(last);
    let fl = flatten(st.tokens);
    assert(fl =~= flatten(rest).push(last));
    assert(fl.last() == last);
    assert(fl.drop_last() =~= flatten(rest));
    lemma_covers_order(flatten(rest), s, 0, i - source_len(last));
}

/// Consuming one more character keeps the resolver's state consistent.
proof fn lemma_step(s: Seq<char>, i: int, st: ResolverState)
    requires
        consistent(s, i, st),
        i < s.len(),
    ensures
        consistent(s, i + 1, step(st, atoms_of(s), i)),
{
    let atoms = atoms_of(s);
    assert(atoms[i] == atom_of(s[i]));
    assert(i > 0 ==> atoms[i - 1] == atom_of(s[i - 1]));
    assert(i > 1 ==> atoms[i - 2] == atom_of(s[i - 2]));
    assert(i + 1 < s.len() ==> atoms[i + 1] == atom_of(s[i + 1]));
    let a = atoms[i];
    let c = s[i];
    lemma_pos_step(s, i);
    let p = st.pos;
    let np = pos_after(s.take(i + 1));
    lemma_step_keeps_openers_valid(st, atoms, i);
    let st2 = step(st, atoms, i);
    assert(s.subrange(i, i + 1) =~= seq![c]);
    match st.link {
        Some(pending) => {
            let m = i - pending.1.len() - 1;
            if a.token_type is LinkClose {
                let t = TokenModel { start: pending.0, end: np, payload: Payload::Link(pending.1) };
                assert(s.subrange(m, i + 1) =~= seq!['{'] + pending.1 + seq!['}']);
                lemma_flatten_push(st.tokens, t);
                lemma_flatten_leaf(t);
                assert(flatten(st.tokens) + seq![t] =~= flatten(st.tokens).push(t));
                lemma_covers_push(flatten(st.tokens), t, s, 0, m, i + 1);
                assert forall|j: int| 0 <= j < st2.openers.len() implies #[trigger] placeholder_ok(st2.tokens, st2.openers, j) by {
                    assert(placeholder_ok(st.tokens, st.openers, j));
                    assert(st2.tokens[st.openers[j].1] == st.tokens[st.openers[j].1]);
                }
            } else {
                assert(s.subrange(m + 1, i + 1) =~= pending.1.push(c));
                assert(st2.tokens == st.tokens);
                assert(st2.openers == st.openers);
                assert forall|j: int| 0 <= j < st2.openers.len() implies #[trigger] placeholder_ok(st2.tokens, st2.openers, j) by {
                    assert(placeholder_ok(st.tokens, st.openers, j));
                }
            }
        },
        None => {
            assert(forall|j: int| 0 <= j < st.openers.len() ==> #[trigger] placeholder_ok(st.tokens, st.openers, j));
            if st.tokens.len() > 0 && !(st.tokens.last().payload is Modifier) {
                lemma_last_leaf(s, i, st);
            }
            let lit = literal(c, p, np);
            match a.token_type {
                BasicTokenType::Character => {
                    if follows(atoms, i, BasicTokenType::Character) && st.tokens.len() > 0
                        && st.tokens.last().payload is Word {
                        let last = st.tokens.last();
                        let w = last.payload->Word_0;
                        let t = TokenModel { start: last.start, end: np, payload: Payload::Word(w.push(c)) };
                        assert(s.subrange(i - w.len(), i + 1) =~= w.push(c));
                        lemma_extend_last(s, i, st, t);
                    } else {
                        let t = TokenModel { start: p, end: np, payload: Payload::Word(seq![c]) };
                        lemma_push_one(s, i, st, t);
                    }
                },
                BasicTokenType::Space => {
                    if follows(atoms, i, BasicTokenType::Space) && st.tokens.len() > 0
                        && st.tokens.last().payload is Space {
                        let last = st.tokens.last();
                        let t = TokenModel { end: np, ..last };
                        assert forall|j: int| 0 <= j < st.openers.len() implies #[trigger] st.openers[j].1
                            != st.tokens.len() - 1 by {
                            assert(placeholder_ok(st.tokens, st.openers, j));
                        }
                        let m = i - source_len(last);
                        assert forall|k: int| 0 <= k < s.subrange(m, i + 1).len() implies is_space_char(
                            #[trigger] s.subrange(m, i + 1)[k],
                        ) by {
                            if k < i - m {
                                assert(s.subrange(m, i + 1)[k] == s.subrange(m, i)[k]);
                            }
                        }
                        lemma_extend_last(s, i, st, t);
                    } else {
                        let t = TokenModel { start: p, end: np, payload: Payload::Space };
                        lemma_push_one(s, i, st, t);
                    }
                },
                BasicTokenType::LineBreak => {
                    if follows(atoms, i, BasicTokenType::LineBreak) && !follows(
                        atoms,
                        i - 1,
                        BasicTokenType::LineBreak,
                    ) && st.tokens.len() > 0 && st.tokens.last().payload is SoftBreak {
                        let last = st.tokens.last();
                        let t = TokenModel { start: last.start, end: np, payload: Payload::ParagraphBreak };
                        assert forall|j: int| 0 <= j < st.openers.len() implies #[trigger] st.openers[j].1
                            != st.tokens.len() - 1 by {
                            assert(placeholder_ok(st.tokens, st.openers, j));
                        }
                        assert(s.subrange(i - 1, i + 1) =~= seq!['\n', '\n']);
                        lemma_extend_last(s, i, st, t);
                    } else {
                        let t = TokenModel { start: p, end: np, payload: Payload::SoftBreak };
                        lemma_push_one(s, i, st, t);
                    }
                },
                BasicTokenType::LinkOpen => {
                    if in_verbatim(st.openers) {
                        lemma_push_one(s, i, st, lit);
                    } else {
                        assert(s.subrange(i + 1, i + 1) =~= Seq::<char>::empty());
                        assert(st2.tokens == st.tokens);
                        assert(st2.openers == st.openers);
                    }
                },
                BasicTokenType::LinkClose => {
                    lemma_push_one(s, i, st, lit);
                },
                BasicTokenType::Delimiter(_) => {
                    let j = last_opener_of(st.openers, c);
                    lemma_last_opener_bounds(st.openers, c);
                    let verbatim = in_verbatim(st.openers);
                    if is_doubled(atoms, i) {
                        lemma_push_one(s, i, st, lit);
                    } else if can_close(atoms, i) && j >= 0 && (!verbatim || c == '`') {
                        lemma_close(s, i, st, j);
                    } else if can_open(atoms, i) && !verbatim {
                        lemma_push_one(s, i, st, lit);
                        assert(st2.tokens == st.tokens.push(lit));
                        assert(st2.openers == st.openers.push((c, st.tokens.len() as int)));
                        assert forall|j: int| 0 <= j < st2.openers.len() implies #[trigger] placeholder_ok(
                            st2.tokens,
                            st2.openers,
                            j,
                        ) by {
                            if j < st.openers.len() {
                                assert(placeholder_ok(st.tokens.push(lit), st.openers, j));
                            }
                        }
                    } else {
                        lemma_push_one(s, i, st, lit);
                    }
                },
            }
        },
    }
}

proof fn lemma_run(s: Seq<char>, n: int)
    requires
        0 <= n <= s.len(),
    ensures
        consistent(s, n, run(atoms_of(s), n)),
    decreases n,
{
    if n == 0 {
        assert(s.take(0) =~= Seq::<char>::empty());
        assert(flatten(Seq::<TokenModel>::empty()) =~= Seq::<TokenModel>::empty());
    } else {
        lemma_run(s, n - 1);
        lemma_step(s, n - 1, run(atoms_of(s), n - 1));
    }
}

/// Round trip: the tokens of a text, with every modifier decayed to its
/// two delimiters as literal words, spell the text out exactly. Read in
/// order, each flattened token's source text is the next slice of the
/// input, so their concatenation is the input; and each one's range runs
/// between the coordinates at the two ends of its slice.
pub proof fn lemma_round_trip(s: Seq<char>)
    ensures
        covers(flatten(resolved(atoms_of(s))), s, 0, s.len() as int),
{
    let n = s.len() as int;
    lemma_run(s, n);
    let st = run(atoms_of(s), n);
    assert(atoms_of(s).len() == n);
    match st.link {
        Some(pending) => {
            let m = n - pending.1.len() - 1;
            let t = TokenModel {
                start: pending.0,
                end: st.pos,
                payload: Payload::Word(seq!['{'] + pending.1),
            };
            assert(s.subrange(m, n) =~= seq!['{'] + pending.1);
            lemma_flatten_push(st.tokens, t);
            lemma_flatten_leaf(t);
            assert(flatten(st.tokens) + seq![t] =~= flatten(st.tokens).push(t));
            lemma_covers_push(flatten(st.tokens), t, s, 0, m, n);
        },
        None => {},
    }
}

/// How many source characters a sequence of flattened tokens stands for.
spec fn total_len(ls: Seq<TokenModel>) -> int
    decreases ls.len(),
{
    if ls.len() == 0 {
        0
    } else {
        total_len(ls.drop_last()) + source_len(ls.last())
    }
}

proof fn lemma_covers_split(a: Seq<TokenModel>, b: Seq<TokenModel>, s: Seq<char>, lo: int, hi: int)
    requires
        covers(a + b, s, lo, hi),
    ensures
        covers(a, s, lo, hi - total_len(b)),
        covers(b, s, hi - total_len(b), hi),
    decreases b.len(),
{
    if b.len() == 0 {
        assert(a + b =~= a);
    } else {
        let t = b.last();
        let m = hi - source_len(t);
        assert((a + b).drop_last() =~= a + b.drop_last());
        assert((a + b).last() == t);
        lemma_covers_split(a, b.drop_last(), s, lo, m);
        lemma_covers_order(b.drop_last(), s, m - total_len(b.drop_last()), m);
    }
}

proof fn lemma_covers_first(ls: Seq<TokenModel>, s: Seq<char>, b: int, e: int)
    requires
        covers(ls, s, b, e),
        ls.len() > 0,
    ensures
        ls[0].start == pos_after(s.take(b)),
    decreases ls.len(),
{
    let m = e - source_len(ls.last());
    if ls.len() > 1 {
        lemma_covers_first(ls.drop_last(), s, b, m);
        assert(ls.drop_last()[0] == ls[0]);
    } else {
        assert(ls.drop_last().len() == 0);
        assert(ls.last() == ls[0]);
        assert(covers(ls.drop_last(), s, b, m));
        assert(b == m);
    }
}

proof fn lemma_flatten_one_ends(t: TokenModel)
    ensures
        flatten(seq![t]).len() > 0,
        flatten(seq![t])[0].start == t.start,
        flatten(seq![t]).last().end == t.end,
{
    let one = seq![t];
    assert(one.drop_last() =~= Seq::<TokenModel>::empty());
    assert(one.last() == t);
    assert(flatten(Seq::<TokenModel>::empty()) =~= Seq::<TokenModel>::empty());
}

proof fn lemma_pos_mono(s: Seq<char>, a: int, b: int)
    requires
        0 <= a <= b <= s.len(),
    ensures
        pos_le(pos_after(s.take(a)), pos_after(s.take(b))),
    decreases b - a,
{
    if a < b {
        lemma_pos_mono(s, a, b - 1);
        assert(s.take(b).drop_last() =~= s.take(b - 1));
    }
}

/// The slice `[r.0, r.1)` of `s` that the top-level token `ts[j]` spans.
proof fn lemma_token_span(ts: Seq<TokenModel>, s: Seq<char>, j: int) -> (r: (int, int))
    requires
        covers(flatten(ts), s, 0, s.len() as int),
        0 <= j < ts.len(),
    ensures
        0 <= r.0 <= r.1 <= s.len(),
        ts[j].start == pos_after(s.take(r.0)),
        ts[j].end == pos_after(s.take(r.1)),
        covers(flatten(ts.take(j)), s, 0, r.0),
        covers(flatten(ts.subrange(j + 1, ts.len() as int)), s, r.1, s.len() as int),
{
    let n = s.len() as int;
    let before = ts.take(j);
    let after = ts.subrange(j + 1, ts.len() as int);
    let one = seq![ts[j]];
    assert(ts =~= before + one + after);
    lemma_flatten_concat(before + one, after);
    lemma_flatten_concat(before, one);
    assert(flatten(ts) =~= flatten(before) + flatten(one) + flatten(after));
    lemma_covers_split(flatten(before) + flatten(one), flatten(after), s, 0, n);
    let hi = n - total_len(flatten(after));
    lemma_covers_split(flatten(before), flatten(one), s, 0, hi);
    let lo = hi - total_len(flatten(one));
    lemma_flatten_one_ends(ts[j]);
    lemma_covers_first(flatten(one), s, lo, hi);
    lemma_covers_order(flatten(one), s, lo, hi);
    lemma_covers_order(flatten(before), s, 0, lo);
    lemma_covers_order(flatten(after), s, hi, n);
    (lo, hi)
}

proof fn lemma_adjacent(ts: Seq<TokenModel>, s: Seq<char>, j: int)
    requires
        covers(flatten(ts), s, 0, s.len() as int),
        0 <= j < ts.len() - 1,
    ensures
        ts[j].end == ts[j + 1].start,
{
    let n = s.len() as int;
    let r = lemma_token_span(ts, s, j);
    let mid = ts.subrange(j + 1, ts.len() as int);
    let one = seq![ts[j + 1]];
    assert(mid =~= one + ts.subrange(j + 2, ts.len() as int));
    lemma_flatten_concat(one, ts.subrange(j + 2, ts.len() as int));
    lemma_flatten_one_ends(ts[j + 1]);
    lemma_covers_first(flatten(mid), s, r.1, n);
    assert(flatten(mid)[0] == flatten(one)[0]);
}

/// Range monotonicity: every top-level token starts no later than it
/// ends, each one ends where the next one starts, the first starts at the
/// beginning of the text and the last ends at its end.
pub proof fn lemma_ranges_ordered(s: Seq<char>)
    ensures
        forall|j: int|
            0 <= j < resolved(atoms_of(s)).len() ==> pos_le(
                #[trigger] resolved(atoms_of(s))[j].start,
                resolved(atoms_of(s))[j].end,
            ),
        forall|j: int|
            0 <= j < resolved(atoms_of(s)).len() - 1 ==> #[trigger] resolved(atoms_of(s))[j].end
                == resolved(atoms_of(s))[j + 1].start,
        resolved(atoms_of(s)).len() > 0 ==> resolved(atoms_of(s))[0].start == (0nat, 0nat),
        resolved(atoms_of(s)).len() > 0 ==> resolved(atoms_of(s)).last().end == pos_after(s),
{
    let ts = resolved(atoms_of(s));
    let n = s.len() as int;
    lemma_round_trip(s);
    assert forall|j: int| 0 <= j < ts.len() implies pos_le(#[trigger] ts[j].start, ts[j].end) by {
        let r = lemma_token_span(ts, s, j);
        lemma_pos_mono(s, r.0, r.1);
    }
    assert forall|j: int| 0 <= j < ts.len() - 1 implies #[trigger] ts[j].end == ts[j + 1].start by {
        lemma_adjacent(ts, s, j);
    }
    if ts.len() > 0 {
        let r = lemma_token_span(ts, s, 0);
        assert(ts.take(0) =~= Seq::<TokenModel>::empty());
        assert(flatten(Seq::<TokenModel>::empty()) =~= Seq::<TokenModel>::empty());
        assert(s.take(0) =~= Seq::<char>::empty());
        let last = ts.len() - 1;
        let r2 = lemma_token_span(ts, s, last);
        assert(ts.subrange(last + 1, ts.len() as int) =~= Seq::<TokenModel>::empty());
        assert(s.take(n) =~= s);
    }
}

/// How many times `c` occurs in `s`.
pub open spec fn count_char(s: Seq<char>, c: char) -> nat
    decreases s.len(),
{
    if s.len() == 0 {
        0
    } else {
        count_char(s.drop_last(), c) + if s.last() == c {
            1nat
        } else {
            0nat
        }
    }
}

/// How many modifier tokens of the kind that `c` delimits there are, at
/// any depth.
pub open spec fn modifier_count(ts: Seq<TokenModel>, c: char) -> nat
    decreases ts,
{
    if ts.len() == 0 {
        0
    } else {
        modifier_count(ts.drop_last(), c) + match ts.last().payload {
            Payload::Modifier(kind, children) => (if kind == modifier_of(c) {
                1nat
            } else {
                0nat
            }) + modifier_count(children, c),
            _ => 0nat,
        }
    }
}

/// How many times `c` occurs in the text of words and links, at any depth.
pub open spec fn literal_count(ts: Seq<TokenModel>, c: char) -> nat
    decreases ts,
{
    if ts.len() == 0 {
        0
    } else {
        literal_count(ts.drop_last(), c) + match ts.last().payload {
            Payload::Word(w) => count_char(w, c),
            Payload::Link(target) => count_char(target, c),
            Payload::Modifier(_, children) => literal_count(children, c),
            _ => 0nat,
        }
    }
}

proof fn lemma_count_concat(a: Seq<char>, b: Seq<char>, c: char)
    ensures
        count_char(a + b, c) == count_char(a, c) + count_char(b, c),
    decreases b.len(),
{
    if b.len() == 0 {
        assert(a + b =~= a);
    } else {
        lemma_count_concat(a, b.drop_last(), c);
        assert((a + b).drop_last() =~= a + b.drop_last());
    }
}

proof fn lemma_count_single(x: char, c: char)
    ensures
        count_char(seq![x], c) == if x == c {
            1nat
        } else {
            0nat
        },
{
    assert(seq![x].drop_last() =~= Seq::<char>::empty());
    assert(seq![x].last() == x);
    assert(count_char(Seq::<char>::empty(), c) == 0);
}

proof fn lemma_count_spaces(s: Seq<char>, c: char)
    requires
        !is_space_char(c),
        forall|k: int| 0 <= k < s.len() ==> is_space_char(s[k]),
    ensures
        count_char(s, c) == 0,
    decreases s.len(),
{
    if s.len() > 0 {
        lemma_count_spaces(s.drop_last(), c);
    }
}

proof fn lemma_literal_count_concat(a: Seq<TokenModel>, b: Seq<TokenModel>, c: char)
    ensures
        literal_count(a + b, c) == literal_count(a, c) + literal_count(b, c),
    decreases b.len(),
{
    if b.len() == 0 {
        assert(a + b =~= a);
    } else {
        lemma_literal_count_concat(a, b.drop_last(), c);
        assert((a + b).drop_last() =~= a + b.drop_last());
        assert((a + b).last() == b.last());
    }
}

proof fn lemma_literal_count_single(t: TokenModel, c: char)
    ensures
        literal_count(seq![t], c) == match t.payload {
            Payload::Word(w) => count_char(w, c),
            Payload::Link(target) => count_char(target, c),
            Payload::Modifier(_, children) => literal_count(children, c),
            _ => 0nat,
        },
{
    let one = seq![t];
    assert(one.drop_last() =~= Seq::<TokenModel>::empty());
    assert(one.last() == t);
    assert(literal_count(Seq::<TokenModel>::empty(), c) == 0);
}

/// Decaying modifiers turns each one into two literal delimiters.
proof fn lemma_flatten_counts(ts: Seq<TokenModel>, c: char)
    requires
        is_delimiter_char(c),
    ensures
        literal_count(flatten(ts), c) == 2 * modifier_count(ts, c) + literal_count(ts, c),
    decreases ts,
{
    if ts.len() > 0 {
        let t = ts.last();
        lemma_flatten_counts(ts.drop_last(), c);
        match t.payload {
            Payload::Modifier(kind, children) => {
                lemma_flatten_counts(children, c);
                let d = delimiter_of(kind);
                assert((d == c) == (kind == modifier_of(c)));
                let open = opening_leaf(d, t.start);
                let close = closing_leaf(d, t.end);
                lemma_literal_count_single(open, c);
                lemma_literal_count_single(close, c);
                lemma_count_single(d, c);
                lemma_literal_count_concat(seq![open], flatten(children), c);
                lemma_literal_count_concat(seq![open] + flatten(children), seq![close], c);
                lemma_literal_count_concat(
                    flatten(ts.drop_last()),
                    seq![open] + flatten(children) + seq![close],
                    c,
                );
            },
            _ => {
                lemma_literal_count_single(t, c);
                lemma_literal_count_concat(flatten(ts.drop_last()), seq![t], c);
            },
        }
    }
}

/// Flattened tokens that spell a slice hold its occurrences of `c` in
/// their text.
proof fn lemma_covers_count(ls: Seq<TokenModel>, s: Seq<char>, b: int, e: int, c: char)
    requires
        covers(ls, s, b, e),
        is_delimiter_char(c),
        0 <= b <= e <= s.len(),
    ensures
        count_char(s.subrange(b, e), c) == literal_count(ls, c),
    decreases ls.len(),
{
    if ls.len() == 0 {
        assert(s.subrange(b, e) =~= Seq::<char>::empty());
    } else {
        let t = ls.last();
        let m = e - source_len(t);
        lemma_covers_order(ls.drop_last(), s, b, m);
        lemma_covers_count(ls.drop_last(), s, b, m, c);
        assert(s.subrange(b, e) =~= s.subrange(b, m) + s.subrange(m, e));
        lemma_count_concat(s.subrange(b, m), s.subrange(m, e), c);
        let src = s.subrange(m, e);
        match t.payload {
            Payload::Space => {
                lemma_count_spaces(src, c);
            },
            Payload::SoftBreak => {
                lemma_count_single('\n', c);
            },
            Payload::ParagraphBreak => {
                assert(src =~= seq!['\n'] + seq!['\n']);
                lemma_count_single('\n', c);
                lemma_count_concat(seq!['\n'], seq!['\n'], c);
            },
            Payload::Link(target) => {
                lemma_count_single('{', c);
                lemma_count_single('}', c);
                lemma_count_concat(seq!['{'], target, c);
                lemma_count_concat(seq!['{'] + target, seq!['}'], c);
            },
            _ => {},
        }
    }
}

/// Delimiter balance: every occurrence of a delimiter character in the
/// text is accounted for exactly once, either as one of the two delimiters
/// of a modifier of its kind, or as literal text of a word or a link (an
/// unmatched, glued or doubled delimiter, or one inside a link).
pub proof fn lemma_delimiter_balance(s: Seq<char>, c: char)
    requires
        is_delimiter_char(c),
    ensures
        count_char(s, c) == 2 * modifier_count(resolved(atoms_of(s)), c) + literal_count(
            resolved(atoms_of(s)),
            c,
        ),
{
    let ts = resolved(atoms_of(s));
    lemma_round_trip(s);
    lemma_covers_count(flatten(ts), s, 0, s.len() as int, c);
    assert(s.subrange(0, s.len() as int) =~= s);
    lemma_flatten_counts(ts, c);
}

} // verus!
