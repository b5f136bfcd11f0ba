use neorg_parser::parser::{
    parse, AttachedModifierType, Link, LinkType, ParsedToken, ParsedTokenData, Position,
};
use neorg_parser::tokenizer::tokenize;

fn tok(start: [u32; 2], end: [u32; 2], data: ParsedTokenData) -> ParsedToken {
    ParsedToken {
        range: [Position::new(start[0], start[1]), Position::new(end[0], end[1])],
        data,
    }
}

fn text(text: &str) -> ParsedTokenData {
    ParsedTokenData::Word(String::from(text))
}

fn modifier(c: char, children: Vec<ParsedToken>) -> ParsedTokenData {
    ParsedTokenData::AttachedModifier(AttachedModifierType::new(c), children)
}

fn parse_text(text: &str) -> Vec<ParsedToken> {
    parse(tokenize(text))
}

#[test]
fn word() {
    let mut token_iter = parse(tokenize("neorg")).into_iter();
    assert_eq!(token_iter.next(), Some(tok([0, 0], [0, 5], text("neorg"))));
    assert_eq!(token_iter.next(), None);
}

#[test]
fn words_with_whitespaces() {
    let mut token_iter = parse(tokenize("neorg parser    ")).into_iter();
    assert_eq!(token_iter.next(), Some(tok([0, 0], [0, 5], text("neorg"))));
    assert_eq!(token_iter.next(), Some(tok([0, 5], [0, 6], ParsedTokenData::Space)));
    assert_eq!(token_iter.next(), Some(tok([0, 6], [0, 12], text("parser"))));
    assert_eq!(token_iter.next(), Some(tok([0, 12], [0, 16], ParsedTokenData::Space)));
    assert_eq!(token_iter.next(), None);
}

#[test]
fn linebreaks() {
    let mut soft_break_iter = parse(tokenize("\n")).into_iter();
    assert_eq!(
        soft_break_iter.next(),
        Some(tok([0, 0], [1, 0], ParsedTokenData::SoftBreak))
    );
    assert_eq!(soft_break_iter.next(), None);
    drop(soft_break_iter);

    let mut hard_break_iter = parse(tokenize("\n\n")).into_iter();
    assert_eq!(
        hard_break_iter.next(),
        Some(tok([0, 0], [2, 0], ParsedTokenData::ParagraphBreak))
    );
    assert_eq!(hard_break_iter.next(), None);
    drop(hard_break_iter);

    let mut combined_break_iter = parse(tokenize("\n\n\n")).into_iter();
    assert_eq!(
        combined_break_iter.next(),
        Some(tok([0, 0], [2, 0], ParsedTokenData::ParagraphBreak))
    );
    assert_eq!(
        combined_break_iter.next(),
        Some(tok([2, 0], [3, 0], ParsedTokenData::SoftBreak))
    );
}

#[test]
fn attached_modifier_recognition() {
    // Delimiters glued on both sides to other delimiters are literal text;
    // the leading one opens but is never closed, so it stays literal too.
    let mut token_iter = parse(tokenize("*/_-|`^,$=+")).into_iter();
    assert_eq!(token_iter.next(), Some(tok([0, 0], [0, 1], text("*"))));
    assert_eq!(token_iter.next(), Some(tok([0, 1], [0, 2], text("/"))));
    assert_eq!(token_iter.next(), Some(tok([0, 2], [0, 3], text("_"))));
    assert_eq!(token_iter.next(), Some(tok([0, 3], [0, 4], text("-"))));
    assert_eq!(token_iter.next(), Some(tok([0, 4], [0, 5], text("|"))));
    assert_eq!(token_iter.next(), Some(tok([0, 5], [0, 6], text("`"))));
    assert_eq!(token_iter.next(), Some(tok([0, 6], [0, 7], text("^"))));
    assert_eq!(token_iter.next(), Some(tok([0, 7], [0, 8], text(","))));
    assert_eq!(token_iter.next(), Some(tok([0, 8], [0, 9], text("$"))));
    assert_eq!(token_iter.next(), Some(tok([0, 9], [0, 10], text("="))));
    assert_eq!(token_iter.next(), Some(tok([0, 10], [0, 11], text("+"))));
    assert_eq!(token_iter.next(), None);
}

#[test]
fn empty_input_gives_no_tokens() {
    assert!(parse_text("").is_empty());
}

#[test]
fn bold_span() {
    assert_eq!(
        parse_text("*bold*"),
        vec![tok([0, 0], [0, 6], modifier('*', vec![tok([0, 1], [0, 5], text("bold"))]))]
    );
}

#[test]
fn unmatched_opener_decays_in_place() {
    assert_eq!(
        parse_text("* not bold"),
        vec![
            tok([0, 0], [0, 1], text("*")),
            tok([0, 1], [0, 2], ParsedTokenData::Space),
            tok([0, 2], [0, 5], text("not")),
            tok([0, 5], [0, 6], ParsedTokenData::Space),
            tok([0, 6], [0, 10], text("bold")),
        ]
    );
}

#[test]
fn four_breaks_are_a_paragraph_and_two_soft_breaks() {
    assert_eq!(
        parse_text("a\n\n\n\nb"),
        vec![
            tok([0, 0], [0, 1], text("a")),
            tok([0, 1], [2, 0], ParsedTokenData::ParagraphBreak),
            tok([2, 0], [3, 0], ParsedTokenData::SoftBreak),
            tok([3, 0], [4, 0], ParsedTokenData::SoftBreak),
            tok([4, 0], [4, 1], text("b")),
        ]
    );
}

#[test]
fn doubled_delimiters_are_literal() {
    assert_eq!(
        parse_text("**"),
        vec![tok([0, 0], [0, 1], text("*")), tok([0, 1], [0, 2], text("*"))]
    );
}

#[test]
fn glued_delimiter_is_literal() {
    assert_eq!(
        parse_text("a*b"),
        vec![
            tok([0, 0], [0, 1], text("a")),
            tok([0, 1], [0, 2], text("*")),
            tok([0, 2], [0, 3], text("b")),
        ]
    );
}

#[test]
fn unmatched_closer_is_literal() {
    assert_eq!(
        parse_text("a/ b"),
        vec![
            tok([0, 0], [0, 1], text("a")),
            tok([0, 1], [0, 2], text("/")),
            tok([0, 2], [0, 3], ParsedTokenData::Space),
            tok([0, 3], [0, 4], text("b")),
        ]
    );
}

#[test]
fn modifiers_nest() {
    assert_eq!(
        parse_text("*a /b/ c*"),
        vec![tok(
            [0, 0],
            [0, 9],
            modifier(
                '*',
                vec![
                    tok([0, 1], [0, 2], text("a")),
                    tok([0, 2], [0, 3], ParsedTokenData::Space),
                    tok([0, 3], [0, 6], modifier('/', vec![tok([0, 4], [0, 5], text("b"))])),
                    tok([0, 6], [0, 7], ParsedTokenData::Space),
                    tok([0, 7], [0, 8], text("c")),
                ]
            )
        )]
    );
}

#[test]
fn closing_an_outer_span_drops_inner_openers() {
    assert_eq!(
        parse_text("*a _b* c_"),
        vec![
            tok(
                [0, 0],
                [0, 6],
                modifier(
                    '*',
                    vec![
                        tok([0, 1], [0, 2], text("a")),
                        tok([0, 2], [0, 3], ParsedTokenData::Space),
                        tok([0, 3], [0, 4], text("_")),
                        tok([0, 4], [0, 5], text("b")),
                    ]
                )
            ),
            tok([0, 6], [0, 7], ParsedTokenData::Space),
            tok([0, 7], [0, 8], text("c")),
            tok([0, 8], [0, 9], text("_")),
        ]
    );
}

#[test]
fn verbatim_content_is_not_resolved() {
    assert_eq!(
        parse_text("`*a* {b}`"),
        vec![tok(
            [0, 0],
            [0, 9],
            modifier(
                '`',
                vec![
                    tok([0, 1], [0, 2], text("*")),
                    tok([0, 2], [0, 3], text("a")),
                    tok([0, 3], [0, 4], text("*")),
                    tok([0, 4], [0, 5], ParsedTokenData::Space),
                    tok([0, 5], [0, 6], text("{")),
                    tok([0, 6], [0, 7], text("b")),
                    tok([0, 7], [0, 8], text("}")),
                ]
            )
        )]
    );
}

#[test]
fn link_is_collected() {
    assert_eq!(
        parse_text("see {a *b*}"),
        vec![
            tok([0, 0], [0, 3], text("see")),
            tok([0, 3], [0, 4], ParsedTokenData::Space),
            tok(
                [0, 4],
                [0, 11],
                ParsedTokenData::Link(Link { variant: LinkType::Url, content: String::from("a *b*") })
            ),
        ]
    );
}

#[test]
fn unterminated_link_decays_to_a_word() {
    assert_eq!(
        parse_text("x {ab\nc"),
        vec![
            tok([0, 0], [0, 1], text("x")),
            tok([0, 1], [0, 2], ParsedTokenData::Space),
            tok([0, 2], [1, 1], text("{ab\nc")),
        ]
    );
}

#[test]
fn stray_closing_brace_is_literal() {
    assert_eq!(
        parse_text("a}"),
        vec![tok([0, 0], [0, 1], text("a")), tok([0, 1], [0, 2], text("}"))]
    );
}

#[test]
fn each_kind_maps_to_its_delimiter() {
    for c in "*/_-|`^,$=+".chars() {
        assert_eq!(char::from(AttachedModifierType::new(c)), c);
    }
    assert_eq!(AttachedModifierType::new('*'), AttachedModifierType::Bold);
    assert_eq!(AttachedModifierType::new('`'), AttachedModifierType::Verbatim);
    assert_eq!(AttachedModifierType::new('+'), AttachedModifierType::Comment);
    assert_eq!(char::from(AttachedModifierType::Subscript), ',');
}

#[test]
fn tokens_are_contiguous() {
    let tokens = parse_text("ab *c d* {e}\n\nf g_ ");
    let mut at = Position::new(0, 0);
    for t in &tokens {
        assert_eq!(t.range[0], at);
        at = t.range[1];
    }
    assert_eq!(at, Position::new(2, 5));
}

#[test]
fn every_kind_is_recognized() {
    let input = "*a* /b/ _c_ -d- |e| `f` ^g^ ,h, $i$ =j= +k+";
    let tokens = parse_text(input);
    let kinds = [
        AttachedModifierType::Bold,
        AttachedModifierType::Italic,
        AttachedModifierType::Underline,
        AttachedModifierType::Strikethrough,
        AttachedModifierType::Spoiler,
        AttachedModifierType::Verbatim,
        AttachedModifierType::Superscript,
        AttachedModifierType::Subscript,
        AttachedModifierType::Math,
        AttachedModifierType::Variable,
        AttachedModifierType::Comment,
    ];
    assert_eq!(tokens.len(), 21);
    for (k, kind) in kinds.iter().enumerate() {
        let col = 4 * k as u32;
        let letter = (b'a' + k as u8) as char;
        let expected = tok(
            [0, col],
            [0, col + 3],
            ParsedTokenData::AttachedModifier(
                *kind,
                vec![tok([0, col + 1], [0, col + 2], ParsedTokenData::Word(letter.to_string()))],
            ),
        );
        assert_eq!(tokens[2 * k], expected);
        if k + 1 < kinds.len() {
            assert_eq!(tokens[2 * k + 1], tok([0, col + 3], [0, col + 4], ParsedTokenData::Space));
        }
    }
}
