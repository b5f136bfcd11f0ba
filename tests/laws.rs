use neorg_parser::parser::{parse, ParsedToken, ParsedTokenData, Position};
use neorg_parser::tokenizer::tokenize;

const SAMPLES: [&str; 8] = [
    "neorg parser    ",
    "*bold* and /italic/ text\n\nnext",
    "*a _b* c_ d",
    "`*not* {bold}` {link *x*} {open",
    "**x** -y- |z| ^s^ ,t, $m$ =v= +c+",
    "* not bold\n\n\n\nend *",
    "*outer /inner/ done*\n",
    "",
];

fn rebuild(tokens: &[ParsedToken], out: &mut String) {
    for t in tokens {
        match &t.data {
            ParsedTokenData::Word(w) => out.push_str(w),
            ParsedTokenData::Space => {
                for _ in t.range[0].char_counter..t.range[1].char_counter {
                    out.push(' ');
                }
            }
            ParsedTokenData::SoftBreak => out.push('\n'),
            ParsedTokenData::ParagraphBreak => out.push_str("\n\n"),
            ParsedTokenData::Link(l) => {
                out.push('{');
                out.push_str(&l.content);
                out.push('}');
            }
            ParsedTokenData::AttachedModifier(kind, children) => {
                out.push(char::from(*kind));
                rebuild(children, out);
                out.push(char::from(*kind));
            }
        }
    }
}

fn counts(tokens: &[ParsedToken], c: char) -> (usize, usize) {
    let mut modifiers = 0;
    let mut literal = 0;
    for t in tokens {
        match &t.data {
            ParsedTokenData::Word(w) => literal += w.chars().filter(|x| *x == c).count(),
            ParsedTokenData::Link(l) => literal += l.content.chars().filter(|x| *x == c).count(),
            ParsedTokenData::AttachedModifier(kind, children) => {
                if char::from(*kind) == c {
                    modifiers += 1;
                }
                let (m, l) = counts(children, c);
                modifiers += m;
                literal += l;
            }
            _ => {}
        }
    }
    (modifiers, literal)
}

#[test]
fn decayed_tokens_spell_the_input() {
    for sample in SAMPLES {
        let tokens = parse(tokenize(sample));
        let mut out = String::new();
        rebuild(&tokens, &mut out);
        assert_eq!(out, sample);
    }
}

#[test]
fn top_level_ranges_are_ordered_and_contiguous() {
    for sample in SAMPLES {
        let tokens = parse(tokenize(sample));
        let mut at = Position::new(0, 0);
        for t in &tokens {
            assert_eq!(t.range[0], at);
            let (s, e) = (t.range[0], t.range[1]);
            assert!(
                (s.line_counter, s.char_counter) <= (e.line_counter, e.char_counter),
                "{:?}",
                t
            );
            at = e;
        }
    }
    let tokens = parse(tokenize("ab\ncd *e*"));
    assert_eq!(tokens.last().unwrap().range[1], Position::new(1, 6));
}

#[test]
fn every_delimiter_is_accounted_for() {
    for sample in SAMPLES {
        let tokens = parse(tokenize(sample));
        for c in "*/_-|`^,$=+".chars() {
            let (modifiers, literal) = counts(&tokens, c);
            let total = sample.chars().filter(|x| *x == c).count();
            assert_eq!(2 * modifiers + literal, total, "{:?} {:?}", sample, c);
        }
    }
}

#[test]
fn bold_counts_one_span_and_no_literal() {
    let tokens = parse(tokenize("*bold*"));
    assert_eq!(counts(&tokens, '*'), (1, 0));
    let tokens = parse(tokenize("* not bold"));
    assert_eq!(counts(&tokens, '*'), (0, 1));
}
