use neorg_parser::tokenizer::{tokenize, BasicToken, BasicTokenType};

fn atom(token_type: BasicTokenType, char: char) -> BasicToken {
    BasicToken { token_type, char }
}

#[test]
fn validate_tokenizer() {
    let mut token_iterator = tokenize("*/_,-% \t\n{a}").into_iter();
    assert_eq!(token_iterator.next(), Some(atom(BasicTokenType::Delimiter('*'), '*')));
    assert_eq!(token_iterator.next(), Some(atom(BasicTokenType::Delimiter('/'), '/')));
    assert_eq!(token_iterator.next(), Some(atom(BasicTokenType::Delimiter('_'), '_')));
    assert_eq!(token_iterator.next(), Some(atom(BasicTokenType::Delimiter(','), ',')));
    assert_eq!(token_iterator.next(), Some(atom(BasicTokenType::Delimiter('-'), '-')));
    assert_eq!(token_iterator.next(), Some(atom(BasicTokenType::Character, '%')));
    assert_eq!(token_iterator.next(), Some(atom(BasicTokenType::Space, ' ')));
    assert_eq!(token_iterator.next(), Some(atom(BasicTokenType::Space, '\t')));
    assert_eq!(token_iterator.next(), Some(atom(BasicTokenType::LineBreak, '\n')));
    assert_eq!(token_iterator.next(), Some(atom(BasicTokenType::LinkOpen, '{')));
    assert_eq!(token_iterator.next(), Some(atom(BasicTokenType::Character, 'a')));
    assert_eq!(token_iterator.next(), Some(atom(BasicTokenType::LinkClose, '}')));
    assert_eq!(token_iterator.next(), None);
}

#[test]
fn every_delimiter_is_classified_as_such() {
    for c in "*/_-|`^,$=+".chars() {
        assert_eq!(BasicTokenType::from(c), BasicTokenType::Delimiter(c));
    }
}

#[test]
fn classification_is_repeatable() {
    for c in "a*{} \t\n%é".chars() {
        assert_eq!(BasicTokenType::from(c), BasicTokenType::from(c));
        assert_eq!(BasicToken::new(c), BasicToken::new(c));
    }
}

#[test]
fn unknown_characters_are_plain() {
    assert_eq!(BasicToken::new('x'), atom(BasicTokenType::Character, 'x'));
    assert_eq!(BasicToken::new('#'), atom(BasicTokenType::Character, '#'));
    assert_eq!(BasicToken::new('\r'), atom(BasicTokenType::Character, '\r'));
    assert_eq!(BasicToken::new('ß'), atom(BasicTokenType::Character, 'ß'));
}

#[test]
fn empty_text_has_no_atoms() {
    assert!(tokenize("").is_empty());
}

#[test]
fn multibyte_text_gives_one_atom_per_character() {
    let atoms = tokenize("né*");
    assert_eq!(
        atoms,
        vec![
            atom(BasicTokenType::Character, 'n'),
            atom(BasicTokenType::Character, 'é'),
            atom(BasicTokenType::Delimiter('*'), '*'),
        ]
    );
}
