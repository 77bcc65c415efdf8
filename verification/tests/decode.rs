use bencode::DecodeError;
use bencode::Lexer;
use bencode::Value;

fn decode(input: &str) -> Result<Vec<Value>, DecodeError> {
    let mut lexer = Lexer::new(String::from(input));
    lexer.lex()
}

fn chars(s: &str) -> Vec<char> {
    s.chars().collect()
}

fn byte_string(s: &str) -> Value {
    Value::ByteString(chars(s))
}

#[test]
fn integer_literal() {
    assert_eq!(decode("i42e"), Ok(vec![Value::Integer(42)]));
}

#[test]
fn string_literal() {
    assert_eq!(decode("4:spam"), Ok(vec![byte_string("spam")]));
}

#[test]
fn list_literal() {
    assert_eq!(
        decode("l4:spam4:eggse"),
        Ok(vec![Value::List(vec![byte_string("spam"), byte_string("eggs")])])
    );
}

#[test]
fn dictionary_literal() {
    assert_eq!(
        decode("d3:cow3:moo4:spam4:eggse"),
        Ok(vec![Value::Dictionary(vec![
            (chars("cow"), byte_string("moo")),
            (chars("spam"), byte_string("eggs")),
        ])])
    );
}

#[test]
fn nested_list_in_dictionary() {
    assert_eq!(
        decode("d4:listl1:a1:bee"),
        Ok(vec![Value::Dictionary(vec![(
            chars("list"),
            Value::List(vec![byte_string("a"), byte_string("b")]),
        )])])
    );
}

#[test]
fn deeply_nested_lists() {
    assert_eq!(
        decode("ll1:aee"),
        Ok(vec![Value::List(vec![Value::List(vec![byte_string("a")])])])
    );
}

#[test]
fn re_decoding_is_idempotent() {
    let input = "d3:cow3:moo4:spam4:eggseli1ei2eel4:spam4:eggse";
    let first = decode(input);
    let second = decode(input);
    assert_eq!(first, second);
    assert!(first.is_ok());
}

#[test]
fn duplicate_dictionary_key_last_write_wins() {
    assert_eq!(
        decode("d1:ai1e1:ai2ee"),
        Ok(vec![Value::Dictionary(vec![(chars("a"), Value::Integer(2))])])
    );
}

#[test]
fn duplicate_key_keeps_first_position() {
    assert_eq!(
        decode("d1:bi1e1:ai2e1:bi3ee"),
        Ok(vec![Value::Dictionary(vec![
            (chars("b"), Value::Integer(3)),
            (chars("a"), Value::Integer(2)),
        ])])
    );
}

#[test]
fn truncated_string_payload_fails() {
    assert_eq!(decode("5:abc"), Err(DecodeError::MalformedString));
}

#[test]
fn string_missing_colon_fails() {
    assert_eq!(decode("3abc"), Err(DecodeError::MalformedString));
}

#[test]
fn unterminated_list_fails() {
    assert_eq!(decode("l1:a"), Err(DecodeError::UnterminatedAggregate));
}

#[test]
fn unterminated_dictionary_fails() {
    assert_eq!(decode("d"), Err(DecodeError::UnterminatedAggregate));
}

#[test]
fn invalid_lead_character_fails() {
    assert_eq!(decode("x"), Err(DecodeError::UnexpectedToken));
}

#[test]
fn closing_marker_at_top_level_fails() {
    assert_eq!(decode("e"), Err(DecodeError::UnexpectedToken));
}

#[test]
fn empty_length_string_decodes() {
    assert_eq!(decode("0:"), Ok(vec![byte_string("")]));
}

#[test]
fn empty_input_decodes_to_no_values() {
    assert_eq!(decode(""), Ok(vec![]));
}

#[test]
fn several_top_level_values_in_order() {
    assert_eq!(
        decode("i1e3:twoli3ee"),
        Ok(vec![
            Value::Integer(1),
            byte_string("two"),
            Value::List(vec![Value::Integer(3)]),
        ])
    );
}

#[test]
fn integer_without_digits_fails() {
    assert_eq!(decode("ie"), Err(DecodeError::MalformedInteger));
}

#[test]
fn negative_integer_is_not_supported() {
    assert_eq!(decode("i-3e"), Err(DecodeError::MalformedInteger));
}

#[test]
fn integer_missing_terminator_fails() {
    assert_eq!(decode("i12"), Err(DecodeError::MalformedInteger));
}

#[test]
fn largest_integer_decodes() {
    assert_eq!(
        decode("i9223372036854775807e"),
        Ok(vec![Value::Integer(i64::MAX)])
    );
}

#[test]
fn integer_overflow_is_rejected() {
    assert_eq!(
        decode("i9223372036854775808e"),
        Err(DecodeError::MalformedInteger)
    );
    assert_eq!(
        decode("i99999999999999999999999999e"),
        Err(DecodeError::MalformedInteger)
    );
}

#[test]
fn non_digit_dictionary_key_fails() {
    assert_eq!(decode("di1ei2ee"), Err(DecodeError::ExpectedStringKey));
}

#[test]
fn missing_dictionary_value_fails() {
    assert_eq!(decode("d1:a"), Err(DecodeError::OutOfBounds));
}

#[test]
fn string_length_counts_characters_not_bytes() {
    assert_eq!(decode("2:\u{3b1}\u{3b2}"), Ok(vec![byte_string("\u{3b1}\u{3b2}")]));
}

#[test]
fn string_payload_may_hold_markers() {
    assert_eq!(decode("4:li1e"), Ok(vec![byte_string("li1e")]));
}
