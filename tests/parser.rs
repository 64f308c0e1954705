use dent_parse::{Dent, Error, Function, Value};

struct Add;

impl Function for Add {
    fn call(&self, value: &Value) -> Value {
        let mut sum = 0;
        if let Value::List(values) = value {
            for value in values.iter() {
                if let Value::Int(i) = value {
                    sum += i;
                }
            }
            Value::Int(sum)
        } else if let Value::Int(i) = value {
            Value::Int(*i)
        } else {
            Value::Nil
        }
    }
}

fn s(text: &str) -> Value {
    Value::Str(text.to_string())
}

fn dict(entries: Vec<(&str, Value)>) -> Value {
    Value::Dict(entries.into_iter().map(|(k, v)| (k.to_string(), v)).collect())
}

fn bare() -> Dent<Add> {
    Dent::new(Vec::new())
}

#[test]
fn access() {
    let parser = bare();

    assert_eq!(parser.parse("{ foo: 1 }").unwrap().get("foo"), Value::Int(1));
}

#[test]
fn access_nested() {
    let parser = bare();

    assert_eq!(
        parser.parse("{ foo: { bar: 1 } }").unwrap().get("foo").get("bar"),
        Value::Int(1)
    );
}

#[test]
fn index() {
    let parser = bare();

    assert_eq!(parser.parse("[ 1 2 3 ]").unwrap().get_index(1), Value::Int(2));
}

#[test]
fn index_nested() {
    let parser = bare();

    assert_eq!(
        parser.parse("[ [ 1 2 3 ] ]").unwrap().get_index(0).get_index(1),
        Value::Int(2)
    );
}

#[test]
fn index_access_mixed() {
    let parser = bare();

    assert_eq!(
        parser.parse("{ foo: [ 1 2 3 ] }").unwrap().get("foo").get_index(1),
        Value::Int(2)
    );
}

#[test]
fn merge_dicts() {
    let parser: Dent<Add> = Dent::default();

    assert_eq!(
        parser.parse("@merge [ { a: 1 b: 2 } { b: 3 c: 4 } ]"),
        Ok(dict(vec![
            ("a", Value::Int(1)),
            ("b", Value::Int(3)),
            ("c", Value::Int(4)),
        ]))
    );
}

#[test]
fn merge_lists() {
    let parser: Dent<Add> = Dent::default();

    assert_eq!(
        parser.parse("@merge [ [ 1 2 3 ] [ 4 5 6 ] ]"),
        Ok(Value::List(vec![
            Value::Int(1),
            Value::Int(2),
            Value::Int(3),
            Value::Int(4),
            Value::Int(5),
            Value::Int(6),
        ]))
    );
}

#[test]
fn merge_mixed_kinds_gives_nil() {
    let parser: Dent<Add> = Dent::default();

    assert_eq!(parser.parse("@merge [ { a: 1 } [ 1 2 ] ]"), Ok(Value::Nil));
    assert_eq!(parser.parse("@merge [ [ 1 ] 5 ]"), Ok(Value::Nil));
    assert_eq!(parser.parse("@merge [ ]"), Ok(Value::Nil));
    assert_eq!(parser.parse("@merge 5"), Ok(Value::Nil));
}

#[test]
fn merge_absent_without_builtins() {
    let parser = bare();

    assert_eq!(
        parser.parse("@merge [ [ 1 ] ]"),
        Err(Error::UnknownFunction("merge".to_string()))
    );
}

#[test]
fn add_function() {
    let parser = Dent::new(vec![("add".to_string(), Add)]);

    assert_eq!(parser.parse("@add {}"), Ok(Value::Nil));
    assert_eq!(parser.parse("@add 0"), Ok(Value::Int(0)));
    assert_eq!(parser.parse("@add [ 1 2 ]"), Ok(Value::Int(3)));
}

#[test]
fn add_function_later() {
    let mut parser: Dent<Add> = Dent::default();
    parser.add_function("sum", Add);

    assert_eq!(parser.parse("[ @sum [ 1 2 ] @sum 4 ]"), Ok(Value::List(vec![Value::Int(3), Value::Int(4)])));
}

#[test]
fn empty() {
    let parser = bare();

    assert_eq!(parser.parse(""), Ok(Value::Nil));
}

#[test]
fn parser_string() {
    let parser = bare();

    assert_eq!(parser.parse("foo"), Ok(s("foo")));
    assert_eq!(parser.parse("\"foo\""), Ok(s("foo")));
}

#[test]
fn parser_list() {
    let parser = bare();

    assert_eq!(
        parser.parse("[ 1 2 3 ]"),
        Ok(Value::List(vec![Value::Int(1), Value::Int(2), Value::Int(3)]))
    );
}

#[test]
fn parser_dict() {
    let parser = bare();

    assert_eq!(
        parser.parse("{ foo: 1 bar: 2 }"),
        Ok(dict(vec![("foo", Value::Int(1)), ("bar", Value::Int(2))]))
    );
}

#[test]
fn comment() {
    let parser = bare();

    assert_eq!(parser.parse("# foo"), Ok(Value::Nil));
}

#[test]
fn comment_before_value() {
    let parser = bare();

    assert_eq!(parser.parse("# note\n[ # inner\n 1 ]"), Ok(Value::List(vec![Value::Int(1)])));
}

#[test]
fn numbers_and_bools() {
    let parser = bare();

    assert_eq!(parser.parse("2"), Ok(Value::Int(2)));
    assert_eq!(parser.parse("2.0"), Ok(Value::Float("2.0".to_string())));
    assert_eq!(parser.parse("11."), Ok(Value::Float("11.".to_string())));
    assert_eq!(parser.parse("true"), Ok(Value::Bool(true)));
    assert_eq!(parser.parse("9223372036854775807"), Ok(Value::Int(9223372036854775807)));
    assert_eq!(
        parser.parse("9223372036854775808"),
        Ok(Value::Float("9223372036854775808".to_string()))
    );
}

#[test]
fn invalid_number() {
    let parser = bare();

    assert_eq!(parser.parse("1.2.3"), Err(Error::InvalidNumber("1.2.3".to_string())));
}

#[test]
fn duplicate_keys_last_wins() {
    let parser = bare();

    assert_eq!(
        parser.parse("{ a: 1 b: 2 a: 3 }"),
        Ok(dict(vec![("a", Value::Int(3)), ("b", Value::Int(2))]))
    );
}

#[test]
fn unknown_function() {
    let parser: Dent<Add> = Dent::default();

    assert_eq!(parser.parse("@nope 1"), Err(Error::UnknownFunction("nope".to_string())));
    assert_eq!(
        parser.parse("[ 1 { a: @nope [ ] } ]"),
        Err(Error::UnknownFunction("nope".to_string()))
    );
}

#[test]
fn unexpected_eof() {
    let parser = bare();

    assert_eq!(parser.parse("[ 1 2"), Err(Error::UnexpectedEof));
    assert_eq!(parser.parse("{ a: 1"), Err(Error::UnexpectedEof));
}

#[test]
fn unexpected_token() {
    let parser = bare();

    assert_eq!(parser.parse("]"), Err(Error::UnexpectedToken("BRACKET_CLOSE".to_string())));
    assert_eq!(parser.parse("{ a 1 }"), Err(Error::UnexpectedToken("NUMBER".to_string())));
    assert_eq!(parser.parse("{ 1: 1 }"), Err(Error::UnexpectedToken("NUMBER".to_string())));
    assert_eq!(parser.parse("@ [ ]"), Err(Error::UnexpectedToken("BRACKET_OPEN".to_string())));
}

#[test]
fn unexpected_char_after_value() {
    let parser = bare();

    assert_eq!(parser.parse("foo $"), Err(Error::UnexpectedChar('$')));
    assert_eq!(parser.parse("$"), Err(Error::UnexpectedChar('$')));
}

#[test]
fn stops_after_first_value() {
    let parser = bare();

    assert_eq!(parser.parse("[ 1 ] [ 2 ]"), Ok(Value::List(vec![Value::Int(1)])));
}

#[test]
fn sequential_results_repeat() {
    let parser = bare();
    let first = parser.parse("{ a: [ 1 x ] }");
    for _ in 0..10 {
        assert_eq!(parser.parse("{ a: [ 1 x ] }"), first);
    }
}


#[test]
fn eof_after_key_is_unexpected_eof() {
    let parser = bare();

    assert_eq!(parser.parse("{ a"), Err(Error::UnexpectedEof));
    assert_eq!(parser.parse("{ a:"), Err(Error::UnexpectedEof));
}

#[test]
fn add_function_replaces_earlier_binding() {
    let mut parser: Dent<Add> = Dent::new(vec![("f".to_string(), Add)]);
    parser.add_function("merge", Add);
    assert_eq!(parser.parse("@merge [ 1 2 ]"), Ok(Value::Int(3)));
    parser.add_builtins();
    assert_eq!(parser.parse("@merge [ [ 1 ] [ 2 ] ]"), Ok(Value::List(vec![Value::Int(1), Value::Int(2)])));
    parser.add_function("merge", Add);
    assert_eq!(parser.parse("@merge [ 1 2 ]"), Ok(Value::Int(3)));
}
