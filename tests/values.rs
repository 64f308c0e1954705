use dent_parse::query::query;
use dent_parse::{import_value, merge, Error, ImportCache, Value};

fn s(text: &str) -> Value {
    Value::Str(text.to_string())
}

fn dict(entries: Vec<(&str, Value)>) -> Value {
    Value::Dict(entries.into_iter().map(|(k, v)| (k.to_string(), v)).collect())
}

#[test]
fn missing_reads_give_nil() {
    let d = dict(vec![("a", Value::Int(1))]);
    assert_eq!(d.get("b"), Value::Nil);
    assert_eq!(d.get_index(0), Value::Nil);
    let l = Value::List(vec![Value::Int(1)]);
    assert_eq!(l.get_index(1), Value::Nil);
    assert_eq!(l.get("a"), Value::Nil);
    assert_eq!(Value::Int(3).get("a"), Value::Nil);
}

#[test]
fn set_replaces_or_adds() {
    let mut d = dict(vec![("name", s("Mario")), ("age", Value::Int(35))]);
    let copy = d.duplicate();
    d.set("name", s("Luigi"));
    d.set("alive", Value::Bool(true));
    assert_eq!(
        d,
        dict(vec![("name", s("Luigi")), ("age", Value::Int(35)), ("alive", Value::Bool(true))])
    );
    assert_eq!(copy.get("name"), s("Mario"));
}

#[test]
fn merge_dicts_later_wins() {
    let arg = Value::List(vec![
        dict(vec![("a", Value::Int(1)), ("b", Value::Int(2))]),
        dict(vec![("b", Value::Int(3)), ("c", Value::Int(4))]),
    ]);
    assert_eq!(
        merge(&arg),
        dict(vec![("a", Value::Int(1)), ("b", Value::Int(3)), ("c", Value::Int(4))])
    );
}

#[test]
fn merge_lists_in_order() {
    let arg = Value::List(vec![
        Value::List(vec![Value::Int(1), Value::Int(2)]),
        Value::List(vec![]),
        Value::List(vec![Value::Int(3)]),
    ]);
    assert_eq!(merge(&arg), Value::List(vec![Value::Int(1), Value::Int(2), Value::Int(3)]));
}

#[test]
fn merge_mixed_gives_nil() {
    let arg = Value::List(vec![
        dict(vec![("a", Value::Int(1))]),
        Value::List(vec![Value::Int(1), Value::Int(2)]),
    ]);
    assert_eq!(merge(&arg), Value::Nil);
}

#[test]
fn accessors() {
    assert_eq!(s("x").as_str(), Some("x"));
    assert_eq!(Value::Int(4).as_int(), Some(4));
    assert_eq!(Value::Float("1.5".to_string()).as_float(), Some("1.5"));
    assert_eq!(Value::Bool(false).as_bool(), Some(false));
    assert_eq!(Value::Int(4).as_str(), None);
    assert!(Value::Nil.is_none());
    assert!(s("x").is_str());
    assert!(Value::Int(1).is_int());
    assert!(Value::Float("1.".to_string()).is_float());
    assert!(Value::Bool(true).is_bool());
    assert!(Value::List(vec![]).is_list());
    assert!(dict(vec![]).is_dict());
    assert_eq!(Value::List(vec![Value::Nil]).len(), Some(1));
    assert_eq!(dict(vec![("a", Value::Nil)]).len(), Some(1));
    assert_eq!(Value::Int(1).len(), None);
    assert!(Value::List(vec![]).is_empty());
    assert!(!Value::Int(1).is_empty());
    assert_eq!(Value::List(vec![Value::Int(2)]).as_list().map(|l| l.len()), Some(1));
    assert!(dict(vec![]).as_dict().is_some());
}

#[test]
fn canonical_text() {
    assert_eq!(Value::Nil.to_text(), "none");
    assert_eq!(Value::Int(-120).to_text(), "-120");
    assert_eq!(Value::Int(i64::MIN).to_text(), "-9223372036854775808");
    assert_eq!(Value::Int(0).to_text(), "0");
    assert_eq!(Value::Float("2.50".to_string()).to_text(), "2.50");
    assert_eq!(Value::Bool(true).to_text(), "true");
    assert_eq!(
        Value::List(vec![Value::Int(1), s("a"), Value::List(vec![])]).to_text(),
        "[ 1 a [ ] ]"
    );
    assert_eq!(dict(vec![("k", Value::Int(1)), ("j", Value::Nil)]).to_text(), "{ k: 1 j: none }");
    assert_eq!(dict(vec![]).to_text(), "{ }");
}

#[test]
fn error_messages() {
    assert_eq!(Error::UnexpectedEof.to_string(), "Unexpected end of file");
    assert_eq!(Error::UnexpectedChar('$').to_string(), "Unexpected character: $");
    assert_eq!(Error::UnknownFunction("f".to_string()).to_string(), "Unknown function: f");
    assert_eq!(Error::UnexpectedToken("EOF".to_string()).to_string(), "Unexpected token: EOF");
    assert_eq!(Error::Io("not found".to_string()).to_string(), "IO error: not found");
    assert_eq!(Error::InvalidNumber("1.2.3".to_string()).to_string(), "Invalid number: 1.2.3");
}

#[test]
fn cache_cycle_gives_nil() {
    let mut cache = ImportCache::new();
    assert_eq!(cache.begin("/a/self.dent"), None);
    assert_eq!(cache.begin("/a/self.dent"), Some(Value::Nil));
    cache.finish("/a/self.dent", dict(vec![("self", Value::Nil)]));
    assert_eq!(cache.begin("/a/self.dent"), Some(dict(vec![("self", Value::Nil)])));
}

#[test]
fn cache_copies_are_independent() {
    let mut cache = ImportCache::new();
    assert_eq!(cache.begin("/d.dent"), None);
    cache.finish("/d.dent", dict(vec![("name", s("Mario"))]));
    let mut first = cache.begin("/d.dent").unwrap();
    let second = cache.begin("/d.dent").unwrap();
    first.set("name", s("Luigi"));
    assert_eq!(second, dict(vec![("name", s("Mario"))]));
    assert_eq!(cache.begin("/d.dent"), Some(dict(vec![("name", s("Mario"))])));
    assert_eq!(first.get("name"), s("Luigi"));
}

#[test]
fn import_failures_give_nil() {
    assert_eq!(import_value(None), Value::Nil);
    assert_eq!(import_value(Some(Err(Error::UnexpectedEof))), Value::Nil);
    assert_eq!(import_value(Some(Ok(Value::Int(1)))), Value::Int(1));
}

#[test]
fn query_paths() {
    let v = dict(vec![
        ("foo", dict(vec![("bar", Value::List(vec![dict(vec![("baz", Value::Int(7))])]))])),
        ("list", Value::List(vec![s("a"), s("b")])),
    ]);
    assert_eq!(query(&v, ".foo.bar[0].baz"), Some("7".to_string()));
    assert_eq!(query(&v, ".list[1]"), Some("b".to_string()));
    assert_eq!(query(&v, ".list[+1]"), Some("b".to_string()));
    assert_eq!(query(&v, ".list[5]"), Some("none".to_string()));
    assert_eq!(query(&v, ".missing.deeper"), Some("none".to_string()));
    assert_eq!(query(&v, ""), Some(v.to_text()));
    assert_eq!(query(&v, "..list..[0]"), Some("none".to_string()));
    assert_eq!(query(&v, ".list[x]"), None);
    assert_eq!(query(&v, ".list[]"), None);
}

#[test]
fn set_index_replaces_item() {
    let mut l = Value::List(vec![Value::Int(1), Value::Int(2)]);
    l.set_index(1, s("two"));
    assert_eq!(l, Value::List(vec![Value::Int(1), s("two")]));
}
