use hayasaka::element::{Element, PathBuf};
use hayasaka::parse::parse;
use hayasaka::value::{deep_eq, Value};

fn obj(fields: Vec<(&str, Value)>) -> Value {
    Value::Obj(fields.into_iter().map(|(k, v)| (k.to_owned(), v)).collect())
}

#[test]
fn remove() {
    let mut o = obj(vec![("test", Value::Num(3)), ("test2", Value::Num(4))]);
    let path = parse(".test").unwrap();
    o.remove_path(path.as_slice()).unwrap();
    assert_eq!(o, obj(vec![("test2", Value::Num(4))]));
}

#[test]
fn escaping() {
    assert_eq!(
        parse(r#".aaa."aaa"."aa.aa"."aa\"aa""#).unwrap(),
        PathBuf(vec![
            Element::Field("aaa".to_owned()),
            Element::Field("aaa".to_owned()),
            Element::Field("aa.aa".to_owned()),
            Element::Field("aa\"aa".to_owned()),
        ])
    );
}

#[test]
fn single_quoted_names() {
    assert_eq!(
        parse(r#".'a.b'.'c\'d'"#).unwrap(),
        PathBuf(vec![
            Element::Field("a.b".to_owned()),
            Element::Field("c'd".to_owned()),
        ])
    );
}

#[test]
fn parse_index_and_selector() {
    assert_eq!(
        parse(".a[0][k=\"x\"]").unwrap(),
        PathBuf(vec![
            Element::Field("a".to_owned()),
            Element::Index(0),
            Element::Select("k".to_owned(), Value::Str("x".to_owned())),
        ])
    );
}

#[test]
fn parse_rejects_bad_input() {
    assert!(parse("").is_err());
    assert!(parse("junk").is_err());
    assert!(parse(".a.").is_err());
    assert!(parse("[k=]").is_err());
    // an index too large for usize is a parse failure, not a selector
    assert!(parse("[99999999999999999999999]").is_err());
}

#[test]
fn parse_error_location() {
    let e = parse(".a.\n").unwrap_err();
    assert_eq!(e.line, 1);
}

#[test]
fn set_then_get() {
    let mut d = obj(vec![("a", obj(vec![("b", Value::Num(1))]))]);
    let path = parse(".a.c").unwrap();
    let prev = d.set_path(path.as_slice(), Value::Num(5)).unwrap();
    assert!(prev.is_none());
    let got = d.get_path(path.as_slice()).unwrap();
    assert_eq!(*got, Value::Num(5));
    // replacing returns the previous value
    let prev = d.set_path(path.as_slice(), Value::Num(6)).unwrap();
    assert_eq!(prev, Some(Value::Num(5)));
}

#[test]
fn select_cardinality() {
    let two = Value::Arr(vec![
        obj(vec![("k", Value::Num(1))]),
        obj(vec![("k", Value::Num(1))]),
    ]);
    let sel1 = Element::Select("k".to_owned(), Value::Num(1));
    assert!(matches!(
        two.get_comp(&sel1),
        Err(hayasaka::error::PathError::SelectMatchedMultipleItems)
    ));

    let one = Value::Arr(vec![obj(vec![("k", Value::Num(1))])]);
    let sel2 = Element::Select("k".to_owned(), Value::Num(2));
    assert!(matches!(
        one.get_comp(&sel2),
        Err(hayasaka::error::PathError::SelectMatchedNoItems)
    ));

    let got = one.get_comp(&sel1).unwrap();
    assert_eq!(*got, obj(vec![("k", Value::Num(1))]));
}

#[test]
fn remove_absent_field_is_tolerated() {
    let mut o = obj(vec![("a", Value::Num(1))]);
    let r = o.remove_comp(&Element::Field("missing".to_owned())).unwrap();
    assert!(r.is_none());
    assert_eq!(o, obj(vec![("a", Value::Num(1))]));
    // but get on the same absent field errors
    assert!(matches!(
        o.get_comp(&Element::Field("missing".to_owned())),
        Err(hayasaka::error::PathError::FieldNotFound)
    ));
}

#[test]
fn path_errors_carry_prefix() {
    let d = obj(vec![("a", obj(vec![("b", Value::Num(1))]))]);
    let path = parse(".a.x.y").unwrap();
    match d.get_path(path.as_slice()) {
        Err(hayasaka::error::PathError::AtPath(prefix, inner)) => {
            assert_eq!(prefix.to_string(), ".a");
            assert!(matches!(*inner, hayasaka::error::PathError::FieldNotFound));
        },
        other => panic!("expected AtPath, got {:?}", other),
    }
}

#[test]
fn out_of_bounds_index() {
    let mut d = Value::Arr(vec![Value::Num(1)]);
    assert!(matches!(
        d.get_comp(&Element::Index(3)),
        Err(hayasaka::error::PathError::OutOfBounds)
    ));
    assert!(matches!(
        d.set_comp(&Element::Index(3), Value::Num(9)),
        Err(hayasaka::error::PathError::OutOfBounds)
    ));
    assert!(matches!(
        Value::Num(1).get_comp(&Element::Select("k".to_owned(), Value::Num(1))),
        Err(hayasaka::error::PathError::SelectTargetIsNotArray)
    ));
}

#[test]
fn to_string() {
    assert_eq!(
        PathBuf(vec![
            Element::Field("spec".to_owned()),
            Element::Field("template".to_owned()),
            Element::Field("spec".to_owned()),
            Element::Field("containers".to_owned()),
            Element::Select("name".to_owned(), Value::Str("gitlab-postgresql".to_owned())),
            Element::Field("volumeMounts".to_owned()),
            Element::Select(
                "mountPath".to_owned(),
                Value::Str("/bitnami/postgresql".to_owned())
            ),
            Element::Field("subPath".to_owned()),
        ])
        .to_string(),
        ".spec.template.spec.containers[name=\"gitlab-postgresql\"].volumeMounts[mountPath=\"/bitnami/postgresql\"].subPath"
    );
}

#[test]
fn to_string_quotes_when_needed() {
    assert_eq!(
        PathBuf(vec![
            Element::Field("a.b".to_owned()),
            Element::Field("c\"d".to_owned()),
            Element::Index(7),
        ])
        .to_string(),
        ".\"a.b\".\"c\\\"d\"7"
    );
}

#[test]
fn display_parse_round_trip() {
    let p = PathBuf(vec![
        Element::Field("spec".to_owned()),
        Element::Select("name".to_owned(), Value::Str("web".to_owned())),
        Element::Field("image".to_owned()),
    ]);
    assert_eq!(parse(&p.to_string()).unwrap(), p);
}

#[test]
fn static_and_runtime_fields_are_interchangeable() {
    let mut o = obj(vec![("meta", obj(vec![("x", Value::Num(1))]))]);
    let p = [Element::StaticField("meta"), Element::StaticField("x")];
    assert_eq!(o.remove_path(&p).unwrap(), Some(Value::Num(1)));
}

#[test]
fn deep_eq_is_structural() {
    let a = obj(vec![("x", Value::Arr(vec![Value::Bool(true), Value::Null]))]);
    let b = obj(vec![("x", Value::Arr(vec![Value::Bool(true), Value::Null]))]);
    let c = obj(vec![("x", Value::Arr(vec![Value::Bool(false), Value::Null]))]);
    assert!(deep_eq(&a, &b));
    assert!(!deep_eq(&a, &c));
}

#[test]
fn from_rfc6901_unescapes() {
    let p = PathBuf::from_rfc6901("/a/b~1c/d~0e".to_owned());
    assert_eq!(
        p,
        PathBuf(vec![
            Element::Field("a".to_owned()),
            Element::Field("b/c".to_owned()),
            Element::Field("d~e".to_owned()),
        ])
    );
    assert_eq!(PathBuf::from_rfc6901(String::new()), PathBuf(vec![]));
}

#[test]
fn to_string_renders_scalar_selectors() {
    assert_eq!(
        PathBuf(vec![Element::Select("k".to_owned(), Value::Num(3))]).to_string(),
        "[k=3]"
    );
    assert_eq!(
        PathBuf(vec![Element::Select("k".to_owned(), Value::Num(-5))]).to_string(),
        "[k=-5]"
    );
    assert_eq!(
        PathBuf(vec![Element::Select("k".to_owned(), Value::Bool(true))]).to_string(),
        "[k=true]"
    );
    assert_eq!(
        PathBuf(vec![Element::Select("k".to_owned(), Value::Null)]).to_string(),
        "[k=null]"
    );
}

#[test]
fn to_string_renders_tree_selectors() {
    let v = Value::Obj(vec![(
        "a".to_owned(),
        Value::Arr(vec![Value::Num(1), Value::Num(20)]),
    )]);
    assert_eq!(
        PathBuf(vec![Element::Select("k".to_owned(), v)]).to_string(),
        "[k={\"a\":[1,20]}]"
    );
}
