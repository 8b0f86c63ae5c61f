use hayasaka::conflict::{parse_message, Conflict};
use hayasaka::element::{Element, PathBuf};
use hayasaka::value::Value;

#[test]
fn parsing() {
    let parsed = parse_message(
        r#"Apply failed with 2 conflicts: conflicts with "hayasaka.lach.pw/git":
- .spec.volumeClaimTemplates
- .spec.template.spec.containers[name="gitlab-postgresql"].volumeMounts[mountPath="/bitnami/postgresql"].subPath"#,
    )
    .unwrap();
    assert_eq!(
        parsed,
        vec![Conflict(
            "hayasaka.lach.pw/git".to_owned(),
            vec![
                PathBuf(vec![
                    Element::Field("spec".to_owned()),
                    Element::Field("volumeClaimTemplates".to_owned()),
                ]),
                PathBuf(vec![
                    Element::Field("spec".to_owned()),
                    Element::Field("template".to_owned()),
                    Element::Field("spec".to_owned()),
                    Element::Field("containers".to_owned()),
                    Element::Select(
                        "name".to_owned(),
                        Value::Str("gitlab-postgresql".to_owned())
                    ),
                    Element::Field("volumeMounts".to_owned()),
                    Element::Select(
                        "mountPath".to_owned(),
                        Value::Str("/bitnami/postgresql".to_owned())
                    ),
                    Element::Field("subPath".to_owned()),
                ]),
            ]
        )]
    );
}

#[test]
fn failed_using() {
    parse_message(
        r#"Apply failed with 1 conflict: conflict with "kubectl-client-side-apply" using rbac.authorization.k8s.io/v1: .subjects"#,
    )
    .unwrap();
}

#[test]
fn two_path_block() {
    let parsed = parse_message(
        "Apply failed with 2 conflicts: conflicts with \"mgr\":\n- .spec.a\n- .spec.b[name=\"x\"].c",
    )
    .unwrap();
    assert_eq!(
        parsed,
        vec![Conflict(
            "mgr".to_owned(),
            vec![
                PathBuf(vec![
                    Element::Field("spec".to_owned()),
                    Element::Field("a".to_owned()),
                ]),
                PathBuf(vec![
                    Element::Field("spec".to_owned()),
                    Element::Field("b".to_owned()),
                    Element::Select("name".to_owned(), Value::Str("x".to_owned())),
                    Element::Field("c".to_owned()),
                ]),
            ]
        )]
    );
}

#[test]
fn several_managers() {
    let parsed = parse_message(
        "Apply failed with 2 conflicts: conflict with \"a\": .x\nconflict with \"b\": .y",
    )
    .unwrap();
    assert_eq!(parsed.len(), 2);
    assert_eq!(parsed[0].0, "a");
    assert_eq!(parsed[1].0, "b");
    assert_eq!(parsed[0].1, vec![PathBuf(vec![Element::Field("x".to_owned())])]);
    assert_eq!(parsed[1].1, vec![PathBuf(vec![Element::Field("y".to_owned())])]);
}

#[test]
fn rejects_malformed_message() {
    assert!(parse_message("this is not a conflict message").is_err());
    assert!(parse_message("Apply failed with x conflicts: y").is_err());
    // a malformed embedded field path fails the whole message
    assert!(parse_message("Apply failed with 1 conflict: conflict with \"m\": .a..b").is_err());
    // trailing garbage after the conflicts is rejected
    assert!(
        parse_message("Apply failed with 1 conflict: conflict with \"m\": .a\ngarbage").is_err()
    );
}
