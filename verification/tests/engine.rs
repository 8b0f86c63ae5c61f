use hayasaka::apply::{
    conflict_pairs, dry_run_url, force_apply_url, label_selector, make_url, parse_object,
    prepare_document, prune_orphans, resolve_conflicts, ApplyError, ResolutionStrategy,
};
use hayasaka::conflict::parse_message;
use hayasaka::discovery::{list_apis, ApiResource};
use hayasaka::element::Element;
use hayasaka::kinds::{Object, ObjectData, ObjectKind, ObjectLocation, ObjectSet, RuntimeTypeData};
use hayasaka::parse::parse;
use hayasaka::value::Value;

fn obj(fields: Vec<(&str, Value)>) -> Value {
    Value::Obj(fields.into_iter().map(|(k, v)| (k.to_owned(), v)).collect())
}

fn kind(api_version: &str, kind_name: &str) -> ObjectKind {
    ObjectKind {
        api_version: api_version.to_owned(),
        kind: kind_name.to_owned(),
    }
}

fn object(api_version: &str, kind_name: &str, name: &str, ns: Option<&str>) -> Object {
    Object {
        kind: kind(api_version, kind_name),
        metadata: ObjectLocation {
            name: name.to_owned(),
            namespace: ns.map(|s| s.to_owned()),
        },
    }
}

#[test]
fn kind_normalization() {
    assert_eq!(kind("extensions/v1beta1", "Ingress"), kind("networking.k8s.io/v1", "Ingress"));
    assert_eq!(kind("apps/v1", "Deployment"), kind("apps/v1beta2", "Deployment"));
    assert_ne!(kind("apps/v1", "Deployment"), kind("apps/v1", "StatefulSet"));
    assert_ne!(kind("extensions/v1beta1", "DaemonSet"), kind("networking.k8s.io/v1", "DaemonSet"));
    assert_eq!(kind("v1", "Pod").versionless_version(), "v1");
    assert_eq!(kind("extensions/v1beta1", "Ingress").versionless_version(), "networking.k8s.io");
}

#[test]
fn prune_exemption() {
    let a = object("v1", "ConfigMap", "a", Some("ns"));
    let b = object("apps/v1", "Deployment", "b", Some("ns"));

    let mut created = ObjectSet::new();
    created.insert(object("v1", "ConfigMap", "a", Some("ns")));
    created.insert(object("apps/v1", "Deployment", "b", Some("ns")));

    let mut live = ObjectSet::new();
    live.insert(a);
    live.insert(b);
    live.insert(object("v1", "Endpoints", "c", Some("ns")));
    assert_eq!(prune_orphans(&live, &created).len(), 0);

    let mut live2 = ObjectSet::new();
    live2.insert(object("v1", "ConfigMap", "a", Some("ns")));
    live2.insert(object("apps/v1", "Deployment", "b", Some("ns")));
    live2.insert(object("apps/v1", "Deployment", "c", Some("ns")));
    let orphans = prune_orphans(&live2, &created);
    assert_eq!(orphans.len(), 1);
    assert_eq!(orphans[0].metadata.name, "c");

    // an EndpointSlice is exempt too
    let mut live3 = ObjectSet::new();
    live3.insert(object("discovery.k8s.io/v1beta1", "EndpointSlice", "x", Some("ns")));
    assert_eq!(prune_orphans(&live3, &created).len(), 0);
}

#[test]
fn urls() {
    let mut types = RuntimeTypeData::new();
    types.insert(
        kind("apps/v1", "Deployment"),
        ObjectData {
            namespaced: true,
            is_core: false,
            plural: "deployments".to_owned(),
        },
    );
    types.insert(
        kind("v1", "Namespace"),
        ObjectData {
            namespaced: false,
            is_core: true,
            plural: "namespaces".to_owned(),
        },
    );

    let dep = object("apps/v1", "Deployment", "web", None);
    assert_eq!(make_url("prod", &dep, &types), "/apis/apps/v1/namespaces/prod/deployments/web");

    let dep_ns = object("apps/v1", "Deployment", "web", Some("other"));
    assert_eq!(
        make_url("prod", &dep_ns, &types),
        "/apis/apps/v1/namespaces/other/deployments/web"
    );

    let ns = object("v1", "Namespace", "prod", None);
    assert_eq!(make_url("prod", &ns, &types), "/api/v1/namespaces/prod");

    assert_eq!(
        dry_run_url("prod", &dep, &types, "mgr"),
        "/apis/apps/v1/namespaces/prod/deployments/web?fieldManager=mgr&dryRun=All"
    );
    assert_eq!(
        force_apply_url("prod", &dep, &types, "mgr"),
        "/apis/apps/v1/namespaces/prod/deployments/web?fieldManager=mgr&force=true"
    );
    assert_eq!(label_selector("app.kubernetes.io/owner", "demo"), "app.kubernetes.io/owner=demo");
}

#[test]
fn parse_object_shapes() {
    let good = obj(vec![
        ("apiVersion", Value::Str("v1".to_owned())),
        ("kind", Value::Str("ConfigMap".to_owned())),
        ("metadata", obj(vec![("name", Value::Str("c".to_owned()))])),
    ]);
    let o = parse_object(&good).unwrap();
    assert_eq!(o.kind.api_version, "v1");
    assert_eq!(o.kind.kind, "ConfigMap");
    assert_eq!(o.metadata.name, "c");
    assert!(o.metadata.namespace.is_none());

    let missing_kind = obj(vec![
        ("apiVersion", Value::Str("v1".to_owned())),
        ("metadata", obj(vec![("name", Value::Str("c".to_owned()))])),
    ]);
    assert!(matches!(parse_object(&missing_kind), Err(ApplyError::ObjectParseFailed)));

    let bad_namespace = obj(vec![
        ("apiVersion", Value::Str("v1".to_owned())),
        ("kind", Value::Str("ConfigMap".to_owned())),
        (
            "metadata",
            obj(vec![
                ("name", Value::Str("c".to_owned())),
                ("namespace", Value::Num(3)),
            ]),
        ),
    ]);
    assert!(matches!(parse_object(&bad_namespace), Err(ApplyError::ObjectParseFailed)));
}

#[test]
fn prepare_document_defaults() {
    let mut types = RuntimeTypeData::new();
    types.insert(
        kind("v1", "ConfigMap"),
        ObjectData {
            namespaced: true,
            is_core: true,
            plural: "configmaps".to_owned(),
        },
    );

    let mut doc = obj(vec![
        ("apiVersion", Value::Str("v1".to_owned())),
        ("kind", Value::Str("ConfigMap".to_owned())),
        ("metadata", obj(vec![("name", Value::Str("c".to_owned()))])),
    ]);
    let o = prepare_document(&mut doc, "prod", "owner", "demo", &types).unwrap();
    assert_eq!(o.metadata.namespace.as_deref(), Some("prod"));

    let label_path = parse(".metadata.labels.owner").unwrap();
    assert_eq!(
        doc.get_path(label_path.as_slice()).unwrap(),
        &Value::Str("demo".to_owned())
    );
    let ns_path = parse(".metadata.namespace").unwrap();
    assert_eq!(
        doc.get_path(ns_path.as_slice()).unwrap(),
        &Value::Str("prod".to_owned())
    );

    let mut unknown = obj(vec![
        ("apiVersion", Value::Str("acme/v1".to_owned())),
        ("kind", Value::Str("Widget".to_owned())),
        ("metadata", obj(vec![("name", Value::Str("w".to_owned()))])),
    ]);
    assert!(matches!(
        prepare_document(&mut unknown, "prod", "owner", "demo", &types),
        Err(ApplyError::UnknownObjectKind(_))
    ));
    // the label edit persists even when the kind is unknown
    assert!(unknown.has_path(label_path.as_slice()));
}

#[test]
fn resolve_ignore_removes_conflicting_path() {
    let mut doc = obj(vec![(
        "spec",
        obj(vec![("a", Value::Num(1)), ("b", Value::Num(2))]),
    )]);
    let conflicts = parse_message(
        "Apply failed with 2 conflicts: conflicts with \"mgr\":\n- .spec.a\n- .spec.a",
    )
    .unwrap();
    let pairs = conflict_pairs(&conflicts);
    assert_eq!(pairs.len(), 2);
    assert_eq!(pairs[0].0, "mgr");
    // the second pair is skipped as already removed, so its strategy is moot
    let strategies = vec![ResolutionStrategy::Ignore, ResolutionStrategy::Error("no".to_owned())];
    resolve_conflicts(&mut doc, &pairs, &strategies).unwrap();
    assert_eq!(doc, obj(vec![("spec", obj(vec![("b", Value::Num(2))]))]));
}

#[test]
fn resolve_error_and_share_abort() {
    let mut doc = obj(vec![("spec", obj(vec![("a", Value::Num(1))]))]);
    let pairs = vec![("mgr".to_owned(), parse(".spec.a").unwrap())];
    match resolve_conflicts(&mut doc, &pairs, &vec![ResolutionStrategy::Error("why".to_owned())]) {
        Err(ApplyError::ConflictResolverError(msg)) => assert_eq!(msg, "why"),
        other => panic!("expected resolver error, got {:?}", other),
    }
    assert!(matches!(
        resolve_conflicts(&mut doc, &pairs, &vec![ResolutionStrategy::Share]),
        Err(ApplyError::ConflictResolverError(_))
    ));
    // Force keeps the document unchanged
    resolve_conflicts(&mut doc, &pairs, &vec![ResolutionStrategy::Force]).unwrap();
    assert_eq!(doc, obj(vec![("spec", obj(vec![("a", Value::Num(1))]))]));
}

#[test]
fn resolve_drops_synthesized_value_leaf() {
    // the apiserver reports .spec.ports[port="80"].value, but the document
    // only holds the list item itself
    let mut doc = obj(vec![(
        "spec",
        obj(vec![(
            "ports",
            Value::Arr(vec![obj(vec![("port", Value::Str("80".to_owned()))])]),
        )]),
    )]);
    let pairs = vec![("mgr".to_owned(), parse(".spec.ports[port=\"80\"].value").unwrap())];
    resolve_conflicts(&mut doc, &pairs, &vec![ResolutionStrategy::Ignore]).unwrap();
    assert_eq!(doc, obj(vec![("spec", obj(vec![("ports", Value::Arr(vec![]))]))]));
}

#[test]
fn catalog_last_write_wins() {
    let core = vec![(
        "v1".to_owned(),
        vec![
            ApiResource {
                name: "pods".to_owned(),
                kind: "Pod".to_owned(),
                namespaced: true,
            },
            ApiResource {
                name: "pods/status".to_owned(),
                kind: "Pod".to_owned(),
                namespaced: true,
            },
        ],
    )];
    let groups = vec![(
        "apps/v1".to_owned(),
        vec![ApiResource {
            name: "deployments".to_owned(),
            kind: "Deployment".to_owned(),
            namespaced: true,
        }],
    )];
    let types = list_apis(&core, &groups);
    let pod = types.get(&kind("v1", "Pod")).unwrap();
    // the subresource did not overwrite the collection
    assert_eq!(pod.plural, "pods");
    assert!(pod.is_core);
    let dep = types.get(&kind("apps/v1", "Deployment")).unwrap();
    assert!(!dep.is_core);
    assert!(types.get(&kind("batch/v1", "Job")).is_none());
}

#[test]
fn strip_volatile_removes_server_fields() {
    let mut doc = obj(vec![
        ("apiVersion", Value::Str("v1".to_owned())),
        ("status", obj(vec![("ready", Value::Bool(true))])),
        (
            "metadata",
            obj(vec![
                ("name", Value::Str("x".to_owned())),
                ("uid", Value::Str("123".to_owned())),
                ("resourceVersion", Value::Str("9".to_owned())),
                (
                    "annotations",
                    obj(vec![(
                        "kubectl.kubernetes.io/last-applied-configuration",
                        Value::Str("{}".to_owned()),
                    )]),
                ),
            ]),
        ),
    ]);
    hayasaka::apply::strip_volatile(&mut doc);
    assert!(!doc.has_path(&[Element::StaticField("status")]));
    assert!(!doc.has_path(&[Element::StaticField("metadata"), Element::StaticField("uid")]));
    assert!(doc.has_path(&[Element::StaticField("metadata"), Element::StaticField("name")]));
    assert_eq!(
        doc.get_path(&[Element::StaticField("metadata"), Element::StaticField("annotations")])
            .unwrap(),
        &obj(vec![])
    );
}

#[test]
fn object_sets_use_normalized_identity() {
    let mut s = ObjectSet::new();
    s.insert(object("extensions/v1beta1", "Ingress", "web", Some("ns")));
    assert!(s.contains(&object("networking.k8s.io/v1", "Ingress", "web", Some("ns"))));
    assert!(!s.contains(&object("networking.k8s.io/v1", "Ingress", "web", None)));
    s.insert(object("networking.k8s.io/v1", "Ingress", "web", Some("ns")));
    assert_eq!(s.len(), 1);
}

#[test]
fn resolve_ignore_on_missing_path_fails_with_path_error() {
    let mut doc = obj(vec![("spec", obj(vec![("a", Value::Num(1))]))]);
    let pairs = vec![("mgr".to_owned(), parse(".nope.x").unwrap())];
    match resolve_conflicts(&mut doc, &pairs, &vec![ResolutionStrategy::Ignore]) {
        Err(ApplyError::Path(hayasaka::error::PathError::AtPath(prefix, _))) => {
            assert_eq!(prefix.to_string(), "");
        }
        other => panic!("expected a wrapped path error, got {:?}", other),
    }
    // the document is unchanged by the failed edit
    assert_eq!(doc, obj(vec![("spec", obj(vec![("a", Value::Num(1))]))]));
}
