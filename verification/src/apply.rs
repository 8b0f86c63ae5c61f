//! The apply engine's decision logic: document identity parsing, label
//! injection and namespace defaulting, request-URL construction, the
//! conflict-resolution pass, and the prune computation. All network requests
//! are performed by the surrounding program, which feeds their results back
//! into these functions.

use vstd::prelude::*;
use vstd::string::StringExecFns;
use crate::element::{pview, Element, ElementView, PathBuf};
use crate::error::{PathError, PathErrorView};
use crate::ext::{obj_find, sget_path, sremove_path, sset, sset_path, sset_path_from};
use crate::kinds::{
    norm_group, opt_str_view, scan_slash, Object, ObjectDataView, ObjectKind, ObjectLocation,
    ObjectSet, RuntimeTypeData,
};
use crate::strutil::str_eq;
use crate::value::{clone_value, Value, ValueView};

verus! {

broadcast use crate::value::lemma_deep_seq, crate::value::lemma_deep_fields;

/// How one conflicting field is dealt with.
#[derive(Debug)]
pub enum ResolutionStrategy {
    /// Drop the field from the outgoing document, yielding ownership.
    Ignore,
    /// Reserved for shared ownership; not supported.
    Share,
    /// Keep the field; it is reclaimed by the forced apply.
    Force,
    /// Abort the whole apply with the given reason.
    Error(String),
}

/// Ghost model of a resolution strategy.
pub enum StrategyView {
    Ignore,
    Share,
    Force,
    Error(Seq<char>),
}

impl View for ResolutionStrategy {
    type V = StrategyView;

    open spec fn view(&self) -> StrategyView {
        match self {
            ResolutionStrategy::Ignore => StrategyView::Ignore,
            ResolutionStrategy::Share => StrategyView::Share,
            ResolutionStrategy::Force => StrategyView::Force,
            ResolutionStrategy::Error(s) => StrategyView::Error(s@),
        }
    }
}

/// Errors of the apply pipeline.
#[derive(Debug)]
pub enum ApplyError {
    /// The document does not carry the identity fields an object needs.
    ObjectParseFailed,
    /// The document's kind is not in the discovery catalog.
    UnknownObjectKind(ObjectKind),
    /// The conflict resolver asked to abort, with its reason.
    ConflictResolverError(String),
    /// A conflicting path could not be edited in the document.
    Path(PathError),
}

/// Ghost model of an apply error.
pub enum ApplyErrorView {
    ObjectParseFailed,
    UnknownObjectKind((Seq<char>, Seq<char>)),
    ConflictResolverError(Seq<char>),
    Path(PathErrorView),
}

impl View for ApplyError {
    type V = ApplyErrorView;

    open spec fn view(&self) -> ApplyErrorView {
        match self {
            ApplyError::ObjectParseFailed => ApplyErrorView::ObjectParseFailed,
            ApplyError::UnknownObjectKind(k) => ApplyErrorView::UnknownObjectKind(k.norm()),
            ApplyError::ConflictResolverError(s) => ApplyErrorView::ConflictResolverError(s@),
            ApplyError::Path(e) => ApplyErrorView::Path(e.deep()),
        }
    }
}

// ------------------------------------------------------------------
// Document identity.
// ------------------------------------------------------------------

/// The identity fields read out of a manifest document.
pub struct ParsedObject {
    pub api_version: Seq<char>,
    pub kind: Seq<char>,
    pub name: Seq<char>,
    pub namespace: Option<Seq<char>>,
}

/// A member of an object value, by key.
pub open spec fn field_of(d: ValueView, name: Seq<char>) -> Option<ValueView> {
    match d {
        ValueView::Obj(fields) => match obj_find(fields, name) {
            Some(i) => Some(fields[i].1),
            None => None,
        },
        _ => None,
    }
}

/// The identity a document must carry to be applied: string `apiVersion` and
/// `kind`, an object `metadata` with a string `name` and an optional string
/// (or null) `namespace`.
pub open spec fn spec_parse_object(d: ValueView) -> Option<ParsedObject> {
    match (field_of(d, "apiVersion"@), field_of(d, "kind"@), field_of(d, "metadata"@)) {
        (Some(ValueView::Str(av)), Some(ValueView::Str(k)), Some(m)) => match field_of(
            m,
            "name"@,
        ) {
            Some(ValueView::Str(n)) => match field_of(m, "namespace"@) {
                None => Some(ParsedObject { api_version: av, kind: k, name: n, namespace: None }),
                Some(ValueView::Null) => Some(
                    ParsedObject { api_version: av, kind: k, name: n, namespace: None },
                ),
                Some(ValueView::Str(ns)) => Some(
                    ParsedObject { api_version: av, kind: k, name: n, namespace: Some(ns) },
                ),
                Some(_) => None,
            },
            _ => None,
        },
        _ => None,
    }
}

/// What `parse_object` promises of its result.
pub open spec fn object_matches(o: Object, po: ParsedObject) -> bool {
    o.kind.api_version@ == po.api_version && o.kind.kind@ == po.kind && o.metadata.name@ == po.name
        && opt_str_view(o.metadata.namespace) == po.namespace
}

fn get_member<'a>(v: &'a Value, name: &str) -> (r: Option<&'a Value>)
    ensures
        match r {
            Some(c) => field_of(v.deep(), name@) == Some(c.deep()),
            None => field_of(v.deep(), name@) is None,
        },
{
    match v.get_comp(&Element::Field(name.to_owned())) {
        Ok(c) => Some(c),
        Err(_) => None,
    }
}

/// Read a document's object identity; exactly the documents the identity
/// shape above accepts yield `Ok`.
pub fn parse_object(item: &Value) -> (r: Result<Object, ApplyError>)
    ensures
        match r {
            Ok(o) => spec_parse_object(item.deep()) matches Some(po) && object_matches(o, po),
            Err(e) => spec_parse_object(item.deep()) is None && e@ is ObjectParseFailed,
        },
{
    let av = match get_member(item, "apiVersion") {
        Some(Value::Str(s)) => s.clone(),
        _ => {
            return Err(ApplyError::ObjectParseFailed);
        },
    };
    let kind = match get_member(item, "kind") {
        Some(Value::Str(s)) => s.clone(),
        _ => {
            return Err(ApplyError::ObjectParseFailed);
        },
    };
    let m = match get_member(item, "metadata") {
        Some(m) => m,
        None => {
            return Err(ApplyError::ObjectParseFailed);
        },
    };
    let name = match get_member(m, "name") {
        Some(Value::Str(s)) => s.clone(),
        _ => {
            return Err(ApplyError::ObjectParseFailed);
        },
    };
    let namespace = match get_member(m, "namespace") {
        None => None,
        Some(Value::Null) => None,
        Some(Value::Str(s)) => Some(s.clone()),
        Some(_) => {
            return Err(ApplyError::ObjectParseFailed);
        },
    };
    Ok(
        Object {
            kind: ObjectKind { api_version: av, kind },
            metadata: ObjectLocation { name, namespace },
        },
    )
}

// ------------------------------------------------------------------
// Request URLs.
// ------------------------------------------------------------------

/// The REST path of an object: `/api/{v}/...` for core resources,
/// `/apis/{g}/{v}/...` otherwise, with a namespace segment for namespaced
/// objects (the object's own, or the run's default).
pub open spec fn spec_make_url(ns: Seq<char>, o: Object, data: ObjectDataView) -> Seq<char> {
    let av = o.kind.api_version@;
    let prefix = if scan_slash(av, 0) < av.len() {
        "apis"@
    } else {
        "api"@
    };
    let nsp = match opt_str_view(o.metadata.namespace) {
        Some(n) => "namespaces/"@ + n + seq!['/'],
        None => if data.namespaced {
            "namespaces/"@ + ns + seq!['/']
        } else {
            Seq::empty()
        },
    };
    seq!['/'] + prefix + seq!['/'] + av + seq!['/'] + nsp + data.plural + seq!['/']
        + o.metadata.name@
}

fn contains_slash(s: &str) -> (r: bool)
    ensures
        r == (scan_slash(s@, 0) < s@.len()),
{
    let chars = crate::strutil::str_to_chars(s);
    let mut i: usize = 0;
    while i < chars.len() && chars[i] != '/'
        invariant
            0 <= i <= chars@.len(),
            chars@ == s@,
            scan_slash(s@, 0) == scan_slash(s@, i as int),
        decreases chars@.len() - i,
    {
        i = i + 1;
    }
    i < chars.len()
}

/// The REST path used to address `object`, from the catalog's data for its
/// kind.
pub fn make_url(namespace: &str, object: &Object, types: &RuntimeTypeData) -> (r: String)
    requires
        types@.contains_key(object.kind.norm()),
    ensures
        r@ == spec_make_url(namespace@, *object, types@[object.kind.norm()]),
{
    let data = match types.get(&object.kind) {
        Some(d) => d,
        None => {
            proof {
                assert(false);
            }
            return String::new();
        },
    };
    let mut url = String::new();
    url.push('/');
    if contains_slash(object.kind.api_version.as_str()) {
        url.append("apis");
    } else {
        url.append("api");
    }
    url.push('/');
    url.append(object.kind.api_version.as_str());
    url.push('/');
    match &object.metadata.namespace {
        Some(n) => {
            url.append("namespaces/");
            url.append(n.as_str());
            url.push('/');
        },
        None => {
            if data.namespaced {
                url.append("namespaces/");
                url.append(namespace);
                url.push('/');
            }
        },
    }
    url.append(data.plural.as_str());
    url.push('/');
    url.append(object.metadata.name.as_str());
    proof {
        assert(url@ =~= spec_make_url(namespace@, *object, types@[object.kind.norm()]));
    }
    url
}

/// The dry-run form of the apply request's URL.
pub fn dry_run_url(namespace: &str, object: &Object, types: &RuntimeTypeData, manager: &str) -> (r:
    String)
    requires
        types@.contains_key(object.kind.norm()),
    ensures
        r@ == spec_make_url(namespace@, *object, types@[object.kind.norm()]) + "?fieldManager="@
            + manager@ + "&dryRun=All"@,
{
    let mut url = make_url(namespace, object, types);
    url.append("?fieldManager=");
    url.append(manager);
    url.append("&dryRun=All");
    url
}

/// The forced form of the apply request's URL.
pub fn force_apply_url(
    namespace: &str,
    object: &Object,
    types: &RuntimeTypeData,
    manager: &str,
) -> (r: String)
    requires
        types@.contains_key(object.kind.norm()),
    ensures
        r@ == spec_make_url(namespace@, *object, types@[object.kind.norm()]) + "?fieldManager="@
            + manager@ + "&force=true"@,
{
    let mut url = make_url(namespace, object, types);
    url.append("?fieldManager=");
    url.append(manager);
    url.append("&force=true");
    url
}

/// The `key=value` label selector of this deployment.
pub fn label_selector(key: &str, value: &str) -> (r: String)
    ensures
        r@ == key@ + "="@ + value@,
{
    let mut out = String::new();
    out.append(key);
    out.append("=");
    out.append(value);
    out
}

} // verus!

verus! {

// ------------------------------------------------------------------
// Document preparation: label injection and namespace defaulting.
// ------------------------------------------------------------------

/// The updated tree of a successful path set, or the tree unchanged.
pub open spec fn set_ok(d: ValueView, p: Seq<ElementView>, x: ValueView) -> ValueView {
    match sset_path(d, p, x) {
        Ok(pr) => pr.0,
        Err(_) => d,
    }
}

/// The updated tree of a successful path removal, or the tree unchanged.
pub open spec fn remove_ok(d: ValueView, p: Seq<ElementView>) -> ValueView {
    match sremove_path(d, p) {
        Ok(pr) => pr.0,
        Err(_) => d,
    }
}

pub open spec fn metadata_path() -> Seq<ElementView> {
    seq![ElementView::Field("metadata"@)]
}

pub open spec fn labels_path() -> Seq<ElementView> {
    seq![ElementView::Field("metadata"@), ElementView::Field("labels"@)]
}

pub open spec fn namespace_path() -> Seq<ElementView> {
    seq![ElementView::Field("metadata"@), ElementView::Field("namespace"@)]
}

/// A document whose `metadata.labels`, if present, is an object; only such
/// documents can have the deployment label merged in.
pub open spec fn labels_ok(d: ValueView) -> bool {
    spec_parse_object(d) is Some ==> match sget_path(d, labels_path()) {
        Ok(l) => l is Obj,
        Err(_) => true,
    }
}

/// What preparing one document does: check its identity, merge the
/// deployment label into `metadata.labels` (creating the map if absent),
/// require the kind to be known, and default the namespace of a namespaced
/// object that has none. Yields the final tree and the object identity of
/// the prepared document, or the error. The label edit persists even when
/// the kind then turns out unknown.
pub open spec fn prepare_spec(
    d: ValueView,
    ns: Seq<char>,
    lkey: Seq<char>,
    lval: Seq<char>,
    types: Map<(Seq<char>, Seq<char>), ObjectDataView>,
) -> (ValueView, Result<ParsedObject, ApplyErrorView>) {
    match spec_parse_object(d) {
        None => (d, Err(ApplyErrorView::ObjectParseFailed)),
        Some(po) => {
            let labels0 = match sget_path(d, labels_path()) {
                Ok(l) => l,
                Err(_) => ValueView::Obj(Seq::empty()),
            };
            let labels1 = match sset(labels0, ElementView::Field(lkey), ValueView::Str(lval)) {
                Ok(pr) => pr.0,
                Err(_) => labels0,
            };
            let d1 = set_ok(d, labels_path(), labels1);
            let key = (norm_group(po.api_version, po.kind), po.kind);
            if !types.contains_key(key) {
                (d1, Err(ApplyErrorView::UnknownObjectKind(key)))
            } else if types[key].namespaced && !(sget_path(d1, namespace_path()) is Ok) {
                let d2 = set_ok(d1, namespace_path(), ValueView::Str(ns));
                (
                    d2,
                    Ok(
                        ParsedObject {
                            api_version: po.api_version,
                            kind: po.kind,
                            name: po.name,
                            namespace: Some(ns),
                        },
                    ),
                )
            } else {
                (d1, Ok(po))
            }
        },
    }
}

/// A two-step field path into an object member that is itself an object can
/// always be set.
proof fn lemma_set_two_ok(d: ValueView, f1: Seq<char>, f2: Seq<char>, x: ValueView)
    requires
        field_of(d, f1) matches Some(m) && m is Obj,
    ensures
        sset_path(d, seq![ElementView::Field(f1), ElementView::Field(f2)], x) is Ok,
{
    let p = seq![ElementView::Field(f1), ElementView::Field(f2)];
    assert(p[0] == ElementView::Field(f1));
    assert(p[1] == ElementView::Field(f2));
    match d {
        ValueView::Obj(fields) => {
            match obj_find(fields, f1) {
                Some(j) => {
                    crate::ext::lemma_obj_find(fields, f1);
                    assert(crate::ext::snav(d, p[0]) == Ok::<int, crate::error::BaseError>(j));
                    let m = fields[j].1;
                    assert(crate::ext::child_at(d, j) == m);
                    assert(sset(m, p[1], x) is Ok);
                    assert(sset_path_from(m, p, 1, x) is Ok);
                    assert(sset_path_from(d, p, 0, x) is Ok);
                },
                None => {
                    assert(false);
                },
            }
        },
        _ => {
            assert(false);
        },
    }
}

/// Setting such a two-step path keeps the first member an object.
proof fn lemma_set_two_shape(d: ValueView, f1: Seq<char>, f2: Seq<char>, x: ValueView)
    requires
        field_of(d, f1) matches Some(m) && m is Obj,
    ensures
        ({
            let d1 = set_ok(d, seq![ElementView::Field(f1), ElementView::Field(f2)], x);
            field_of(d1, f1) matches Some(m2) && m2 is Obj
        }),
{
    lemma_set_two_ok(d, f1, f2, x);
    let p = seq![ElementView::Field(f1), ElementView::Field(f2)];
    assert(p[0] == ElementView::Field(f1));
    assert(p[1] == ElementView::Field(f2));
    match d {
        ValueView::Obj(fields) => {
            match obj_find(fields, f1) {
                Some(j) => {
                    crate::ext::lemma_obj_find(fields, f1);
                    let m = fields[j].1;
                    match sset(m, p[1], x) {
                        Ok(pr) => {
                            let m2 = pr.0;
                            assert(m2 is Obj);
                            assert(sset_path_from(m, p, 1, x) == Ok::<
                                (ValueView, Option<ValueView>),
                                PathErrorView,
                            >(pr));
                            let f2s = fields.update(j, (fields[j].0, m2));
                            assert(set_ok(d, p, x) == ValueView::Obj(f2s));
                            assert(forall|k: int| 0 <= k < fields.len() ==> f2s[k].0 == fields[k].0);
                            crate::ext::lemma_obj_find_same_keys(fields, f2s, f1);
                            assert(field_of(ValueView::Obj(f2s), f1) == Some(m2));
                        },
                        Err(_) => {
                            assert(false);
                        },
                    }
                },
                None => {
                    assert(false);
                },
            }
        },
        _ => {
            assert(false);
        },
    }
}

/// Prepare one manifest document for apply, as `prepare_spec` describes.
pub fn prepare_document(
    item: &mut Value,
    namespace: &str,
    label_key: &str,
    label_value: &str,
    types: &RuntimeTypeData,
) -> (r: Result<Object, ApplyError>)
    requires
        labels_ok(old(item).deep()),
    ensures
        ({
            let sp = prepare_spec(old(item).deep(), namespace@, label_key@, label_value@, types@);
            final(item).deep() == sp.0 && match r {
                Ok(o) => sp.1 is Ok && object_matches(o, sp.1->Ok_0),
                Err(e) => sp.1 is Err && e@ == sp.1->Err_0,
            }
        }),
{
    let obj = match parse_object(item) {
        Ok(o) => o,
        Err(e) => {
            return Err(e);
        },
    };
    let lpath: Vec<Element> = vec![
        Element::StaticField("metadata"),
        Element::StaticField("labels"),
    ];
    proof {
        assert(pview(lpath@) =~= labels_path());
    }
    let mut labels = match item.get_path(lpath.as_slice()) {
        Ok(v) => clone_value(v),
        Err(_) => Value::Obj(Vec::new()),
    };
    let ghost lab0 = labels.deep();
    proof {
        assert(lab0 is Obj);
    }
    match labels.set_comp(&Element::Field(label_key.to_owned()), Value::Str(
        label_value.to_owned(),
    )) {
        Ok(_) => {},
        Err(_) => {
            proof {
                assert(sset(lab0, ElementView::Field(label_key@), ValueView::Str(label_value@))
                    is Ok);
                assert(false);
            }
            return Err(ApplyError::ObjectParseFailed);
        },
    }
    match item.set_path(lpath.as_slice(), labels) {
        Ok(_) => {},
        Err(_) => {
            proof {
                lemma_set_two_ok(old(item).deep(), "metadata"@, "labels"@, labels.deep());
                assert(false);
            }
            return Err(ApplyError::ObjectParseFailed);
        },
    }
    let data = match types.get(&obj.kind) {
        Some(d) => d,
        None => {
            return Err(ApplyError::UnknownObjectKind(obj.kind));
        },
    };
    let npath: Vec<Element> = vec![
        Element::StaticField("metadata"),
        Element::StaticField("namespace"),
    ];
    proof {
        assert(pview(npath@) =~= namespace_path());
    }
    if data.namespaced && !item.has_path(npath.as_slice()) {
        match item.set_path(npath.as_slice(), Value::Str(namespace.to_owned())) {
            Ok(_) => {},
            Err(_) => {
                proof {
                    lemma_set_two_shape(old(item).deep(), "metadata"@, "labels"@, labels.deep());
                    lemma_set_two_ok(
                        item.deep(),
                        "metadata"@,
                        "namespace"@,
                        ValueView::Str(namespace@),
                    );
                    assert(false);
                }
                return Err(ApplyError::ObjectParseFailed);
            },
        }
        Ok(
            Object {
                kind: obj.kind,
                metadata: ObjectLocation {
                    name: obj.metadata.name,
                    namespace: Some(namespace.to_owned()),
                },
            },
        )
    } else {
        Ok(obj)
    }
}

/// Strip the volatile, server-managed fields from a read-back object before
/// it is compared for diagnostics: managed fields, links, identifiers,
/// timestamps, the last-applied-configuration annotation, and status.
pub open spec fn strip_spec(d: ValueView) -> ValueView {
    let m = "metadata"@;
    let d1 = remove_ok(d, seq![ElementView::Field(m), ElementView::Field("managedFields"@)]);
    let d2 = remove_ok(d1, seq![ElementView::Field(m), ElementView::Field("selfLink"@)]);
    let d3 = remove_ok(d2, seq![ElementView::Field(m), ElementView::Field("uid"@)]);
    let d4 = remove_ok(d3, seq![ElementView::Field(m), ElementView::Field("resourceVersion"@)]);
    let d5 = remove_ok(d4, seq![ElementView::Field(m), ElementView::Field("generation"@)]);
    let d6 = remove_ok(d5, seq![ElementView::Field(m), ElementView::Field("creationTimestamp"@)]);
    let d7 = remove_ok(
        d6,
        seq![
            ElementView::Field(m),
            ElementView::Field("annotations"@),
            ElementView::Field("kubectl.kubernetes.io/last-applied-configuration"@),
        ],
    );
    remove_ok(d7, seq![ElementView::Field("status"@)])
}

fn strip_one(v: &mut Value, path: Vec<Element>)
    requires
        path@.len() > 0,
    ensures
        final(v).deep() == remove_ok(old(v).deep(), pview(path@)),
{
    let _ = v.remove_path(path.as_slice());
}

/// Strip the volatile fields, as `strip_spec` describes.
pub fn strip_volatile(v: &mut Value)
    ensures
        final(v).deep() == strip_spec(old(v).deep()),
{
    let p1: Vec<Element> = vec![
        Element::StaticField("metadata"),
        Element::StaticField("managedFields"),
    ];
    proof {
        assert(pview(p1@) =~= seq![ElementView::Field("metadata"@), ElementView::Field("managedFields"@)]);
    }
    strip_one(v, p1);
    let p2: Vec<Element> = vec![
        Element::StaticField("metadata"),
        Element::StaticField("selfLink"),
    ];
    proof {
        assert(pview(p2@) =~= seq![ElementView::Field("metadata"@), ElementView::Field("selfLink"@)]);
    }
    strip_one(v, p2);
    let p3: Vec<Element> = vec![Element::StaticField("metadata"), Element::StaticField("uid")];
    proof {
        assert(pview(p3@) =~= seq![ElementView::Field("metadata"@), ElementView::Field("uid"@)]);
    }
    strip_one(v, p3);
    let p4: Vec<Element> = vec![
        Element::StaticField("metadata"),
        Element::StaticField("resourceVersion"),
    ];
    proof {
        assert(pview(p4@) =~= seq![ElementView::Field("metadata"@), ElementView::Field("resourceVersion"@)]);
    }
    strip_one(v, p4);
    let p5: Vec<Element> = vec![
        Element::StaticField("metadata"),
        Element::StaticField("generation"),
    ];
    proof {
        assert(pview(p5@) =~= seq![ElementView::Field("metadata"@), ElementView::Field("generation"@)]);
    }
    strip_one(v, p5);
    let p6: Vec<Element> = vec![
        Element::StaticField("metadata"),
        Element::StaticField("creationTimestamp"),
    ];
    proof {
        assert(pview(p6@) =~= seq![ElementView::Field("metadata"@), ElementView::Field("creationTimestamp"@)]);
    }
    strip_one(v, p6);
    let p7: Vec<Element> = vec![
        Element::StaticField("metadata"),
        Element::StaticField("annotations"),
        Element::StaticField("kubectl.kubernetes.io/last-applied-configuration"),
    ];
    proof {
        assert(pview(p7@) =~= seq![ElementView::Field("metadata"@), ElementView::Field("annotations"@), ElementView::Field("kubectl.kubernetes.io/last-applied-configuration"@)]);
    }
    strip_one(v, p7);
    let p8: Vec<Element> = vec![Element::StaticField("status")];
    proof {
        assert(pview(p8@) =~= seq![ElementView::Field("status"@)]);
    }
    strip_one(v, p8);
}

} // verus!

verus! {

// ------------------------------------------------------------------
// The conflict-resolution pass.
// ------------------------------------------------------------------

/// Ghost view of a flattened (manager, path) conflict list.
pub open spec fn pairs_view(s: Seq<(String, PathBuf)>) -> Seq<(Seq<char>, Seq<ElementView>)> {
    s.map_values(|p: (String, PathBuf)| (p.0@, pview(p.1.0@)))
}

pub open spec fn strats_view(s: Seq<ResolutionStrategy>) -> Seq<StrategyView> {
    s.map_values(|st: ResolutionStrategy| st@)
}

pub open spec fn one_conflict_pairs(c: crate::conflict::ConflictView) -> Seq<
    (Seq<char>, Seq<ElementView>),
> {
    c.paths.map_values(|p: Seq<ElementView>| (c.manager, p))
}

/// All (manager, path) pairs of a conflict list, in message order.
pub open spec fn pairs_of(cs: Seq<crate::conflict::ConflictView>) -> Seq<
    (Seq<char>, Seq<ElementView>),
>
    decreases cs.len(),
{
    if cs.len() == 0 {
        Seq::empty()
    } else {
        pairs_of(cs.drop_last()) + one_conflict_pairs(cs.last())
    }
}

/// Flatten parsed conflicts into (manager, path) pairs, in message order.
#[verifier::loop_isolation(false)]
pub fn conflict_pairs(conflicts: &Vec<crate::conflict::Conflict>) -> (r: Vec<(String, PathBuf)>)
    ensures
        pairs_view(r@) == pairs_of(crate::conflict::conflicts_view(conflicts@)),
{
    let ghost cv = crate::conflict::conflicts_view(conflicts@);
    let mut out: Vec<(String, PathBuf)> = Vec::new();
    let mut i: usize = 0;
    while i < conflicts.len()
        invariant
            0 <= i <= conflicts@.len(),
            pairs_view(out@) == pairs_of(cv.take(i as int)),
        decreases conflicts@.len() - i,
    {
        let c = &conflicts[i];
        let mut j: usize = 0;
        while j < c.1.len()
            invariant
                0 <= j <= c.1@.len(),
                c == &conflicts@[i as int],
                0 <= i < conflicts@.len(),
                pairs_view(out@) == pairs_of(cv.take(i as int)) + one_conflict_pairs(
                    cv[i as int],
                ).take(j as int),
            decreases c.1@.len() - j,
        {
            let ghost out0 = out@;
            out.push((c.0.clone(), c.1[j].clone_path()));
            proof {
                assert(cv[i as int] == conflicts@[i as int]@);
                assert(one_conflict_pairs(cv[i as int])[j as int] == (
                    c.0@,
                    pview(c.1@[j as int].0@),
                ));
                assert(pairs_view(out@) =~= pairs_view(out0).push(
                    (c.0@, pview(c.1@[j as int].0@)),
                ));
                assert(one_conflict_pairs(cv[i as int]).take(j + 1 as int) =~= one_conflict_pairs(
                    cv[i as int],
                ).take(j as int).push(one_conflict_pairs(cv[i as int])[j as int]));
                assert(pairs_view(out@) =~= pairs_of(cv.take(i as int)) + one_conflict_pairs(
                    cv[i as int],
                ).take(j + 1 as int));
            }
            j = j + 1;
        }
        proof {
            assert(cv.take(i + 1 as int).drop_last() =~= cv.take(i as int));
            assert(cv.take(i + 1 as int).last() == cv[i as int]);
            assert(one_conflict_pairs(cv[i as int]).take(c.1@.len() as int) =~= one_conflict_pairs(
                cv[i as int],
            ));
            assert(pairs_view(out@) =~= pairs_of(cv.take(i + 1 as int)));
        }
        i = i + 1;
    }
    proof {
        assert(cv.take(cv.len() as int) =~= cv);
    }
    out
}

/// Whether `a` is a (non-strict) prefix of `b`.
pub open spec fn is_path_prefix(a: Seq<ElementView>, b: Seq<ElementView>) -> bool {
    a.len() <= b.len() && b.take(a.len() as int) == a
}

fn path_is_prefix(a: &[Element], b: &[Element]) -> (r: bool)
    ensures
        r == is_path_prefix(pview(a@), pview(b@)),
{
    if a.len() > b.len() {
        return false;
    }
    let mut i: usize = 0;
    while i < a.len()
        invariant
            0 <= i <= a@.len() <= b@.len(),
            forall|k: int| 0 <= k < i ==> a@[k].deep() == b@[k].deep(),
        decreases a@.len() - i,
    {
        if !crate::element::element_eq(&a[i], &b[i]) {
            proof {
                assert(pview(b@).take(pview(a@).len() as int)[i as int] == b@[i as int].deep());
            }
            return false;
        }
        i = i + 1;
    }
    proof {
        assert(pview(b@).take(pview(a@).len() as int) =~= pview(a@));
    }
    true
}

/// Whether this path, or an ancestor of it, was already removed.
pub open spec fn skip_removed(removed: Seq<Seq<ElementView>>, path: Seq<ElementView>) -> bool {
    exists|k: int| 0 <= k < removed.len() && is_path_prefix(#[trigger] removed[k], path)
}

/// One pass of conflict resolution, in message order: a pair under an
/// already-removed path is skipped; `Ignore` removes the path from the
/// document (dropping a trailing synthesized `value` element the document
/// does not actually contain) and records it; `Force` keeps the field;
/// `Share` is reserved and fails; `Error` aborts with the resolver's reason.
/// Yields the document after the pass, stopped at the first failure.
pub open spec fn resolve_from(
    d: ValueView,
    pairs: Seq<(Seq<char>, Seq<ElementView>)>,
    strats: Seq<StrategyView>,
    i: int,
    removed: Seq<Seq<ElementView>>,
) -> (ValueView, Result<(), ApplyErrorView>)
    decreases pairs.len() - i,
{
    if i < 0 || i >= pairs.len() {
        (d, Ok(()))
    } else {
        let path = pairs[i].1;
        if skip_removed(removed, path) {
            resolve_from(d, pairs, strats, i + 1, removed)
        } else {
            match strats[i] {
                StrategyView::Ignore => {
                    let p2 = if path.len() > 1 && path.last() == ElementView::Field("value"@) && !(
                    sget_path(d, path) is Ok) {
                        path.drop_last()
                    } else {
                        path
                    };
                    match sremove_path(d, p2) {
                        Ok(pr) => resolve_from(pr.0, pairs, strats, i + 1, removed.push(p2)),
                        Err(e) => (d, Err(ApplyErrorView::Path(e))),
                    }
                },
                StrategyView::Share => (
                    d,
                    Err(
                        ApplyErrorView::ConflictResolverError(
                            "share resolution is not supported"@,
                        ),
                    ),
                ),
                StrategyView::Force => resolve_from(d, pairs, strats, i + 1, removed),
                StrategyView::Error(msg) => (d, Err(ApplyErrorView::ConflictResolverError(msg))),
            }
        }
    }
}

fn is_value_field(e: &Element) -> (r: bool)
    ensures
        r == (e.deep() == ElementView::Field("value"@)),
{
    match e {
        Element::Field(s) => str_eq(s.as_str(), "value"),
        Element::StaticField(s) => str_eq(s, "value"),
        _ => false,
    }
}

fn in_removed(removed: &Vec<PathBuf>, path: &[Element]) -> (r: bool)
    ensures
        r == skip_removed(crate::conflict::paths_view(removed@), pview(path@)),
{
    let ghost rv = crate::conflict::paths_view(removed@);
    let mut k: usize = 0;
    while k < removed.len()
        invariant
            0 <= k <= removed@.len(),
            rv == crate::conflict::paths_view(removed@),
            forall|t: int| 0 <= t < k ==> !is_path_prefix(rv[t], pview(path@)),
        decreases removed@.len() - k,
    {
        if path_is_prefix(removed[k].as_slice(), path) {
            proof {
                assert(is_path_prefix(rv[k as int], pview(path@)));
            }
            return true;
        }
        k = k + 1;
    }
    proof {
        if skip_removed(rv, pview(path@)) {
            let t = choose|t: int| 0 <= t < rv.len() && is_path_prefix(rv[t], pview(path@));
            assert(false);
        }
    }
    false
}

/// Run one conflict-resolution pass over the document, as `resolve_from`
/// describes, with the flattened pairs and the strategy the resolver chose
/// for each.
#[verifier::loop_isolation(false)]
pub fn resolve_conflicts(
    target: &mut Value,
    pairs: &Vec<(String, PathBuf)>,
    strategies: &Vec<ResolutionStrategy>,
) -> (r: Result<(), ApplyError>)
    requires
        strategies@.len() == pairs@.len(),
        forall|k: int| 0 <= k < pairs@.len() ==> (#[trigger] pairs@[k].1)@.len() > 0,
    ensures
        ({
            let f = resolve_from(
                old(target).deep(),
                pairs_view(pairs@),
                strats_view(strategies@),
                0,
                Seq::empty(),
            );
            final(target).deep() == f.0 && match r {
                Ok(_) => f.1 is Ok,
                Err(e) => f.1 is Err && e@ == f.1->Err_0,
            }
        }),
{
    let ghost pv = pairs_view(pairs@);
    let ghost sv = strats_view(strategies@);
    let ghost d0 = target.deep();
    let mut removed: Vec<PathBuf> = Vec::new();
    proof {
        assert(crate::conflict::paths_view(removed@) =~= Seq::<Seq<ElementView>>::empty());
    }
    let mut i: usize = 0;
    while i < pairs.len()
        invariant
            0 <= i <= pairs@.len(),
            resolve_from(d0, pv, sv, 0, Seq::empty()) == resolve_from(
                target.deep(),
                pv,
                sv,
                i as int,
                crate::conflict::paths_view(removed@),
            ),
        decreases pairs@.len() - i,
    {
        let path = pairs[i].1.as_slice();
        proof {
            assert(pv[i as int].1 == pview(path@));
            assert(sv[i as int] == strategies@[i as int]@);
        }
        if in_removed(&removed, path) {
            i = i + 1;
            continue ;
        }
        match &strategies[i] {
            ResolutionStrategy::Ignore => {
                let n = path.len();
                let use_short = n > 1 && is_value_field(&path[n - 1]) && !target.has_path(path);
                let p2 = if use_short {
                    crate::ext::clone_prefix(path, n - 1)
                } else {
                    crate::ext::clone_prefix(path, n)
                };
                proof {
                    if use_short {
                        assert(pview(path@).take(n - 1 as int) =~= pview(path@).drop_last());
                        assert(pview(path@).last() == path@[n - 1].deep());
                    } else {
                        assert(pview(path@).take(n as int) =~= pview(path@));
                    }
                }
                match target.remove_path(p2.as_slice()) {
                    Ok(_) => {
                        let ghost removed0 = crate::conflict::paths_view(removed@);
                        let ghost p2v = pview(p2.0@);
                        removed.push(p2);
                        proof {
                            assert(crate::conflict::paths_view(removed@) =~= removed0.push(p2v));
                        }
                    },
                    Err(e) => {
                        return Err(ApplyError::Path(e));
                    },
                }
            },
            ResolutionStrategy::Share => {
                return Err(
                    ApplyError::ConflictResolverError(
                        String::from_str("share resolution is not supported"),
                    ),
                );
            },
            ResolutionStrategy::Force => {},
            ResolutionStrategy::Error(msg) => {
                return Err(ApplyError::ConflictResolverError(msg.clone()));
            },
        }
        i = i + 1;
    }
    Ok(())
}

// ------------------------------------------------------------------
// Prune.
// ------------------------------------------------------------------

/// Kinds never pruned directly: controller-derived mirrors of services.
pub open spec fn prune_exempt(o: Object) -> bool {
    (o.kind.api_version@ == "v1"@ && o.kind.kind@ == "Endpoints"@) || (o.kind.api_version@
        == "discovery.k8s.io/v1beta1"@ && o.kind.kind@ == "EndpointSlice"@)
}

/// The orphans to delete: every live labeled object, in order, that was not
/// just created and whose kind is not exempt.
pub open spec fn orphans_spec(live: Seq<Object>, created: Set<crate::kinds::ObjectKey>) -> Seq<
    Object,
>
    decreases live.len(),
{
    if live.len() == 0 {
        Seq::empty()
    } else {
        orphans_spec(live.drop_last(), created) + (if !created.contains(live.last().key())
            && !prune_exempt(live.last()) {
            seq![live.last()]
        } else {
            Seq::empty()
        })
    }
}

fn prune_exempt_exec(o: &Object) -> (r: bool)
    ensures
        r == prune_exempt(*o),
{
    (str_eq(o.kind.api_version.as_str(), "v1") && str_eq(o.kind.kind.as_str(), "Endpoints")) || (
    str_eq(o.kind.api_version.as_str(), "discovery.k8s.io/v1beta1") && str_eq(
        o.kind.kind.as_str(),
        "EndpointSlice",
    ))
}

/// Compute the orphans to prune, as `orphans_spec` describes: the live
/// labeled objects minus the created set, with the exempt kinds skipped.
#[verifier::loop_isolation(false)]
pub fn prune_orphans(live: &ObjectSet, created: &ObjectSet) -> (r: Vec<Object>)
    ensures
        r@ == orphans_spec(live.items@, created@),
{
    let mut out: Vec<Object> = Vec::new();
    let mut i: usize = 0;
    while i < live.len()
        invariant
            0 <= i <= live.items@.len(),
            out@ == orphans_spec(live.items@.take(i as int), created@),
        decreases live.items@.len() - i,
    {
        let item = live.get(i);
        if !created.contains(item) && !prune_exempt_exec(item) {
            out.push(crate::kinds::clone_object(item));
        }
        proof {
            assert(live.items@.take(i + 1 as int).drop_last() =~= live.items@.take(i as int));
            assert(live.items@.take(i + 1 as int).last() == live.items@[i as int]);
            assert(out@ =~= orphans_spec(live.items@.take(i + 1 as int), created@));
        }
        i = i + 1;
    }
    proof {
        assert(live.items@.take(live.items@.len() as int) =~= live.items@);
    }
    out
}

} // verus!
