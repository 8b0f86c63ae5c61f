//! The API type catalog: turning discovery responses — core versions and API
//! groups with their resource lists — into the kind catalog, and the pure
//! parts of the labeled-object search. The surrounding program performs the
//! discovery requests and hands the plain lists here.

use vstd::prelude::*;
use vstd::string::StringExecFns;
use crate::kinds::{
    norm_group, scan_slash, Object, ObjectDataView, ObjectKind, ObjectData, ObjectListItem,
    ObjectLocation, ObjectSet, RuntimeTypeData, okeys, opt_str_view,
};
use crate::strutil::str_eq;

verus! {

/// One resource of a discovery response: its collection name, its kind, and
/// whether it is namespaced.
#[derive(Debug)]
pub struct ApiResource {
    pub name: String,
    pub kind: String,
    pub namespaced: bool,
}

/// Ghost model of an `ApiResource`.
pub struct ApiResourceView {
    pub name: Seq<char>,
    pub kind: Seq<char>,
    pub namespaced: bool,
}

impl View for ApiResource {
    type V = ApiResourceView;

    open spec fn view(&self) -> ApiResourceView {
        ApiResourceView { name: self.name@, kind: self.kind@, namespaced: self.namespaced }
    }
}

/// One API group of a discovery response: its name, its versions as
/// `group/version` strings, and the preferred one, if the server names it.
#[derive(Debug)]
pub struct ApiGroupInfo {
    pub name: String,
    pub versions: Vec<String>,
    pub preferred: Option<String>,
}

/// A resource whose collection name holds `/` is a subresource and is not
/// catalogued.
pub open spec fn is_subresource(name: Seq<char>) -> bool {
    scan_slash(name, 0) < name.len()
}

pub fn is_subresource_exec(name: &str) -> (r: bool)
    ensures
        r == is_subresource(name@),
{
    let chars = crate::strutil::str_to_chars(name);
    let mut i: usize = 0;
    while i < chars.len() && chars[i] != '/'
        invariant
            0 <= i <= chars@.len(),
            chars@ == name@,
            scan_slash(name@, 0) == scan_slash(name@, i as int),
        decreases chars@.len() - i,
    {
        i = i + 1;
    }
    i < chars.len()
}

/// What recording one version's resources does to the catalog: each
/// non-subresource is inserted under its normalized kind, last write wins.
pub open spec fn add_resources(
    m: Map<(Seq<char>, Seq<char>), ObjectDataView>,
    version: Seq<char>,
    rs: Seq<ApiResourceView>,
    is_core: bool,
) -> Map<(Seq<char>, Seq<char>), ObjectDataView>
    decreases rs.len(),
{
    if rs.len() == 0 {
        m
    } else {
        let m2 = add_resources(m, version, rs.drop_last(), is_core);
        let r = rs.last();
        if is_subresource(r.name) {
            m2
        } else {
            m2.insert(
                (norm_group(version, r.kind), r.kind),
                ObjectDataView { namespaced: r.namespaced, is_core, plural: r.name },
            )
        }
    }
}

pub open spec fn resources_view(rs: Seq<ApiResource>) -> Seq<ApiResourceView> {
    rs.map_values(|r: ApiResource| r@)
}

pub open spec fn lists_view(ls: Seq<(String, Vec<ApiResource>)>) -> Seq<
    (Seq<char>, Seq<ApiResourceView>),
> {
    ls.map_values(|l: (String, Vec<ApiResource>)| (l.0@, resources_view(l.1@)))
}

/// Folding `add_resources` over a list of (version, resources) pairs.
pub open spec fn add_lists(
    m: Map<(Seq<char>, Seq<char>), ObjectDataView>,
    ls: Seq<(Seq<char>, Seq<ApiResourceView>)>,
    is_core: bool,
) -> Map<(Seq<char>, Seq<char>), ObjectDataView>
    decreases ls.len(),
{
    if ls.len() == 0 {
        m
    } else {
        add_resources(add_lists(m, ls.drop_last(), is_core), ls.last().0, ls.last().1, is_core)
    }
}

/// The catalog built from discovery: first the legacy core versions, then
/// every group's versions.
pub open spec fn catalog_spec(
    core: Seq<(Seq<char>, Seq<ApiResourceView>)>,
    groups: Seq<(Seq<char>, Seq<ApiResourceView>)>,
) -> Map<(Seq<char>, Seq<char>), ObjectDataView> {
    add_lists(add_lists(Map::empty(), core, true), groups, false)
}

#[verifier::loop_isolation(false)]
fn record_resources(out: &mut RuntimeTypeData, version: &String, rs: &Vec<ApiResource>, is_core:
    bool)
    ensures
        final(out)@ == add_resources(old(out)@, version@, resources_view(rs@), is_core),
{
    let ghost rv = resources_view(rs@);
    let mut j: usize = 0;
    while j < rs.len()
        invariant
            0 <= j <= rs@.len(),
            out@ == add_resources(old(out)@, version@, rv.take(j as int), is_core),
        decreases rs@.len() - j,
    {
        let r = &rs[j];
        proof {
            assert(rv.take(j + 1 as int).drop_last() =~= rv.take(j as int));
            assert(rv.take(j + 1 as int).last() == rv[j as int]);
        }
        if !is_subresource_exec(r.name.as_str()) {
            out.insert(
                ObjectKind { api_version: version.clone(), kind: r.kind.clone() },
                ObjectData { namespaced: r.namespaced, is_core, plural: r.name.clone() },
            );
        }
        j = j + 1;
    }
    proof {
        assert(rv.take(rv.len() as int) =~= rv);
    }
}

#[verifier::loop_isolation(false)]
fn record_lists(out: &mut RuntimeTypeData, ls: &Vec<(String, Vec<ApiResource>)>, is_core: bool)
    ensures
        final(out)@ == add_lists(old(out)@, lists_view(ls@), is_core),
{
    let ghost lv = lists_view(ls@);
    let mut i: usize = 0;
    while i < ls.len()
        invariant
            0 <= i <= ls@.len(),
            out@ == add_lists(old(out)@, lv.take(i as int), is_core),
        decreases ls@.len() - i,
    {
        proof {
            assert(lv.take(i + 1 as int).drop_last() =~= lv.take(i as int));
            assert(lv.take(i + 1 as int).last() == lv[i as int]);
        }
        let pair = &ls[i];
        record_resources(out, &pair.0, &pair.1, is_core);
        i = i + 1;
    }
    proof {
        assert(lv.take(lv.len() as int) =~= lv);
    }
}

/// Build the kind catalog from discovery responses: the core API versions'
/// resource lists, then each group-version's, as `catalog_spec` describes.
pub fn list_apis(
    core: &Vec<(String, Vec<ApiResource>)>,
    groups: &Vec<(String, Vec<ApiResource>)>,
) -> (r: RuntimeTypeData)
    ensures
        r@ == catalog_spec(lists_view(core@), lists_view(groups@)),
{
    let mut out = RuntimeTypeData::new();
    record_lists(&mut out, core, true);
    record_lists(&mut out, groups, false);
    out
}

/// The group version used to list a group's resources: the preferred one,
/// or the last listed when no preference is set.
pub fn preferred_group_version(g: &ApiGroupInfo) -> (r: &String)
    requires
        g.preferred is Some || g.versions@.len() > 0,
    ensures
        match g.preferred {
            Some(p) => r@ == p@,
            None => r@ == g.versions@[g.versions@.len() - 1]@,
        },
{
    match &g.preferred {
        Some(p) => p,
        None => &g.versions[g.versions.len() - 1],
    }
}

/// A forbidden core list response that is expected noise: the `bindings`
/// collection of `v1` always rejects list requests.
pub fn suppress_core_warning(version: &str, resource_name: &str) -> (r: bool)
    ensures
        r == (version@ == "v1"@ && resource_name@ == "bindings"@),
{
    str_eq(version, "v1") && str_eq(resource_name, "bindings")
}

/// A forbidden group list response that is expected noise: the token- and
/// access-review groups always reject list requests.
pub fn suppress_group_warning(group_name: &str) -> (r: bool)
    ensures
        r == (group_name@ == "authentication.k8s.io"@ || group_name@ == "authorization.k8s.io"@),
{
    str_eq(group_name, "authentication.k8s.io") || str_eq(group_name, "authorization.k8s.io")
}

/// The URL listing a core resource collection filtered by label.
pub fn core_list_url(version: &str, resource: &str, selector: &str) -> (r: String)
    ensures
        r@ == "/api/"@ + version@ + "/"@ + resource@ + "?labelSelector="@ + selector@,
{
    let mut out = String::new();
    out.append("/api/");
    out.append(version);
    out.append("/");
    out.append(resource);
    out.append("?labelSelector=");
    out.append(selector);
    out
}

/// The URL listing a grouped resource collection filtered by label.
pub fn group_list_url(group_version: &str, resource: &str, selector: &str) -> (r: String)
    ensures
        r@ == "/apis/"@ + group_version@ + "/"@ + resource@ + "?labelSelector="@ + selector@,
{
    let mut out = String::new();
    out.append("/apis/");
    out.append(group_version);
    out.append("/");
    out.append(resource);
    out.append("?labelSelector=");
    out.append(selector);
    out
}

/// What collecting one list response does to the found set: every returned
/// item is added under the response's kind.
pub open spec fn add_items(
    s: Set<crate::kinds::ObjectKey>,
    av: Seq<char>,
    kind: Seq<char>,
    items: Seq<(Seq<char>, Option<Seq<char>>)>,
) -> Set<crate::kinds::ObjectKey>
    decreases items.len(),
{
    if items.len() == 0 {
        s
    } else {
        add_items(s, av, kind, items.drop_last()).insert(
            crate::kinds::ObjectKey {
                group: norm_group(av, kind),
                kind: kind,
                name: items.last().0,
                namespace: items.last().1,
            },
        )
    }
}

pub open spec fn items_view(items: Seq<ObjectListItem>) -> Seq<(Seq<char>, Option<Seq<char>>)> {
    items.map_values(
        |it: ObjectListItem| (it.metadata.name@, opt_str_view(it.metadata.namespace)),
    )
}

/// Record one labeled-list response into the found set, as `add_items`
/// describes.
#[verifier::loop_isolation(false)]
pub fn collect_labeled_items(
    out: &mut ObjectSet,
    api_version: &str,
    kind: &str,
    items: &Vec<ObjectListItem>,
)
    ensures
        final(out)@ == add_items(old(out)@, api_version@, kind@, items_view(items@)),
{
    let ghost iv = items_view(items@);
    let mut i: usize = 0;
    while i < items.len()
        invariant
            0 <= i <= items@.len(),
            out@ == add_items(old(out)@, api_version@, kind@, iv.take(i as int)),
        decreases items@.len() - i,
    {
        proof {
            assert(iv.take(i + 1 as int).drop_last() =~= iv.take(i as int));
            assert(iv.take(i + 1 as int).last() == iv[i as int]);
        }
        let it = &items[i];
        let o = Object {
            kind: ObjectKind { api_version: api_version.to_owned(), kind: kind.to_owned() },
            metadata: ObjectLocation {
                name: it.metadata.name.clone(),
                namespace: match &it.metadata.namespace {
                    Some(ns) => Some(ns.clone()),
                    None => None,
                },
            },
        };
        out.insert(o);
        i = i + 1;
    }
    proof {
        assert(iv.take(iv.len() as int) =~= iv);
    }
}

} // verus!
