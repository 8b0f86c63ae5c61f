//! Cluster object identities: kinds with API-group-normalizing equality,
//! locations, discovery metadata, and the collections keyed by them.

use vstd::prelude::*;
use crate::strutil::str_eq;
use vstd::string::StrSliceExecFns;

verus! {

/// First position at or after `i` holding `/` (or the end).
pub open spec fn scan_slash(s: Seq<char>, i: int) -> int
    decreases s.len() - i,
{
    if 0 <= i < s.len() && s[i] != '/' {
        scan_slash(s, i + 1)
    } else {
        i
    }
}

/// The API group of an `apiVersion` string: everything before the first `/`,
/// or the whole string if there is none.
pub open spec fn group_of(av: Seq<char>) -> Seq<char> {
    av.take(scan_slash(av, 0))
}

/// The group used for identity: `extensions` with kind `Ingress` is
/// normalized to `networking.k8s.io`, tracking the group's migration.
pub open spec fn norm_group(av: Seq<char>, kind: Seq<char>) -> Seq<char> {
    if group_of(av) == "extensions"@ && kind == "Ingress"@ {
        "networking.k8s.io"@
    } else {
        group_of(av)
    }
}

/// The runtime type of a cluster object.
#[derive(Debug)]
pub struct ObjectKind {
    pub api_version: String,
    pub kind: String,
}

impl ObjectKind {
    /// The identity two kinds are compared by.
    pub open spec fn norm(self) -> (Seq<char>, Seq<char>) {
        (norm_group(self.api_version@, self.kind@), self.kind@)
    }

    /// The version-stripped, normalized API group of this kind.
    pub fn versionless_version(&self) -> (r: &str)
        ensures
            r@ == norm_group(self.api_version@, self.kind@),
    {
        let av = self.api_version.as_str();
        let chars = crate::strutil::str_to_chars(av);
        let mut i: usize = 0;
        while i < chars.len() && chars[i] != '/'
            invariant
                0 <= i <= chars@.len(),
                chars@ == av@,
                scan_slash(av@, 0) == scan_slash(av@, i as int),
            decreases chars@.len() - i,
        {
            i = i + 1;
        }
        let group = av.substring_char(0, i);
        if str_eq(group, "extensions") && str_eq(self.kind.as_str(), "Ingress") {
            "networking.k8s.io"
        } else {
            group
        }
    }
}

impl PartialEq for ObjectKind {
    /// Two kinds are equal iff their normalized group and their kind match.
    fn eq(&self, other: &Self) -> (r: bool) {
        str_eq(self.versionless_version(), other.versionless_version()) && str_eq(
            self.kind.as_str(),
            other.kind.as_str(),
        )
    }
}

impl vstd::std_specs::cmp::PartialEqSpecImpl for ObjectKind {
    open spec fn obeys_eq_spec() -> bool {
        true
    }

    open spec fn eq_spec(&self, other: &Self) -> bool {
        self.norm() == other.norm()
    }
}

/// An object's name and optional namespace.
#[derive(Debug)]
pub struct ObjectLocation {
    pub name: String,
    pub namespace: Option<String>,
}

/// The unique identity of a cluster object.
#[derive(Debug)]
pub struct Object {
    pub kind: ObjectKind,
    pub metadata: ObjectLocation,
}

/// One item of a listed resource collection.
#[derive(Debug)]
pub struct ObjectListItem {
    pub metadata: ObjectLocation,
}

/// Discovery metadata for one kind.
#[derive(Debug)]
pub struct ObjectData {
    pub namespaced: bool,
    pub is_core: bool,
    pub plural: String,
}

/// Ghost model of `ObjectData`.
pub struct ObjectDataView {
    pub namespaced: bool,
    pub is_core: bool,
    pub plural: Seq<char>,
}

impl View for ObjectData {
    type V = ObjectDataView;

    open spec fn view(&self) -> ObjectDataView {
        ObjectDataView {
            namespaced: self.namespaced,
            is_core: self.is_core,
            plural: self.plural@,
        }
    }
}

pub open spec fn opt_str_view(o: Option<String>) -> Option<Seq<char>> {
    match o {
        Some(s) => Some(s@),
        None => None,
    }
}

/// The identity an object is compared and collected by: the normalized kind
/// plus its location.
pub struct ObjectKey {
    pub group: Seq<char>,
    pub kind: Seq<char>,
    pub name: Seq<char>,
    pub namespace: Option<Seq<char>>,
}

impl Object {
    pub open spec fn key(self) -> ObjectKey {
        ObjectKey {
            group: norm_group(self.kind.api_version@, self.kind.kind@),
            kind: self.kind.kind@,
            name: self.metadata.name@,
            namespace: opt_str_view(self.metadata.namespace),
        }
    }
}

/// Equality of optional strings by their characters.
pub fn opt_str_eq(a: &Option<String>, b: &Option<String>) -> (r: bool)
    ensures
        r == (opt_str_view(*a) == opt_str_view(*b)),
{
    match (a, b) {
        (Some(x), Some(y)) => *x == *y,
        (None, None) => true,
        _ => false,
    }
}

/// Equality of two objects by their identity key.
pub fn object_eq(a: &Object, b: &Object) -> (r: bool)
    ensures
        r == (a.key() == b.key()),
{
    let kinds = a.kind == b.kind;
    let names = a.metadata.name == b.metadata.name;
    let nss = opt_str_eq(&a.metadata.namespace, &b.metadata.namespace);
    kinds && names && nss
}

/// Deep copy of an object identity.
pub fn clone_object(o: &Object) -> (r: Object)
    ensures
        r == *o,
{
    Object {
        kind: ObjectKind {
            api_version: o.kind.api_version.clone(),
            kind: o.kind.kind.clone(),
        },
        metadata: ObjectLocation {
            name: o.metadata.name.clone(),
            namespace: match &o.metadata.namespace {
                Some(ns) => Some(ns.clone()),
                None => None,
            },
        },
    }
}

// ------------------------------------------------------------------
// The discovery catalog: kind -> data, last write wins.
// ------------------------------------------------------------------

/// The ghost catalog: a map from normalized kind identity to data.
pub open spec fn kmap(entries: Seq<(ObjectKind, ObjectData)>) -> Map<
    (Seq<char>, Seq<char>),
    ObjectDataView,
>
    decreases entries.len(),
{
    if entries.len() == 0 {
        Map::empty()
    } else {
        kmap(entries.drop_last()).insert(entries.last().0.norm(), entries.last().1@)
    }
}

/// The index of the last entry with the given identity, if any.
pub open spec fn last_entry(entries: Seq<(ObjectKind, ObjectData)>, key: (Seq<char>, Seq<char>))
    -> Option<int>
    decreases entries.len(),
{
    if entries.len() == 0 {
        None
    } else if entries.last().0.norm() == key {
        Some(entries.len() - 1)
    } else {
        last_entry(entries.drop_last(), key)
    }
}

/// The catalog map holds exactly the last entry for each identity.
pub proof fn lemma_kmap(entries: Seq<(ObjectKind, ObjectData)>, key: (Seq<char>, Seq<char>))
    ensures
        match last_entry(entries, key) {
            Some(i) => 0 <= i < entries.len() && entries[i].0.norm() == key && kmap(
                entries,
            ).contains_key(key) && kmap(entries)[key] == entries[i].1@,
            None => !kmap(entries).contains_key(key) && (forall|i: int|
                0 <= i < entries.len() ==> entries[i].0.norm() != key),
        },
    decreases entries.len(),
{
    if entries.len() > 0 {
        lemma_kmap(entries.drop_last(), key);
        assert(forall|i: int|
            0 <= i < entries.len() - 1 ==> entries.drop_last()[i] == entries[i]);
    }
}

/// The per-run catalog mapping each object kind to its discovery metadata.
#[derive(Debug)]
pub struct RuntimeTypeData {
    pub entries: Vec<(ObjectKind, ObjectData)>,
}

impl View for RuntimeTypeData {
    type V = Map<(Seq<char>, Seq<char>), ObjectDataView>;

    open spec fn view(&self) -> Map<(Seq<char>, Seq<char>), ObjectDataView> {
        kmap(self.entries@)
    }
}

impl RuntimeTypeData {
    pub fn new() -> (r: RuntimeTypeData)
        ensures
            r@ == Map::<(Seq<char>, Seq<char>), ObjectDataView>::empty(),
    {
        RuntimeTypeData { entries: Vec::new() }
    }

    /// Record data for a kind; a later insert for the same identity wins.
    pub fn insert(&mut self, kind: ObjectKind, data: ObjectData)
        ensures
            final(self)@ == old(self)@.insert(kind.norm(), data@),
    {
        let ghost e0 = self.entries@;
        self.entries.push((kind, data));
        proof {
            assert(self.entries@.drop_last() =~= e0);
        }
    }

    pub fn contains_key(&self, kind: &ObjectKind) -> (r: bool)
        ensures
            r == self@.contains_key(kind.norm()),
    {
        self.get(kind).is_some()
    }

    /// Look up a kind by its normalized identity.
    #[verifier::loop_isolation(false)]
    pub fn get(&self, kind: &ObjectKind) -> (r: Option<&ObjectData>)
        ensures
            match r {
                Some(d) => self@.contains_key(kind.norm()) && self@[kind.norm()] == d@,
                None => !self@.contains_key(kind.norm()),
            },
    {
        let ghost key = kind.norm();
        let mut i: usize = self.entries.len();
        while i > 0
            invariant
                0 <= i <= self.entries@.len(),
                forall|k: int| i <= k < self.entries@.len() ==> self.entries@[k].0.norm() != key,
            decreases i,
        {
            i = i - 1;
            if self.entries[i].0 == *kind {
                proof {
                    lemma_kmap(self.entries@, key);
                    lemma_last_entry_at(self.entries@, key, i as int);
                }
                return Some(&self.entries[i].1);
            }
        }
        proof {
            lemma_kmap(self.entries@, key);
        }
        None
    }
}

/// If position `i` matches and nothing later does, `i` is the last entry.
proof fn lemma_last_entry_at(
    entries: Seq<(ObjectKind, ObjectData)>,
    key: (Seq<char>, Seq<char>),
    i: int,
)
    requires
        0 <= i < entries.len(),
        entries[i].0.norm() == key,
        forall|k: int| i < k < entries.len() ==> entries[k].0.norm() != key,
    ensures
        last_entry(entries, key) == Some(i),
    decreases entries.len(),
{
    if i == entries.len() - 1 {
    } else {
        lemma_last_entry_at(entries.drop_last(), key, i);
    }
}

// ------------------------------------------------------------------
// A set of objects, compared by identity key.
// ------------------------------------------------------------------

pub open spec fn okeys(items: Seq<Object>) -> Seq<ObjectKey> {
    items.map_values(|o: Object| o.key())
}

/// A collection of objects with set semantics over their identity keys.
#[derive(Debug)]
pub struct ObjectSet {
    pub items: Vec<Object>,
}

impl View for ObjectSet {
    type V = Set<ObjectKey>;

    open spec fn view(&self) -> Set<ObjectKey> {
        okeys(self.items@).to_set()
    }
}

impl ObjectSet {
    pub fn new() -> (r: ObjectSet)
        ensures
            r@ == Set::<ObjectKey>::empty(),
            r.items@.len() == 0,
    {
        let r = ObjectSet { items: Vec::new() };
        proof {
            assert(okeys(r.items@) =~= Seq::<ObjectKey>::empty());
            assert(okeys(r.items@).to_set() =~= Set::<ObjectKey>::empty());
        }
        r
    }

    pub fn contains(&self, o: &Object) -> (r: bool)
        ensures
            r == self@.contains(o.key()),
    {
        let mut i: usize = 0;
        while i < self.items.len()
            invariant
                0 <= i <= self.items@.len(),
                forall|k: int| 0 <= k < i ==> self.items@[k].key() != o.key(),
            decreases self.items@.len() - i,
        {
            if object_eq(&self.items[i], o) {
                proof {
                    assert(okeys(self.items@)[i as int] == o.key());
                    assert(okeys(self.items@).to_set().contains(o.key()));
                }
                return true;
            }
            i = i + 1;
        }
        proof {
            if okeys(self.items@).to_set().contains(o.key()) {
                let k = choose|k: int|
                    0 <= k < okeys(self.items@).len() && okeys(self.items@)[k] == o.key();
                assert(self.items@[k].key() == o.key());
                assert(false);
            }
        }
        false
    }

    /// Add an object; one already present under the same identity is kept.
    pub fn insert(&mut self, o: Object)
        ensures
            final(self)@ == old(self)@.insert(o.key()),
    {
        let ghost items0 = self.items@;
        if !self.contains(&o) {
            let ghost okey = o.key();
            self.items.push(o);
            proof {
                let s1 = okeys(self.items@);
                let s0 = okeys(items0);
                assert(s1 =~= s0.push(okey));
                assert forall|a: ObjectKey|
                    s1.to_set().contains(a) == s0.to_set().insert(okey).contains(a) by {
                    if s1.contains(a) {
                        let k = choose|k: int| 0 <= k < s1.len() && s1[k] == a;
                        if k < s0.len() {
                            assert(s0[k] == a);
                            assert(s0.contains(a));
                        } else {
                            assert(a == okey);
                        }
                    }
                    if s0.contains(a) {
                        let k = choose|k: int| 0 <= k < s0.len() && s0[k] == a;
                        assert(s1[k] == a);
                        assert(s1.contains(a));
                    }
                    if a == okey {
                        assert(s1[s1.len() - 1] == a);
                        assert(s1.contains(a));
                    }
                }
                assert(s1.to_set() =~= s0.to_set().insert(okey));
            }
        } else {
            proof {
                let s0 = okeys(items0).to_set();
                assert(s0.contains(o.key()));
                assert forall|a: ObjectKey| s0.insert(o.key()).contains(a) implies s0.contains(
                    a,
                ) by {
                    if a != o.key() {
                        assert(s0.contains(a));
                    }
                }
                assert(s0 =~= s0.insert(o.key()));
            }
        }
    }

    pub fn len(&self) -> (r: usize)
        ensures
            r == self.items@.len(),
    {
        self.items.len()
    }

    pub fn get(&self, i: usize) -> (r: &Object)
        requires
            i < self.items@.len(),
        ensures
            *r == self.items@[i as int],
    {
        &self.items[i]
    }
}

} // verus!
