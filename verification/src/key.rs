//! Identity of a cluster resource.

use vstd::prelude::*;

verus! {

/// Mathematical value of an [`ObjectKey`]: its three fields as character sequences.
pub struct KeyView {
    pub kind: Seq<char>,
    pub namespace: Seq<char>,
    pub name: Seq<char>,
}

/// Identity of a resource: kind, namespace (empty for cluster-scoped objects) and name.
///
/// A key is immutable once built. Two keys are equal exactly when all three
/// fields are equal.
#[derive(Debug, Eq, PartialOrd, Ord, Hash)]
pub struct ObjectKey {
    kind: String,
    namespace: String,
    name: String,
}

impl View for ObjectKey {
    type V = KeyView;

    closed spec fn view(&self) -> KeyView {
        KeyView { kind: self.kind@, namespace: self.namespace@, name: self.name@ }
    }
}

impl ObjectKey {
    /// Builds the key of the object `name` of kind `kind` in `namespace`.
    pub fn new(kind: &str, namespace: &str, name: &str) -> (key: ObjectKey)
        ensures
            key@ == (KeyView { kind: kind@, namespace: namespace@, name: name@ }),
    {
        ObjectKey { kind: kind.to_owned(), namespace: namespace.to_owned(), name: name.to_owned() }
    }

    /// The resource kind.
    pub fn kind(&self) -> (s: &str)
        ensures
            s@ == self@.kind,
    {
        self.kind.as_str()
    }

    /// The namespace; empty for a cluster-scoped object.
    pub fn namespace(&self) -> (s: &str)
        ensures
            s@ == self@.namespace,
    {
        self.namespace.as_str()
    }

    /// The object's name.
    pub fn name(&self) -> (s: &str)
        ensures
            s@ == self@.name,
    {
        self.name.as_str()
    }
}

/// Mathematical value of a key that may be absent.
pub open spec fn key_view(key: Option<ObjectKey>) -> Option<KeyView> {
    match key {
        Some(k) => Some(k@),
        None => None,
    }
}

impl Clone for ObjectKey {
    fn clone(&self) -> (copy: ObjectKey)
        ensures
            copy@ == self@,
    {
        ObjectKey {
            kind: self.kind.clone(),
            namespace: self.namespace.clone(),
            name: self.name.clone(),
        }
    }
}

impl PartialEq for ObjectKey {
    fn eq(&self, other: &ObjectKey) -> (r: bool) {
        self.kind == other.kind && self.namespace == other.namespace && self.name == other.name
    }
}

impl vstd::std_specs::cmp::PartialEqSpecImpl for ObjectKey {
    open spec fn obeys_eq_spec() -> bool {
        true
    }

    open spec fn eq_spec(&self, other: &ObjectKey) -> bool {
        self@ == other@
    }
}

} // verus!
