//! The relation mapper: from a secondary object to the primary object it refers to.

use vstd::prelude::*;
use crate::key::{key_view, KeyView, ObjectKey};

verus! {

/// Target of a cross-reference: the kind and the name of the object referred to.
#[derive(Debug, PartialEq, Eq)]
pub struct CrossReference {
    pub kind: String,
    pub name: String,
}

/// What the mapper reads of a secondary object: its own namespace (empty
/// for a cluster-scoped object) and its cross-reference, if it carries one.
#[derive(Debug, PartialEq, Eq)]
pub struct SecondaryObject {
    pub namespace: String,
    pub target: Option<CrossReference>,
}

/// The key that a secondary object in `namespace` with cross-reference
/// `target` stands for, when primary objects are of kind `primary_kind`:
/// none without a reference or with one to another kind; otherwise the
/// object of the primary kind with the referenced name in the secondary
/// object's own namespace.
pub open spec fn related(
    primary_kind: Seq<char>,
    namespace: Seq<char>,
    target: Option<(Seq<char>, Seq<char>)>,
) -> Option<KeyView> {
    match target {
        Some((kind, name)) => {
            if kind == primary_kind {
                Some(KeyView { kind: primary_kind, namespace, name })
            } else {
                None
            }
        },
        None => None,
    }
}

impl SecondaryObject {
    /// The cross-reference as a pair of kind and name.
    pub open spec fn target_view(&self) -> Option<(Seq<char>, Seq<char>)> {
        match self.target {
            Some(reference) => Some((reference.kind@, reference.name@)),
            None => None,
        }
    }
}

/// Maps secondary objects to the primary objects of one configured kind.
pub struct RelationMapper {
    primary_kind: String,
}

impl RelationMapper {
    /// The configured primary kind.
    pub closed spec fn primary_kind(&self) -> Seq<char> {
        self.primary_kind@
    }

    /// A mapper for primary objects of kind `primary_kind`.
    pub fn new(primary_kind: &str) -> (mapper: RelationMapper)
        ensures
            mapper.primary_kind() == primary_kind@,
    {
        RelationMapper { primary_kind: primary_kind.to_owned() }
    }

    /// The key of the primary object that `object` refers to, if it refers
    /// to one of the configured kind. Whether that object exists is not
    /// looked at.
    pub fn map(&self, object: &SecondaryObject) -> (key: Option<ObjectKey>)
        ensures
            key_view(key) == related(self.primary_kind(), object.namespace@, object.target_view()),
    {
        match &object.target {
            Some(reference) => {
                if reference.kind == self.primary_kind {
                    Some(
                        ObjectKey::new(
                            self.primary_kind.as_str(),
                            object.namespace.as_str(),
                            reference.name.as_str(),
                        ),
                    )
                } else {
                    None
                }
            },
            None => None,
        }
    }
}

} // verus!
