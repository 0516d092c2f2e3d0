//! Core data model: type flavors, type definitions, object identifiers,
//! references, and objects, together with their mathematical models.

use vstd::prelude::*;

verus! {

/// The flavor of a type, determining how references to it are resolved.
#[derive(Debug, Clone, Copy, PartialEq, Eq, Structural)]
pub enum TypeFlavor {
    /// References must already be defined; otherwise they stay unresolved.
    Strict,
    /// Referenced objects are materialized automatically when missing.
    Lazy,
    /// References are discarded entirely.
    Ignore,
}

/// The model of an optional string: the optional sequence of its characters.
pub open spec fn opt_str_view(o: Option<String>) -> Option<Seq<char>> {
    match o {
        Some(s) => Some(s@),
        None => None,
    }
}

/// A type definition.
#[derive(Debug, Clone)]
pub struct Type {
    /// The name of the type.
    pub name: String,
    /// The description of the type.
    pub contents: String,
    /// The flavor of the type.
    pub flavor: TypeFlavor,
    /// The line number where this type was declared, if any.
    pub lineno: Option<usize>,
}

/// Mathematical image of a [`Type`].
#[verifier::ext_equal]
pub struct TypeModel {
    pub name: Seq<char>,
    pub contents: Seq<char>,
    pub flavor: TypeFlavor,
    pub lineno: Option<usize>,
}

impl View for Type {
    type V = TypeModel;

    open spec fn view(&self) -> TypeModel {
        TypeModel {
            name: self.name@,
            contents: self.contents@,
            flavor: self.flavor,
            lineno: self.lineno,
        }
    }
}

/// An identifier for an object: a type name plus an optional identifier.
/// `ident == None` marks an object still awaiting automatic assignment.
#[derive(Debug, Clone)]
pub struct ObjectId {
    /// The type of the object.
    pub typename: String,
    /// The identifier of the object, if specified.
    pub ident: Option<String>,
}

/// Mathematical image of an [`ObjectId`].
#[verifier::ext_equal]
pub struct ObjectIdModel {
    pub typename: Seq<char>,
    pub ident: Option<Seq<char>>,
}

impl View for ObjectId {
    type V = ObjectIdModel;

    open spec fn view(&self) -> ObjectIdModel {
        ObjectIdModel { typename: self.typename@, ident: opt_str_view(self.ident) }
    }
}

impl PartialEq for ObjectId {
    fn eq(&self, other: &ObjectId) -> (r: bool) {
        self.typename == other.typename && match (&self.ident, &other.ident) {
            (Some(a), Some(b)) => *a == *b,
            (None, None) => true,
            _ => false,
        }
    }
}

impl vstd::std_specs::cmp::PartialEqSpecImpl for ObjectId {
    open spec fn obeys_eq_spec() -> bool {
        true
    }

    open spec fn eq_spec(&self, other: &ObjectId) -> bool {
        self.typename@ == other.typename@ && opt_str_view(self.ident) == opt_str_view(other.ident)
    }
}

impl ObjectId {
    /// A copy of this identifier with the same type name and identifier.
    pub fn duplicate(&self) -> (r: ObjectId)
        ensures
            r@ == self@,
    {
        ObjectId {
            typename: self.typename.clone(),
            ident: match &self.ident {
                Some(s) => Some(s.clone()),
                None => None,
            },
        }
    }
}

/// A reference to another object; always fully identified.
#[derive(Debug, Clone)]
pub struct Reference {
    /// The type of the referenced object.
    pub typename: String,
    /// The identifier of the referenced object.
    pub ident: String,
}

/// Mathematical image of a [`Reference`].
#[verifier::ext_equal]
pub struct RefModel {
    pub typename: Seq<char>,
    pub ident: Seq<char>,
}

impl RefModel {
    /// The identifier of the object this reference points at.
    pub open spec fn target(self) -> ObjectIdModel {
        ObjectIdModel { typename: self.typename, ident: Some(self.ident) }
    }
}

impl View for Reference {
    type V = RefModel;

    open spec fn view(&self) -> RefModel {
        RefModel { typename: self.typename@, ident: self.ident@ }
    }
}

impl PartialEq for Reference {
    fn eq(&self, other: &Reference) -> (r: bool) {
        self.typename == other.typename && self.ident == other.ident
    }
}

impl vstd::std_specs::cmp::PartialEqSpecImpl for Reference {
    open spec fn obeys_eq_spec() -> bool {
        true
    }

    open spec fn eq_spec(&self, other: &Reference) -> bool {
        self.typename@ == other.typename@ && self.ident@ == other.ident@
    }
}

impl Reference {
    /// A copy of this reference with the same type name and identifier.
    pub fn duplicate(&self) -> (r: Reference)
        ensures
            r@ == self@,
    {
        Reference { typename: self.typename.clone(), ident: self.ident.clone() }
    }
}

/// An object: an identifier, free-form contents, and its reference lists.
#[derive(Debug, Clone)]
pub struct Object {
    /// The identifier of the object.
    pub id: ObjectId,
    /// The contents of the object.
    pub contents: String,
    /// References to other objects that have been resolved.
    pub refs: Vec<Reference>,
    /// References to other objects that have not been resolved yet.
    pub unresolved_refs: Vec<Reference>,
    /// The line number where this object was defined, if any.
    pub lineno: Option<usize>,
}

/// Mathematical image of an [`Object`]. The reference lists keep their
/// order but stand for sets: a well-formed object never repeats an entry.
#[verifier::ext_equal]
pub struct ObjectModel {
    pub id: ObjectIdModel,
    pub contents: Seq<char>,
    pub refs: Seq<RefModel>,
    pub unresolved_refs: Seq<RefModel>,
    pub lineno: Option<usize>,
}

/// The models of a list of references.
pub open spec fn refs_view(rs: Seq<Reference>) -> Seq<RefModel> {
    rs.map_values(|r: Reference| r@)
}

impl View for Object {
    type V = ObjectModel;

    open spec fn view(&self) -> ObjectModel {
        ObjectModel {
            id: self.id@,
            contents: self.contents@,
            refs: refs_view(self.refs@),
            unresolved_refs: refs_view(self.unresolved_refs@),
            lineno: self.lineno,
        }
    }
}

/// No two entries of the sequence are equal.
pub open spec fn distinct_refs(rs: Seq<RefModel>) -> bool {
    forall|i: int, j: int| 0 <= i < j < rs.len() ==> rs[i] != rs[j]
}

/// No entry of `a` equals an entry of `b`.
pub open spec fn disjoint_refs(a: Seq<RefModel>, b: Seq<RefModel>) -> bool {
    forall|x: int, y: int| 0 <= x < a.len() && 0 <= y < b.len() ==> a[x] != b[y]
}

impl ObjectModel {
    /// Well-formedness: neither reference list repeats an entry, and no
    /// reference is both resolved and unresolved.
    pub open spec fn wf(self) -> bool {
        &&& distinct_refs(self.refs)
        &&& distinct_refs(self.unresolved_refs)
        &&& disjoint_refs(self.refs, self.unresolved_refs)
    }
}

} // verus!
