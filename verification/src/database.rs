//! Database: the type table, the object table, per-type auto-identifier
//! counters and the merged render registry, with duplicate detection and
//! flavor-driven reference resolution.

use crate::ast::{
    disjoint_refs, distinct_refs, refs_view, Object, ObjectId, ObjectIdModel, ObjectModel,
    RefModel, Reference, Type, TypeFlavor, TypeModel,
};
use crate::error::{Error, ErrorModel};
use crate::macros::RenderSystem;
use crate::text::push_char;
use vstd::prelude::*;

verus! {

// ---------------------------------------------------------------------------
// Views of the tables
// ---------------------------------------------------------------------------
/// The models of a type list.
pub open spec fn types_view(s: Seq<Type>) -> Seq<TypeModel> {
    s.map_values(|t: Type| t@)
}

/// The models of an object list.
pub open spec fn objects_view(s: Seq<Object>) -> Seq<ObjectModel> {
    s.map_values(|o: Object| o@)
}

/// The type a name denotes: the latest entry with that name, if any.
pub open spec fn lookup_type(types: Seq<TypeModel>, name: Seq<char>) -> Option<TypeModel>
    decreases types.len(),
{
    if types.len() == 0 {
        None
    } else if types.last().name == name {
        Some(types.last())
    } else {
        lookup_type(types.drop_last(), name)
    }
}

/// The flavor of the type a name denotes, if the type is declared.
pub open spec fn flavor_of(types: Seq<TypeModel>, name: Seq<char>) -> Option<TypeFlavor> {
    match lookup_type(types, name) {
        Some(t) => Some(t.flavor),
        None => None,
    }
}

/// Some object in the list has this identifier.
pub open spec fn has_object(objs: Seq<ObjectModel>, id: ObjectIdModel) -> bool {
    exists|i: int| 0 <= i < objs.len() && objs[i].id == id
}

proof fn lemma_lookup_at(types: Seq<TypeModel>, name: Seq<char>, i: int)
    requires
        0 <= i < types.len(),
        types[i].name == name,
        forall|j: int| i < j < types.len() ==> types[j].name != name,
    ensures
        lookup_type(types, name) == Some(types[i]),
    decreases types.len(),
{
    if i + 1 < types.len() {
        assert(types.drop_last()[i] == types[i]);
        lemma_lookup_at(types.drop_last(), name, i);
    }
}

proof fn lemma_lookup_absent(types: Seq<TypeModel>, name: Seq<char>)
    requires
        forall|j: int| 0 <= j < types.len() ==> types[j].name != name,
    ensures
        lookup_type(types, name) is None,
    decreases types.len(),
{
    if types.len() > 0 {
        lemma_lookup_absent(types.drop_last(), name);
    }
}

/// Updating the one entry that carries a name changes what that name
/// denotes and nothing else.
proof fn lemma_lookup_update(types: Seq<TypeModel>, i: int, t: TypeModel, name: Seq<char>)
    requires
        0 <= i < types.len(),
        types[i].name == t.name,
        forall|a: int, b: int|
            0 <= a < b < types.len() ==> types[a].name != types[b].name,
    ensures
        lookup_type(types.update(i, t), name) == if name == t.name {
            Some(t)
        } else {
            lookup_type(types, name)
        },
    decreases types.len(),
{
    let up = types.update(i, t);
    if i == types.len() - 1 {
        assert(up.drop_last() =~= types.drop_last());
        if name != t.name && types.last().name != name {
            assert(lookup_type(types, name) == lookup_type(types.drop_last(), name));
        }
        if name == t.name {
            lemma_lookup_absent(types.drop_last(), name);
        }
    } else {
        assert(up.last() == types.last());
        assert(up.drop_last() =~= types.drop_last().update(i, t));
        assert(types.drop_last()[i] == types[i]);
        lemma_lookup_update(types.drop_last(), i, t, name);
        if name == t.name {
            assert(types.last().name != name);
        }
    }
}

// ---------------------------------------------------------------------------
// Auto-identifier counters
// ---------------------------------------------------------------------------
/// The mapping an entry list stands for: later entries win.
pub open spec fn counters_map(s: Seq<(Seq<char>, u64)>) -> Map<Seq<char>, u64>
    decreases s.len(),
{
    if s.len() == 0 {
        Map::empty()
    } else {
        counters_map(s.drop_last()).insert(s.last().0, s.last().1)
    }
}

proof fn lemma_counters_map_last(s: Seq<(Seq<char>, u64)>, k: Seq<char>, i: int)
    requires
        0 <= i < s.len(),
        s[i].0 == k,
        forall|j: int| i < j < s.len() ==> s[j].0 != k,
    ensures
        counters_map(s).contains_key(k),
        counters_map(s)[k] == s[i].1,
    decreases s.len(),
{
    if i + 1 < s.len() {
        assert(s.drop_last()[i] == s[i]);
        lemma_counters_map_last(s.drop_last(), k, i);
    }
}

proof fn lemma_counters_map_absent(s: Seq<(Seq<char>, u64)>, k: Seq<char>)
    requires
        forall|j: int| 0 <= j < s.len() ==> s[j].0 != k,
    ensures
        !counters_map(s).contains_key(k),
    decreases s.len(),
{
    if s.len() > 0 {
        lemma_counters_map_absent(s.drop_last(), k);
    }
}

/// The next identifier number for a type name: its counter, or 1 when the
/// name has no counter yet.
pub open spec fn next_counter(counters: Map<Seq<char>, u64>, name: Seq<char>) -> u64 {
    if counters.contains_key(name) {
        counters[name]
    } else {
        1
    }
}

/// A counter after one assignment.
pub open spec fn counter_bump(c: u64) -> u64 {
    if c < u64::MAX {
        (c + 1) as u64
    } else {
        c
    }
}

// ---------------------------------------------------------------------------
// Decimal identifiers
// ---------------------------------------------------------------------------
/// The decimal digit for a value below ten.
pub open spec fn dec_digit(d: u64) -> char {
    if d == 0 {
        '0'
    } else if d == 1 {
        '1'
    } else if d == 2 {
        '2'
    } else if d == 3 {
        '3'
    } else if d == 4 {
        '4'
    } else if d == 5 {
        '5'
    } else if d == 6 {
        '6'
    } else if d == 7 {
        '7'
    } else if d == 8 {
        '8'
    } else {
        '9'
    }
}

/// The decimal representation of a number, most significant digit first.
pub open spec fn dec_str(n: u64) -> Seq<char>
    decreases n,
{
    if n < 10 {
        seq![dec_digit(n)]
    } else {
        dec_str(n / 10) + seq![dec_digit(n % 10)]
    }
}

/// The numeric value a digit stands for.
spec fn digit_val(c: char) -> u64 {
    if c == '0' {
        0
    } else if c == '1' {
        1
    } else if c == '2' {
        2
    } else if c == '3' {
        3
    } else if c == '4' {
        4
    } else if c == '5' {
        5
    } else if c == '6' {
        6
    } else if c == '7' {
        7
    } else if c == '8' {
        8
    } else {
        9
    }
}

/// The value a digit string stands for.
spec fn dec_val(s: Seq<char>) -> int
    decreases s.len(),
{
    if s.len() == 0 {
        0
    } else {
        dec_val(s.drop_last()) * 10 + digit_val(s.last())
    }
}

proof fn lemma_dec_str_val(n: u64)
    ensures
        dec_val(dec_str(n)) == n,
    decreases n,
{
    if n < 10 {
        assert(dec_str(n) =~= seq![dec_digit(n)]);
        assert(dec_str(n).drop_last() =~= Seq::<char>::empty());
        assert(dec_val(Seq::<char>::empty()) == 0);
        assert(dec_str(n).last() == dec_digit(n));
        assert(digit_val(dec_digit(n)) == n);
    } else {
        assert(n / 10 < n && n / 10 >= 1 && n % 10 < 10) by (nonlinear_arith)
            requires
                n >= 10,
        ;
        lemma_dec_str_val(n / 10);
        let s = dec_str(n);
        assert(s == dec_str(n / 10) + seq![dec_digit(n % 10)]);
        assert(s.len() > 0);
        assert(s.drop_last() =~= dec_str(n / 10));
        assert(s.last() == dec_digit(n % 10));
        assert(dec_val(s) == dec_val(s.drop_last()) * 10 + digit_val(s.last()));
        assert(digit_val(dec_digit(n % 10)) == n % 10);
        assert(dec_val(s) == (n / 10) * 10 + (n % 10));
        assert((n / 10) * 10 + n % 10 == n) by (nonlinear_arith);
    }
}

/// Distinct numbers have distinct decimal representations: the automatic
/// identifiers a strictly increasing counter hands out never repeat.
pub proof fn lemma_dec_str_injective(a: u64, b: u64)
    requires
        a != b,
    ensures
        dec_str(a) != dec_str(b),
{
    lemma_dec_str_val(a);
    lemma_dec_str_val(b);
}

/// The decimal representation of a number, as a string.
pub fn u64_to_dec(n: u64) -> (r: String)
    ensures
        r@ == dec_str(n),
    decreases n,
{
    if n < 10 {
        let c = dec_digit_exec(n);
        let mut s = String::new();
        push_char(&mut s, c);
        proof {
            assert(s@ =~= seq![dec_digit(n)]);
        }
        s
    } else {
        proof {
            assert(n / 10 < n) by (nonlinear_arith)
                requires
                    n >= 10,
            ;
        }
        let mut s = u64_to_dec(n / 10);
        let c = dec_digit_exec(n % 10);
        push_char(&mut s, c);
        proof {
            assert(s@ =~= dec_str(n / 10) + seq![dec_digit(n % 10)]);
        }
        s
    }
}

fn dec_digit_exec(d: u64) -> (r: char)
    ensures
        r == dec_digit(d),
{
    if d == 0 {
        '0'
    } else if d == 1 {
        '1'
    } else if d == 2 {
        '2'
    } else if d == 3 {
        '3'
    } else if d == 4 {
        '4'
    } else if d == 5 {
        '5'
    } else if d == 6 {
        '6'
    } else if d == 7 {
        '7'
    } else if d == 8 {
        '8'
    } else {
        '9'
    }
}

// ---------------------------------------------------------------------------
// The database
// ---------------------------------------------------------------------------
/// Mathematical image of a [`Database`].
#[verifier::ext_equal]
pub struct DatabaseModel {
    pub types: Seq<TypeModel>,
    pub objects: Seq<ObjectModel>,
    pub counters: Map<Seq<char>, u64>,
    pub renders: Map<Seq<char>, Seq<char>>,
}

impl DatabaseModel {
    /// Well-formedness: type names are unique, object identifiers are
    /// unique, and no object repeats a reference.
    pub open spec fn wf(self) -> bool {
        &&& forall|a: int, b: int|
            0 <= a < b < self.types.len() ==> self.types[a].name != self.types[b].name
        &&& forall|a: int, b: int|
            0 <= a < b < self.objects.len() ==> self.objects[a].id != self.objects[b].id
        &&& forall|i: int| 0 <= i < self.objects.len() ==> (#[trigger] self.objects[i]).wf()
    }
}

/// The database of objects and types.
#[derive(Debug)]
pub struct Database {
    /// The types defined in the database.
    pub types: Vec<Type>,
    /// The objects defined in the database.
    pub objects: Vec<Object>,
    /// Per-type-name counters for automatically assigned identifiers:
    /// later entries supersede earlier ones for the same name.
    pub counters: Vec<(String, u64)>,
    /// The merged render registry.
    pub render_system: RenderSystem,
}

impl View for Database {
    type V = DatabaseModel;

    open spec fn view(&self) -> DatabaseModel {
        DatabaseModel {
            types: types_view(self.types@),
            objects: objects_view(self.objects@),
            counters: counters_map(
                self.counters@.map_values(|p: (String, u64)| (p.0@, p.1)),
            ),
            renders: self.render_system@,
        }
    }
}

impl Database {
    /// Well-formedness of the database, as of its model.
    pub open spec fn wf(self) -> bool {
        self@.wf()
    }

    /// A new database holding only the built-in default type `item`, a lazy
    /// type, and no objects.
    pub fn new() -> (r: Database)
        ensures
            r.wf(),
            r@.types =~= seq![
                TypeModel {
                    name: "item"@,
                    contents: "Item type"@,
                    flavor: TypeFlavor::Lazy,
                    lineno: None,
                },
            ],
            r@.objects == Seq::<ObjectModel>::empty(),
            r@.counters == Map::<Seq<char>, u64>::empty(),
            r@.renders == Map::<Seq<char>, Seq<char>>::empty(),
    {
        let mut db = Database {
            types: Vec::new(),
            objects: Vec::new(),
            counters: Vec::new(),
            render_system: RenderSystem::new(),
        };
        let item = Type {
            name: "item".to_owned(),
            contents: "Item type".to_owned(),
            flavor: TypeFlavor::Lazy,
            lineno: None,
        };
        db.types.push(item);
        proof {
            assert(db@.types =~= seq![
                TypeModel {
                    name: "item"@,
                    contents: "Item type"@,
                    flavor: TypeFlavor::Lazy,
                    lineno: None,
                },
            ]);
            assert(db@.objects =~= Seq::<ObjectModel>::empty());
            assert(db.counters@.map_values(|p: (String, u64)| (p.0@, p.1)) =~= Seq::<
                (Seq<char>, u64),
            >::empty());
        }
        db
    }

    /// Insert a type, overwriting any previous declaration of the same name.
    pub fn add_type(&mut self, type_def: Type)
        requires
            old(self).wf(),
        ensures
            final(self).wf(),
            final(self)@.objects == old(self)@.objects,
            final(self)@.counters == old(self)@.counters,
            final(self)@.renders == old(self)@.renders,
            forall|n: Seq<char>|
                #[trigger] lookup_type(final(self)@.types, n) == if n == type_def@.name {
                    Some(type_def@)
                } else {
                    lookup_type(old(self)@.types, n)
                },
    {
        let n = self.types.len();
        let mut i: usize = 0;
        while i < n
            invariant
                0 <= i <= n == self.types@.len(),
                *self == *old(self),
                old(self).wf(),
                forall|j: int| 0 <= j < i ==> types_view(self.types@)[j].name != type_def@.name,
            decreases n - i,
        {
            if self.types[i].name == type_def.name {
                let ghost pre = types_view(self.types@);
                proof {
                    assert(pre =~= old(self)@.types);
                    assert(pre[i as int].name == type_def@.name);
                }
                self.types.set(i, type_def);
                proof {
                    assert(types_view(self.types@) =~= pre.update(i as int, type_def@));
                    assert forall|nm: Seq<char>|
                        #[trigger] lookup_type(final(self)@.types, nm) == if nm == type_def@.name {
                            Some(type_def@)
                        } else {
                            lookup_type(old(self)@.types, nm)
                        } by {
                        lemma_lookup_update(pre, i as int, type_def@, nm);
                    }
                    let newt = self@.types;
                    assert forall|a: int, b: int| 0 <= a < b < newt.len() implies newt[a].name
                        != newt[b].name by {
                        assert(pre[a].name != pre[b].name);
                    }
                }
                return ;
            }
            i = i + 1;
        }
        let ghost pre = types_view(self.types@);
        proof {
            assert(pre =~= old(self)@.types);
        }
        self.types.push(type_def);
        proof {
            assert(types_view(self.types@) =~= pre.push(type_def@));
            assert forall|nm: Seq<char>|
                #[trigger] lookup_type(final(self)@.types, nm) == if nm == type_def@.name {
                    Some(type_def@)
                } else {
                    lookup_type(old(self)@.types, nm)
                } by {
                assert(types_view(self.types@).drop_last() =~= pre);
            }
            let newt = self@.types;
            assert forall|a: int, b: int| 0 <= a < b < newt.len() implies newt[a].name
                != newt[b].name by {
                if b < newt.len() - 1 {
                    assert(pre[a].name != pre[b].name);
                } else {
                    assert(pre[a].name != type_def@.name);
                }
            }
        }
    }

    /// The flavor of the named type, if the type is declared.
    pub fn get_type_flavor(&self, typename: &str) -> (r: Option<TypeFlavor>)
        ensures
            r == flavor_of(self@.types, typename@),
    {
        let key = typename.to_owned();
        let ghost tv = types_view(self.types@);
        let n = self.types.len();
        let mut idx = n;
        while idx > 0
            invariant
                0 <= idx <= n == self.types@.len(),
                key@ == typename@,
                tv == types_view(self.types@),
                forall|j: int| idx <= j < n ==> tv[j].name != typename@,
            decreases idx,
        {
            idx = idx - 1;
            if self.types[idx].name == key {
                proof {
                    lemma_lookup_at(tv, typename@, idx as int);
                }
                return Some(self.types[idx].flavor);
            }
        }
        proof {
            lemma_lookup_absent(tv, typename@);
        }
        None
    }

    /// The latest counter entry for a type name, or 1 when there is none.
    fn next_counter_of(&self, typename: &String) -> (r: u64)
        ensures
            r == next_counter(self@.counters, typename@),
    {
        let ghost cv = self.counters@.map_values(|p: (String, u64)| (p.0@, p.1));
        let n = self.counters.len();
        let mut idx = n;
        while idx > 0
            invariant
                0 <= idx <= n == self.counters@.len(),
                cv == self.counters@.map_values(|p: (String, u64)| (p.0@, p.1)),
                forall|j: int| idx <= j < n ==> cv[j].0 != typename@,
            decreases idx,
        {
            idx = idx - 1;
            if self.counters[idx].0 == *typename {
                proof {
                    lemma_counters_map_last(cv, typename@, idx as int);
                }
                return self.counters[idx].1;
            }
        }
        proof {
            lemma_counters_map_absent(cv, typename@);
        }
        1
    }

    /// Record a new counter value for a type name.
    fn set_counter(&mut self, typename: &String, value: u64)
        ensures
            final(self)@.counters == old(self)@.counters.insert(typename@, value),
            final(self)@.types == old(self)@.types,
            final(self)@.objects == old(self)@.objects,
            final(self)@.renders == old(self)@.renders,
    {
        self.counters.push((typename.clone(), value));
        proof {
            let f = |p: (String, u64)| (p.0@, p.1);
            assert(self.counters@.map_values(f).drop_last() =~= old(self).counters@.map_values(f));
        }
    }

    /// Whether an object with the given identifier exists.
    pub fn contains_object(&self, id: &ObjectId) -> (r: bool)
        ensures
            r == has_object(self@.objects, id@),
    {
        let n = self.objects.len();
        let mut i: usize = 0;
        while i < n
            invariant
                0 <= i <= n == self.objects@.len(),
                forall|j: int| 0 <= j < i ==> objects_view(self.objects@)[j].id != id@,
            decreases n - i,
        {
            if self.objects[i].id == *id {
                proof {
                    assert(objects_view(self.objects@)[i as int].id == id@);
                }
                return true;
            }
            i = i + 1;
        }
        false
    }

    /// The object with the given identifier, if any.
    pub fn get_object(&self, id: &ObjectId) -> (r: Option<&Object>)
        ensures
            match r {
                Some(o) => has_object(self@.objects, id@) && o@.id == id@ && exists|i: int|
                    0 <= i < self@.objects.len() && self@.objects[i] == o@,
                None => !has_object(self@.objects, id@),
            },
    {
        let n = self.objects.len();
        let mut i: usize = 0;
        while i < n
            invariant
                0 <= i <= n == self.objects@.len(),
                forall|j: int| 0 <= j < i ==> objects_view(self.objects@)[j].id != id@,
            decreases n - i,
        {
            if self.objects[i].id == *id {
                proof {
                    assert(objects_view(self.objects@)[i as int].id == id@);
                }
                return Some(&self.objects[i]);
            }
            i = i + 1;
        }
        None
    }
}

// ---------------------------------------------------------------------------
// Object insertion
// ---------------------------------------------------------------------------
/// The line an error reports for an object: its source line, or 0 when it
/// has none.
pub open spec fn lineno_or_zero(l: Option<usize>) -> usize {
    match l {
        Some(v) => v,
        None => 0,
    }
}

/// The identifier an object gets at insertion: its own, or the next decimal
/// identifier for its type name.
pub open spec fn assigned_id(counters: Map<Seq<char>, u64>, o: ObjectModel) -> ObjectIdModel {
    match o.id.ident {
        Some(_) => o.id,
        None => ObjectIdModel {
            typename: o.id.typename,
            ident: Some(dec_str(next_counter(counters, o.id.typename))),
        },
    }
}

/// What inserting an object does to the database: assign an identifier if
/// needed (bumping the counter), then fail on a duplicate identifier, or
/// append the object.
pub open spec fn add_object_model(db: DatabaseModel, o: ObjectModel) -> (DatabaseModel, Result<
    (),
    ErrorModel,
>) {
    let aid = assigned_id(db.counters, o);
    let counters2 = if o.id.ident is None {
        db.counters.insert(
            o.id.typename,
            counter_bump(next_counter(db.counters, o.id.typename)),
        )
    } else {
        db.counters
    };
    if has_object(db.objects, aid) {
        (
            DatabaseModel { counters: counters2, ..db },
            Err(
                ErrorModel::DuplicateDefinition(
                    aid.typename,
                    aid.ident->0,
                    lineno_or_zero(o.lineno),
                ),
            ),
        )
    } else {
        (
            DatabaseModel {
                objects: db.objects.push(ObjectModel { id: aid, ..o }),
                counters: counters2,
                ..db
            },
            Ok(()),
        )
    }
}

impl Database {
    /// Insert an object. An object without an identifier first receives the
    /// next decimal identifier for its type name. Fails with the
    /// duplicate-definition error, leaving the object table unchanged,
    /// exactly when the resulting identifier is already taken.
    pub fn add_object(&mut self, object: Object) -> (r: Result<(), Error>)
        requires
            old(self).wf(),
            object@.wf(),
        ensures
            final(self).wf(),
            ({
                let (db2, res) = add_object_model(old(self)@, object@);
                &&& final(self)@ == db2
                &&& match r {
                    Ok(()) => res is Ok,
                    Err(e) => res matches Err(em) && e@ == em,
                }
            }),
    {
        let ghost pre = self@;
        let ghost om = object@;
        let mut object = object;
        if object.id.ident.is_none() {
            let next = self.next_counter_of(&object.id.typename);
            let ident = u64_to_dec(next);
            let bumped = if next < u64::MAX {
                next + 1
            } else {
                next
            };
            let tn = object.id.typename.clone();
            object.id.ident = Some(ident);
            self.set_counter(&tn, bumped);
        }
        proof {
            assert(object@ =~= (ObjectModel { id: assigned_id(pre.counters, om), ..om }));
            assert(self@.counters == add_object_model(pre, om).0.counters);
            assert(self@.objects == pre.objects);
            assert(self@.types == pre.types);
            assert(self@.renders == pre.renders);
        }
        if self.contains_object(&object.id) {
            let t = object.id.typename.clone();
            let iv = match &object.id.ident {
                Some(s) => s.clone(),
                None => String::new(),
            };
            let line = match object.lineno {
                Some(v) => v,
                None => 0,
            };
            proof {
                assert(self@ =~= add_object_model(pre, om).0);
            }
            return Err(Error::DuplicateDefinition(t, iv, line));
        }
        let ghost aid = object@.id;
        self.objects.push(object);
        proof {
            assert(self@.objects =~= pre.objects.push(ObjectModel {
                id: assigned_id(pre.counters, om),
                ..om
            }));
            assert(self@ =~= add_object_model(pre, om).0);
            let objs = self@.objects;
            assert forall|a: int, b: int| 0 <= a < b < objs.len() implies objs[a].id
                != objs[b].id by {
                if b == objs.len() - 1 {
                    assert(!has_object(pre.objects, aid));
                    assert(pre.objects[a].id != aid);
                }
            }
        }
        Ok(())
    }
}

} // verus!

verus! {

// ---------------------------------------------------------------------------
// Reference resolution
// ---------------------------------------------------------------------------
/// An empty object materialized to satisfy a lazy reference.
pub open spec fn placeholder(id: ObjectIdModel) -> ObjectModel {
    ObjectModel {
        id,
        contents: Seq::empty(),
        refs: Seq::empty(),
        unresolved_refs: Seq::empty(),
        lineno: None,
    }
}

/// Outcome of classifying one object's reference list. In both cases `objs`
/// is the whole object table, with any placeholders appended.
#[verifier::ext_equal]
pub enum RefsOutcome {
    Done { objs: Seq<ObjectModel>, res: Seq<RefModel>, unres: Seq<RefModel> },
    Failed { objs: Seq<ObjectModel>, err: ErrorModel },
}

/// Classify the references `refs` (of the object whose source line is
/// `line`) one by one, by the flavor of each referenced type: a reference to
/// an undeclared type fails the pass; a strict reference moves to the
/// resolved set if its target exists and stays unresolved otherwise; a lazy
/// reference materializes its target if missing and always resolves; an
/// ignored reference is dropped. `res` and `unres` accumulate the two sets.
pub open spec fn resolve_refs(
    types: Seq<TypeModel>,
    objs: Seq<ObjectModel>,
    refs: Seq<RefModel>,
    res: Seq<RefModel>,
    unres: Seq<RefModel>,
    line: usize,
) -> RefsOutcome
    decreases refs.len(),
{
    if refs.len() == 0 {
        RefsOutcome::Done { objs, res, unres }
    } else {
        let r = refs[0];
        match flavor_of(types, r.typename) {
            None => RefsOutcome::Failed {
                objs,
                err: ErrorModel::InvalidType(r.typename, r.ident, line),
            },
            Some(TypeFlavor::Strict) => if has_object(objs, r.target()) {
                resolve_refs(types, objs, refs.drop_first(), res.push(r), unres, line)
            } else {
                resolve_refs(types, objs, refs.drop_first(), res, unres.push(r), line)
            },
            Some(TypeFlavor::Lazy) => {
                let objs2 = if has_object(objs, r.target()) {
                    objs
                } else {
                    objs.push(placeholder(r.target()))
                };
                resolve_refs(types, objs2, refs.drop_first(), res.push(r), unres, line)
            },
            Some(TypeFlavor::Ignore) => resolve_refs(
                types,
                objs,
                refs.drop_first(),
                res,
                unres,
                line,
            ),
        }
    }
}

/// Outcome of a resolution pass. On failure `objs` is the table as the pass
/// left it: objects processed earlier keep their updates.
#[verifier::ext_equal]
pub enum PassOutcome {
    Done(Seq<ObjectModel>),
    Failed { objs: Seq<ObjectModel>, err: ErrorModel },
}

/// One resolution pass over the objects at indices `i..n`: classify each
/// object's unresolved references. Resolution only moves references: the
/// resolved set accumulates onto the references already resolved, which are
/// never removed, and the unresolved set is what stays unresolved.
/// Placeholders are appended behind `n` and are not themselves re-examined,
/// but they are visible to the existence checks of every later object.
pub open spec fn resolve_pass(
    types: Seq<TypeModel>,
    objs: Seq<ObjectModel>,
    i: int,
    n: int,
) -> PassOutcome
    decreases n - i,
{
    if i < 0 || i >= n {
        PassOutcome::Done(objs)
    } else {
        let o = objs[i];
        match resolve_refs(
            types,
            objs,
            o.unresolved_refs,
            o.refs,
            Seq::empty(),
            lineno_or_zero(o.lineno),
        ) {
            RefsOutcome::Failed { objs: objs2, err } => PassOutcome::Failed { objs: objs2, err },
            RefsOutcome::Done { objs: objs2, res, unres } => {
                let objs3 = objs2.update(
                    i,
                    ObjectModel { refs: res, unresolved_refs: unres, ..objs2[i] },
                );
                resolve_pass(types, objs3, i + 1, n)
            },
        }
    }
}

/// What one resolution pass does to the whole database.
pub open spec fn resolve_model(db: DatabaseModel) -> PassOutcome {
    resolve_pass(db.types, db.objects, 0, db.objects.len() as int)
}

/// Pushing onto a reference list pushes its view.
pub proof fn lemma_refs_view_push(s: Seq<Reference>, x: Reference)
    ensures
        refs_view(s.push(x)) == refs_view(s).push(x@),
{
    assert forall|k: int| 0 <= k < s.len() + 1 implies refs_view(s.push(x))[k] == refs_view(
        s,
    ).push(x@)[k] by {
        if k < s.len() {
            assert(s.push(x)[k] == s[k]);
        }
    }
    assert(refs_view(s.push(x)) =~= refs_view(s).push(x@));
}

pub proof fn lemma_types_view_push(s: Seq<Type>, x: Type)
    ensures
        types_view(s.push(x)) == types_view(s).push(x@),
{
    assert forall|k: int| 0 <= k < s.len() + 1 implies types_view(s.push(x))[k] == types_view(
        s,
    ).push(x@)[k] by {
        if k < s.len() {
            assert(s.push(x)[k] == s[k]);
        }
    }
    assert(types_view(s.push(x)) =~= types_view(s).push(x@));
}

pub proof fn lemma_objects_view_push(s: Seq<Object>, x: Object)
    ensures
        objects_view(s.push(x)) == objects_view(s).push(x@),
{
    assert forall|k: int| 0 <= k < s.len() + 1 implies objects_view(s.push(x))[k] == objects_view(
        s,
    ).push(x@)[k] by {
        if k < s.len() {
            assert(s.push(x)[k] == s[k]);
        }
    }
    assert(objects_view(s.push(x)) =~= objects_view(s).push(x@));
}

proof fn lemma_objects_view_update(s: Seq<Object>, i: int, x: Object)
    requires
        0 <= i < s.len(),
    ensures
        objects_view(s.update(i, x)) == objects_view(s).update(i, x@),
{
    assert forall|k: int| 0 <= k < s.len() implies objects_view(s.update(i, x))[k] == objects_view(
        s,
    ).update(i, x@)[k] by {
        if k != i {
            assert(s.update(i, x)[k] == s[k]);
        }
    }
    assert(objects_view(s.update(i, x)) =~= objects_view(s).update(i, x@));
}

/// A copy of a reference list, entry by entry.
fn clone_refs(v: &Vec<Reference>) -> (r: Vec<Reference>)
    ensures
        refs_view(r@) == refs_view(v@),
{
    let n = v.len();
    let mut r: Vec<Reference> = Vec::new();
    let mut i: usize = 0;
    proof {
        assert(refs_view(r@) =~= refs_view(v@).subrange(0, 0));
    }
    while i < n
        invariant
            0 <= i <= n == v@.len(),
            refs_view(r@) == refs_view(v@).subrange(0, i as int),
        decreases n - i,
    {
        let ghost r0 = r@;
        let d = v[i].duplicate();
        r.push(d);
        proof {
            lemma_refs_view_push(r0, d);
            assert(refs_view(r@) =~= refs_view(v@).subrange(0, i + 1));
        }
        i = i + 1;
    }
    proof {
        assert(refs_view(Seq::<Reference>::empty()) =~= Seq::<RefModel>::empty());
    }
    proof {
        assert(refs_view(v@).subrange(0, n as int) =~= refs_view(v@));
    }
    r
}

impl Database {
    /// Resolve every object's unresolved references by the flavor of each
    /// referenced type, materializing placeholder objects for lazy
    /// references. Resolution only moves references: everything already in
    /// a resolved set stays there, newly resolved references are appended,
    /// and only strict misses remain unresolved, so a second pass over an
    /// unchanged database changes nothing (see
    /// [`lemma_resolution_idempotent`]). Fails with the invalid-type error
    /// on the first reference to an undeclared type; objects processed
    /// before the failure keep their updates.
    pub fn resolve_references(&mut self) -> (r: Result<(), Error>)
        requires
            old(self).wf(),
        ensures
            final(self).wf(),
            final(self)@.types == old(self)@.types,
            final(self)@.counters == old(self)@.counters,
            final(self)@.renders == old(self)@.renders,
            match resolve_model(old(self)@) {
                PassOutcome::Done(out) => r is Ok && final(self)@.objects == out,
                PassOutcome::Failed { objs: out, err } => (r matches Err(e) && e@ == err)
                    && final(self)@.objects == out,
            },
    {
        let ghost t0 = self@.types;
        let ghost objs0 = self@.objects;
        let n = self.objects.len();
        let mut i: usize = 0;
        while i < n
            invariant
                0 <= i <= n,
                n <= self.objects@.len(),
                self@.types == t0,
                self@.counters == old(self)@.counters,
                self@.renders == old(self)@.renders,
                t0 == old(self)@.types,
                objs0 == old(self)@.objects,
                n == objs0.len(),
                old(self).wf(),
                resolve_pass(t0, objs0, 0, n as int) == resolve_pass(
                    t0,
                    self@.objects,
                    i as int,
                    n as int,
                ),
            decreases n - i,
        {
            let line = match self.objects[i].lineno {
                Some(v) => v,
                None => 0,
            };
            let work = clone_refs(&self.objects[i].unresolved_refs);
            let ghost objs_entry = self@.objects;
            let ghost full = refs_view(work@);
            proof {
                assert(full == objs_entry[i as int].unresolved_refs);
                assert(line == lineno_or_zero(objs_entry[i as int].lineno));
            }
            let mut res: Vec<Reference> = clone_refs(&self.objects[i].refs);
            let mut unres: Vec<Reference> = Vec::new();
            let ghost res0 = objs_entry[i as int].refs;
            let nw = work.len();
            let mut j: usize = 0;
            proof {
                assert(full.skip(0) =~= full);
                assert(refs_view(res@) == res0);
                assert(refs_view(unres@) =~= Seq::<RefModel>::empty());
            }
            while j < nw
                invariant
                    0 <= j <= nw == work@.len(),
                    full == refs_view(work@),
                    0 <= i < n <= objs_entry.len(),
                    t0 == old(self)@.types,
                    objs0 == old(self)@.objects,
                    n == objs0.len(),
                    old(self).wf(),
                    self@.types == t0,
                    self@.counters == old(self)@.counters,
                    self@.renders == old(self)@.renders,
                    self@.objects.len() >= objs_entry.len(),
                    self@.objects.subrange(0, objs_entry.len() as int) == objs_entry,
                    full == objs_entry[i as int].unresolved_refs,
                    line == lineno_or_zero(objs_entry[i as int].lineno),
                    resolve_pass(t0, objs0, 0, n as int) == resolve_pass(
                        t0,
                        objs_entry,
                        i as int,
                        n as int,
                    ),
                    res0 == objs_entry[i as int].refs,
                    resolve_refs(
                        t0,
                        self@.objects,
                        full.skip(j as int),
                        refs_view(res@),
                        refs_view(unres@),
                        line,
                    ) == resolve_refs(
                        t0,
                        objs_entry,
                        full,
                        res0,
                        Seq::empty(),
                        line,
                    ),
                decreases nw - j,
            {
                proof {
                    assert(full.skip(j as int)[0] == full[j as int]);
                    assert(full.skip(j as int).drop_first() =~= full.skip(j + 1));
                    assert(full[j as int] == work@[j as int]@);
                }
                match self.get_type_flavor(self.objects_ref_typename(&work, j)) {
                    None => {
                        let e = Error::InvalidType(
                            work[j].typename.clone(),
                            work[j].ident.clone(),
                            line,
                        );
                        proof {
                            assert(resolve_refs(
                                t0,
                                self@.objects,
                                full.skip(j as int),
                                refs_view(res@),
                                refs_view(unres@),
                                line,
                            ) == RefsOutcome::Failed {
                                objs: self@.objects,
                                err: e@,
                            });
                            assert(resolve_pass(t0, objs_entry, i as int, n as int)
                                == PassOutcome::Failed { objs: self@.objects, err: e@ });
                            lemma_resolve_pass_props(t0, objs0, 0, n as int);
                        }
                        return Err(e);
                    },
                    Some(TypeFlavor::Strict) => {
                        let probe = ObjectId {
                            typename: work[j].typename.clone(),
                            ident: Some(work[j].ident.clone()),
                        };
                        proof {
                            assert(probe@ =~= full[j as int].target());
                        }
                        let ghost res0 = res@;
                        let ghost unres0 = unres@;
                        if self.contains_object(&probe) {
                            let d = work[j].duplicate();
                            res.push(d);
                            proof {
                                lemma_refs_view_push(res0, d);
                                assert(refs_view(res@) == refs_view(res0).push(full[j as int]));
                            }
                        } else {
                            let d = work[j].duplicate();
                            unres.push(d);
                            proof {
                                lemma_refs_view_push(unres0, d);
                                assert(refs_view(unres@) == refs_view(unres0).push(
                                    full[j as int],
                                ));
                            }
                        }
                    },
                    Some(TypeFlavor::Lazy) => {
                        let probe = ObjectId {
                            typename: work[j].typename.clone(),
                            ident: Some(work[j].ident.clone()),
                        };
                        proof {
                            assert(probe@ =~= full[j as int].target());
                        }
                        if !self.contains_object(&probe) {
                            let ph = Object {
                                id: probe,
                                contents: String::new(),
                                refs: Vec::new(),
                                unresolved_refs: Vec::new(),
                                lineno: None,
                            };
                            proof {
                                assert(refs_view(Seq::<Reference>::empty()) =~= Seq::<
                                    RefModel,
                                >::empty());
                                assert(ph@ =~= placeholder(full[j as int].target()));
                            }
                            let ghost pre_objs = self.objects@;
                            let ghost ph_g = ph;
                            self.objects.push(ph);
                            proof {
                                lemma_objects_view_push(pre_objs, ph_g);
                                assert(self@.objects == objects_view(pre_objs).push(placeholder(
                                    full[j as int].target(),
                                )));
                                assert(self@.objects.subrange(0, objs_entry.len() as int)
                                    =~= objs_entry);
                            }
                        }
                        let ghost res0 = res@;
                        let d = work[j].duplicate();
                        res.push(d);
                        proof {
                            lemma_refs_view_push(res0, d);
                            assert(refs_view(res@) == refs_view(res0).push(full[j as int]));
                        }
                    },
                    Some(TypeFlavor::Ignore) => {},
                }
                j = j + 1;
            }
            proof {
                assert(full.skip(nw as int).len() == 0);
                assert(resolve_refs(
                    t0,
                    self@.objects,
                    full.skip(nw as int),
                    refs_view(res@),
                    refs_view(unres@),
                    line,
                ) == RefsOutcome::Done {
                    objs: self@.objects,
                    res: refs_view(res@),
                    unres: refs_view(unres@),
                });
            }
            let ghost cur = self@.objects;
            let id2 = self.objects[i].id.duplicate();
            let contents2 = self.objects[i].contents.clone();
            let lineno2 = self.objects[i].lineno;
            let updated = Object {
                id: id2,
                contents: contents2,
                refs: res,
                unresolved_refs: unres,
                lineno: lineno2,
            };
            proof {
                assert(cur[i as int] == objs_entry[i as int]);
            }
            let ghost pre_vec = self.objects@;
            let ghost upd_g = updated;
            self.objects.set(i, updated);
            proof {
                lemma_objects_view_update(pre_vec, i as int, upd_g);
                assert(upd_g@ =~= (ObjectModel {
                    refs: refs_view(upd_g.refs@),
                    unresolved_refs: refs_view(upd_g.unresolved_refs@),
                    ..cur[i as int]
                }));
                assert(self@.objects =~= cur.update(
                    i as int,
                    ObjectModel {
                        refs: refs_view(upd_g.refs@),
                        unresolved_refs: refs_view(upd_g.unresolved_refs@),
                        ..cur[i as int]
                    },
                ));
                assert(resolve_pass(t0, objs_entry, i as int, n as int) == resolve_pass(
                    t0,
                    self@.objects,
                    i + 1,
                    n as int,
                ));
            }
            i = i + 1;
        }
        proof {
            assert(resolve_pass(t0, self@.objects, n as int, n as int) == PassOutcome::Done(
                self@.objects,
            ));
            lemma_resolve_pass_props(t0, objs0, 0, n as int);
        }
        Ok(())
    }

    /// The type name of the reference at `j`, for flavor lookup.
    fn objects_ref_typename<'a>(&self, work: &'a Vec<Reference>, j: usize) -> (r: &'a str)
        requires
            j < work@.len(),
        ensures
            r@ == work@[j as int]@.typename,
    {
        work[j].typename.as_str()
    }
}

} // verus!

verus! {

// ---------------------------------------------------------------------------
// Properties of resolution
// ---------------------------------------------------------------------------
/// No two objects share an identifier.
pub open spec fn distinct_ids(objs: Seq<ObjectModel>) -> bool {
    forall|a: int, b: int| 0 <= a < b < objs.len() ==> objs[a].id != objs[b].id
}

/// A lazily materialized placeholder: its type is lazy-flavored and it
/// carries no references.
pub open spec fn lazy_empty(types: Seq<TypeModel>, o: ObjectModel) -> bool {
    &&& flavor_of(types, o.id.typename) == Some(TypeFlavor::Lazy)
    &&& o.refs.len() == 0
    &&& o.unresolved_refs.len() == 0
}

/// How classifying references may grow the object table: only by appending
/// lazy placeholders, never disturbing what was there.
pub open spec fn grown_table(
    types: Seq<TypeModel>,
    objs: Seq<ObjectModel>,
    objs2: Seq<ObjectModel>,
) -> bool {
    &&& objs.len() <= objs2.len()
    &&& objs2.subrange(0, objs.len() as int) == objs
    &&& distinct_ids(objs2)
    &&& forall|k: int| objs.len() <= k < objs2.len() ==> lazy_empty(types, #[trigger] objs2[k])
}

/// Where one reference ends up, by the flavor of its type, when the
/// accumulators started empty: an ignored reference is in neither output
/// list; a lazy one is resolved and its target exists; a strict one is
/// resolved exactly when its target already existed, and unresolved
/// otherwise.
pub open spec fn ref_resolution(
    types: Seq<TypeModel>,
    objs: Seq<ObjectModel>,
    out_objs: Seq<ObjectModel>,
    res2: Seq<RefModel>,
    unres2: Seq<RefModel>,
    r: RefModel,
) -> bool {
    match flavor_of(types, r.typename) {
        None => false,
        Some(TypeFlavor::Ignore) => !res2.contains(r) && !unres2.contains(r),
        Some(TypeFlavor::Lazy) => res2.contains(r) && has_object(out_objs, r.target())
            && !unres2.contains(r),
        Some(TypeFlavor::Strict) => (res2.contains(r) <==> has_object(objs, r.target())) && (
        unres2.contains(r) <==> !has_object(objs, r.target())),
    }
}

proof fn lemma_has_object_grow(objs: Seq<ObjectModel>, objs2: Seq<ObjectModel>, id: ObjectIdModel)
    requires
        objs.len() <= objs2.len(),
        objs2.subrange(0, objs.len() as int) == objs,
        has_object(objs, id),
    ensures
        has_object(objs2, id),
{
    let i = choose|i: int| 0 <= i < objs.len() && objs[i].id == id;
    assert(objs2[i] == objs2.subrange(0, objs.len() as int)[i]);
}

/// An identifier of a strict-flavored type is present after growth or
/// identifier-preserving updates exactly when it was present before:
/// everything that appears carries a lazy-flavored type.
proof fn lemma_strict_has_stable(
    types: Seq<TypeModel>,
    pre: Seq<ObjectModel>,
    post: Seq<ObjectModel>,
    id: ObjectIdModel,
)
    requires
        pre.len() <= post.len(),
        forall|k: int| 0 <= k < pre.len() ==> (#[trigger] post[k]).id == pre[k].id,
        forall|k: int|
            pre.len() <= k < post.len() ==> flavor_of(types, (#[trigger] post[k]).id.typename)
                == Some(TypeFlavor::Lazy),
        flavor_of(types, id.typename) == Some(TypeFlavor::Strict),
    ensures
        has_object(post, id) <==> has_object(pre, id),
{
    if has_object(pre, id) {
        let i = choose|i: int| 0 <= i < pre.len() && pre[i].id == id;
        assert(post[i].id == id);
    }
    if has_object(post, id) {
        let i = choose|i: int| 0 <= i < post.len() && post[i].id == id;
        if i >= pre.len() {
            assert(flavor_of(types, post[i].id.typename) == Some(TypeFlavor::Lazy));
            assert(false);
        }
        assert(pre[i].id == id);
    }
}

/// Everything `lemma_resolve_refs_props` guarantees about one classification
/// that ended without error.
pub open spec fn refs_done_props(
    types: Seq<TypeModel>,
    objs: Seq<ObjectModel>,
    refs: Seq<RefModel>,
    res: Seq<RefModel>,
    unres: Seq<RefModel>,
    objs2: Seq<ObjectModel>,
    res2: Seq<RefModel>,
    unres2: Seq<RefModel>,
) -> bool {
    &&& grown_table(types, objs, objs2)
    &&& res.len() <= res2.len() && res2.subrange(0, res.len() as int) == res
    &&& unres.len() <= unres2.len() && unres2.subrange(0, unres.len() as int) == unres
    &&& forall|b: int| res.len() <= b < res2.len() ==> refs.contains(#[trigger] res2[b])
    &&& forall|b: int| unres.len() <= b < unres2.len() ==> refs.contains(#[trigger] unres2[b])
    &&& forall|a: int|
        0 <= a < refs.len() ==> flavor_of(types, (#[trigger] refs[a]).typename) is Some
    &&& distinct_refs(res2)
    &&& distinct_refs(unres2)
    &&& disjoint_refs(res2, unres2)
}

proof fn lemma_resolve_refs_props(
    types: Seq<TypeModel>,
    objs: Seq<ObjectModel>,
    refs: Seq<RefModel>,
    res: Seq<RefModel>,
    unres: Seq<RefModel>,
    line: usize,
)
    requires
        distinct_ids(objs),
        distinct_refs(refs),
        distinct_refs(res),
        distinct_refs(unres),
        disjoint_refs(refs, res),
        disjoint_refs(refs, unres),
        disjoint_refs(res, unres),
    ensures
        match resolve_refs(types, objs, refs, res, unres, line) {
            RefsOutcome::Done { objs: objs2, res: res2, unres: unres2 } => refs_done_props(
                types,
                objs,
                refs,
                res,
                unres,
                objs2,
                res2,
                unres2,
            ) && forall|a: int|
                0 <= a < refs.len() ==> ref_resolution_acc(
                    types,
                    objs,
                    objs2,
                    res,
                    unres,
                    res2,
                    unres2,
                    #[trigger] refs[a],
                ),
            RefsOutcome::Failed { objs: objs2, err } => grown_table(types, objs, objs2) && (
            err is InvalidType) && exists|a: int|
                0 <= a < refs.len() && flavor_of(types, (#[trigger] refs[a]).typename) is None,
        },
    decreases refs.len(),
{
    if refs.len() == 0 {
        assert(objs.subrange(0, objs.len() as int) =~= objs);
        assert(res.subrange(0, res.len() as int) =~= res);
        assert(unres.subrange(0, unres.len() as int) =~= unres);
    } else {
        let r0 = refs[0];
        let rest = refs.drop_first();
        assert(forall|a: int| 0 <= a < rest.len() ==> rest[a] == refs[a + 1]);
        match flavor_of(types, r0.typename) {
            None => {
                assert(objs.subrange(0, objs.len() as int) =~= objs);
            },
            Some(TypeFlavor::Strict) => {
                if has_object(objs, r0.target()) {
                    lemma_resolve_refs_props(types, objs, rest, res.push(r0), unres, line);
                    step_transport(types, objs, objs, refs, res, unres, res.push(r0), unres, line);
                } else {
                    lemma_resolve_refs_props(types, objs, rest, res, unres.push(r0), line);
                    step_transport(types, objs, objs, refs, res, unres, res, unres.push(r0), line);
                }
            },
            Some(TypeFlavor::Lazy) => {
                let objs2 = if has_object(objs, r0.target()) {
                    objs
                } else {
                    objs.push(placeholder(r0.target()))
                };
                if !has_object(objs, r0.target()) {
                    assert(objs2.subrange(0, objs.len() as int) =~= objs);
                }
                lemma_resolve_refs_props(types, objs2, rest, res.push(r0), unres, line);
                step_transport(types, objs, objs2, refs, res, unres, res.push(r0), unres, line);
            },
            Some(TypeFlavor::Ignore) => {
                lemma_resolve_refs_props(types, objs, rest, res, unres, line);
                step_transport(types, objs, objs, refs, res, unres, res, unres, line);
            },
        }
    }
}

/// Where one reference ends up, relative to accumulators that may already
/// hold entries.
spec fn ref_resolution_acc(
    types: Seq<TypeModel>,
    objs: Seq<ObjectModel>,
    out_objs: Seq<ObjectModel>,
    res: Seq<RefModel>,
    unres: Seq<RefModel>,
    res2: Seq<RefModel>,
    unres2: Seq<RefModel>,
    r: RefModel,
) -> bool {
    match flavor_of(types, r.typename) {
        None => false,
        Some(TypeFlavor::Ignore) => (res2.contains(r) <==> res.contains(r)) && (unres2.contains(r)
            <==> unres.contains(r)),
        Some(TypeFlavor::Lazy) => res2.contains(r) && has_object(out_objs, r.target()) && (
        unres2.contains(r) <==> unres.contains(r)),
        Some(TypeFlavor::Strict) => (res2.contains(r) <==> (res.contains(r) || has_object(
            objs,
            r.target(),
        ))) && (unres2.contains(r) <==> (unres.contains(r) || !has_object(objs, r.target()))),
    }
}

/// One classification step: transport the recursive call's conclusions for
/// `refs.drop_first()` and the pushed accumulators back to `refs` and the
/// original accumulators.
proof fn step_transport(
    types: Seq<TypeModel>,
    objs: Seq<ObjectModel>,
    objs_mid: Seq<ObjectModel>,
    refs: Seq<RefModel>,
    res: Seq<RefModel>,
    unres: Seq<RefModel>,
    res_mid: Seq<RefModel>,
    unres_mid: Seq<RefModel>,
    line: usize,
)
    requires
        refs.len() > 0,
        distinct_refs(refs),
        distinct_refs(res),
        distinct_refs(unres),
        disjoint_refs(refs, res),
        disjoint_refs(refs, unres),
        disjoint_refs(res, unres),
        flavor_of(types, refs[0].typename) is Some,
        // the step for refs[0]
        ({
            let r0 = refs[0];
            match flavor_of(types, r0.typename) {
                None => false,
                Some(TypeFlavor::Ignore) => objs_mid == objs && res_mid == res && unres_mid
                    == unres,
                Some(TypeFlavor::Lazy) => res_mid == res.push(r0) && unres_mid == unres && objs_mid
                    == (if has_object(objs, r0.target()) {
                    objs
                } else {
                    objs.push(placeholder(r0.target()))
                }),
                Some(TypeFlavor::Strict) => unres_mid == (if has_object(objs, r0.target()) {
                    unres
                } else {
                    unres.push(r0)
                }) && res_mid == (if has_object(objs, r0.target()) {
                    res.push(r0)
                } else {
                    res
                }) && objs_mid == objs,
            }
        }),
        resolve_refs(types, objs_mid, refs.drop_first(), res_mid, unres_mid, line) == resolve_refs(
            types,
            objs,
            refs,
            res,
            unres,
            line,
        ),
        // conclusions of the recursive call
        match resolve_refs(types, objs_mid, refs.drop_first(), res_mid, unres_mid, line) {
            RefsOutcome::Done { objs: objs2, res: res2, unres: unres2 } => refs_done_props(
                types,
                objs_mid,
                refs.drop_first(),
                res_mid,
                unres_mid,
                objs2,
                res2,
                unres2,
            ) && forall|a: int|
                0 <= a < refs.drop_first().len() ==> ref_resolution_acc(
                    types,
                    objs_mid,
                    objs2,
                    res_mid,
                    unres_mid,
                    res2,
                    unres2,
                    #[trigger] refs.drop_first()[a],
                ),
            RefsOutcome::Failed { objs: objs2, err } => grown_table(types, objs_mid, objs2) && (
            err is InvalidType) && exists|a: int|
                0 <= a < refs.drop_first().len() && flavor_of(
                    types,
                    (#[trigger] refs.drop_first()[a]).typename,
                ) is None,
        },
    ensures
        match resolve_refs(types, objs, refs, res, unres, line) {
            RefsOutcome::Done { objs: objs2, res: res2, unres: unres2 } => refs_done_props(
                types,
                objs,
                refs,
                res,
                unres,
                objs2,
                res2,
                unres2,
            ) && forall|a: int|
                0 <= a < refs.len() ==> ref_resolution_acc(
                    types,
                    objs,
                    objs2,
                    res,
                    unres,
                    res2,
                    unres2,
                    #[trigger] refs[a],
                ),
            RefsOutcome::Failed { objs: objs2, err } => grown_table(types, objs, objs2) && (
            err is InvalidType) && exists|a: int|
                0 <= a < refs.len() && flavor_of(types, (#[trigger] refs[a]).typename) is None,
        },
{
    let r0 = refs[0];
    let rest = refs.drop_first();
    let fl = flavor_of(types, r0.typename);
    assert(forall|a: int| 0 <= a < rest.len() ==> rest[a] == refs[a + 1]);
    // the table only grows, by lazy placeholders
    assert(grown_table(types, objs, objs_mid)) by {
        if objs_mid != objs {
            assert(objs_mid.subrange(0, objs.len() as int) =~= objs);
        } else {
            assert(objs_mid.subrange(0, objs.len() as int) =~= objs);
        }
    }
    match resolve_refs(types, objs_mid, rest, res_mid, unres_mid, line) {
        RefsOutcome::Done { objs: objs2, res: res2, unres: unres2 } => {
            // table growth composes
            assert(grown_table(types, objs, objs2)) by {
                assert(objs2.subrange(0, objs_mid.len() as int) == objs_mid);
                assert forall|k: int| 0 <= k < objs.len() implies objs2[k] == objs[k] by {
                    assert(objs2.subrange(0, objs_mid.len() as int)[k] == objs2[k]);
                    assert(objs_mid.subrange(0, objs.len() as int)[k] == objs_mid[k]);
                }
                assert(objs2.subrange(0, objs.len() as int) =~= objs);
                assert forall|k: int|
                    objs.len() <= k < objs2.len() implies lazy_empty(
                    types,
                    #[trigger] objs2[k],
                ) by {
                    if k < objs_mid.len() {
                        assert(objs2.subrange(0, objs_mid.len() as int)[k] == objs2[k]);
                        assert(objs2[k] == objs_mid[k]);
                    }
                }
            }
            // accumulator prefixes compose
            assert(res2.subrange(0, res.len() as int) =~= res) by {
                assert(res2.subrange(0, res_mid.len() as int) == res_mid);
                assert forall|k: int| 0 <= k < res.len() implies res2[k] == res[k] by {
                    assert(res2.subrange(0, res_mid.len() as int)[k] == res2[k]);
                    if res_mid != res {
                        assert(res_mid[k] == res.push(r0)[k]);
                    }
                }
            }
            assert(unres2.subrange(0, unres.len() as int) =~= unres) by {
                assert(unres2.subrange(0, unres_mid.len() as int) == unres_mid);
                assert forall|k: int| 0 <= k < unres.len() implies unres2[k] == unres[k] by {
                    assert(unres2.subrange(0, unres_mid.len() as int)[k] == unres2[k]);
                    if unres_mid != unres {
                        assert(unres_mid[k] == unres.push(r0)[k]);
                    }
                }
            }
            // new entries of the accumulators come from refs
            assert forall|b: int| res.len() <= b < res2.len() implies refs.contains(
                #[trigger] res2[b],
            ) by {
                if b < res_mid.len() {
                    assert(res2.subrange(0, res_mid.len() as int)[b] == res2[b]);
                    if res_mid != res {
                        assert(res_mid[b] == res.push(r0)[b]);
                        assert(res2[b] == r0);
                    }
                } else {
                    assert(rest.contains(res2[b]));
                    let a = choose|a: int| 0 <= a < rest.len() && rest[a] == res2[b];
                    assert(refs[a + 1] == res2[b]);
                }
            }
            assert forall|b: int| unres.len() <= b < unres2.len() implies refs.contains(
                #[trigger] unres2[b],
            ) by {
                if b < unres_mid.len() {
                    assert(unres2.subrange(0, unres_mid.len() as int)[b] == unres2[b]);
                    if unres_mid != unres {
                        assert(unres_mid[b] == unres.push(r0)[b]);
                        assert(unres2[b] == r0);
                    }
                } else {
                    assert(rest.contains(unres2[b]));
                    let a = choose|a: int| 0 <= a < rest.len() && rest[a] == unres2[b];
                    assert(refs[a + 1] == unres2[b]);
                }
            }
            // every reference has a declared type
            assert forall|a: int|
                0 <= a < refs.len() implies flavor_of(
                types,
                (#[trigger] refs[a]).typename,
            ) is Some by {
                if a > 0 {
                    assert(rest[a - 1] == refs[a]);
                }
            }
            // classification per reference
            assert forall|a: int|
                0 <= a < refs.len() implies ref_resolution_acc(
                types,
                objs,
                objs2,
                res,
                unres,
                res2,
                unres2,
                #[trigger] refs[a],
            ) by {
                if a > 0 {
                    assert(rest[a - 1] == refs[a]);
                }
                lemma_step_single(
                    types, objs, objs_mid, refs, res, unres, res_mid, unres_mid, objs2, res2,
                    unres2, a, line,
                );
            }
        },
        RefsOutcome::Failed { objs: objs2, err } => {
            assert(grown_table(types, objs, objs2)) by {
                assert(objs2.subrange(0, objs_mid.len() as int) == objs_mid);
                assert forall|k: int| 0 <= k < objs.len() implies objs2[k] == objs[k] by {
                    assert(objs2.subrange(0, objs_mid.len() as int)[k] == objs2[k]);
                    assert(objs_mid.subrange(0, objs.len() as int)[k] == objs_mid[k]);
                }
                assert(objs2.subrange(0, objs.len() as int) =~= objs);
                assert forall|k: int|
                    objs.len() <= k < objs2.len() implies lazy_empty(
                    types,
                    #[trigger] objs2[k],
                ) by {
                    if k < objs_mid.len() {
                        assert(objs2.subrange(0, objs_mid.len() as int)[k] == objs2[k]);
                        assert(objs2[k] == objs_mid[k]);
                    }
                }
            }
            let a = choose|a: int|
                0 <= a < rest.len() && flavor_of(types, (#[trigger] rest[a]).typename) is None;
            assert(refs[a + 1] == rest[a]);
            assert(flavor_of(types, refs[a + 1].typename) is None);
        },
    }
}

} // verus!

verus! {

proof fn lemma_contains_push(s: Seq<RefModel>, x: RefModel, y: RefModel)
    ensures
        s.push(x).contains(y) <==> (s.contains(y) || y == x),
{
    if s.push(x).contains(y) {
        let b = choose|b: int| 0 <= b < s.push(x).len() && s.push(x)[b] == y;
        if b < s.len() {
            assert(s[b] == y);
        }
    }
    if s.contains(y) {
        let b = choose|b: int| 0 <= b < s.len() && s[b] == y;
        assert(s.push(x)[b] == y);
    }
    assert(s.push(x)[s.len() as int] == x);
}

proof fn lemma_has_object_push(objs: Seq<ObjectModel>, ph: ObjectModel, id: ObjectIdModel)
    ensures
        has_object(objs.push(ph), id) <==> (has_object(objs, id) || ph.id == id),
{
    if has_object(objs.push(ph), id) {
        let i = choose|i: int| 0 <= i < objs.push(ph).len() && objs.push(ph)[i].id == id;
        if i < objs.len() {
            assert(objs[i].id == id);
        }
    }
    if has_object(objs, id) {
        let i = choose|i: int| 0 <= i < objs.len() && objs[i].id == id;
        assert(objs.push(ph)[i].id == id);
    }
    assert(objs.push(ph)[objs.len() as int] == ph);
}

/// If everything a list gained beyond its kept prefix comes from `src`, and
/// `x` is not in `src`, then `x` is in the new list exactly when it was in
/// the prefix.
proof fn lemma_contains_stable(
    base: Seq<RefModel>,
    full2: Seq<RefModel>,
    src: Seq<RefModel>,
    x: RefModel,
)
    requires
        base.len() <= full2.len(),
        full2.subrange(0, base.len() as int) == base,
        forall|b: int| base.len() <= b < full2.len() ==> src.contains(#[trigger] full2[b]),
        !src.contains(x),
    ensures
        full2.contains(x) <==> base.contains(x),
{
    if full2.contains(x) {
        let b = choose|b: int| 0 <= b < full2.len() && full2[b] == x;
        if b < base.len() {
            assert(full2.subrange(0, base.len() as int)[b] == full2[b]);
            assert(base[b] == x);
        }
    }
    if base.contains(x) {
        let b = choose|b: int| 0 <= b < base.len() && base[b] == x;
        assert(full2.subrange(0, base.len() as int)[b] == base[b]);
        assert(full2[b] == x);
    }
}

proof fn lemma_step_single(
    types: Seq<TypeModel>,
    objs: Seq<ObjectModel>,
    objs_mid: Seq<ObjectModel>,
    refs: Seq<RefModel>,
    res: Seq<RefModel>,
    unres: Seq<RefModel>,
    res_mid: Seq<RefModel>,
    unres_mid: Seq<RefModel>,
    objs2: Seq<ObjectModel>,
    res2: Seq<RefModel>,
    unres2: Seq<RefModel>,
    a: int,
    line: usize,
)
    requires
        refs.len() > 0,
        0 <= a < refs.len(),
        distinct_refs(refs),
        flavor_of(types, refs[0].typename) is Some,
        ({
            let r0 = refs[0];
            match flavor_of(types, r0.typename) {
                None => false,
                Some(TypeFlavor::Ignore) => objs_mid == objs && res_mid == res && unres_mid
                    == unres,
                Some(TypeFlavor::Lazy) => res_mid == res.push(r0) && unres_mid == unres && objs_mid
                    == (if has_object(objs, r0.target()) {
                    objs
                } else {
                    objs.push(placeholder(r0.target()))
                }),
                Some(TypeFlavor::Strict) => unres_mid == (if has_object(objs, r0.target()) {
                    unres
                } else {
                    unres.push(r0)
                }) && res_mid == (if has_object(objs, r0.target()) {
                    res.push(r0)
                } else {
                    res
                }) && objs_mid == objs,
            }
        }),
        refs_done_props(
            types,
            objs_mid,
            refs.drop_first(),
            res_mid,
            unres_mid,
            objs2,
            res2,
            unres2,
        ),
        a > 0 ==> ref_resolution_acc(
            types,
            objs_mid,
            objs2,
            res_mid,
            unres_mid,
            res2,
            unres2,
            refs[a],
        ),
    ensures
        ref_resolution_acc(types, objs, objs2, res, unres, res2, unres2, refs[a]),
{
    let r0 = refs[0];
    let rest = refs.drop_first();
    let r = refs[a];
    assert(forall|k: int| 0 <= k < rest.len() ==> rest[k] == refs[k + 1]);
    assert(!rest.contains(r0)) by {
        if rest.contains(r0) {
            let k = choose|k: int| 0 <= k < rest.len() && rest[k] == r0;
            assert(refs[k + 1] == refs[0]);
        }
    }
    if a == 0 {
        match flavor_of(types, r0.typename) {
            None => {},
            Some(TypeFlavor::Ignore) => {
                lemma_contains_stable(res_mid, res2, rest, r0);
                lemma_contains_stable(unres_mid, unres2, rest, r0);
            },
            Some(TypeFlavor::Lazy) => {
                // resolved: the pushed entry is kept as a prefix of the result
                assert(res2.subrange(0, res_mid.len() as int)[res.len() as int] == res2[res.len()
                    as int]);
                assert(res_mid[res.len() as int] == r0);
                assert(res2.contains(r0));
                // the target exists in the mid table, hence in the final one
                assert(has_object(objs_mid, r0.target())) by {
                    if has_object(objs, r0.target()) {
                        let i = choose|i: int|
                            0 <= i < objs.len() && objs[i].id == r0.target();
                        assert(objs_mid[i].id == r0.target());
                    } else {
                        assert(objs_mid[objs.len() as int].id == r0.target());
                    }
                }
                lemma_has_object_grow(objs_mid, objs2, r0.target());
                lemma_contains_stable(unres_mid, unres2, rest, r0);
            },
            Some(TypeFlavor::Strict) => {
                if has_object(objs, r0.target()) {
                    assert(res2.subrange(0, res_mid.len() as int)[res.len() as int]
                        == res2[res.len() as int]);
                    assert(res_mid[res.len() as int] == r0);
                    assert(res2.contains(r0));
                    lemma_contains_stable(unres_mid, unres2, rest, r0);
                } else {
                    assert(unres2.subrange(0, unres_mid.len() as int)[unres.len() as int]
                        == unres2[unres.len() as int]);
                    assert(unres_mid[unres.len() as int] == r0);
                    assert(unres2.contains(r0));
                    lemma_contains_stable(res_mid, res2, rest, r0);
                }
            },
        }
    } else {
        assert(rest[a - 1] == r);
        assert(r != r0);
        // membership in the mid accumulators equals membership in the
        // original ones, because only r0 was pushed
        assert(res_mid.contains(r) <==> res.contains(r)) by {
            if res_mid != res {
                lemma_contains_push(res, r0, r);
            }
        }
        assert(unres_mid.contains(r) <==> unres.contains(r)) by {
            if unres_mid != unres {
                lemma_contains_push(unres, r0, r);
            }
        }
        match flavor_of(types, r.typename) {
            None => {},
            Some(TypeFlavor::Ignore) => {},
            Some(TypeFlavor::Lazy) => {},
            Some(TypeFlavor::Strict) => {
                // a strict target's presence is unchanged by a lazy placeholder
                assert(has_object(objs_mid, r.target()) <==> has_object(objs, r.target())) by {
                    if objs_mid != objs {
                        let ph = placeholder(r0.target());
                        lemma_has_object_push(objs, ph, r.target());
                        if ph.id == r.target() {
                            assert(flavor_of(types, r.typename) == flavor_of(
                                types,
                                r0.typename,
                            ));
                        }
                    }
                }
            },
        }
    }
}

} // verus!

verus! {

/// Some object among `i..n` holds a reference to an undeclared type.
pub open spec fn some_undeclared(
    types: Seq<TypeModel>,
    objs: Seq<ObjectModel>,
    i: int,
    n: int,
) -> bool {
    exists|k: int, a: int|
        i <= k < n && 0 <= a < objs[k].unresolved_refs.len() && flavor_of(
            types,
            (#[trigger] objs[k].unresolved_refs[a]).typename,
        ) is None
}

/// How one object's reference lists come out of a successful pass, relative
/// to the object table `objs` as it stood when the object was examined.
pub open spec fn classified(
    types: Seq<TypeModel>,
    objs: Seq<ObjectModel>,
    out: Seq<ObjectModel>,
    k: int,
) -> bool {
    let rs = objs[k].unresolved_refs;
    &&& forall|a: int|
        0 <= a < rs.len() ==> flavor_of(types, (#[trigger] rs[a]).typename) is Some
    &&& forall|a: int|
        0 <= a < rs.len() ==> ref_resolution(
            types,
            objs,
            out,
            out[k].refs,
            out[k].unresolved_refs,
            #[trigger] rs[a],
        )
    &&& out[k].refs.len() >= objs[k].refs.len()
    &&& out[k].refs.subrange(0, objs[k].refs.len() as int) == objs[k].refs
    &&& forall|x: RefModel|
        out[k].refs.contains(x) ==> rs.contains(x) || objs[k].refs.contains(x)
    &&& forall|x: RefModel| out[k].unresolved_refs.contains(x) ==> rs.contains(x)
}

/// Everything a successful pass over `i..n` guarantees.
pub open spec fn pass_props(
    types: Seq<TypeModel>,
    objs: Seq<ObjectModel>,
    i: int,
    n: int,
    out: Seq<ObjectModel>,
) -> bool {
    &&& out.len() >= objs.len()
    &&& forall|k: int|
        0 <= k < objs.len() ==> (#[trigger] out[k]).id == objs[k].id && out[k].contents
            == objs[k].contents && out[k].lineno == objs[k].lineno
    &&& forall|k: int| 0 <= k < i ==> #[trigger] out[k] == objs[k]
    &&& forall|k: int| n <= k < objs.len() ==> #[trigger] out[k] == objs[k]
    &&& forall|k: int| objs.len() <= k < out.len() ==> lazy_empty(types, #[trigger] out[k])
    &&& distinct_ids(out)
    &&& forall|k: int| 0 <= k < out.len() ==> (#[trigger] out[k]).wf()
    &&& forall|k: int| i <= k < n ==> classified(types, objs, out, k)
    &&& forall|id: ObjectIdModel| has_object(objs, id) ==> has_object(out, id)
    &&& forall|id: ObjectIdModel|
        has_object(out, id) ==> has_object(objs, id) || flavor_of(types, id.typename) == Some(
            TypeFlavor::Lazy,
        )
}

/// Everything a failed pass guarantees: the table only grew by placeholders
/// and objects already processed, the error names an invalid type, and some
/// unprocessed object indeed held a reference to an undeclared type.
pub open spec fn pass_fail_props(
    types: Seq<TypeModel>,
    objs: Seq<ObjectModel>,
    i: int,
    n: int,
    out: Seq<ObjectModel>,
    err: ErrorModel,
) -> bool {
    &&& out.len() >= objs.len()
    &&& forall|k: int| 0 <= k < objs.len() ==> (#[trigger] out[k]).id == objs[k].id
    &&& distinct_ids(out)
    &&& forall|k: int| 0 <= k < out.len() ==> (#[trigger] out[k]).wf()
    &&& err is InvalidType
    &&& some_undeclared(types, objs, i, n)
}

proof fn lemma_has_object_ids(pre: Seq<ObjectModel>, post: Seq<ObjectModel>, id: ObjectIdModel)
    requires
        pre.len() == post.len(),
        forall|k: int| 0 <= k < pre.len() ==> (#[trigger] post[k]).id == pre[k].id,
    ensures
        has_object(post, id) <==> has_object(pre, id),
{
    if has_object(pre, id) {
        let w = choose|w: int| 0 <= w < pre.len() && pre[w].id == id;
        assert(post[w].id == id);
    }
    if has_object(post, id) {
        let w = choose|w: int| 0 <= w < post.len() && post[w].id == id;
        assert(pre[w].id == id);
    }
}

pub proof fn lemma_resolve_pass_props(
    types: Seq<TypeModel>,
    objs: Seq<ObjectModel>,
    i: int,
    n: int,
)
    requires
        0 <= i <= n <= objs.len(),
        distinct_ids(objs),
        forall|k: int| 0 <= k < objs.len() ==> (#[trigger] objs[k]).wf(),
        forall|k: int| n <= k < objs.len() ==> lazy_empty(types, #[trigger] objs[k]),
    ensures
        match resolve_pass(types, objs, i, n) {
            PassOutcome::Done(out) => pass_props(types, objs, i, n, out),
            PassOutcome::Failed { objs: out, err } => pass_fail_props(
                types,
                objs,
                i,
                n,
                out,
                err,
            ),
        },
    decreases n - i,
{
    if i >= n {
        let out = objs;
        assert forall|k: int| i <= k < n implies classified(types, objs, out, k) by {
        }
    } else {
        let o = objs[i];
        let line = lineno_or_zero(o.lineno);
        let e0 = Seq::<RefModel>::empty();
        assert(disjoint_refs(o.unresolved_refs, o.refs)) by {
            assert(o.wf());
            assert forall|x: int, y: int|
                0 <= x < o.unresolved_refs.len() && 0 <= y < o.refs.len()
                    implies o.unresolved_refs[x] != o.refs[y] by {
                assert(o.refs[y] != o.unresolved_refs[x]);
            }
        }
        lemma_resolve_refs_props(types, objs, o.unresolved_refs, o.refs, e0, line);
        match resolve_refs(types, objs, o.unresolved_refs, o.refs, e0, line) {
            RefsOutcome::Failed { objs: objs2, err } => {
                // the failed classification names an undeclared type of object i
                assert(some_undeclared(types, objs, i, n)) by {
                    let a = choose|a: int|
                        0 <= a < o.unresolved_refs.len() && flavor_of(
                            types,
                            (#[trigger] o.unresolved_refs[a]).typename,
                        ) is None;
                    assert(0 <= a < objs[i].unresolved_refs.len() && flavor_of(
                        types,
                        objs[i].unresolved_refs[a].typename,
                    ) is None);
                }
                assert forall|k: int| 0 <= k < objs2.len() implies (#[trigger] objs2[k]).wf() by {
                    if k < objs.len() {
                        assert(objs2.subrange(0, objs.len() as int)[k] == objs2[k]);
                        assert(objs2[k] == objs[k]);
                    } else {
                        assert(lazy_empty(types, objs2[k]));
                    }
                }
                assert forall|k: int| 0 <= k < objs.len() implies (#[trigger] objs2[k]).id
                    == objs[k].id by {
                    assert(objs2.subrange(0, objs.len() as int)[k] == objs2[k]);
                }
            },
            RefsOutcome::Done { objs: objs2, res: res2, unres: unres2 } => {
                let updated = ObjectModel { refs: res2, unresolved_refs: unres2, ..objs2[i] };
                let objs3 = objs2.update(i, updated);
                // facts about objs2 relative to objs
                assert forall|k: int| 0 <= k < objs.len() implies objs2[k] == objs[k] by {
                    assert(objs2.subrange(0, objs.len() as int)[k] == objs2[k]);
                }
                // requirements of the recursive call
                assert(distinct_ids(objs3)) by {
                    assert forall|x: int| 0 <= x < objs3.len() implies (#[trigger] objs3[x]).id
                        == objs2[x].id by {}
                    assert forall|x: int, y: int|
                        0 <= x < y < objs3.len() implies objs3[x].id != objs3[y].id by {
                        assert(objs2[x].id != objs2[y].id);
                    }
                }
                assert forall|k: int| 0 <= k < objs3.len() implies (#[trigger] objs3[k]).wf() by {
                    if k == i {
                        assert(objs3[k] == updated);
                    } else if k < objs.len() {
                        assert(objs3[k] == objs[k]);
                    } else {
                        assert(lazy_empty(types, objs2[k]));
                        assert(objs3[k] == objs2[k]);
                    }
                }
                assert forall|k: int|
                    n <= k < objs3.len() implies lazy_empty(types, #[trigger] objs3[k]) by {
                    if k < objs.len() {
                        assert(objs3[k] == objs[k]);
                    } else {
                        assert(objs3[k] == objs2[k]);
                    }
                }
                lemma_resolve_pass_props(types, objs3, i + 1, n);
                match resolve_pass(types, objs3, i + 1, n) {
                    PassOutcome::Done(out) => {
                        compose_done(types, objs, i, n, objs2, res2, unres2, objs3, out, line);
                    },
                    PassOutcome::Failed { objs: out, err } => {
                        assert(resolve_pass(types, objs, i, n) == PassOutcome::Failed {
                            objs: out,
                            err,
                        });
                        assert forall|k: int| 0 <= k < objs.len() implies (#[trigger] out[k]).id
                            == objs[k].id by {
                            assert(out[k].id == objs3[k].id);
                            assert(objs3[k].id == objs2[k].id);
                        }
                        assert(some_undeclared(types, objs, i, n)) by {
                            let (k, a) = choose|k: int, a: int|
                                i + 1 <= k < n && 0 <= a < objs3[k].unresolved_refs.len()
                                    && flavor_of(
                                    types,
                                    (#[trigger] objs3[k].unresolved_refs[a]).typename,
                                ) is None;
                            assert(objs3[k] == objs[k]);
                            assert(0 <= a < objs[k].unresolved_refs.len() && flavor_of(
                                types,
                                objs[k].unresolved_refs[a].typename,
                            ) is None);
                        }
                    },
                }
            },
        }
    }
}

} // verus!

verus! {

/// Compose the classification of object `i` with a successful pass over the
/// rest.
proof fn compose_done(
    types: Seq<TypeModel>,
    objs: Seq<ObjectModel>,
    i: int,
    n: int,
    objs2: Seq<ObjectModel>,
    res2: Seq<RefModel>,
    unres2: Seq<RefModel>,
    objs3: Seq<ObjectModel>,
    out: Seq<ObjectModel>,
    line: usize,
)
    requires
        0 <= i < n <= objs.len(),
        distinct_ids(objs),
        forall|k: int| 0 <= k < objs.len() ==> (#[trigger] objs[k]).wf(),
        forall|k: int| n <= k < objs.len() ==> lazy_empty(types, #[trigger] objs[k]),
        refs_done_props(
            types,
            objs,
            objs[i].unresolved_refs,
            objs[i].refs,
            Seq::<RefModel>::empty(),
            objs2,
            res2,
            unres2,
        ),
        forall|a: int|
            0 <= a < objs[i].unresolved_refs.len() ==> ref_resolution_acc(
                types,
                objs,
                objs2,
                objs[i].refs,
                Seq::<RefModel>::empty(),
                res2,
                unres2,
                #[trigger] objs[i].unresolved_refs[a],
            ),
        objs3 == objs2.update(
            i,
            ObjectModel { refs: res2, unresolved_refs: unres2, ..objs2[i] },
        ),
        pass_props(types, objs3, i + 1, n, out),
    ensures
        pass_props(types, objs, i, n, out),
{
    let rs = objs[i].unresolved_refs;
    let e0 = Seq::<RefModel>::empty();
    assert forall|k: int| 0 <= k < objs.len() implies objs2[k] == objs[k] by {
        assert(objs2.subrange(0, objs.len() as int)[k] == objs2[k]);
    }
    assert(objs3.len() == objs2.len());
    assert(forall|k: int| 0 <= k < objs3.len() ==> (#[trigger] objs3[k]).id == objs2[k].id);
    // fields of the original objects survive
    assert forall|k: int|
        0 <= k < objs.len() implies (#[trigger] out[k]).id == objs[k].id && out[k].contents
        == objs[k].contents && out[k].lineno == objs[k].lineno by {
        assert(out[k].id == objs3[k].id && out[k].contents == objs3[k].contents && out[k].lineno
            == objs3[k].lineno);
        if k != i {
            assert(objs3[k] == objs2[k]);
        }
    }
    assert forall|k: int| 0 <= k < i implies #[trigger] out[k] == objs[k] by {
        assert(out[k] == objs3[k]);
        assert(objs3[k] == objs2[k]);
    }
    assert forall|k: int| n <= k < objs.len() implies #[trigger] out[k] == objs[k] by {
        assert(out[k] == objs3[k]);
        assert(objs3[k] == objs2[k]);
    }
    assert forall|k: int|
        objs.len() <= k < out.len() implies lazy_empty(types, #[trigger] out[k]) by {
        if k < objs3.len() {
            assert(out[k] == objs3[k]);
            assert(objs3[k] == objs2[k]);
            assert(lazy_empty(types, objs2[k]));
        }
    }
    // presence of identifiers only grows, and only by lazy ones
    assert forall|id: ObjectIdModel| has_object(objs, id) implies has_object(out, id) by {
        lemma_has_object_grow(objs, objs2, id);
        lemma_has_object_ids(objs2, objs3, id);
    }
    assert forall|id: ObjectIdModel|
        has_object(out, id) implies has_object(objs, id) || flavor_of(types, id.typename) == Some(
        TypeFlavor::Lazy,
    ) by {
        if !has_object(objs, id) {
            assert(has_object(objs3, id) || flavor_of(types, id.typename) == Some(
                TypeFlavor::Lazy,
            ));
            if has_object(objs3, id) {
                lemma_has_object_ids(objs2, objs3, id);
                let w = choose|w: int| 0 <= w < objs2.len() && objs2[w].id == id;
                if w < objs.len() {
                    assert(objs[w].id == id);
                    assert(false);
                } else {
                    assert(lazy_empty(types, objs2[w]));
                }
            }
        }
    }
    // classification of object i itself
    assert(out[i as int] == objs3[i as int]);
    assert(out[i as int].refs == res2 && out[i as int].unresolved_refs == unres2);
    let pre_res = objs[i].refs;
    // nothing an unresolved reference names is already resolved
    assert forall|a: int| 0 <= a < rs.len() implies !pre_res.contains(#[trigger] rs[a]) by {
        if pre_res.contains(rs[a]) {
            let y = choose|y: int| 0 <= y < pre_res.len() && pre_res[y] == rs[a];
            assert(objs[i].wf());
            assert(pre_res[y] != rs[a]);
        }
    }
    assert(classified(types, objs, out, i)) by {
        assert forall|a: int|
            0 <= a < rs.len() implies ref_resolution(
            types,
            objs,
            out,
            out[i as int].refs,
            out[i as int].unresolved_refs,
            #[trigger] rs[a],
        ) by {
            let r = rs[a];
            assert(ref_resolution_acc(types, objs, objs2, pre_res, e0, res2, unres2, r));
            assert(!e0.contains(r));
            assert(!pre_res.contains(r));
            match flavor_of(types, r.typename) {
                None => {},
                Some(TypeFlavor::Ignore) => {},
                Some(TypeFlavor::Lazy) => {
                    lemma_has_object_ids(objs2, objs3, r.target());
                    let w = choose|w: int| 0 <= w < objs3.len() && objs3[w].id == r.target();
                    assert(has_object(objs3, r.target()));
                },
                Some(TypeFlavor::Strict) => {},
            }
        }
        assert(res2.subrange(0, pre_res.len() as int) == pre_res);
        assert forall|x: RefModel|
            out[i as int].refs.contains(x) implies rs.contains(x) || pre_res.contains(x) by {
            let b = choose|b: int| 0 <= b < res2.len() && res2[b] == x;
            if b < pre_res.len() {
                assert(res2.subrange(0, pre_res.len() as int)[b] == res2[b]);
                assert(pre_res[b] == x);
            } else {
                assert(rs.contains(res2[b]));
            }
        }
        assert forall|x: RefModel|
            out[i as int].unresolved_refs.contains(x) implies rs.contains(x) by {
            let b = choose|b: int| 0 <= b < unres2.len() && unres2[b] == x;
            assert(rs.contains(unres2[b]));
        }
    }
    // classification of the later objects transports back
    assert forall|k: int| i <= k < n implies classified(types, objs, out, k) by {
        if k > i {
            assert(classified(types, objs3, out, k));
            assert(objs3[k] == objs2[k]);
            assert(objs3[k] == objs[k]);
            let rsk = objs[k].unresolved_refs;
            assert forall|a: int|
                0 <= a < rsk.len() implies ref_resolution(
                types,
                objs,
                out,
                out[k].refs,
                out[k].unresolved_refs,
                #[trigger] rsk[a],
            ) by {
                let r = rsk[a];
                assert(objs3[k].unresolved_refs[a] == r);
                assert(ref_resolution(
                    types,
                    objs3,
                    out,
                    out[k].refs,
                    out[k].unresolved_refs,
                    r,
                ));
                match flavor_of(types, r.typename) {
                    None => {},
                    Some(TypeFlavor::Ignore) => {},
                    Some(TypeFlavor::Lazy) => {},
                    Some(TypeFlavor::Strict) => {
                        lemma_strict_has_stable(types, objs, objs2, r.target());
                        lemma_has_object_ids(objs2, objs3, r.target());
                    },
                }
            }
            assert(objs3[k].refs == objs[k].refs);
            assert forall|x: RefModel|
                out[k].refs.contains(x) implies rsk.contains(x) || objs[k].refs.contains(x) by {
                assert(objs3[k].unresolved_refs == rsk);
            }
            assert forall|x: RefModel|
                out[k].unresolved_refs.contains(x) implies rsk.contains(x) by {
                assert(objs3[k].unresolved_refs == rsk);
            }
        }
    }
}

} // verus!

verus! {

// ---------------------------------------------------------------------------
// Laws of resolution
// ---------------------------------------------------------------------------
/// After a successful resolution pass over a well-formed database in which
/// no already-resolved reference names an ignore-flavored type (trivially
/// so before the first resolution, when every resolved set is empty), no
/// object holds a reference to an ignore-flavored type, in either reference
/// list: such references are dropped, never moved.
pub proof fn lemma_resolution_drops_ignored(
    db: DatabaseModel,
    out: Seq<ObjectModel>,
    k: int,
    x: RefModel,
)
    requires
        db.wf(),
        resolve_model(db) == PassOutcome::Done(out),
        forall|k2: int, x2: RefModel|
            0 <= k2 < db.objects.len() && #[trigger] db.objects[k2].refs.contains(x2)
                ==> flavor_of(db.types, x2.typename) != Some(TypeFlavor::Ignore),
        0 <= k < out.len(),
        out[k].refs.contains(x) || out[k].unresolved_refs.contains(x),
    ensures
        flavor_of(db.types, x.typename) != Some(TypeFlavor::Ignore),
{
    let n = db.objects.len() as int;
    lemma_resolve_pass_props(db.types, db.objects, 0, n);
    if k < n {
        assert(classified(db.types, db.objects, out, k));
        let rs = db.objects[k].unresolved_refs;
        assert(rs.contains(x) || db.objects[k].refs.contains(x));
        if rs.contains(x) {
            let a = choose|a: int| 0 <= a < rs.len() && rs[a] == x;
            assert(ref_resolution(
                db.types,
                db.objects,
                out,
                out[k].refs,
                out[k].unresolved_refs,
                rs[a],
            ));
        }
    } else {
        assert(lazy_empty(db.types, out[k]));
    }
}

/// After a successful resolution pass, every reference to a lazy-flavored
/// type has been resolved: its target object exists and the referencing
/// object's resolved set holds the reference.
pub proof fn lemma_lazy_refs_resolved(
    db: DatabaseModel,
    out: Seq<ObjectModel>,
    k: int,
    a: int,
)
    requires
        db.wf(),
        resolve_model(db) == PassOutcome::Done(out),
        0 <= k < db.objects.len(),
        0 <= a < db.objects[k].unresolved_refs.len(),
        flavor_of(db.types, db.objects[k].unresolved_refs[a].typename) == Some(TypeFlavor::Lazy),
    ensures
        has_object(out, db.objects[k].unresolved_refs[a].target()),
        out[k].refs.contains(db.objects[k].unresolved_refs[a]),
        !out[k].unresolved_refs.contains(db.objects[k].unresolved_refs[a]),
{
    let n = db.objects.len() as int;
    lemma_resolve_pass_props(db.types, db.objects, 0, n);
    assert(classified(db.types, db.objects, out, k));
    let rs = db.objects[k].unresolved_refs;
    assert(ref_resolution(db.types, db.objects, out, out[k].refs, out[k].unresolved_refs, rs[a]));
}

/// After a successful resolution pass, a strict reference is resolved
/// exactly when its target existed when the pass began; otherwise it stays
/// unresolved.
pub proof fn lemma_strict_refs_decided(
    db: DatabaseModel,
    out: Seq<ObjectModel>,
    k: int,
    a: int,
)
    requires
        db.wf(),
        resolve_model(db) == PassOutcome::Done(out),
        0 <= k < db.objects.len(),
        0 <= a < db.objects[k].unresolved_refs.len(),
        flavor_of(db.types, db.objects[k].unresolved_refs[a].typename) == Some(
            TypeFlavor::Strict,
        ),
    ensures
        out[k].refs.contains(db.objects[k].unresolved_refs[a]) <==> has_object(
            db.objects,
            db.objects[k].unresolved_refs[a].target(),
        ),
        out[k].unresolved_refs.contains(db.objects[k].unresolved_refs[a]) <==> !has_object(
            db.objects,
            db.objects[k].unresolved_refs[a].target(),
        ),
{
    let n = db.objects.len() as int;
    lemma_resolve_pass_props(db.types, db.objects, 0, n);
    assert(classified(db.types, db.objects, out, k));
    let rs = db.objects[k].unresolved_refs;
    assert(ref_resolution(db.types, db.objects, out, out[k].refs, out[k].unresolved_refs, rs[a]));
}

/// A resolution pass never creates an object of a strict-flavored type: an
/// identifier of such a type is present afterwards exactly when it was
/// present before.
pub proof fn lemma_strict_objects_not_created(
    db: DatabaseModel,
    out: Seq<ObjectModel>,
    id: ObjectIdModel,
)
    requires
        db.wf(),
        resolve_model(db) == PassOutcome::Done(out),
        flavor_of(db.types, id.typename) == Some(TypeFlavor::Strict),
    ensures
        has_object(out, id) <==> has_object(db.objects, id),
{
    let n = db.objects.len() as int;
    lemma_resolve_pass_props(db.types, db.objects, 0, n);
}

/// Resolution fails exactly when some object holds a reference to an
/// undeclared type, and then the error is the invalid-type error, whatever
/// the flavors of the other references.
pub proof fn lemma_undeclared_type_detected(db: DatabaseModel)
    requires
        db.wf(),
    ensures
        resolve_model(db) is Failed <==> some_undeclared(
            db.types,
            db.objects,
            0,
            db.objects.len() as int,
        ),
        resolve_model(db) matches PassOutcome::Failed { err, .. } ==> err is InvalidType,
{
    let n = db.objects.len() as int;
    lemma_resolve_pass_props(db.types, db.objects, 0, n);
    match resolve_model(db) {
        PassOutcome::Done(out) => {
            if some_undeclared(db.types, db.objects, 0, n) {
                let (k, a) = choose|k: int, a: int|
                    0 <= k < n && 0 <= a < db.objects[k].unresolved_refs.len() && flavor_of(
                        db.types,
                        (#[trigger] db.objects[k].unresolved_refs[a]).typename,
                    ) is None;
                assert(classified(db.types, db.objects, out, k));
                assert(flavor_of(db.types, db.objects[k].unresolved_refs[a].typename) is Some);
            }
        },
        PassOutcome::Failed { .. } => {},
    }
}

} // verus!

verus! {

/// Two objects inserted one after the other, both awaiting automatic
/// identifiers and of the same type name, receive distinct identifiers,
/// whether or not either insertion is accepted: the per-type counter moves
/// on every assignment and distinct numbers print as distinct strings.
pub proof fn lemma_auto_idents_distinct(db0: DatabaseModel, o1: ObjectModel, o2: ObjectModel)
    requires
        o1.id.ident is None,
        o2.id.ident is None,
        o1.id.typename == o2.id.typename,
        next_counter(db0.counters, o1.id.typename) < u64::MAX,
    ensures
        assigned_id(db0.counters, o1) != assigned_id(add_object_model(db0, o1).0.counters, o2),
{
    let name = o1.id.typename;
    let c = next_counter(db0.counters, name);
    let db1 = add_object_model(db0, o1).0;
    assert(db1.counters == db0.counters.insert(name, counter_bump(c)));
    assert(next_counter(db1.counters, name) == c + 1);
    lemma_dec_str_injective(c, (c + 1) as u64);
    assert(assigned_id(db0.counters, o1).ident == Some(dec_str(c)));
    assert(assigned_id(db1.counters, o2).ident == Some(dec_str((c + 1) as u64)));
}

} // verus!


verus! {

/// The state a successful pass leaves: every unresolved reference names a
/// strict-flavored type whose target does not exist.
pub open spec fn fully_resolved(types: Seq<TypeModel>, objs: Seq<ObjectModel>) -> bool {
    forall|k: int, a: int|
        0 <= k < objs.len() && 0 <= a < objs[k].unresolved_refs.len() ==> flavor_of(
            types,
            (#[trigger] objs[k].unresolved_refs[a]).typename,
        ) == Some(TypeFlavor::Strict) && !has_object(objs, objs[k].unresolved_refs[a].target())
}

/// Classifying references that are all strict misses changes nothing: the
/// resolved accumulator stays as it is and every reference stays
/// unresolved, in order.
proof fn lemma_refs_noop(
    types: Seq<TypeModel>,
    objs: Seq<ObjectModel>,
    refs: Seq<RefModel>,
    res: Seq<RefModel>,
    unres: Seq<RefModel>,
    line: usize,
)
    requires
        forall|a: int|
            0 <= a < refs.len() ==> flavor_of(types, (#[trigger] refs[a]).typename) == Some(
                TypeFlavor::Strict,
            ) && !has_object(objs, refs[a].target()),
    ensures
        resolve_refs(types, objs, refs, res, unres, line) == (RefsOutcome::Done {
            objs,
            res,
            unres: unres + refs,
        }),
    decreases refs.len(),
{
    if refs.len() == 0 {
        assert(unres + refs =~= unres);
    } else {
        let r0 = refs[0];
        let rest = refs.drop_first();
        assert(forall|a: int| 0 <= a < rest.len() ==> rest[a] == refs[a + 1]);
        lemma_refs_noop(types, objs, rest, res, unres.push(r0), line);
        assert(unres.push(r0) + rest =~= unres + refs);
    }
}

/// A pass over objects that are already fully resolved is the identity.
proof fn lemma_pass_noop(types: Seq<TypeModel>, objs: Seq<ObjectModel>, i: int, n: int)
    requires
        0 <= i <= n == objs.len(),
        forall|k: int| 0 <= k < objs.len() ==> (#[trigger] objs[k]).wf(),
        fully_resolved(types, objs),
    ensures
        resolve_pass(types, objs, i, n) == PassOutcome::Done(objs),
    decreases n - i,
{
    if i < n {
        let o = objs[i];
        let line = lineno_or_zero(o.lineno);
        let e0 = Seq::<RefModel>::empty();
        assert forall|a: int|
            0 <= a < o.unresolved_refs.len() implies flavor_of(
            types,
            (#[trigger] o.unresolved_refs[a]).typename,
        ) == Some(TypeFlavor::Strict) && !has_object(objs, o.unresolved_refs[a].target()) by {
            assert(objs[i].unresolved_refs[a] == o.unresolved_refs[a]);
        }
        lemma_refs_noop(types, objs, o.unresolved_refs, o.refs, e0, line);
        assert(e0 + o.unresolved_refs =~= o.unresolved_refs);
        let upd = ObjectModel { refs: o.refs, unresolved_refs: o.unresolved_refs, ..o };
        assert(upd =~= o);
        assert(objs.update(i, upd) =~= objs);
        lemma_pass_noop(types, objs, i + 1, n);
    }
}

/// Resolution is idempotent: a second pass over the database a successful
/// pass leaves, with nothing mutated in between, succeeds and changes
/// nothing. Remaining strict misses are re-classified identically, and
/// references already moved to the resolved sets re-create nothing.
pub proof fn lemma_resolution_idempotent(db: DatabaseModel, out: Seq<ObjectModel>)
    requires
        db.wf(),
        resolve_model(db) == PassOutcome::Done(out),
    ensures
        resolve_model(DatabaseModel { objects: out, ..db }) == PassOutcome::Done(out),
{
    let n = db.objects.len() as int;
    lemma_resolve_pass_props(db.types, db.objects, 0, n);
    assert(fully_resolved(db.types, out)) by {
        assert forall|k: int, a: int|
            0 <= k < out.len() && 0 <= a < out[k].unresolved_refs.len() implies flavor_of(
            db.types,
            (#[trigger] out[k].unresolved_refs[a]).typename,
        ) == Some(TypeFlavor::Strict) && !has_object(out, out[k].unresolved_refs[a].target()) by {
            let x = out[k].unresolved_refs[a];
            if k < n {
                assert(classified(db.types, db.objects, out, k));
                assert(out[k].unresolved_refs.contains(x));
                let rs = db.objects[k].unresolved_refs;
                assert(rs.contains(x));
                let b = choose|b: int| 0 <= b < rs.len() && rs[b] == x;
                assert(ref_resolution(
                    db.types,
                    db.objects,
                    out,
                    out[k].refs,
                    out[k].unresolved_refs,
                    rs[b],
                ));
                assert(flavor_of(db.types, x.typename) == Some(TypeFlavor::Strict));
                assert(!has_object(db.objects, x.target()));
                if has_object(out, x.target()) {
                    assert(flavor_of(db.types, x.target().typename) == Some(TypeFlavor::Lazy));
                }
            } else {
                assert(lazy_empty(db.types, out[k]));
            }
        }
    }
    lemma_pass_noop(db.types, out, 0, out.len() as int);
}

/// An object awaiting an automatic identifier is accepted unless some
/// object already carries exactly the identifier the counter assigns; in
/// particular, where every identifier of the type name came from the
/// counter, insertion never fails, because the counter strictly increases
/// and distinct numbers print as distinct strings.
pub proof fn lemma_auto_insert_accepted(db: DatabaseModel, o: ObjectModel)
    requires
        o.id.ident is None,
        !has_object(db.objects, assigned_id(db.counters, o)),
    ensures
        add_object_model(db, o).1 is Ok,
{
}

} // verus!

