//! The reflection registry: which types are known, and which of them are
//! opaque to the traversal.

use vstd::prelude::*;
use std::collections::{BTreeMap, BTreeSet};
use crate::metadata::{ReflectedType, ReflectedTypeView, TypeKey};
use crate::wire::Error;

verus! {

/// What a registry holds, as a mathematical value.
pub ghost struct Registry {
    /// the descriptor registered for each known type
    pub types: Map<TypeKey, ReflectedType>,
    /// the types that marshal themselves
    pub leaves: Set<TypeKey>,
}

/// Home of `serialize` and `deserialize`.
///
/// Known as the reflection database, this tracks the descriptors of all known
/// types, and which types are leaves: types that the engines hand over whole
/// instead of walking their shape. Entries are added and overwritten, never
/// removed.
pub struct Db {
    known_types: BTreeMap<TypeKey, ReflectedType>,
    leaf_types: BTreeSet<TypeKey>,
}

impl View for Db {
    type V = Registry;

    closed spec fn view(&self) -> Registry {
        Registry { types: self.known_types@, leaves: self.leaf_types@ }
    }
}

impl Default for Db {
    /// The empty reflection database.
    fn default() -> (db: Db)
        ensures
            db@.types == Map::<TypeKey, ReflectedType>::empty(),
            db@.leaves == Set::<TypeKey>::empty(),
    {
        Db { known_types: BTreeMap::new(), leaf_types: BTreeSet::new() }
    }
}

/// Types which can produce a description of themselves.
pub trait Reflect {
    /// The registry index that [`Reflect::key`] gives. An implementation
    /// that is to be reasoned about says here what it is.
    open spec fn key_spec() -> TypeKey {
        arbitrary()
    }

    /// What the descriptor that [`Reflect::rust_type`] gives says. An
    /// implementation that is to be reasoned about says here what it is.
    open spec fn type_spec() -> ReflectedTypeView {
        arbitrary()
    }

    /// The registry index for this type.
    fn key() -> (id: TypeKey)
        ensures
            id == Self::key_spec(),
    ;

    /// The descriptor of this type.
    fn rust_type() -> (typ: ReflectedType)
        ensures
            typ@ == Self::type_spec(),
    ;

    /// Registers this type, and every leaf and every type that it depends on
    /// existing. This type is known afterwards, and so is every type and
    /// every leaf that was known before.
    fn register(db: &mut Db)
        ensures
            final(db)@.types.contains_key(Self::key_spec()),
            forall|id: TypeKey| old(db)@.types.contains_key(id) ==> final(db)@.types.contains_key(id),
            forall|id: TypeKey| old(db)@.leaves.contains(id) ==> final(db)@.leaves.contains(id),
    ;
}

/// Types whose descriptor is fixed once and for all.
pub trait StaticReflect: Reflect {
    /// What the descriptor that [`StaticReflect::static_type`] gives says.
    /// An implementation that is to be reasoned about says here what it is.
    open spec fn static_spec() -> ReflectedTypeView {
        arbitrary()
    }

    /// The descriptor of this type.
    fn static_type() -> (typ: ReflectedType)
        ensures
            typ@ == Self::static_spec(),
    ;
}

/// What a registry says of each type that it knows.
pub open spec fn described(reg: Registry) -> Map<TypeKey, ReflectedTypeView> {
    Map::new(|id: TypeKey| reg.types.contains_key(id), |id: TypeKey| reg.types[id]@)
}

/// To register a key says of it what the descriptor says, and leaves what is
/// said of every other key.
pub proof fn lemma_registering_describes(reg: Registry, after: Registry, id: TypeKey, val: ReflectedType)
    requires
        after.types == reg.types.insert(id, val),
    ensures
        described(after) == described(reg).insert(id, val@),
{
    assert(described(after) =~= described(reg).insert(id, val@));
}

/// To register a type once more changes nothing of what the registry says:
/// where two registrations in a row say the same of the same key, the second
/// leaves what the first left.
pub proof fn lemma_registering_again_changes_nothing(
    before: Registry,
    once: Registry,
    twice: Registry,
    id: TypeKey,
    said: ReflectedTypeView,
)
    requires
        described(once) == described(before).insert(id, said),
        described(twice) == described(once).insert(id, said),
    ensures
        described(twice) == described(once),
{
    assert(described(once).insert(id, said) =~= described(once));
}

impl Db {
    /// Make a new, empty reflection database.
    pub fn new() -> (db: Db)
        ensures
            db@.types == Map::<TypeKey, ReflectedType>::empty(),
            db@.leaves == Set::<TypeKey>::empty(),
    {
        Default::default()
    }

    /// Associate the descriptor that `T` gives of itself with the key that it
    /// names, whatever stood for that key before: what stands there now says
    /// what `T` says of itself. Every other key and the leaves stay as they
    /// are, and the database is handed back, so that calls chain.
    pub fn register_type<T: Reflect>(&mut self) -> (db: &mut Db)
        ensures
            db@.types == old(self)@.types.insert(T::key_spec(), db@.types[T::key_spec()]),
            db@.types[T::key_spec()]@ == T::type_spec(),
            described(db@) == described(old(self)@).insert(T::key_spec(), T::type_spec()),
            db@.leaves == old(self)@.leaves,
            *final(self) == *final(db),
    {
        let id = T::key();
        let val = T::rust_type();
        let ghost said = val;
        self.insert(id, val);
        proof {
            lemma_registering_describes(old(self)@, self@, id, said);
        }
        self
    }

    /// Associate the fixed descriptor of `T` with the key that it names,
    /// whatever stood for that key before: what stands there now says what
    /// `T` says of itself. Every other key and the leaves stay as they are,
    /// so to register the same type once more changes nothing of what the
    /// database says. The database is handed back, so that calls chain.
    pub fn register_const<T: StaticReflect>(&mut self) -> (db: &mut Db)
        ensures
            db@.types == old(self)@.types.insert(T::key_spec(), db@.types[T::key_spec()]),
            db@.types[T::key_spec()]@ == T::static_spec(),
            described(db@) == described(old(self)@).insert(T::key_spec(), T::static_spec()),
            db@.leaves == old(self)@.leaves,
            *final(self) == *final(db),
    {
        let id = T::key();
        let val = T::static_type();
        let ghost said = val;
        self.insert(id, val);
        proof {
            lemma_registering_describes(old(self)@, self@, id, said);
        }
        self
    }

    /// Runtime type registration: the descriptor `val` now stands for `id`,
    /// whatever stood for it before.
    pub fn insert(&mut self, id: TypeKey, val: ReflectedType)
        ensures
            final(self)@.types == old(self)@.types.insert(id, val),
            final(self)@.leaves == old(self)@.leaves,
    {
        self.known_types.insert(id, val);
    }

    /// When a value of type `id` is met, it will not be reflected into, even
    /// if it has a known shape: it is handed over whole.
    pub fn register_serde_leaf(&mut self, id: TypeKey) -> (db: &mut Db)
        ensures
            db@.types == old(self)@.types,
            db@.leaves == old(self)@.leaves.insert(id),
            *final(self) == *final(db),
    {
        self.leaf_types.insert(id);
        self
    }

    /// The descriptor registered for `id`.
    pub fn type_layout(&self, id: TypeKey) -> (r: Result<&ReflectedType, Error>)
        ensures
            match r {
                Ok(typ) => self@.types.contains_key(id) && *typ == self@.types[id],
                Err(e) => !self@.types.contains_key(id) && e == Error::UnknownType(id),
            },
    {
        match self.known_types.get(&id) {
            Some(typ) => Ok(typ),
            None => Err(Error::UnknownType(id)),
        }
    }

    /// Whether a routine is registered for `id`.
    pub fn is_leaf(&self, id: TypeKey) -> (r: bool)
        ensures
            r == self@.leaves.contains(id),
    {
        self.leaf_types.contains(&id)
    }
}

} // verus!
