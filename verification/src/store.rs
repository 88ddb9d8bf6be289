//! The node store: where the identities of the tree come from. Every
//! widget node and every hook state is an entity of the store, created
//! when the node or the state comes into being and despawned when it goes.
//!
//! The store keeps a bevy `World` of its own. The world is made empty and
//! nothing but the functions of this module ever reaches it: no entity is
//! reserved in it, no command is queued in it, and no component, hook or
//! observer is added to it.

use bevy::ecs::entity::Entity;
use bevy::ecs::world::World;
use vstd::prelude::*;

verus! {

#[verifier::external_type_specification]
#[verifier::external_body]
pub struct ExWorld(bevy::ecs::world::World);

/// The entities that a world holds, each as the bits of its `Entity`:
/// those that `World::get_entity` finds.
pub uninterp spec fn live_entities(world: World) -> Set<u64>;

/// A store of node identities.
pub struct NodeStore {
    world: World,
}

impl NodeStore {
    /// The identities that the store holds.
    pub closed spec fn live(self) -> Set<u64> {
        live_entities(self.world)
    }

    /// An empty store.
    pub fn new() -> (store: NodeStore)
        ensures
            store.live() == Set::<u64>::empty(),
    {
        new_store()
    }

    /// Whether the store has room for `count` more nodes. A store holds
    /// at most `u32::MAX` nodes.
    pub open spec fn has_room(self, count: int) -> bool {
        self.live().len() + count <= u32::MAX
    }

    /// Creates a node and hands back its identity: one that the store did
    /// not hold before. A store that is full stays as it is and hands back
    /// nothing.
    pub fn create_node(&mut self) -> (id: Option<u64>)
        ensures
            match id {
                Some(id) => {
                    &&& old(self).has_room(1)
                    &&& !old(self).live().contains(id)
                    &&& final(self).live() == old(self).live().insert(id)
                    &&& final(self).live().len() == old(self).live().len() + 1
                },
                None => !old(self).has_room(1) && *final(self) == *old(self),
            },
    {
        if count_nodes(self) < u32::MAX {
            Some(spawn_node(self))
        } else {
            None
        }
    }

    /// Destroys the node with the given identity, and says whether the
    /// store held it.
    pub fn destroy_node(&mut self, id: u64) -> (gone: bool)
        ensures
            gone == old(self).live().contains(id),
            final(self).live() == old(self).live().remove(id),
    {
        despawn_node(self, id)
    }

    /// Whether the store holds the given identity.
    pub fn contains(&self, id: u64) -> (held: bool)
        ensures
            held == self.live().contains(id),
    {
        holds_node(self, id)
    }

    /// How many identities the store holds.
    pub fn len(&self) -> (count: u32)
        ensures
            count == self.live().len(),
    {
        count_nodes(self)
    }
}

/// Makes a store around `World::new`.
///
/// Not proved: that a new world holds no entity.
#[verifier::external_body]
fn new_store() -> (store: NodeStore)
    ensures
        live_entities(store.world) == Set::<u64>::empty(),
{
    NodeStore { world: World::new() }
}

/// Calls `World::spawn_empty` on the store's world and hands back the
/// bits of the new entity.
///
/// Not proved: that the entity was not in the world before the call, and
/// that afterwards the world holds it and otherwise the entities it held
/// before, one more in all. `spawn_empty` flushes the world before it
/// allocates; in the world of a store nothing is reserved or queued, so the
/// flush changes nothing. The world counts its entities in a `u32` and
/// panics on an index that does not fit one: the call is made only on a
/// world that holds fewer than `u32::MAX` entities.
#[verifier::external_body]
fn spawn_node(store: &mut NodeStore) -> (id: u64)
    requires
        live_entities(old(store).world).len() < u32::MAX,
    ensures
        !live_entities(old(store).world).contains(id),
        live_entities(final(store).world) == live_entities(old(store).world).insert(id),
        live_entities(final(store).world).len() == live_entities(old(store).world).len() + 1,
{
    store.world.spawn_empty().id().to_bits()
}

/// Calls `World::despawn` on the entity with the given bits.
///
/// Not proved: that the result tells whether the world held the entity,
/// and that afterwards the world holds what it held before without that
/// entity. Bits that belong to no entity are answered with `false` and
/// leave the world as it was. `despawn` flushes the world and runs the
/// hooks and observers of the components that the entity carries; in the
/// world of a store nothing is reserved or queued and no entity carries a
/// component, so neither changes anything.
#[verifier::external_body]
fn despawn_node(store: &mut NodeStore, id: u64) -> (gone: bool)
    ensures
        gone == live_entities(old(store).world).contains(id),
        live_entities(final(store).world) == live_entities(old(store).world).remove(id),
{
    match Entity::try_from_bits(id) {
        Ok(entity) => store.world.despawn(entity),
        Err(_) => false,
    }
}

/// Calls `World::get_entity` on the entity with the given bits and says
/// whether the world has found it.
///
/// Not proved: that this is what `live_entities` holds. Bits that belong
/// to no entity are answered with `false`.
#[verifier::external_body]
fn holds_node(store: &NodeStore, id: u64) -> (held: bool)
    ensures
        held == live_entities(store.world).contains(id),
{
    match Entity::try_from_bits(id) {
        Ok(entity) => store.world.get_entity(entity).is_some(),
        Err(_) => false,
    }
}

/// Calls `Entities::len` on the entities of the store's world.
///
/// Not proved: that this is the number of entities that the world holds.
/// `Entities::len` counts the entities that were allocated and not freed;
/// in the world of a store these are the ones that `get_entity` finds,
/// since none is reserved without a place.
#[verifier::external_body]
fn count_nodes(store: &NodeStore) -> (count: u32)
    ensures
        count == live_entities(store.world).len(),
{
    store.world.entities().len()
}

} // verus!
