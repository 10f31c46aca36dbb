use crate::component::{kind_index, kind_of, kind_slot, Component, ComponentKind, NUM_KINDS};
use vstd::prelude::*;

verus! {

/// A handle to an entity: the slot index and the generation of the slot when
/// the entity was spawned. A handle to a despawned entity stays stale even when
/// its slot is reused, because the reused slot carries a later generation.
#[derive(Clone, Copy, Debug, PartialEq, Eq, Structural)]
pub struct EntityId {
    pub index: u32,
    pub generation: u32,
}

/// One slot of the arena: the components of its entity, one table entry per
/// kind, indexed by the kind's slot.
pub struct Slot {
    generation: u32,
    alive: bool,
    components: Vec<Option<Component>>,
}

/// The abstract state of a slot.
pub struct SlotView {
    pub generation: u32,
    pub alive: bool,
    pub components: Seq<Option<Component>>,
}

impl View for Slot {
    type V = SlotView;

    closed spec fn view(&self) -> SlotView {
        SlotView { generation: self.generation, alive: self.alive, components: self.components@ }
    }
}

/// A component table that holds each component at the slot of its kind.
pub open spec fn table_wf(t: Seq<Option<Component>>) -> bool {
    &&& t.len() == NUM_KINDS
    &&& forall|i: int|
        0 <= i < t.len() && (#[trigger] t[i]) is Some ==> kind_slot(kind_of(t[i]->0)) == i
}

pub open spec fn empty_table() -> Seq<Option<Component>> {
    Seq::new(NUM_KINDS as nat, |i: int| None)
}

pub open spec fn slot_wf(s: SlotView) -> bool {
    &&& table_wf(s.components)
    &&& !s.alive ==> s.components == empty_table()
}

/// The record store: an arena of entity slots and the camera's position.
pub struct World {
    slots: Vec<Slot>,
    camera: (i64, i64),
}

/// Whether `id` names an entity that is alive in `slots`.
pub open spec fn live_in(slots: Seq<SlotView>, id: EntityId) -> bool {
    &&& (id.index as int) < slots.len()
    &&& slots[id.index as int].alive
    &&& slots[id.index as int].generation == id.generation
}

/// The component of kind `k` of the entity in slot `i`.
pub open spec fn comp_in(slots: Seq<SlotView>, i: int, k: ComponentKind) -> Option<Component> {
    slots[i].components[kind_slot(k) as int]
}

/// Whether a dead slot can be handed out again under a later generation.
pub open spec fn reusable(s: SlotView) -> bool {
    !s.alive && s.generation < u32::MAX
}

/// The largest number of slots an arena holds, so that every index fits `u32`.
pub const MAX_SLOTS: usize = 0xffff_ffff;

impl World {
    pub closed spec fn slots_view(&self) -> Seq<SlotView> {
        self.slots@.map_values(|s: Slot| s@)
    }

    pub closed spec fn camera_view(&self) -> (i64, i64) {
        self.camera
    }

    pub open spec fn wf(&self) -> bool {
        &&& self.slots_view().len() <= MAX_SLOTS
        &&& forall|i: int|
            0 <= i < self.slots_view().len() ==> slot_wf(#[trigger] self.slots_view()[i])
    }

    pub open spec fn live(&self, id: EntityId) -> bool {
        live_in(self.slots_view(), id)
    }

    pub open spec fn comp(&self, id: EntityId, k: ComponentKind) -> Option<Component> {
        comp_in(self.slots_view(), id.index as int, k)
    }

    pub fn new() -> (r: World)
        ensures
            r.wf(),
            r.slots_view() == Seq::<SlotView>::empty(),
            r.camera_view() == (0i64, 0i64),
    {
        let r = World { slots: Vec::new(), camera: (0, 0) };
        assert(r.slots_view() =~= Seq::<SlotView>::empty());
        r
    }

    pub fn slot_count(&self) -> (r: usize)
        ensures
            r == self.slots_view().len(),
    {
        self.slots.len()
    }

    pub fn camera(&self) -> (r: (i64, i64))
        ensures
            r == self.camera_view(),
    {
        self.camera
    }

    pub fn set_camera(&mut self, pos: (i64, i64))
        requires
            old(self).wf(),
        ensures
            final(self).wf(),
            final(self).camera_view() == pos,
            final(self).slots_view() == old(self).slots_view(),
    {
        self.camera = pos;
    }

    /// The handle of the entity in slot `i`, if that slot is alive.
    pub fn id_at(&self, i: usize) -> (r: Option<EntityId>)
        requires
            i < self.slots_view().len(),
        ensures
            r == if self.slots_view()[i as int].alive {
                Some(
                    EntityId {
                        index: i as u32,
                        generation: self.slots_view()[i as int].generation,
                    },
                )
            } else {
                None
            },
    {
        let s = &self.slots[i];
        if s.alive {
            Some(EntityId { index: i as u32, generation: s.generation })
        } else {
            None
        }
    }

    pub fn is_live(&self, id: EntityId) -> (r: bool)
        ensures
            r == self.live(id),
    {
        let i = id.index as usize;
        i < self.slots.len() && self.slots[i].alive && self.slots[i].generation == id.generation
    }

    fn empty_components() -> (r: Vec<Option<Component>>)
        ensures
            r@ == empty_table(),
    {
        let mut v: Vec<Option<Component>> = Vec::new();
        let mut i: usize = 0;
        while i < NUM_KINDS
            invariant
                i <= NUM_KINDS,
                v@ == Seq::new(i as nat, |j: int| None::<Component>),
            decreases NUM_KINDS - i,
        {
            v.push(None);
            i += 1;
            assert(v@ =~= Seq::new(i as nat, |j: int| None::<Component>));
        }
        v
    }

    /// Creates an entity with no components. It takes the lowest dead slot that
    /// can still move to a later generation, or else a new slot at the end.
    pub fn spawn(&mut self) -> (r: EntityId)
        requires
            old(self).wf(),
            old(self).slots_view().len() < MAX_SLOTS,
        ensures
            final(self).wf(),
            final(self).camera_view() == old(self).camera_view(),
            final(self).live(r),
            forall|j: int|
                0 <= j < r.index && j < old(self).slots_view().len() ==> !reusable(
                    #[trigger] old(self).slots_view()[j],
                ),
            final(self).slots_view()[r.index as int] == (SlotView {
                generation: r.generation,
                alive: true,
                components: empty_table(),
            }),
            if (r.index as int) < old(self).slots_view().len() {
                &&& reusable(old(self).slots_view()[r.index as int])
                &&& r.generation == old(self).slots_view()[r.index as int].generation + 1
                &&& final(self).slots_view() == old(self).slots_view().update(
                    r.index as int,
                    final(self).slots_view()[r.index as int],
                )
            } else {
                &&& r.index as int == old(self).slots_view().len()
                &&& r.generation == 0
                &&& final(self).slots_view() == old(self).slots_view().push(
                    final(self).slots_view()[r.index as int],
                )
            },
    {
        let ghost old_view = self.slots_view();
        let mut i: usize = 0;
        while i < self.slots.len()
            invariant
                i <= self.slots@.len(),
                self.slots_view() == old_view,
                old_view == old(self).slots_view(),
                self.camera_view() == old(self).camera_view(),
                self.wf(),
                self.slots_view().len() < MAX_SLOTS,
                forall|j: int| 0 <= j < i ==> !reusable(#[trigger] old_view[j]),
            decreases self.slots@.len() - i,
        {
            assert(old_view[i as int] == self.slots@[i as int]@);
            if !self.slots[i].alive && self.slots[i].generation < u32::MAX {
                assert(reusable(old_view[i as int]));
                let generation = self.slots[i].generation + 1;
                let comps = World::empty_components();
                self.slots.set(i, Slot { generation, alive: true, components: comps });
                let r = EntityId { index: i as u32, generation };
                assert(r.index == i);
                assert(self.slots_view() =~= old_view.update(i as int, self.slots_view()[i as int]));
                return r;
            }
            i += 1;
        }
        let comps = World::empty_components();
        self.slots.push(Slot { generation: 0, alive: true, components: comps });
        let r = EntityId { index: i as u32, generation: 0 };
        assert(r.index == i);
        assert(self.slots_view() =~= old_view.push(self.slots_view()[i as int]));
        r
    }

    /// Removes a live entity and all its components; a stale handle changes
    /// nothing. Returns whether the entity was live.
    pub fn despawn(&mut self, id: EntityId) -> (r: bool)
        requires
            old(self).wf(),
        ensures
            final(self).wf(),
            r == old(self).live(id),
            final(self).camera_view() == old(self).camera_view(),
            final(self).slots_view() == if r {
                old(self).slots_view().update(
                    id.index as int,
                    SlotView { generation: id.generation, alive: false, components: empty_table() },
                )
            } else {
                old(self).slots_view()
            },
    {
        if !self.is_live(id) {
            return false;
        }
        let i = id.index as usize;
        let comps = World::empty_components();
        self.slots.set(i, Slot { generation: id.generation, alive: false, components: comps });
        assert(self.slots_view() =~= old(self).slots_view().update(
            id.index as int,
            SlotView { generation: id.generation, alive: false, components: empty_table() },
        ));
        true
    }

    /// The component of kind `k` of a live entity.
    pub fn get(&self, id: EntityId, k: ComponentKind) -> (r: Option<Component>)
        requires
            self.wf(),
        ensures
            r == if self.live(id) {
                self.comp(id, k)
            } else {
                None
            },
    {
        if !self.is_live(id) {
            return None;
        }
        let ki = kind_index(k);
        let ghost s = self.slots_view()[id.index as int];
        assert(self.slots@[id.index as int]@ == s);
        self.slots[id.index as usize].components[ki]
    }

    pub fn has(&self, id: EntityId, k: ComponentKind) -> (r: bool)
        requires
            self.wf(),
        ensures
            r == (self.live(id) && self.comp(id, k) is Some),
    {
        self.get(id, k).is_some()
    }

    /// Attaches `c` to a live entity, replacing any component of the same kind.
    /// Returns whether the entity was live; a stale handle changes nothing.
    pub fn insert(&mut self, id: EntityId, c: Component) -> (r: bool)
        requires
            old(self).wf(),
        ensures
            final(self).wf(),
            r == old(self).live(id),
            final(self).camera_view() == old(self).camera_view(),
            final(self).slots_view() == if r {
                old(self).slots_view().update(
                    id.index as int,
                    SlotView {
                        components: old(self).slots_view()[id.index as int].components.update(
                            kind_slot(kind_of(c)) as int,
                            Some(c),
                        ),
                        ..old(self).slots_view()[id.index as int]
                    },
                )
            } else {
                old(self).slots_view()
            },
    {
        self.set_slot_entry(id, c.kind(), Some(c))
    }

    /// Detaches the component of kind `k` from a live entity. Returns whether
    /// the entity was live.
    pub fn remove(&mut self, id: EntityId, k: ComponentKind) -> (r: bool)
        requires
            old(self).wf(),
        ensures
            final(self).wf(),
            r == old(self).live(id),
            final(self).camera_view() == old(self).camera_view(),
            final(self).slots_view() == if r {
                old(self).slots_view().update(
                    id.index as int,
                    SlotView {
                        components: old(self).slots_view()[id.index as int].components.update(
                            kind_slot(k) as int,
                            None,
                        ),
                        ..old(self).slots_view()[id.index as int]
                    },
                )
            } else {
                old(self).slots_view()
            },
    {
        self.set_slot_entry(id, k, None)
    }

    fn set_slot_entry(&mut self, id: EntityId, k: ComponentKind, e: Option<Component>) -> (r: bool)
        requires
            old(self).wf(),
            e matches Some(c) ==> kind_of(c) == k,
        ensures
            final(self).wf(),
            r == old(self).live(id),
            final(self).camera_view() == old(self).camera_view(),
            final(self).slots_view() == if r {
                old(self).slots_view().update(
                    id.index as int,
                    SlotView {
                        components: old(self).slots_view()[id.index as int].components.update(
                            kind_slot(k) as int,
                            e,
                        ),
                        ..old(self).slots_view()[id.index as int]
                    },
                )
            } else {
                old(self).slots_view()
            },
    {
        if !self.is_live(id) {
            return false;
        }
        let i = id.index as usize;
        let ki = kind_index(k);
        let ghost old_slot = self.slots_view()[i as int];
        assert(self.slots@[i as int]@ == old_slot);
        let mut comps = self.slots[i].components.clone();
        assert(comps@ == old_slot.components);
        comps.set(ki, e);
        self.slots.set(i, Slot { generation: id.generation, alive: true, components: comps });
        let ghost new_slot = SlotView { components: old_slot.components.update(ki as int, e), ..old_slot };
        assert(self.slots_view() =~= old(self).slots_view().update(i as int, new_slot));
        true
    }
}

} // verus!
