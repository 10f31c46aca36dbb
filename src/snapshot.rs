use crate::component::{extract, extract_spec, kind_slot, Component, ComponentKind, PortableValue, Registry};
use crate::world::{live_in, EntityId, SlotView, World, MAX_SLOTS};
use vstd::prelude::*;

verus! {

/// The portable record of one entity: the index it had in the arena and its
/// persistable components as `(kind, value)` pairs.
#[derive(Clone, Debug, PartialEq, Eq)]
pub struct DynamicEntity {
    pub entity: u32,
    pub components: Vec<(ComponentKind, PortableValue)>,
}

/// The abstract form of a `DynamicEntity`.
pub struct EntityRecord {
    pub index: u32,
    pub components: Seq<(ComponentKind, PortableValue)>,
}

impl View for DynamicEntity {
    type V = EntityRecord;

    open spec fn view(&self) -> EntityRecord {
        EntityRecord { index: self.entity, components: self.components@ }
    }
}

/// An ordered list of entity records, as saved to or loaded from a file.
#[derive(Clone, Debug, PartialEq, Eq)]
pub struct Scene {
    pub entities: Vec<DynamicEntity>,
}

impl View for Scene {
    type V = Seq<EntityRecord>;

    open spec fn view(&self) -> Seq<EntityRecord> {
        self.entities@.map_values(|e: DynamicEntity| e@)
    }
}

impl Scene {
    pub fn new() -> (r: Scene)
        ensures
            r@ == Seq::<EntityRecord>::empty(),
    {
        let r = Scene { entities: Vec::new() };
        assert(r@ =~= Seq::<EntityRecord>::empty());
        r
    }

    pub fn len(&self) -> (r: usize)
        ensures
            r == self@.len(),
    {
        self.entities.len()
    }
}

/// The components of a record, built from an entity's component table: for
/// each registered kind in registration order, the kind and its extracted
/// value when the entity has a component of that kind.
pub open spec fn record_components(
    reg: Seq<ComponentKind>,
    table: Seq<Option<Component>>,
) -> Seq<(ComponentKind, PortableValue)>
    decreases reg.len(),
{
    if reg.len() == 0 {
        Seq::empty()
    } else {
        let prev = record_components(reg.drop_last(), table);
        match table[kind_slot(reg.last()) as int] {
            Some(c) => prev.push((reg.last(), extract_spec(c))),
            None => prev,
        }
    }
}

/// Whether slot `i` holds a live entity whose handle is among `ids`.
pub open spec fn selected(slots: Seq<SlotView>, ids: Seq<EntityId>, i: int) -> bool {
    &&& slots[i].alive
    &&& ids.contains(EntityId { index: i as u32, generation: slots[i].generation })
}

/// The records of the selected entities among the first `n` slots, in slot
/// order.
pub open spec fn snapshot_upto(
    slots: Seq<SlotView>,
    ids: Seq<EntityId>,
    reg: Seq<ComponentKind>,
    n: nat,
) -> Seq<EntityRecord>
    decreases n,
{
    if n == 0 {
        Seq::empty()
    } else {
        let prev = snapshot_upto(slots, ids, reg, (n - 1) as nat);
        if selected(slots, ids, n - 1) {
            prev.push(
                EntityRecord {
                    index: (n - 1) as u32,
                    components: record_components(reg, slots[n - 1].components),
                },
            )
        } else {
            prev
        }
    }
}

/// The snapshot of the entities `ids` of a store: one record per live entity
/// named in `ids`, in slot order.
pub open spec fn snapshot(
    slots: Seq<SlotView>,
    ids: Seq<EntityId>,
    reg: Seq<ComponentKind>,
) -> Seq<EntityRecord> {
    snapshot_upto(slots, ids, reg, slots.len())
}

fn contains_id(ids: &Vec<EntityId>, id: EntityId) -> (r: bool)
    ensures
        r == ids@.contains(id),
{
    let mut i: usize = 0;
    while i < ids.len()
        invariant
            i <= ids@.len(),
            forall|j: int| 0 <= j < i ==> ids@[j] != id,
        decreases ids@.len() - i,
    {
        if ids[i] == id {
            return true;
        }
        i += 1;
    }
    false
}

/// The record components of the live entity `id`.
fn entity_components(world: &World, registry: &Registry, id: EntityId) -> (r: Vec<
    (ComponentKind, PortableValue),
>)
    requires
        world.wf(),
        world.live(id),
    ensures
        r@ == record_components(registry@, world.slots_view()[id.index as int].components),
{
    let ghost table = world.slots_view()[id.index as int].components;
    let mut out: Vec<(ComponentKind, PortableValue)> = Vec::new();
    let mut j: usize = 0;
    while j < registry.len()
        invariant
            world.wf(),
            world.live(id),
            j <= registry@.len(),
            table == world.slots_view()[id.index as int].components,
            out@ == record_components(registry@.take(j as int), table),
        decreases registry@.len() - j,
    {
        let k = registry.kind_at(j);
        let ghost prefix = registry@.take(j + 1);
        assert(prefix.drop_last() =~= registry@.take(j as int));
        assert(prefix.last() == k);
        match world.get(id, k) {
            Some(c) => {
                out.push((k, extract(&c)));
            },
            None => {},
        }
        j += 1;
    }
    assert(registry@.take(j as int) =~= registry@);
    out
}

/// Builds the snapshot of the entities `entities`: walks the arena in slot
/// order and, for each live entity among `entities`, emits a record with its
/// index and, in registration order, the value of each registered kind it
/// carries. Kinds that are not registered are left out; an entity without
/// any registered kind still gets a record, with no components. The store is
/// only read.
pub fn scene_from_entities(world: &World, registry: &Registry, entities: &Vec<EntityId>) -> (r:
    Scene)
    requires
        world.wf(),
    ensures
        r@ == snapshot(world.slots_view(), entities@, registry@),
{
    let mut scene = Scene::new();
    let n = world.slot_count();
    let mut i: usize = 0;
    while i < n
        invariant
            world.wf(),
            n == world.slots_view().len(),
            i <= n,
            scene@ == snapshot_upto(world.slots_view(), entities@, registry@, i as nat),
        decreases n - i,
    {
        let ghost slots = world.slots_view();
        match world.id_at(i) {
            Some(id) => {
                assert(id.index == i);
                if contains_id(entities, id) {
                    let components = entity_components(world, registry, id);
                    let ghost before = scene@;
                    scene.entities.push(DynamicEntity { entity: id.index, components });
                    assert(scene@ =~= before.push(
                        EntityRecord {
                            index: i as u32,
                            components: record_components(registry@, slots[i as int].components),
                        },
                    ));
                }
            },
            None => {},
        }
        i += 1;
    }
    scene
}

proof fn lemma_snapshot_upto(
    slots: Seq<SlotView>,
    ids: Seq<EntityId>,
    reg: Seq<ComponentKind>,
    n: nat,
)
    requires
        n <= slots.len() <= MAX_SLOTS,
    ensures
        forall|j: int|
            0 <= j < snapshot_upto(slots, ids, reg, n).len() ==> {
                let idx = (#[trigger] snapshot_upto(slots, ids, reg, n)[j]).index as int;
                idx < n && selected(slots, ids, idx)
            },
        forall|i: int|
            0 <= i < n && #[trigger] selected(slots, ids, i) ==> exists|j: int|
                0 <= j < snapshot_upto(slots, ids, reg, n).len() && (#[trigger] snapshot_upto(
                    slots,
                    ids,
                    reg,
                    n,
                )[j]).index == i,
        forall|j1: int, j2: int|
            0 <= j1 < j2 < snapshot_upto(slots, ids, reg, n).len() ==> (#[trigger] snapshot_upto(
                slots,
                ids,
                reg,
                n,
            )[j1]).index < (#[trigger] snapshot_upto(slots, ids, reg, n)[j2]).index,
    decreases n,
{
    if n > 0 {
        lemma_snapshot_upto(slots, ids, reg, (n - 1) as nat);
        let prev = snapshot_upto(slots, ids, reg, (n - 1) as nat);
        let cur = snapshot_upto(slots, ids, reg, n);
        assert(((n - 1) as u32) as int == n - 1);
        assert forall|i: int| 0 <= i < n && #[trigger] selected(slots, ids, i) implies exists|j: int|
            0 <= j < cur.len() && (#[trigger] cur[j]).index == i by {
            if i < n - 1 {
                let j = choose|j: int| 0 <= j < prev.len() && (#[trigger] prev[j]).index == i;
                assert(cur[j] == prev[j]);
            } else {
                assert(cur[cur.len() - 1].index == i);
            }
        }
    }
}

/// Only the live entities named in `ids` are emitted, each exactly once (the
/// indices strictly increase), and every live entity named in `ids` is
/// emitted, however many other entities the store holds.
pub proof fn lemma_selective_inclusion(
    slots: Seq<SlotView>,
    ids: Seq<EntityId>,
    reg: Seq<ComponentKind>,
)
    requires
        slots.len() <= MAX_SLOTS,
    ensures
        forall|j: int|
            0 <= j < snapshot(slots, ids, reg).len() ==> {
                let idx = (#[trigger] snapshot(slots, ids, reg)[j]).index;
                let id = EntityId { index: idx, generation: slots[idx as int].generation };
                live_in(slots, id) && ids.contains(id)
            },
        forall|id: EntityId|
            #[trigger] ids.contains(id) && live_in(slots, id) ==> exists|j: int|
                0 <= j < snapshot(slots, ids, reg).len() && (#[trigger] snapshot(
                    slots,
                    ids,
                    reg,
                )[j]).index == id.index,
        forall|j1: int, j2: int|
            0 <= j1 < j2 < snapshot(slots, ids, reg).len() ==> (#[trigger] snapshot(
                slots,
                ids,
                reg,
            )[j1]).index < (#[trigger] snapshot(slots, ids, reg)[j2]).index,
{
    lemma_snapshot_upto(slots, ids, reg, slots.len());
    let snap = snapshot(slots, ids, reg);
    assert forall|j: int| 0 <= j < snap.len() implies {
        let idx = (#[trigger] snap[j]).index;
        let id = EntityId { index: idx, generation: slots[idx as int].generation };
        live_in(slots, id) && ids.contains(id)
    } by {
        let idx = snap[j].index;
        assert(selected(slots, ids, idx as int));
        assert((idx as int) as u32 == idx);
    }
    assert forall|id: EntityId| #[trigger] ids.contains(id) && live_in(slots, id) implies exists|
        j: int,
    | 0 <= j < snap.len() && (#[trigger] snap[j]).index == id.index by {
        let i = id.index as int;
        assert(EntityId { index: i as u32, generation: slots[i].generation } == id);
        assert(selected(slots, ids, i));
    }
}

/// A record keeps exactly the registered kinds that the entity carries: every
/// pair in it is of a registered kind present on the entity, with that
/// component's extracted value, and every registered kind present on the
/// entity appears. Unregistered kinds are skipped and nothing fails.
pub proof fn lemma_registry_miss_skip(reg: Seq<ComponentKind>, table: Seq<Option<Component>>)
    requires
        forall|k: ComponentKind| kind_slot(k) < table.len(),
    ensures
        forall|m: int|
            0 <= m < record_components(reg, table).len() ==> {
                let (k, v) = #[trigger] record_components(reg, table)[m];
                &&& reg.contains(k)
                &&& table[kind_slot(k) as int] is Some
                &&& v == extract_spec(table[kind_slot(k) as int]->0)
            },
        forall|k: ComponentKind|
            #[trigger] reg.contains(k) && table[kind_slot(k) as int] is Some ==> exists|m: int|
                0 <= m < record_components(reg, table).len() && (#[trigger] record_components(
                    reg,
                    table,
                )[m]).0 == k,
    decreases reg.len(),
{
    if reg.len() > 0 {
        let prefix = reg.drop_last();
        lemma_registry_miss_skip(prefix, table);
        let prev = record_components(prefix, table);
        let cur = record_components(reg, table);
        assert forall|m: int| 0 <= m < cur.len() implies {
            let (k, v) = #[trigger] cur[m];
            &&& reg.contains(k)
            &&& table[kind_slot(k) as int] is Some
            &&& v == extract_spec(table[kind_slot(k) as int]->0)
        } by {
            if m < prev.len() {
                assert(cur[m] == prev[m]);
                let k = prev[m].0;
                assert(prefix.contains(k));
                let w = choose|w: int| 0 <= w < prefix.len() && prefix[w] == k;
                assert(reg[w] == k);
            } else {
                assert(reg[reg.len() - 1] == reg.last());
            }
        }
        assert forall|k: ComponentKind|
            #[trigger] reg.contains(k) && table[kind_slot(k) as int] is Some implies exists|m: int|
            0 <= m < cur.len() && (#[trigger] cur[m]).0 == k by {
            let w = choose|w: int| 0 <= w < reg.len() && reg[w] == k;
            if w < reg.len() - 1 {
                assert(prefix[w] == k);
                assert(prefix.contains(k));
                let m = choose|m: int| 0 <= m < prev.len() && (#[trigger] prev[m]).0 == k;
                assert(cur[m] == prev[m]);
            } else {
                assert(cur[cur.len() - 1].0 == k);
            }
        }
    }
}

} // verus!
