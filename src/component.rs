use vstd::prelude::*;

verus! {

/// The closed set of component kinds an entity can carry.
#[derive(Clone, Copy, Debug, PartialEq, Eq, Structural)]
pub enum ComponentKind {
    Position,
    Velocity,
    FixedOffset,
    Enemy,
    Player,
    LevelEntity,
    CollisionShape,
    Bullet,
}

/// Number of component kinds, and so the number of component slots of an entity.
pub const NUM_KINDS: usize = 8;

/// The slot of `k` in an entity's component table.
pub open spec fn kind_slot(k: ComponentKind) -> nat {
    match k {
        ComponentKind::Position => 0,
        ComponentKind::Velocity => 1,
        ComponentKind::FixedOffset => 2,
        ComponentKind::Enemy => 3,
        ComponentKind::Player => 4,
        ComponentKind::LevelEntity => 5,
        ComponentKind::CollisionShape => 6,
        ComponentKind::Bullet => 7,
    }
}

pub fn kind_index(k: ComponentKind) -> (r: usize)
    ensures
        r as nat == kind_slot(k),
        r < NUM_KINDS,
{
    match k {
        ComponentKind::Position => 0,
        ComponentKind::Velocity => 1,
        ComponentKind::FixedOffset => 2,
        ComponentKind::Enemy => 3,
        ComponentKind::Player => 4,
        ComponentKind::LevelEntity => 5,
        ComponentKind::CollisionShape => 6,
        ComponentKind::Bullet => 7,
    }
}

/// A live component value. Coordinates are in whole world units.
#[derive(Clone, Copy, Debug, PartialEq, Eq, Structural)]
pub enum Component {
    Position { x: i64, y: i64 },
    Velocity { x: i64, y: i64 },
    /// Keeps an entity at a fixed offset from the camera.
    FixedOffset { x: i64, y: i64 },
    Enemy,
    Player,
    /// Marks an entity owned by the current level, removed on teardown.
    LevelEntity,
    /// Axis-aligned collision box given by its half extents. Derived from
    /// geometry at run time; it has no persisted form.
    CollisionShape { half_width: i64, half_height: i64 },
    Bullet,
}

pub open spec fn kind_of(c: Component) -> ComponentKind {
    match c {
        Component::Position { .. } => ComponentKind::Position,
        Component::Velocity { .. } => ComponentKind::Velocity,
        Component::FixedOffset { .. } => ComponentKind::FixedOffset,
        Component::Enemy => ComponentKind::Enemy,
        Component::Player => ComponentKind::Player,
        Component::LevelEntity => ComponentKind::LevelEntity,
        Component::CollisionShape { .. } => ComponentKind::CollisionShape,
        Component::Bullet => ComponentKind::Bullet,
    }
}

impl Component {
    pub fn kind(&self) -> (r: ComponentKind)
        ensures
            r == kind_of(*self),
    {
        match self {
            Component::Position { .. } => ComponentKind::Position,
            Component::Velocity { .. } => ComponentKind::Velocity,
            Component::FixedOffset { .. } => ComponentKind::FixedOffset,
            Component::Enemy => ComponentKind::Enemy,
            Component::Player => ComponentKind::Player,
            Component::LevelEntity => ComponentKind::LevelEntity,
            Component::CollisionShape { .. } => ComponentKind::CollisionShape,
        Component::Bullet => ComponentKind::Bullet,
        }
    }
}

/// The portable form of a component's data.
#[derive(Clone, Copy, Debug, PartialEq, Eq, Structural)]
pub enum PortableValue {
    /// A marker component with no fields.
    Unit,
    /// Two signed integers.
    Pair(i64, i64),
    /// A run-time-only value with no persisted form (a derived shape, an
    /// asset handle); the codec refuses it.
    Opaque(u64),
}

/// Whether the scene codec can write `v`.
pub open spec fn supported_value(v: PortableValue) -> bool {
    !(v is Opaque)
}

/// The portable value read out of a component.
pub open spec fn extract_spec(c: Component) -> PortableValue {
    match c {
        Component::Position { x, y } => PortableValue::Pair(x, y),
        Component::Velocity { x, y } => PortableValue::Pair(x, y),
        Component::FixedOffset { x, y } => PortableValue::Pair(x, y),
        Component::Enemy => PortableValue::Unit,
        Component::Player => PortableValue::Unit,
        Component::LevelEntity => PortableValue::Unit,
        Component::CollisionShape { .. } => PortableValue::Opaque(0),
        Component::Bullet => PortableValue::Unit,
    }
}

/// The component of kind `k` rebuilt from `v`, if `v` has the shape that `k`
/// extracts to.
pub open spec fn reconstruct_spec(k: ComponentKind, v: PortableValue) -> Option<Component> {
    match (k, v) {
        (ComponentKind::Position, PortableValue::Pair(x, y)) => Some(Component::Position { x, y }),
        (ComponentKind::Velocity, PortableValue::Pair(x, y)) => Some(Component::Velocity { x, y }),
        (ComponentKind::FixedOffset, PortableValue::Pair(x, y)) => Some(
            Component::FixedOffset { x, y },
        ),
        (ComponentKind::Enemy, PortableValue::Unit) => Some(Component::Enemy),
        (ComponentKind::Player, PortableValue::Unit) => Some(Component::Player),
        (ComponentKind::LevelEntity, PortableValue::Unit) => Some(Component::LevelEntity),
        (ComponentKind::Bullet, PortableValue::Unit) => Some(Component::Bullet),
        _ => None,
    }
}

pub fn extract(c: &Component) -> (r: PortableValue)
    ensures
        r == extract_spec(*c),
{
    match c {
        Component::Position { x, y } => PortableValue::Pair(*x, *y),
        Component::Velocity { x, y } => PortableValue::Pair(*x, *y),
        Component::FixedOffset { x, y } => PortableValue::Pair(*x, *y),
        Component::Enemy => PortableValue::Unit,
        Component::Player => PortableValue::Unit,
        Component::LevelEntity => PortableValue::Unit,
        Component::CollisionShape { .. } => PortableValue::Opaque(0),
        Component::Bullet => PortableValue::Unit,
    }
}

pub fn reconstruct(k: ComponentKind, v: PortableValue) -> (r: Option<Component>)
    ensures
        r == reconstruct_spec(k, v),
{
    match (k, v) {
        (ComponentKind::Position, PortableValue::Pair(x, y)) => Some(Component::Position { x, y }),
        (ComponentKind::Velocity, PortableValue::Pair(x, y)) => Some(Component::Velocity { x, y }),
        (ComponentKind::FixedOffset, PortableValue::Pair(x, y)) => Some(
            Component::FixedOffset { x, y },
        ),
        (ComponentKind::Enemy, PortableValue::Unit) => Some(Component::Enemy),
        (ComponentKind::Player, PortableValue::Unit) => Some(Component::Player),
        (ComponentKind::LevelEntity, PortableValue::Unit) => Some(Component::LevelEntity),
        (ComponentKind::Bullet, PortableValue::Unit) => Some(Component::Bullet),
        _ => None,
    }
}

/// Reconstructing what was extracted gives the component back, for every kind
/// whose value is portable.
pub proof fn lemma_extract_reconstruct(c: Component)
    requires
        supported_value(extract_spec(c)),
    ensures
        reconstruct_spec(kind_of(c), extract_spec(c)) == Some(c),
{
}

/// The set of persistable component kinds, in registration order, without
/// repetition.
pub struct Registry {
    kinds: Vec<ComponentKind>,
}

/// What a lookup hands back for a registered kind.
#[derive(Clone, Copy, Debug, PartialEq, Eq, Structural)]
pub struct RegistryEntry {
    pub kind: ComponentKind,
}

impl RegistryEntry {
    /// The portable value of `c`, which must be of this entry's kind.
    pub fn extract(&self, c: &Component) -> (r: PortableValue)
        ensures
            r == extract_spec(*c),
    {
        extract(c)
    }

    pub fn reconstruct(&self, v: PortableValue) -> (r: Option<Component>)
        ensures
            r == reconstruct_spec(self.kind, v),
    {
        reconstruct(self.kind, v)
    }
}

impl View for Registry {
    type V = Seq<ComponentKind>;

    closed spec fn view(&self) -> Seq<ComponentKind> {
        self.kinds@
    }
}

impl Registry {
    pub open spec fn wf(&self) -> bool {
        self@.no_duplicates()
    }

    pub fn new() -> (r: Registry)
        ensures
            r@ == Seq::<ComponentKind>::empty(),
            r.wf(),
    {
        Registry { kinds: Vec::new() }
    }

    /// A registry of every kind whose value has a persisted form: position,
    /// velocity, fixed offset, and the enemy, player and level markers.
    pub fn standard() -> (r: Registry)
        ensures
            r.wf(),
            r@ == seq![
                ComponentKind::Position,
                ComponentKind::Velocity,
                ComponentKind::FixedOffset,
                ComponentKind::Enemy,
                ComponentKind::Player,
                ComponentKind::LevelEntity,
            ],
    {
        let mut r = Registry::new();
        r.register(ComponentKind::Position);
        r.register(ComponentKind::Velocity);
        r.register(ComponentKind::FixedOffset);
        r.register(ComponentKind::Enemy);
        r.register(ComponentKind::Player);
        r.register(ComponentKind::LevelEntity);
        r
    }

    pub fn len(&self) -> (r: usize)
        ensures
            r == self@.len(),
    {
        self.kinds.len()
    }

    /// The kind registered at position `i`.
    pub fn kind_at(&self, i: usize) -> (r: ComponentKind)
        requires
            i < self@.len(),
        ensures
            r == self@[i as int],
    {
        self.kinds[i]
    }

    pub fn contains(&self, k: ComponentKind) -> (r: bool)
        ensures
            r == self@.contains(k),
    {
        let mut i: usize = 0;
        while i < self.kinds.len()
            invariant
                i <= self@.len(),
                forall|j: int| 0 <= j < i ==> self@[j] != k,
            decreases self@.len() - i,
        {
            if self.kinds[i] == k {
                return true;
            }
            i += 1;
        }
        false
    }

    /// Adds `k`; registering a kind that is already there changes nothing.
    pub fn register(&mut self, k: ComponentKind)
        requires
            old(self).wf(),
        ensures
            final(self).wf(),
            final(self)@ == if old(self)@.contains(k) {
                old(self)@
            } else {
                old(self)@.push(k)
            },
    {
        if !self.contains(k) {
            self.kinds.push(k);
        }
    }

    pub fn lookup(&self, k: ComponentKind) -> (r: Option<RegistryEntry>)
        ensures
            r == if self@.contains(k) {
                Some(RegistryEntry { kind: k })
            } else {
                None
            },
    {
        if self.contains(k) {
            Some(RegistryEntry { kind: k })
        } else {
            None
        }
    }
}

} // verus!
