//! The persisted scene format, as bytes of ASCII text:
//!
//! ```text
//! scene     := '[' entity* ']'
//! entity    := '(' hex8 component* ')'        hex8: the entity's index
//! component := kind value
//! kind      := 'P' | 'V' | 'F' | 'E' | 'Y' | 'L' | 'S' | 'B'
//! value     := 'u' | 'p' int int
//! int       := ('+' | '-') hex16               the magnitude; never "-0"
//! ```
//!
//! Hex digits are lower case, and each number has exactly the width given, so
//! that every scene has one encoding and every encoding one scene.
use crate::component::{supported_value, ComponentKind, PortableValue};
use crate::snapshot::{DynamicEntity, EntityRecord, Scene};
use vstd::prelude::*;

verus! {

pub const SCENE_OPEN: u8 = 0x5b;

pub const SCENE_CLOSE: u8 = 0x5d;

pub const ENTITY_OPEN: u8 = 0x28;

pub const ENTITY_CLOSE: u8 = 0x29;

pub const VALUE_UNIT: u8 = 0x75;

pub const VALUE_PAIR: u8 = 0x70;

pub const SIGN_PLUS: u8 = 0x2b;

pub const SIGN_MINUS: u8 = 0x2d;

/// Hex digits of an entity index.
pub const INDEX_DIGITS: usize = 8;

/// Hex digits of an integer's magnitude.
pub const MAGNITUDE_DIGITS: usize = 16;

pub open spec fn kind_byte(k: ComponentKind) -> u8 {
    match k {
        ComponentKind::Position => 0x50,
        ComponentKind::Velocity => 0x56,
        ComponentKind::FixedOffset => 0x46,
        ComponentKind::Enemy => 0x45,
        ComponentKind::Player => 0x59,
        ComponentKind::LevelEntity => 0x4c,
        ComponentKind::CollisionShape => 0x53,
        ComponentKind::Bullet => 0x42,
    }
}

pub open spec fn byte_kind(b: u8) -> Option<ComponentKind> {
    if b == 0x50 {
        Some(ComponentKind::Position)
    } else if b == 0x56 {
        Some(ComponentKind::Velocity)
    } else if b == 0x46 {
        Some(ComponentKind::FixedOffset)
    } else if b == 0x45 {
        Some(ComponentKind::Enemy)
    } else if b == 0x59 {
        Some(ComponentKind::Player)
    } else if b == 0x4c {
        Some(ComponentKind::LevelEntity)
    } else if b == 0x53 {
        Some(ComponentKind::CollisionShape)
    } else if b == 0x42 {
        Some(ComponentKind::Bullet)
    } else {
        None
    }
}

/// The lower-case hex digit of `d < 16`.
pub open spec fn hex_char(d: nat) -> u8 {
    if d < 10 {
        (48 + d) as u8
    } else {
        (87 + d) as u8
    }
}

pub open spec fn is_hex_char(c: u8) -> bool {
    (48 <= c <= 57) || (97 <= c <= 102)
}

pub open spec fn hex_char_value(c: u8) -> nat {
    if c <= 57 {
        (c - 48) as nat
    } else {
        (c - 87) as nat
    }
}

pub open spec fn all_hex(s: Seq<u8>) -> bool {
    forall|i: int| 0 <= i < s.len() ==> is_hex_char(#[trigger] s[i])
}

pub open spec fn pow16(k: nat) -> nat
    decreases k,
{
    if k == 0 {
        1
    } else {
        16 * pow16((k - 1) as nat)
    }
}

/// The last `k` hex digits of `n`, most significant first.
pub open spec fn hex_digits(n: nat, k: nat) -> Seq<u8>
    decreases k,
{
    if k == 0 {
        Seq::empty()
    } else {
        hex_digits(n / 16, (k - 1) as nat).push(hex_char(n % 16))
    }
}

/// The number that the hex digits `s` stand for.
pub open spec fn hex_value(s: Seq<u8>) -> nat
    decreases s.len(),
{
    if s.len() == 0 {
        0
    } else {
        hex_value(s.drop_last()) * 16 + hex_char_value(s.last())
    }
}

pub open spec fn magnitude(v: i64) -> nat {
    if v < 0 {
        (-v) as nat
    } else {
        v as nat
    }
}

pub open spec fn encode_int(v: i64) -> Seq<u8> {
    seq![if v < 0 { SIGN_MINUS } else { SIGN_PLUS }] + hex_digits(
        magnitude(v),
        MAGNITUDE_DIGITS as nat,
    )
}

pub open spec fn encode_value(v: PortableValue) -> Seq<u8> {
    match v {
        PortableValue::Unit => seq![VALUE_UNIT],
        PortableValue::Pair(a, b) => seq![VALUE_PAIR] + encode_int(a) + encode_int(b),
        PortableValue::Opaque(_) => Seq::empty(),
    }
}

pub open spec fn encode_component(c: (ComponentKind, PortableValue)) -> Seq<u8> {
    seq![kind_byte(c.0)] + encode_value(c.1)
}

pub open spec fn encode_components(cs: Seq<(ComponentKind, PortableValue)>) -> Seq<u8>
    decreases cs.len(),
{
    if cs.len() == 0 {
        Seq::empty()
    } else {
        encode_components(cs.drop_last()) + encode_component(cs.last())
    }
}

pub open spec fn encode_entity(e: EntityRecord) -> Seq<u8> {
    seq![ENTITY_OPEN] + hex_digits(e.index as nat, INDEX_DIGITS as nat) + encode_components(
        e.components,
    ) + seq![ENTITY_CLOSE]
}

pub open spec fn encode_entities(es: Seq<EntityRecord>) -> Seq<u8>
    decreases es.len(),
{
    if es.len() == 0 {
        Seq::empty()
    } else {
        encode_entities(es.drop_last()) + encode_entity(es.last())
    }
}

/// The persisted form of a scene.
pub open spec fn encode_scene(s: Seq<EntityRecord>) -> Seq<u8> {
    seq![SCENE_OPEN] + encode_entities(s) + seq![SCENE_CLOSE]
}

/// No two records of the scene share an index.
pub open spec fn distinct_indices(s: Seq<EntityRecord>) -> bool {
    forall|i: int, j: int| 0 <= i < j < s.len() ==> (#[trigger] s[i]).index != (#[trigger] s[j]).index
}

pub open spec fn components_supported(cs: Seq<(ComponentKind, PortableValue)>) -> bool {
    forall|m: int| 0 <= m < cs.len() ==> supported_value((#[trigger] cs[m]).1)
}

/// Every value of the scene has a persisted form.
pub open spec fn all_supported(s: Seq<EntityRecord>) -> bool {
    forall|i: int| 0 <= i < s.len() ==> components_supported((#[trigger] s[i]).components)
}

/// A scene the codec writes and reads back.
pub open spec fn valid_scene(s: Seq<EntityRecord>) -> bool {
    distinct_indices(s) && all_supported(s)
}

// ---- hex digits ----

proof fn lemma_pow16_positive(k: nat)
    ensures
        pow16(k) >= 1,
    decreases k,
{
    if k > 0 {
        lemma_pow16_positive((k - 1) as nat);
    }
}

proof fn lemma_pow16_monotonic(a: nat, b: nat)
    requires
        a <= b,
    ensures
        pow16(a) <= pow16(b),
    decreases b,
{
    if a < b {
        lemma_pow16_monotonic(a, (b - 1) as nat);
        lemma_pow16_positive((b - 1) as nat);
    }
}

proof fn lemma_pow16_values()
    ensures
        pow16(8) == 0x1_0000_0000,
        pow16(16) == 0x1_0000_0000_0000_0000,
{
    reveal_with_fuel(pow16, 17);
}

proof fn lemma_div_mod_16(n: nat)
    ensures
        n == (n / 16) * 16 + n % 16,
        n % 16 < 16,
{
    vstd::arithmetic::div_mod::lemma_fundamental_div_mod(n as int, 16);
}

proof fn lemma_hex_digits_shape(n: nat, k: nat)
    ensures
        hex_digits(n, k).len() == k,
        all_hex(hex_digits(n, k)),
    decreases k,
{
    if k > 0 {
        lemma_hex_digits_shape(n / 16, (k - 1) as nat);
        lemma_div_mod_16(n);
        let s = hex_digits(n, k);
        assert forall|i: int| 0 <= i < s.len() implies is_hex_char(#[trigger] s[i]) by {
            if i < k - 1 {
                assert(s[i] == hex_digits(n / 16, (k - 1) as nat)[i]);
            }
        }
    }
}

/// Reading back the `k` digits of `n < 16^k` gives `n`.
proof fn lemma_hex_value_of_digits(n: nat, k: nat)
    requires
        n < pow16(k),
    ensures
        hex_value(hex_digits(n, k)) == n,
    decreases k,
{
    if k == 0 {
    } else {
        lemma_div_mod_16(n);
        let q = n / 16;
        assert(q < pow16((k - 1) as nat)) by (nonlinear_arith)
            requires
                n == q * 16 + n % 16,
                n % 16 >= 0,
                n < 16 * pow16((k - 1) as nat),
        ;
        lemma_hex_value_of_digits(q, (k - 1) as nat);
        let s = hex_digits(n, k);
        assert(s.drop_last() =~= hex_digits(q, (k - 1) as nat));
    }
}

/// Hex digits are the digits of their own value.
proof fn lemma_digits_of_hex_value(s: Seq<u8>)
    requires
        all_hex(s),
    ensures
        hex_digits(hex_value(s), s.len()) == s,
        hex_value(s) < pow16(s.len()),
    decreases s.len(),
{
    if s.len() > 0 {
        let p = s.drop_last();
        assert(all_hex(p)) by {
            assert forall|i: int| 0 <= i < p.len() implies is_hex_char(#[trigger] p[i]) by {
                assert(p[i] == s[i]);
            }
        }
        lemma_digits_of_hex_value(p);
        let c = s.last();
        assert(is_hex_char(s[s.len() - 1]));
        let d = hex_char_value(c);
        let v = hex_value(p);
        assert(d < 16);
        vstd::arithmetic::div_mod::lemma_fundamental_div_mod_converse(
            (v * 16 + d) as int,
            16,
            v as int,
            d as int,
        );
        assert(hex_char(d) == c);
        assert(hex_digits(hex_value(s), s.len()) =~= s);
        assert(v * 16 + d < 16 * pow16(p.len())) by (nonlinear_arith)
            requires
                v < pow16(p.len()),
                d < 16,
        ;
    }
}

// ---- writing ----

#[derive(Clone, Copy, Debug, PartialEq, Eq, Structural)]
pub enum EncodeError {
    /// Two records of the scene carry this index.
    DuplicateEntity(u32),
    /// The record with this index holds a value of this kind that has no
    /// persisted form.
    UnsupportedValue { entity: u32, kind: ComponentKind },
}

fn write_kind(out: &mut Vec<u8>, k: ComponentKind)
    ensures
        final(out)@ == old(out)@.push(kind_byte(k)),
{
    let b: u8 = match k {
        ComponentKind::Position => 0x50,
        ComponentKind::Velocity => 0x56,
        ComponentKind::FixedOffset => 0x46,
        ComponentKind::Enemy => 0x45,
        ComponentKind::Player => 0x59,
        ComponentKind::LevelEntity => 0x4c,
        ComponentKind::CollisionShape => 0x53,
        ComponentKind::Bullet => 0x42,
    };
    out.push(b);
}

fn write_hex(out: &mut Vec<u8>, n: u64, k: usize)
    ensures
        final(out)@ == old(out)@ + hex_digits(n as nat, k as nat),
    decreases k,
{
    if k == 0 {
        assert(old(out)@ + hex_digits(n as nat, 0) =~= old(out)@);
        return;
    }
    write_hex(out, n / 16, k - 1);
    let d = n % 16;
    let c: u8 = if d < 10 {
        48 + d as u8
    } else {
        87 + d as u8
    };
    assert(c == hex_char(d as nat));
    out.push(c);
    assert(final(out)@ =~= old(out)@ + hex_digits(n as nat, k as nat)) by {
        assert((n / 16) as nat == (n as nat) / 16);
    }
}

fn write_int(out: &mut Vec<u8>, v: i64)
    ensures
        final(out)@ == old(out)@ + encode_int(v),
{
    let mag: u64 = if v >= 0 {
        v as u64
    } else if v == i64::MIN {
        0x8000_0000_0000_0000
    } else {
        (-v) as u64
    };
    assert(mag as nat == magnitude(v));
    if v < 0 {
        out.push(SIGN_MINUS);
    } else {
        out.push(SIGN_PLUS);
    }
    write_hex(out, mag, MAGNITUDE_DIGITS);
    assert(out@ =~= old(out)@ + encode_int(v));
}

fn write_value(out: &mut Vec<u8>, v: PortableValue)
    requires
        supported_value(v),
    ensures
        final(out)@ == old(out)@ + encode_value(v),
{
    match v {
        PortableValue::Unit => {
            out.push(VALUE_UNIT);
            assert(out@ =~= old(out)@ + encode_value(v));
        },
        PortableValue::Pair(a, b) => {
            out.push(VALUE_PAIR);
            write_int(out, a);
            write_int(out, b);
            assert(out@ =~= old(out)@ + encode_value(v));
        },
        PortableValue::Opaque(_) => {},
    }
}

fn write_entity(out: &mut Vec<u8>, e: &DynamicEntity)
    requires
        components_supported(e@.components),
    ensures
        final(out)@ == old(out)@ + encode_entity(e@),
{
    out.push(ENTITY_OPEN);
    write_hex(out, e.entity as u64, INDEX_DIGITS);
    let ghost head = out@;
    let mut m: usize = 0;
    while m < e.components.len()
        invariant
            m <= e.components@.len(),
            components_supported(e@.components),
            out@ == head + encode_components(e.components@.take(m as int)),
        decreases e.components@.len() - m,
    {
        let (k, v) = e.components[m];
        assert(supported_value(e.components@[m as int].1));
        let ghost before = out@;
        write_kind(out, k);
        write_value(out, v);
        let ghost cs = e.components@.take(m + 1);
        assert(cs.drop_last() =~= e.components@.take(m as int));
        assert(out@ =~= head + encode_components(cs));
        m += 1;
    }
    assert(e.components@.take(m as int) =~= e.components@);
    out.push(ENTITY_CLOSE);
    assert(out@ =~= old(out)@ + encode_entity(e@));
}

/// The index of a record whose index an earlier record also has, if any.
fn find_duplicate(s: &Scene) -> (r: Option<u32>)
    ensures
        r is None <==> distinct_indices(s@),
        r matches Some(i) ==> exists|a: int, b: int|
            0 <= a < b < s@.len() && s@[a].index == i && s@[b].index == i,
{
    let n = s.entities.len();
    let mut j: usize = 0;
    while j < n
        invariant
            n == s@.len(),
            j <= n,
            forall|a: int, b: int| 0 <= a < b < j ==> (#[trigger] s@[a]).index != (#[trigger] s@[b]).index,
        decreases n - j,
    {
        let mut a: usize = 0;
        while a < j
            invariant
                n == s@.len(),
                a <= j < n,
                forall|x: int| 0 <= x < a ==> (#[trigger] s@[x]).index != s@[j as int].index,
            decreases j - a,
        {
            assert(s@[a as int].index == s.entities[a as int].entity);
            assert(s@[j as int].index == s.entities[j as int].entity);
            if s.entities[a].entity == s.entities[j].entity {
                return Some(s.entities[j].entity);
            }
            a += 1;
        }
        j += 1;
    }
    None
}

/// The first value without a persisted form, with its record's index and kind.
fn find_unsupported(s: &Scene) -> (r: Option<(u32, ComponentKind)>)
    ensures
        r is None <==> all_supported(s@),
        r matches Some((i, k)) ==> exists|a: int, m: int|
            0 <= a < s@.len() && 0 <= m < s@[a].components.len() && s@[a].index == i
                && s@[a].components[m].0 == k && !supported_value(s@[a].components[m].1),
{
    let mut a: usize = 0;
    while a < s.entities.len()
        invariant
            a <= s@.len(),
            forall|x: int| 0 <= x < a ==> components_supported((#[trigger] s@[x]).components),
        decreases s@.len() - a,
    {
        let e = &s.entities[a];
        assert(e@ == s@[a as int]);
        let mut m: usize = 0;
        while m < e.components.len()
            invariant
                a < s@.len(),
                e@ == s@[a as int],
                m <= e.components@.len(),
                forall|y: int| 0 <= y < m ==> supported_value((#[trigger] e.components@[y]).1),
            decreases e.components@.len() - m,
        {
            let (k, v) = e.components[m];
            match v {
                PortableValue::Opaque(_) => {
                    return Some((e.entity, k));
                },
                _ => {},
            }
            m += 1;
        }
        a += 1;
    }
    None
}

/// Writes the scene in the persisted format. A scene in which two records
/// share an index, or which holds a value with no persisted form, is refused
/// and nothing is written; the duplicate is reported first.
pub fn encode(s: &Scene) -> (r: Result<Vec<u8>, EncodeError>)
    ensures
        match r {
            Ok(b) => valid_scene(s@) && b@ == encode_scene(s@),
            Err(EncodeError::DuplicateEntity(i)) => !distinct_indices(s@) && exists|a: int, b: int|
                0 <= a < b < s@.len() && s@[a].index == i && s@[b].index == i,
            Err(EncodeError::UnsupportedValue { entity, kind }) => distinct_indices(s@)
                && exists|a: int, m: int|
                0 <= a < s@.len() && 0 <= m < s@[a].components.len() && s@[a].index == entity
                    && s@[a].components[m].0 == kind && !supported_value(s@[a].components[m].1),
        },
{
    match find_duplicate(s) {
        Some(i) => {
            return Err(EncodeError::DuplicateEntity(i));
        },
        None => {},
    }
    match find_unsupported(s) {
        Some((entity, kind)) => {
            return Err(EncodeError::UnsupportedValue { entity, kind });
        },
        None => {},
    }
    let mut out: Vec<u8> = Vec::new();
    out.push(SCENE_OPEN);
    let mut j: usize = 0;
    while j < s.entities.len()
        invariant
            j <= s@.len(),
            all_supported(s@),
            out@ == seq![SCENE_OPEN] + encode_entities(s@.take(j as int)),
        decreases s@.len() - j,
    {
        assert(s.entities@[j as int]@ == s@[j as int]);
        write_entity(&mut out, &s.entities[j]);
        let ghost es = s@.take(j + 1);
        assert(es.drop_last() =~= s@.take(j as int));
        assert(out@ =~= seq![SCENE_OPEN] + encode_entities(es));
        j += 1;
    }
    assert(s@.take(j as int) =~= s@);
    out.push(SCENE_CLOSE);
    assert(out@ =~= encode_scene(s@));
    Ok(out)
}

// ---- reading ----

/// `p` stands in `b` from position `pos` on.
pub open spec fn prefix_at(b: Seq<u8>, pos: int, p: Seq<u8>) -> bool {
    &&& 0 <= pos
    &&& pos + p.len() <= b.len()
    &&& b.subrange(pos, pos + p.len()) == p
}

proof fn lemma_prefix_split(b: Seq<u8>, pos: int, p: Seq<u8>, q: Seq<u8>)
    requires
        prefix_at(b, pos, p + q),
    ensures
        prefix_at(b, pos, p),
        prefix_at(b, pos + p.len(), q),
{
    let whole = b.subrange(pos, pos + p.len() + q.len());
    assert(whole == p + q);
    assert(b.subrange(pos, pos + p.len()) =~= whole.subrange(0, p.len() as int));
    assert((p + q).subrange(0, p.len() as int) =~= p);
    assert(b.subrange(pos + p.len(), pos + p.len() + q.len()) =~= whole.subrange(
        p.len() as int,
        (p.len() + q.len()) as int,
    ));
    assert((p + q).subrange(p.len() as int, (p.len() + q.len()) as int) =~= q);
}

proof fn lemma_prefix_join(b: Seq<u8>, pos: int, p: Seq<u8>, q: Seq<u8>)
    requires
        prefix_at(b, pos, p),
        prefix_at(b, pos + p.len(), q),
    ensures
        prefix_at(b, pos, p + q),
{
    assert(b.subrange(pos, pos + p.len() + q.len()) =~= p + q);
}

/// Reads `k` hex digits at `pos`.
fn parse_hex(b: &Vec<u8>, pos: usize, k: usize) -> (r: Option<u64>)
    requires
        k <= 16,
    ensures
        r == if pos + k <= b@.len() && all_hex(b@.subrange(pos as int, pos + k)) {
            Some(hex_value(b@.subrange(pos as int, pos + k)) as u64)
        } else {
            None::<u64>
        },
        r is Some ==> hex_value(b@.subrange(pos as int, pos + k)) < pow16(k as nat),
{
    if pos > b.len() || k > b.len() - pos {
        return None;
    }
    let mut v: u64 = 0;
    let mut i: usize = 0;
    while i < k
        invariant
            k <= 16,
            pos + k <= b@.len(),
            b@.len() <= usize::MAX,
            i <= k,
            all_hex(b@.subrange(pos as int, pos + i)),
            v as nat == hex_value(b@.subrange(pos as int, pos + i)),
            v < pow16(i as nat),
        decreases k - i,
    {
        let c = b[pos + i];
        let ghost sub = b@.subrange(pos as int, pos + k);
        if !((48 <= c && c <= 57) || (97 <= c && c <= 102)) {
            assert(sub[i as int] == c);
            return None;
        }
        let d: u64 = if c <= 57 {
            (c - 48) as u64
        } else {
            (c - 87) as u64
        };
        let ghost next = b@.subrange(pos as int, pos + i + 1);
        assert(next.drop_last() =~= b@.subrange(pos as int, pos + i));
        assert(next.last() == c);
        proof {
            lemma_pow16_monotonic((i + 1) as nat, 16);
            lemma_pow16_values();
            assert(v * 16 + d < 16 * pow16(i as nat)) by (nonlinear_arith)
                requires
                    v < pow16(i as nat),
                    d < 16,
            ;
        }
        v = v * 16 + d;
        assert(all_hex(next)) by {
            assert forall|j: int| 0 <= j < next.len() implies is_hex_char(#[trigger] next[j]) by {
                if j < i {
                    assert(next[j] == b@.subrange(pos as int, pos + i)[j]);
                }
            }
        }
        i += 1;
    }
    Some(v)
}

fn parse_int(b: &Vec<u8>, pos: usize) -> (r: Option<i64>)
    ensures
        r matches Some(v) ==> prefix_at(b@, pos as int, encode_int(v)),
        forall|v: i64| #[trigger] prefix_at(b@, pos as int, encode_int(v)) ==> r == Some(v),
{
    proof {
        lemma_pow16_values();
    }
    let res: Option<i64> = if pos >= b.len() {
        None
    } else {
        let sign = b[pos];
        match parse_hex(b, pos + 1, MAGNITUDE_DIGITS) {
            None => None,
            Some(mag) => {
                if sign == SIGN_PLUS && mag <= 0x7fff_ffff_ffff_ffff {
                    Some(mag as i64)
                } else if sign == SIGN_MINUS && mag == 0x8000_0000_0000_0000 {
                    Some(i64::MIN)
                } else if sign == SIGN_MINUS && 0 < mag && mag < 0x8000_0000_0000_0000 {
                    Some(-(mag as i64))
                } else {
                    None
                }
            },
        }
    };
    proof {
        if let Some(v) = res {
            let sub = b@.subrange(pos + 1, pos + 17);
            lemma_digits_of_hex_value(sub);
            assert(magnitude(v) == hex_value(sub));
            assert(b@.subrange(pos as int, pos + 17) =~= encode_int(v));
        }
        assert forall|v: i64| #[trigger] prefix_at(b@, pos as int, encode_int(v)) implies res == Some(
            v,
        ) by {
            let e = encode_int(v);
            let digits = hex_digits(magnitude(v), 16);
            lemma_hex_digits_shape(magnitude(v), 16);
            lemma_hex_value_of_digits(magnitude(v), 16);
            assert(e[0] == b@[pos as int]);
            assert(b@.subrange(pos + 1, pos + 17) =~= digits) by {
                assert(b@.subrange(pos as int, pos + 17) == e);
                assert forall|j: int| 0 <= j < 16 implies b@.subrange(pos + 1, pos + 17)[j]
                    == digits[j] by {
                    assert(e[j + 1] == digits[j]);
                }
            }
        }
    }
    res
}

proof fn lemma_encode_int_len(v: i64)
    ensures
        encode_int(v).len() == 17,
{
    lemma_hex_digits_shape(magnitude(v), 16);
}

fn parse_value(b: &Vec<u8>, pos: usize) -> (r: Option<(PortableValue, usize)>)
    ensures
        r matches Some((v, e)) ==> supported_value(v) && e == pos + encode_value(v).len()
            && prefix_at(b@, pos as int, encode_value(v)),
        forall|v: PortableValue|
            supported_value(v) && #[trigger] prefix_at(b@, pos as int, encode_value(v)) ==> r == Some(
                (v, (pos + encode_value(v).len()) as usize),
            ),
{
    if pos >= b.len() {
        return None;
    }
    let tag = b[pos];
    let res: Option<(PortableValue, usize)> = if tag == VALUE_UNIT {
        Some((PortableValue::Unit, pos + 1))
    } else if tag == VALUE_PAIR {
        match parse_int(b, pos + 1) {
            None => None,
            Some(x) => {
                proof {
                    lemma_encode_int_len(x);
                }
                match parse_int(b, pos + 18) {
                    None => None,
                    Some(y) => {
                        proof {
                            lemma_encode_int_len(y);
                        }
                        Some((PortableValue::Pair(x, y), pos + 35))
                    },
                }
            },
        }
    } else {
        None
    };
    proof {
        if let Some((v, e)) = res {
            if let PortableValue::Pair(x, y) = v {
                assert(b@.subrange(pos as int, pos + 1) =~= seq![VALUE_PAIR]);
                lemma_prefix_join(b@, pos as int, seq![VALUE_PAIR], encode_int(x));
                lemma_prefix_join(b@, pos as int, seq![VALUE_PAIR] + encode_int(x), encode_int(y));
            } else {
                assert(b@.subrange(pos as int, pos + 1) =~= seq![VALUE_UNIT]);
            }
        }
        assert forall|v: PortableValue|
            supported_value(v) && #[trigger] prefix_at(b@, pos as int, encode_value(v)) implies res
            == Some((v, (pos + encode_value(v).len()) as usize)) by {
            if let PortableValue::Pair(x, y) = v {
                lemma_encode_int_len(x);
                lemma_encode_int_len(y);
                lemma_prefix_split(b@, pos as int, seq![VALUE_PAIR] + encode_int(x), encode_int(y));
                lemma_prefix_split(b@, pos as int, seq![VALUE_PAIR], encode_int(x));
                assert(b@.subrange(pos as int, pos + 1)[0] == b@[pos as int]);
            } else {
                assert(b@.subrange(pos as int, pos + 1)[0] == b@[pos as int]);
            }
        }
    }
    res
}

fn parse_kind(c: u8) -> (r: Option<ComponentKind>)
    ensures
        r == byte_kind(c),
{
    if c == 0x50 {
        Some(ComponentKind::Position)
    } else if c == 0x56 {
        Some(ComponentKind::Velocity)
    } else if c == 0x46 {
        Some(ComponentKind::FixedOffset)
    } else if c == 0x45 {
        Some(ComponentKind::Enemy)
    } else if c == 0x59 {
        Some(ComponentKind::Player)
    } else if c == 0x4c {
        Some(ComponentKind::LevelEntity)
    } else if c == 0x53 {
        Some(ComponentKind::CollisionShape)
    } else if c == 0x42 {
        Some(ComponentKind::Bullet)
    } else {
        None
    }
}

proof fn lemma_kind_byte(k: ComponentKind)
    ensures
        byte_kind(kind_byte(k)) == Some(k),
        kind_byte(k) != ENTITY_CLOSE,
{
}

fn parse_component(b: &Vec<u8>, pos: usize) -> (r: Option<((ComponentKind, PortableValue), usize)>)
    ensures
        r matches Some((c, e)) ==> supported_value(c.1) && e == pos + encode_component(c).len()
            && prefix_at(b@, pos as int, encode_component(c)),
        forall|c: (ComponentKind, PortableValue)|
            supported_value(c.1) && #[trigger] prefix_at(b@, pos as int, encode_component(c))
                ==> r == Some((c, (pos + encode_component(c).len()) as usize)),
{
    if pos >= b.len() {
        return None;
    }
    let res = match parse_kind(b[pos]) {
        None => None,
        Some(k) => match parse_value(b, pos + 1) {
            None => None,
            Some((v, e)) => Some(((k, v), e)),
        },
    };
    proof {
        if let Some((c, e)) = res {
            assert(b@.subrange(pos as int, pos + 1) =~= seq![kind_byte(c.0)]);
            lemma_prefix_join(b@, pos as int, seq![kind_byte(c.0)], encode_value(c.1));
        }
        assert forall|c: (ComponentKind, PortableValue)|
            supported_value(c.1) && #[trigger] prefix_at(b@, pos as int, encode_component(c))
                implies res == Some((c, (pos + encode_component(c).len()) as usize)) by {
            lemma_prefix_split(b@, pos as int, seq![kind_byte(c.0)], encode_value(c.1));
            assert(b@.subrange(pos as int, pos + 1)[0] == b@[pos as int]);
            lemma_kind_byte(c.0);
        }
    }
    res
}

proof fn lemma_encode_components_append(
    a: Seq<(ComponentKind, PortableValue)>,
    c: Seq<(ComponentKind, PortableValue)>,
)
    ensures
        encode_components(a + c) == encode_components(a) + encode_components(c),
    decreases c.len(),
{
    if c.len() == 0 {
        assert(a + c =~= a);
        assert(encode_components(a) + encode_components(c) =~= encode_components(a));
    } else {
        lemma_encode_components_append(a, c.drop_last());
        assert((a + c).drop_last() =~= a + c.drop_last());
        assert((a + c).last() == c.last());
        assert(encode_components(a + c) =~= encode_components(a) + encode_components(c));
    }
}

/// The encoding of `cs` splits after its first `n` components.
proof fn lemma_encode_components_split(cs: Seq<(ComponentKind, PortableValue)>, n: int)
    requires
        0 <= n < cs.len(),
    ensures
        encode_components(cs) == encode_components(cs.take(n)) + encode_component(cs[n])
            + encode_components(cs.skip(n + 1)),
{
    let one = seq![cs[n]];
    assert(cs =~= cs.take(n) + one + cs.skip(n + 1));
    lemma_encode_components_append(cs.take(n) + one, cs.skip(n + 1));
    lemma_encode_components_append(cs.take(n), one);
    assert(one.drop_last() =~= Seq::<(ComponentKind, PortableValue)>::empty());
    assert(encode_components(one.drop_last()) =~= Seq::<u8>::empty());
    assert(one.last() == cs[n]);
    assert(encode_components(one) =~= encode_component(cs[n]));
}

proof fn lemma_encode_component_nonempty(c: (ComponentKind, PortableValue))
    ensures
        encode_component(c).len() >= 1,
        encode_component(c)[0] == kind_byte(c.0),
{
}

/// `cs` stands at `pos`, followed by the byte that closes an entity.
pub open spec fn components_at(b: Seq<u8>, pos: int, cs: Seq<(ComponentKind, PortableValue)>) -> bool {
    prefix_at(b, pos, encode_components(cs).push(ENTITY_CLOSE))
}

fn parse_components(b: &Vec<u8>, pos: usize) -> (r: Option<(Vec<(ComponentKind, PortableValue)>, usize)>)
    ensures
        r matches Some((cs, e)) ==> components_supported(cs@) && components_at(b@, pos as int, cs@)
            && e == pos + encode_components(cs@).len(),
        forall|cs: Seq<(ComponentKind, PortableValue)>|
            components_supported(cs) && #[trigger] components_at(b@, pos as int, cs) ==> (r matches Some(
                (v, e),
            ) && v@ == cs && e == pos + encode_components(cs).len()),
{
    if pos > b.len() {
        return None;
    }
    let mut out: Vec<(ComponentKind, PortableValue)> = Vec::new();
    let mut p: usize = pos;
    proof {
        assert(encode_components(out@) =~= Seq::<u8>::empty());
        assert(b@.subrange(pos as int, pos as int) =~= encode_components(out@));
    }
    while p < b.len() && b[p] != ENTITY_CLOSE
        invariant
            pos <= p <= b@.len(),
            components_supported(out@),
            p == pos + encode_components(out@).len(),
            b@.subrange(pos as int, p as int) == encode_components(out@),
            forall|cs: Seq<(ComponentKind, PortableValue)>|
                components_supported(cs) && #[trigger] components_at(b@, pos as int, cs) ==> out@.len()
                    <= cs.len() && cs.take(out@.len() as int) == out@,
        decreases b@.len() - p,
    {
        let ghost before = out@;
        let step = parse_component(b, p);
        proof {
            assert forall|cs: Seq<(ComponentKind, PortableValue)>|
                components_supported(cs) && #[trigger] components_at(b@, pos as int, cs) implies {
                &&& before.len() < cs.len()
                &&& step == Some((cs[before.len() as int], (p + encode_component(cs[before.len() as int]).len()) as usize))
            } by {
                let n = before.len() as int;
                if cs.len() == n {
                    assert(cs.take(n) =~= cs);
                    assert(encode_components(cs).push(ENTITY_CLOSE) =~= encode_components(cs) + seq![ENTITY_CLOSE]);
                    lemma_prefix_split(b@, pos as int, encode_components(cs), seq![ENTITY_CLOSE]);
                    assert(b@.subrange(p as int, p + 1)[0] == b@[p as int]);
                    assert(b@[p as int] == ENTITY_CLOSE);
                }
                lemma_encode_components_split(cs, n);
                assert(supported_value(cs[n].1));
                let rest = encode_components(cs.skip(n + 1)).push(ENTITY_CLOSE);
                assert(encode_components(cs).push(ENTITY_CLOSE) =~= encode_components(before) + (
                encode_component(cs[n]) + rest));
                lemma_prefix_split(b@, pos as int, encode_components(before), encode_component(cs[n]) + rest);
                lemma_prefix_split(b@, p as int, encode_component(cs[n]), rest);
            }
        }
        match step {
            None => {
                return None;
            },
            Some((c, e)) => {
                out.push(c);
                proof {
                    assert(out@.drop_last() =~= before);
                    lemma_prefix_join(b@, pos as int, encode_components(before), encode_component(c));
                    assert(b@.subrange(pos as int, e as int) == encode_components(out@));
                    assert forall|cs: Seq<(ComponentKind, PortableValue)>|
                        components_supported(cs) && #[trigger] components_at(b@, pos as int, cs) implies out@.len()
                        <= cs.len() && cs.take(out@.len() as int) == out@ by {
                        assert(cs.take(out@.len() as int) =~= cs.take(before.len() as int).push(cs[before.len() as int]));
                    }
                }
                p = e;
            },
        }
    }
    if p >= b.len() {
        proof {
            assert forall|cs: Seq<(ComponentKind, PortableValue)>|
                components_supported(cs) && #[trigger] components_at(b@, pos as int, cs) implies false by {
                let n = out@.len() as int;
                assert(cs =~= cs.take(n) + cs.skip(n));
                lemma_encode_components_append(cs.take(n), cs.skip(n));
            }
        }
        return None;
    }
    proof {
        assert(b@.subrange(pos as int, p + 1) =~= encode_components(out@).push(ENTITY_CLOSE));
        assert forall|cs: Seq<(ComponentKind, PortableValue)>|
            components_supported(cs) && #[trigger] components_at(b@, pos as int, cs) implies cs == out@ by {
            let n = out@.len() as int;
            if n < cs.len() {
                lemma_encode_components_split(cs, n);
                lemma_encode_component_nonempty(cs[n]);
                lemma_kind_byte(cs[n].0);
                let rest = encode_components(cs.skip(n + 1)).push(ENTITY_CLOSE);
                assert(encode_components(cs).push(ENTITY_CLOSE) =~= encode_components(out@) + (
                encode_component(cs[n]) + rest));
                lemma_prefix_split(b@, pos as int, encode_components(out@), encode_component(cs[n]) + rest);
                assert(b@.subrange(p as int, p + 1 + encode_component(cs[n]).len() + rest.len() - 1)[0] == b@[p as int]);
            }
            assert(cs.take(n) =~= cs);
        }
    }
    Some((out, p))
}

fn parse_entity(b: &Vec<u8>, pos: usize) -> (r: Option<(DynamicEntity, usize)>)
    ensures
        r matches Some((d, e)) ==> components_supported(d@.components) && prefix_at(
            b@,
            pos as int,
            encode_entity(d@),
        ) && e == pos + encode_entity(d@).len(),
        forall|rec: EntityRecord|
            components_supported(rec.components) && #[trigger] prefix_at(b@, pos as int, encode_entity(rec))
                ==> (r matches Some((d, e)) && d@ == rec && e == pos + encode_entity(rec).len()),
{
    proof {
        lemma_pow16_values();
    }
    let res: Option<(DynamicEntity, usize)> = if pos >= b.len() || b[pos] != ENTITY_OPEN {
        None
    } else {
        match parse_hex(b, pos + 1, INDEX_DIGITS) {
            None => None,
            Some(idx) => match parse_components(b, pos + 9) {
                None => None,
                Some((cs, e)) => Some((DynamicEntity { entity: idx as u32, components: cs }, e + 1)),
            },
        }
    };
    proof {
        if res is Some {
            let found = res->0;
            let d = found.0;
            let sub = b@.subrange(pos + 1, pos + 9);
            lemma_digits_of_hex_value(sub);
            let head = seq![ENTITY_OPEN] + hex_digits(d@.index as nat, 8);
            assert(b@.subrange(pos as int, pos + 9) =~= head);
            assert(encode_entity(d@) =~= head + encode_components(d@.components).push(ENTITY_CLOSE));
            lemma_prefix_join(b@, pos as int, head, encode_components(d@.components).push(ENTITY_CLOSE));
        }
        assert forall|rec: EntityRecord|
            components_supported(rec.components) && #[trigger] prefix_at(b@, pos as int, encode_entity(rec))
                implies (res matches Some((d, e)) && d@ == rec && e == pos + encode_entity(rec).len()) by {
            let digits = hex_digits(rec.index as nat, 8);
            let head = seq![ENTITY_OPEN] + digits;
            lemma_hex_digits_shape(rec.index as nat, 8);
            lemma_hex_value_of_digits(rec.index as nat, 8);
            assert(encode_entity(rec) =~= head + encode_components(rec.components).push(ENTITY_CLOSE));
            lemma_prefix_split(b@, pos as int, head, encode_components(rec.components).push(ENTITY_CLOSE));
            lemma_prefix_split(b@, pos as int, seq![ENTITY_OPEN], digits);
            assert(b@.subrange(pos as int, pos + 1)[0] == b@[pos as int]);
            assert(components_at(b@, pos + 9, rec.components));
        }
    }
    res
}

/// The abstract records of a list of entities.
pub open spec fn records(v: Seq<DynamicEntity>) -> Seq<EntityRecord> {
    v.map_values(|d: DynamicEntity| d@)
}

proof fn lemma_encode_entities_append(a: Seq<EntityRecord>, c: Seq<EntityRecord>)
    ensures
        encode_entities(a + c) == encode_entities(a) + encode_entities(c),
    decreases c.len(),
{
    if c.len() == 0 {
        assert(a + c =~= a);
        assert(encode_entities(a) + encode_entities(c) =~= encode_entities(a));
    } else {
        lemma_encode_entities_append(a, c.drop_last());
        assert((a + c).drop_last() =~= a + c.drop_last());
        assert((a + c).last() == c.last());
        assert(encode_entities(a + c) =~= encode_entities(a) + encode_entities(c));
    }
}

proof fn lemma_encode_entities_split(es: Seq<EntityRecord>, n: int)
    requires
        0 <= n < es.len(),
    ensures
        encode_entities(es) == encode_entities(es.take(n)) + encode_entity(es[n]) + encode_entities(
            es.skip(n + 1),
        ),
{
    let one = seq![es[n]];
    assert(es =~= es.take(n) + one + es.skip(n + 1));
    lemma_encode_entities_append(es.take(n) + one, es.skip(n + 1));
    lemma_encode_entities_append(es.take(n), one);
    assert(one.drop_last() =~= Seq::<EntityRecord>::empty());
    assert(encode_entities(one.drop_last()) =~= Seq::<u8>::empty());
    assert(one.last() == es[n]);
    assert(encode_entities(one) =~= encode_entity(es[n]));
}

/// `es` stands at `pos`, followed by the byte that closes a scene.
pub open spec fn entities_at(b: Seq<u8>, pos: int, es: Seq<EntityRecord>) -> bool {
    prefix_at(b, pos, encode_entities(es).push(SCENE_CLOSE))
}

fn parse_entities(b: &Vec<u8>, pos: usize) -> (r: Option<(Vec<DynamicEntity>, usize)>)
    ensures
        r matches Some((es, e)) ==> all_supported(records(es@)) && entities_at(
            b@,
            pos as int,
            records(es@),
        ) && e == pos + encode_entities(records(es@)).len(),
        forall|es: Seq<EntityRecord>|
            all_supported(es) && #[trigger] entities_at(b@, pos as int, es) ==> (r matches Some((v, e))
                && records(v@) == es && e == pos + encode_entities(es).len()),
{
    if pos > b.len() {
        return None;
    }
    let mut out: Vec<DynamicEntity> = Vec::new();
    let mut p: usize = pos;
    proof {
        assert(records(out@) =~= Seq::<EntityRecord>::empty());
        assert(encode_entities(records(out@)) =~= Seq::<u8>::empty());
        assert(b@.subrange(pos as int, pos as int) =~= encode_entities(records(out@)));
    }
    while p < b.len() && b[p] != SCENE_CLOSE
        invariant
            pos <= p <= b@.len(),
            all_supported(records(out@)),
            p == pos + encode_entities(records(out@)).len(),
            b@.subrange(pos as int, p as int) == encode_entities(records(out@)),
            forall|es: Seq<EntityRecord>|
                all_supported(es) && #[trigger] entities_at(b@, pos as int, es) ==> records(out@).len()
                    <= es.len() && es.take(records(out@).len() as int) == records(out@),
        decreases b@.len() - p,
    {
        let ghost before = records(out@);
        let step = parse_entity(b, p);
        proof {
            assert forall|es: Seq<EntityRecord>|
                all_supported(es) && #[trigger] entities_at(b@, pos as int, es) implies {
                &&& before.len() < es.len()
                &&& (step matches Some((d, e)) && d@ == es[before.len() as int] && e == p
                    + encode_entity(es[before.len() as int]).len())
            } by {
                let n = before.len() as int;
                if es.len() == n {
                    assert(es.take(n) =~= es);
                    assert(encode_entities(es).push(SCENE_CLOSE) =~= encode_entities(es) + seq![SCENE_CLOSE]);
                    lemma_prefix_split(b@, pos as int, encode_entities(es), seq![SCENE_CLOSE]);
                    assert(b@.subrange(p as int, p + 1)[0] == b@[p as int]);
                    assert(b@[p as int] == SCENE_CLOSE);
                }
                lemma_encode_entities_split(es, n);
                assert(components_supported(es[n].components));
                let rest = encode_entities(es.skip(n + 1)).push(SCENE_CLOSE);
                assert(encode_entities(es).push(SCENE_CLOSE) =~= encode_entities(before) + (
                encode_entity(es[n]) + rest));
                lemma_prefix_split(b@, pos as int, encode_entities(before), encode_entity(es[n]) + rest);
                lemma_prefix_split(b@, p as int, encode_entity(es[n]), rest);
            }
        }
        match step {
            None => {
                return None;
            },
            Some((d, e)) => {
                out.push(d);
                proof {
                    assert(records(out@) =~= before.push(d@));
                    assert(records(out@).drop_last() =~= before);
                    lemma_prefix_join(b@, pos as int, encode_entities(before), encode_entity(d@));
                    assert(b@.subrange(pos as int, e as int) == encode_entities(records(out@)));
                    assert forall|i: int| 0 <= i < records(out@).len() implies components_supported(
                        (#[trigger] records(out@)[i]).components,
                    ) by {
                        if i < before.len() {
                            assert(records(out@)[i] == before[i]);
                        }
                    }
                    assert forall|es: Seq<EntityRecord>|
                        all_supported(es) && #[trigger] entities_at(b@, pos as int, es) implies records(
                        out@,
                    ).len() <= es.len() && es.take(records(out@).len() as int) == records(out@) by {
                        assert(es.take(records(out@).len() as int) =~= es.take(before.len() as int).push(
                            es[before.len() as int],
                        ));
                    }
                }
                p = e;
            },
        }
    }
    if p >= b.len() {
        proof {
            assert forall|es: Seq<EntityRecord>|
                all_supported(es) && #[trigger] entities_at(b@, pos as int, es) implies false by {
                let n = records(out@).len() as int;
                assert(es =~= es.take(n) + es.skip(n));
                lemma_encode_entities_append(es.take(n), es.skip(n));
            }
        }
        return None;
    }
    proof {
        let done = records(out@);
        assert(b@.subrange(pos as int, p + 1) =~= encode_entities(done).push(SCENE_CLOSE));
        assert forall|es: Seq<EntityRecord>|
            all_supported(es) && #[trigger] entities_at(b@, pos as int, es) implies es == done by {
            let n = done.len() as int;
            if n < es.len() {
                lemma_encode_entities_split(es, n);
                let rest = encode_entities(es.skip(n + 1)).push(SCENE_CLOSE);
                assert(encode_entities(es).push(SCENE_CLOSE) =~= encode_entities(done) + (
                encode_entity(es[n]) + rest));
                lemma_prefix_split(b@, pos as int, encode_entities(done), encode_entity(es[n]) + rest);
                assert(encode_entity(es[n])[0] == ENTITY_OPEN);
                assert(b@.subrange(p as int, p + encode_entity(es[n]).len() + rest.len())[0] == b@[p as int]);
            }
            assert(es.take(n) =~= es);
        }
    }
    Some((out, p))
}

#[derive(Clone, Copy, Debug, PartialEq, Eq, Structural)]
pub enum DecodeError {
    /// The bytes are not the encoding of any scene.
    Malformed,
    /// The bytes encode a list of records in which two share this index.
    DuplicateEntity(u32),
}

/// Reads a scene back from its persisted form. Succeeds exactly on the
/// encodings of valid scenes, and then returns the scene that was encoded.
pub fn decode(b: &Vec<u8>) -> (r: Result<Scene, DecodeError>)
    ensures
        r matches Ok(s) ==> valid_scene(s@) && encode_scene(s@) == b@,
        forall|t: Seq<EntityRecord>|
            valid_scene(t) && #[trigger] encode_scene(t) == b@ ==> (r matches Ok(s) && s@ == t),
        r == Err::<Scene, DecodeError>(DecodeError::Malformed) ==> forall|t: Seq<EntityRecord>|
            all_supported(t) ==> #[trigger] encode_scene(t) != b@,
        r matches Err(DecodeError::DuplicateEntity(i)) ==> exists|t: Seq<EntityRecord>|
            #![trigger encode_scene(t)]
            all_supported(t) && encode_scene(t) == b@ && !distinct_indices(t) && exists|x: int, y: int|
                0 <= x < y < t.len() && t[x].index == i && t[y].index == i,
{
    proof {
        assert forall|t: Seq<EntityRecord>| encode_scene(t) == b@ implies b@.len() >= 2 && b@[0]
            == SCENE_OPEN && entities_at(b@, 1, t) && b@.len() == encode_entities(t).len() + 2 by {
            assert(b@.subrange(1, (1 + encode_entities(t).len() + 1) as int) =~= encode_entities(t).push(
                SCENE_CLOSE,
            ));
        }
    }
    if b.len() < 2 || b[0] != SCENE_OPEN {
        return Err(DecodeError::Malformed);
    }
    match parse_entities(b, 1) {
        None => Err(DecodeError::Malformed),
        Some((es, e)) => {
            if e + 1 != b.len() {
                return Err(DecodeError::Malformed);
            }
            let scene = Scene { entities: es };
            proof {
                assert(scene@ == records(es@));
                assert(b@ =~= encode_scene(scene@)) by {
                    assert(b@.subrange(1, e + 1) == encode_entities(scene@).push(SCENE_CLOSE));
                    assert forall|i: int| 0 <= i < b@.len() implies b@[i] == encode_scene(scene@)[i] by {
                        if i > 0 {
                            assert(b@.subrange(1, e + 1)[i - 1] == b@[i]);
                        }
                    }
                }
            }
            match find_duplicate(&scene) {
                Some(i) => Err(DecodeError::DuplicateEntity(i)),
                None => Ok(scene),
            }
        },
    }
}

// ---- one scene per encoding ----

proof fn lemma_prefix_first(b: Seq<u8>, pos: int, p: Seq<u8>)
    requires
        prefix_at(b, pos, p),
        p.len() > 0,
    ensures
        b[pos] == p[0],
{
    assert(b.subrange(pos, pos + p.len())[0] == b[pos]);
}

proof fn lemma_encode_int_injective(x: i64, y: i64)
    requires
        encode_int(x) == encode_int(y),
    ensures
        x == y,
{
    lemma_pow16_values();
    let dx = hex_digits(magnitude(x), 16);
    let dy = hex_digits(magnitude(y), 16);
    lemma_hex_digits_shape(magnitude(x), 16);
    lemma_hex_digits_shape(magnitude(y), 16);
    assert(encode_int(x)[0] == encode_int(y)[0]);
    assert(encode_int(x)[0] == if x < 0 {
        SIGN_MINUS
    } else {
        SIGN_PLUS
    });
    assert(encode_int(y)[0] == if y < 0 {
        SIGN_MINUS
    } else {
        SIGN_PLUS
    });
    assert(dx =~= encode_int(x).subrange(1, 17));
    assert(dy =~= encode_int(y).subrange(1, 17));
    lemma_hex_value_of_digits(magnitude(x), 16);
    lemma_hex_value_of_digits(magnitude(y), 16);
    assert(dx == dy);
    assert(magnitude(x) == magnitude(y));
    assert((x < 0) == (y < 0));
}

proof fn lemma_value_unique(b: Seq<u8>, pos: int, v: PortableValue, w: PortableValue)
    requires
        supported_value(v),
        supported_value(w),
        prefix_at(b, pos, encode_value(v)),
        prefix_at(b, pos, encode_value(w)),
    ensures
        v == w,
{
    lemma_prefix_first(b, pos, encode_value(v));
    lemma_prefix_first(b, pos, encode_value(w));
    if let PortableValue::Pair(x1, y1) = v {
        if let PortableValue::Pair(x2, y2) = w {
            lemma_encode_int_len(x1);
            lemma_encode_int_len(x2);
            lemma_encode_int_len(y1);
            lemma_encode_int_len(y2);
            lemma_prefix_split(b, pos, seq![VALUE_PAIR] + encode_int(x1), encode_int(y1));
            lemma_prefix_split(b, pos, seq![VALUE_PAIR], encode_int(x1));
            lemma_prefix_split(b, pos, seq![VALUE_PAIR] + encode_int(x2), encode_int(y2));
            lemma_prefix_split(b, pos, seq![VALUE_PAIR], encode_int(x2));
            lemma_encode_int_injective(x1, x2);
            lemma_encode_int_injective(y1, y2);
        }
    }
}

proof fn lemma_component_unique(
    b: Seq<u8>,
    pos: int,
    c: (ComponentKind, PortableValue),
    d: (ComponentKind, PortableValue),
)
    requires
        supported_value(c.1),
        supported_value(d.1),
        prefix_at(b, pos, encode_component(c)),
        prefix_at(b, pos, encode_component(d)),
    ensures
        c == d,
{
    lemma_prefix_split(b, pos, seq![kind_byte(c.0)], encode_value(c.1));
    lemma_prefix_split(b, pos, seq![kind_byte(d.0)], encode_value(d.1));
    lemma_prefix_first(b, pos, seq![kind_byte(c.0)]);
    lemma_prefix_first(b, pos, seq![kind_byte(d.0)]);
    lemma_kind_byte(c.0);
    lemma_kind_byte(d.0);
    lemma_value_unique(b, pos + 1, c.1, d.1);
}

proof fn lemma_components_front(cs: Seq<(ComponentKind, PortableValue)>)
    requires
        cs.len() > 0,
    ensures
        encode_components(cs).push(ENTITY_CLOSE) == encode_component(cs[0]) + encode_components(
            cs.drop_first(),
        ).push(ENTITY_CLOSE),
{
    lemma_encode_components_split(cs, 0);
    assert(cs.take(0) =~= Seq::<(ComponentKind, PortableValue)>::empty());
    assert(encode_components(cs.take(0)) =~= Seq::<u8>::empty());
    assert(cs.skip(1) =~= cs.drop_first());
    assert(encode_components(cs).push(ENTITY_CLOSE) =~= encode_component(cs[0]) + encode_components(
        cs.drop_first(),
    ).push(ENTITY_CLOSE));
}

proof fn lemma_components_unique(
    b: Seq<u8>,
    pos: int,
    c1: Seq<(ComponentKind, PortableValue)>,
    c2: Seq<(ComponentKind, PortableValue)>,
)
    requires
        components_supported(c1),
        components_supported(c2),
        components_at(b, pos, c1),
        components_at(b, pos, c2),
    ensures
        c1 == c2,
    decreases c1.len(),
{
    if c1.len() == 0 || c2.len() == 0 {
        if c1.len() > 0 || c2.len() > 0 {
            let (full, empty) = if c1.len() > 0 {
                (c1, c2)
            } else {
                (c2, c1)
            };
            assert(encode_components(empty).push(ENTITY_CLOSE) =~= seq![ENTITY_CLOSE]);
            lemma_prefix_first(b, pos, seq![ENTITY_CLOSE]);
            lemma_components_front(full);
            lemma_encode_component_nonempty(full[0]);
            lemma_kind_byte(full[0].0);
            lemma_prefix_first(b, pos, encode_components(full).push(ENTITY_CLOSE));
        } else {
            assert(c1 =~= c2);
        }
    } else {
        lemma_components_front(c1);
        lemma_components_front(c2);
        lemma_prefix_split(
            b,
            pos,
            encode_component(c1[0]),
            encode_components(c1.drop_first()).push(ENTITY_CLOSE),
        );
        lemma_prefix_split(
            b,
            pos,
            encode_component(c2[0]),
            encode_components(c2.drop_first()).push(ENTITY_CLOSE),
        );
        assert(supported_value(c1[0].1));
        assert(supported_value(c2[0].1));
        lemma_component_unique(b, pos, c1[0], c2[0]);
        let t1 = c1.drop_first();
        let t2 = c2.drop_first();
        assert(components_supported(t1)) by {
            assert forall|m: int| 0 <= m < t1.len() implies supported_value((#[trigger] t1[m]).1) by {
                assert(t1[m] == c1[m + 1]);
            }
        }
        assert(components_supported(t2)) by {
            assert forall|m: int| 0 <= m < t2.len() implies supported_value((#[trigger] t2[m]).1) by {
                assert(t2[m] == c2[m + 1]);
            }
        }
        lemma_components_unique(b, pos + encode_component(c1[0]).len(), t1, t2);
        assert(c1 =~= c2) by {
            assert forall|m: int| 0 <= m < c1.len() implies c1[m] == c2[m] by {
                if m > 0 {
                    assert(c1[m] == t1[m - 1]);
                    assert(c2[m] == t2[m - 1]);
                }
            }
        }
    }
}

proof fn lemma_entity_unique(b: Seq<u8>, pos: int, e1: EntityRecord, e2: EntityRecord)
    requires
        components_supported(e1.components),
        components_supported(e2.components),
        prefix_at(b, pos, encode_entity(e1)),
        prefix_at(b, pos, encode_entity(e2)),
    ensures
        e1 == e2,
{
    lemma_pow16_values();
    let d1 = hex_digits(e1.index as nat, 8);
    let d2 = hex_digits(e2.index as nat, 8);
    lemma_hex_digits_shape(e1.index as nat, 8);
    lemma_hex_digits_shape(e2.index as nat, 8);
    lemma_hex_value_of_digits(e1.index as nat, 8);
    lemma_hex_value_of_digits(e2.index as nat, 8);
    assert(encode_entity(e1) =~= (seq![ENTITY_OPEN] + d1) + encode_components(e1.components).push(
        ENTITY_CLOSE,
    ));
    assert(encode_entity(e2) =~= (seq![ENTITY_OPEN] + d2) + encode_components(e2.components).push(
        ENTITY_CLOSE,
    ));
    lemma_prefix_split(b, pos, seq![ENTITY_OPEN] + d1, encode_components(e1.components).push(ENTITY_CLOSE));
    lemma_prefix_split(b, pos, seq![ENTITY_OPEN] + d2, encode_components(e2.components).push(ENTITY_CLOSE));
    lemma_prefix_split(b, pos, seq![ENTITY_OPEN], d1);
    lemma_prefix_split(b, pos, seq![ENTITY_OPEN], d2);
    lemma_components_unique(b, pos + 9, e1.components, e2.components);
}

proof fn lemma_entities_front(es: Seq<EntityRecord>)
    requires
        es.len() > 0,
    ensures
        encode_entities(es).push(SCENE_CLOSE) == encode_entity(es[0]) + encode_entities(
            es.drop_first(),
        ).push(SCENE_CLOSE),
{
    lemma_encode_entities_split(es, 0);
    assert(es.take(0) =~= Seq::<EntityRecord>::empty());
    assert(encode_entities(es.take(0)) =~= Seq::<u8>::empty());
    assert(es.skip(1) =~= es.drop_first());
    assert(encode_entities(es).push(SCENE_CLOSE) =~= encode_entity(es[0]) + encode_entities(
        es.drop_first(),
    ).push(SCENE_CLOSE));
}

proof fn lemma_entities_unique(b: Seq<u8>, pos: int, s1: Seq<EntityRecord>, s2: Seq<EntityRecord>)
    requires
        all_supported(s1),
        all_supported(s2),
        entities_at(b, pos, s1),
        entities_at(b, pos, s2),
    ensures
        s1 == s2,
    decreases s1.len(),
{
    if s1.len() == 0 || s2.len() == 0 {
        if s1.len() > 0 || s2.len() > 0 {
            let (full, empty) = if s1.len() > 0 {
                (s1, s2)
            } else {
                (s2, s1)
            };
            assert(encode_entities(empty).push(SCENE_CLOSE) =~= seq![SCENE_CLOSE]);
            lemma_prefix_first(b, pos, seq![SCENE_CLOSE]);
            lemma_entities_front(full);
            lemma_prefix_first(b, pos, encode_entities(full).push(SCENE_CLOSE));
        } else {
            assert(s1 =~= s2);
        }
    } else {
        lemma_entities_front(s1);
        lemma_entities_front(s2);
        lemma_prefix_split(b, pos, encode_entity(s1[0]), encode_entities(s1.drop_first()).push(SCENE_CLOSE));
        lemma_prefix_split(b, pos, encode_entity(s2[0]), encode_entities(s2.drop_first()).push(SCENE_CLOSE));
        assert(components_supported(s1[0].components));
        assert(components_supported(s2[0].components));
        lemma_entity_unique(b, pos, s1[0], s2[0]);
        let t1 = s1.drop_first();
        let t2 = s2.drop_first();
        assert(all_supported(t1)) by {
            assert forall|i: int| 0 <= i < t1.len() implies components_supported((#[trigger] t1[i]).components) by {
                assert(t1[i] == s1[i + 1]);
            }
        }
        assert(all_supported(t2)) by {
            assert forall|i: int| 0 <= i < t2.len() implies components_supported((#[trigger] t2[i]).components) by {
                assert(t2[i] == s2[i + 1]);
            }
        }
        lemma_entities_unique(b, pos + encode_entity(s1[0]).len(), t1, t2);
        assert(s1 =~= s2) by {
            assert forall|i: int| 0 <= i < s1.len() implies s1[i] == s2[i] by {
                if i > 0 {
                    assert(s1[i] == t1[i - 1]);
                    assert(s2[i] == t2[i - 1]);
                }
            }
        }
    }
}

/// Round trip: two valid scenes with the same encoding are the same scene.
/// With the contracts of `encode` and `decode`, decoding what `encode` wrote
/// for a valid scene gives back exactly that scene.
pub proof fn lemma_round_trip(s: Seq<EntityRecord>, t: Seq<EntityRecord>)
    requires
        valid_scene(s),
        valid_scene(t),
        encode_scene(s) == encode_scene(t),
    ensures
        s == t,
{
    let b = encode_scene(s);
    assert(b.subrange(1, (1 + encode_entities(s).len() + 1) as int) =~= encode_entities(s).push(
        SCENE_CLOSE,
    ));
    assert(b.subrange(1, (1 + encode_entities(t).len() + 1) as int) =~= encode_entities(t).push(
        SCENE_CLOSE,
    ));
    lemma_entities_unique(b, 1, s, t);
}

} // verus!
