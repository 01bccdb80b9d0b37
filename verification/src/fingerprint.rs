//! World fingerprint: a deterministic, order-independent hash of world state.
//!
//! Archetypes are keyed by their sorted set of stable component names and rows
//! by entity bits, so neither creation order nor row order matters. Component
//! values hash by their encoding, so heap-backed components hash by content.
//! Sparse components do not count.
use crate::record::ComponentId;
use crate::sorted;
use crate::sorted::{Bits, Rank, SortKey, SortedMap};
use std::collections::hash_map::DefaultHasher;
use std::hash::Hasher;
use vstd::bytes::*;
use vstd::prelude::*;
use vstd::std_specs::hash::*;

verus! {

/// What the fingerprint reads of one component of an archetype.
#[derive(Clone, Debug, PartialEq, Eq)]
pub struct ComponentState {
    pub id: ComponentId,
    /// The world knows the component's type.
    pub registered: bool,
    /// The stable name that a codec gives the type.
    pub name: Option<String>,
}

/// The encoding of one component value, or why there is none.
#[derive(Clone, Debug, PartialEq, Eq)]
pub enum ValueState {
    Bytes(Vec<u8>),
    NoColumn,
    CodecFailed(String),
    NoCodec,
}

/// One entity of an archetype with its component values, in component order.
#[derive(Clone, Debug, PartialEq, Eq)]
pub struct RowState {
    pub entity: u64,
    pub values: Vec<ValueState>,
}

#[derive(Clone, Debug, PartialEq, Eq)]
pub struct ArchetypeState {
    pub components: Vec<ComponentState>,
    pub rows: Vec<RowState>,
}

impl ArchetypeState {
    pub open spec fn wf(&self) -> bool {
        forall|r: int|
            0 <= r < self.rows@.len() ==> (#[trigger] self.rows@[r]).values@.len()
                == self.components@.len()
    }
}

#[derive(Clone, Debug, PartialEq, Eq)]
pub enum FingerprintError {
    Unregistered { id: ComponentId },
    NoCodec { id: ComponentId },
    NoColumn { row: usize },
    CodecFailed(String),
    NoValueCodec,
}

/// Value hashes by component name.
pub type ValueMap = Map<Seq<u8>, u64>;

/// Rows by entity bits.
pub type RowMap = Map<u64, ValueMap>;

/// Archetypes by their key.
pub type ArchetypeMap = Map<Seq<u8>, RowMap>;

/// A component's stable name, independent of its numeric id.
pub open spec fn name_of(c: ComponentState) -> Result<Seq<u8>, FingerprintError> {
    if !c.registered {
        Err(FingerprintError::Unregistered { id: c.id })
    } else {
        match c.name {
            None => Err(FingerprintError::NoCodec { id: c.id }),
            Some(name) => Ok(vstd::utf8::encode_utf8(name@)),
        }
    }
}

/// The names of `components[i..]` behind `names`.
pub open spec fn names_from(components: Seq<ComponentState>, i: int, names: Seq<Seq<u8>>) -> Result<
    Seq<Seq<u8>>,
    FingerprintError,
>
    decreases components.len() - i,
{
    if i < 0 || i >= components.len() {
        Ok(names)
    } else {
        match name_of(components[i]) {
            Err(e) => Err(e),
            Ok(name) => names_from(components, i + 1, names.push(name)),
        }
    }
}

/// `name` put into its place in an ascending list, behind equal ones.
pub open spec fn insorted(sorted: Seq<Seq<u8>>, name: Seq<u8>) -> Seq<Seq<u8>>
    decreases sorted.len(),
{
    if sorted.len() == 0 || !sorted::bytes_before(name, sorted.last()) {
        sorted.push(name)
    } else {
        insorted(sorted.drop_last(), name).push(sorted.last())
    }
}

/// `names` in ascending order.
pub open spec fn sorted_names(names: Seq<Seq<u8>>) -> Seq<Seq<u8>>
    decreases names.len(),
{
    if names.len() == 0 {
        Seq::empty()
    } else {
        insorted(sorted_names(names.drop_last()), names.last())
    }
}

/// Names joined by the byte 1.
pub open spec fn joined(names: Seq<Seq<u8>>) -> Seq<u8>
    decreases names.len(),
{
    if names.len() == 0 {
        Seq::empty()
    } else if names.len() == 1 {
        names[0]
    } else {
        joined(names.drop_last()).push(1u8) + names.last()
    }
}

/// The key of an archetype with these component names.
pub open spec fn archetype_key(names: Seq<Seq<u8>>) -> Seq<u8> {
    joined(sorted_names(names))
}

/// What the hasher is fed for an encoded value.
pub open spec fn fed_value(bytes: Seq<u8>) -> Seq<Seq<u8>> {
    seq![spec_u64_to_le_bytes(bytes.len() as u64), bytes]
}

/// The hash of an encoded value.
pub open spec fn value_hash(bytes: Seq<u8>) -> u64 {
    DefaultHasher::spec_finish(fed_value(bytes))
}

/// The values of row `r` from the `j`-th on, added to `map`.
pub open spec fn row_values(
    names: Seq<Seq<u8>>,
    values: Seq<ValueState>,
    r: int,
    j: int,
    map: ValueMap,
) -> Result<ValueMap, FingerprintError>
    decreases values.len() - j,
{
    if j < 0 || j >= values.len() {
        Ok(map)
    } else {
        match values[j] {
            ValueState::Bytes(bytes) => row_values(
                names,
                values,
                r,
                j + 1,
                map.insert(names[j], value_hash(bytes@)),
            ),
            ValueState::NoColumn => Err(FingerprintError::NoColumn { row: r as usize }),
            ValueState::CodecFailed(e) => Err(FingerprintError::CodecFailed(e)),
            ValueState::NoCodec => Err(FingerprintError::NoValueCodec),
        }
    }
}

pub open spec fn found_or_empty<K, A, B>(map: Map<K, Map<A, B>>, key: K) -> Map<A, B> {
    if map.contains_key(key) {
        map[key]
    } else {
        Map::empty()
    }
}

/// The rows of an archetype from the `r`-th on, added to `map`.
pub open spec fn archetype_rows(
    names: Seq<Seq<u8>>,
    rows: Seq<RowState>,
    r: int,
    map: RowMap,
) -> Result<RowMap, FingerprintError>
    decreases rows.len() - r,
{
    if r < 0 || r >= rows.len() {
        Ok(map)
    } else {
        let entity = rows[r].entity;
        match row_values(names, rows[r].values@, r, 0, found_or_empty(map, entity)) {
            Err(e) => Err(e),
            Ok(values) => archetype_rows(names, rows, r + 1, map.insert(entity, values)),
        }
    }
}

/// The contents of a world's archetypes from the `i`-th on, added to `map`.
pub open spec fn world_contents(
    archetypes: Seq<ArchetypeState>,
    i: int,
    map: ArchetypeMap,
) -> Result<ArchetypeMap, FingerprintError>
    decreases archetypes.len() - i,
{
    if i < 0 || i >= archetypes.len() {
        Ok(map)
    } else {
        let a = archetypes[i];
        match names_from(a.components@, 0, Seq::empty()) {
            Err(e) => Err(e),
            Ok(names) => {
                let key = archetype_key(names);
                match archetype_rows(names, a.rows@, 0, found_or_empty(map, key)) {
                    Err(e) => Err(e),
                    Ok(rows) => world_contents(archetypes, i + 1, map.insert(key, rows)),
                }
            },
        }
    }
}

/// What the hasher is fed for `entries[..n]` of a row.
pub open spec fn fed_values(entries: Seq<(Seq<u8>, u64)>, n: int) -> Seq<Seq<u8>>
    decreases n,
{
    if n <= 0 {
        Seq::empty()
    } else {
        fed_values(entries, n - 1) + seq![
            entries[n - 1].0,
            seq![0xffu8],
            spec_u64_to_le_bytes(entries[n - 1].1),
        ]
    }
}

/// What the hasher is fed for `entries[..n]` of an archetype.
pub open spec fn fed_rows(entries: Seq<(u64, ValueMap)>, n: int) -> Seq<Seq<u8>>
    decreases n,
{
    if n <= 0 {
        Seq::empty()
    } else {
        let values = sorted::listing(entries[n - 1].1, sorted::bytes_order());
        fed_rows(entries, n - 1) + seq![spec_u64_to_le_bytes(entries[n - 1].0)] + fed_values(
            values,
            values.len() as int,
        )
    }
}

/// What the hasher is fed for `entries[..n]` of a world.
pub open spec fn fed_archetypes(entries: Seq<(Seq<u8>, RowMap)>, n: int) -> Seq<Seq<u8>>
    decreases n,
{
    if n <= 0 {
        Seq::empty()
    } else {
        let rows = sorted::listing(entries[n - 1].1, sorted::bits_order());
        fed_archetypes(entries, n - 1) + seq![entries[n - 1].0, seq![0xffu8]] + fed_rows(
            rows,
            rows.len() as int,
        )
    }
}

/// What the hasher is fed for these contents.
pub open spec fn fed_contents(contents: ArchetypeMap) -> Seq<Seq<u8>> {
    let entries = sorted::listing(contents, sorted::bytes_order());
    fed_archetypes(entries, entries.len() as int)
}

/// The fingerprint of a world with these contents.
pub open spec fn contents_hash(contents: ArchetypeMap) -> u64 {
    DefaultHasher::spec_finish(fed_contents(contents))
}

/// The key under which an archetype's rows are kept.
pub open spec fn key_of(a: ArchetypeState) -> Seq<u8> {
    archetype_key(names_from(a.components@, 0, Seq::empty())->Ok_0)
}

fn hash_value(bytes: &Vec<u8>) -> (h: u64)
    ensures
        h == value_hash(bytes@),
{
    let mut hasher = DefaultHasher::new();
    hasher.write(u64_to_le_bytes(bytes.len() as u64).as_slice());
    hasher.write(bytes.as_slice());
    assert(hasher@ =~= seq![spec_u64_to_le_bytes(bytes@.len() as u64), bytes@]);
    hasher.finish()
}

pub open spec fn name_views(names: Seq<Vec<u8>>) -> Seq<Seq<u8>> {
    Seq::new(names.len(), |i: int| names[i]@)
}

fn component_names(components: &Vec<ComponentState>) -> (r: Result<Vec<Vec<u8>>, FingerprintError>)
    ensures
        match names_from(components@, 0, Seq::empty()) {
            Ok(names) => r matches Ok(found) && name_views(found@) == names && names.len()
                == components@.len(),
            Err(e) => r == Err::<Vec<Vec<u8>>, FingerprintError>(e),
        },
{
    let mut names: Vec<Vec<u8>> = Vec::new();
    assert(name_views(names@) =~= Seq::empty());
    let mut i: usize = 0;
    while i < components.len()
        invariant
            i <= components@.len(),
            names@.len() == i,
            names_from(components@, 0, Seq::empty()) == names_from(
                components@,
                i as int,
                name_views(names@),
            ),
        decreases components@.len() - i,
    {
        let c = &components[i];
        if !c.registered {
            return Err(FingerprintError::Unregistered { id: c.id });
        }
        match &c.name {
            None => {
                return Err(FingerprintError::NoCodec { id: c.id });
            },
            Some(name) => {
                let ghost before = names@;
                names.push(vstd::slice::slice_to_vec(name.as_str().as_bytes()));
                assert(name_views(names@) =~= name_views(before).push(names@.last()@));
            },
        }
        i = i + 1;
    }
    Ok(names)
}

fn sort_names(names: &Vec<Vec<u8>>) -> (sorted: Vec<Vec<u8>>)
    ensures
        name_views(sorted@) == sorted_names(name_views(names@)),
{
    let mut sorted: Vec<Vec<u8>> = Vec::new();
    let ghost views = name_views(names@);
    let mut i: usize = 0;
    assert(views.take(0) =~= Seq::empty());
    assert(name_views(sorted@) =~= Seq::empty());
    while i < names.len()
        invariant
            i <= names@.len(),
            views == name_views(names@),
            name_views(sorted@) == sorted_names(views.take(i as int)),
        decreases names@.len() - i,
    {
        let name = vstd::slice::slice_to_vec(names[i].as_slice());
        let ghost before = name_views(sorted@);
        let mut at: usize = sorted.len();
        assert(before.take(at as int) =~= before);
        assert(before.skip(at as int) =~= Seq::empty());
        assert(insorted(before, name@) + Seq::<Seq<u8>>::empty() =~= insorted(before, name@));
        while at > 0 && is_before(&name, &sorted[at - 1])
            invariant
                at <= sorted@.len(),
                before == name_views(sorted@),
                insorted(before, name@) == insorted(before.take(at as int), name@) + before.skip(
                    at as int,
                ),
            decreases at,
        {
            proof {
                let t = before.take(at as int);
                assert(t.drop_last() =~= before.take(at - 1));
                assert(t.last() == sorted@[at - 1]@);
                assert(insorted(t, name@) + before.skip(at as int) =~= insorted(
                    before.take(at - 1),
                    name@,
                ) + before.skip(at - 1));
            }
            at = at - 1;
        }
        proof {
            let t = before.take(at as int);
            if at > 0 {
                assert(t.last() == sorted@[at - 1]@);
            }
            assert(insorted(t, name@) == t.push(name@));
        }
        let ghost kept = sorted@;
        sorted.insert(at, name);
        proof {
            assert(name_views(sorted@) =~= before.take(at as int).push(name@) + before.skip(
                at as int,
            ));
            assert(views.take(i + 1).drop_last() =~= views.take(i as int));
        }
        i = i + 1;
    }
    assert(views.take(i as int) =~= views);
    sorted
}

fn is_before(a: &Vec<u8>, b: &Vec<u8>) -> (r: bool)
    ensures
        r == sorted::bytes_before(a@, b@),
{
    proof {
        <Vec<u8> as SortKey>::lemma_order();
    }
    match a.rank(b) {
        Rank::Before => true,
        Rank::Same => {
            assert(!sorted::bytes_order()(a@, a@));
            false
        },
        Rank::After => {
            assert(sorted::bytes_order()(b@, a@));
            assert(sorted::bytes_order()(a@, b@) ==> sorted::bytes_order()(a@, a@));
            false
        },
    }
}

fn join_names(names: &Vec<Vec<u8>>) -> (key: Vec<u8>)
    ensures
        key@ == joined(name_views(names@)),
{
    let mut key: Vec<u8> = Vec::new();
    let ghost views = name_views(names@);
    let mut i: usize = 0;
    assert(views.take(0) =~= Seq::empty());
    while i < names.len()
        invariant
            i <= names@.len(),
            views == name_views(names@),
            key@ == joined(views.take(i as int)),
        decreases names@.len() - i,
    {
        let ghost before = key@;
        if i > 0 {
            key.push(1u8);
        }
        crate::frame::append_slice(&mut key, names[i].as_slice());
        proof {
            let t = views.take(i + 1);
            assert(t.drop_last() =~= views.take(i as int));
            assert(t.last() == names@[i as int]@);
            if i == 0 {
                assert(t[0] == names@[0]@);
                assert(key@ =~= names@[0]@);
            } else {
                assert(key@ =~= before.push(1u8) + names@[i as int]@);
            }
        }
        i = i + 1;
    }
    assert(views.take(i as int) =~= views);
    key
}

type Values = SortedMap<Vec<u8>, u64>;

type Rows = SortedMap<Bits, Values>;

type Archetypes = SortedMap<Vec<u8>, Rows>;

spec fn rows_wf(rows: Rows) -> bool {
    &&& rows.sorted()
    &&& forall|i: int| 0 <= i < rows.entries@.len() ==> (#[trigger] rows.entries@[i]).1.sorted()
}

spec fn archetypes_wf(archetypes: Archetypes) -> bool {
    &&& archetypes.sorted()
    &&& forall|i: int|
        0 <= i < archetypes.entries@.len() ==> rows_wf((#[trigger] archetypes.entries@[i]).1)
}

fn add_values(
    values: &mut Values,
    names: &Vec<Vec<u8>>,
    row: &RowState,
    r: usize,
) -> (out: Result<(), FingerprintError>)
    requires
        old(values).sorted(),
        names@.len() == row.values@.len(),
    ensures
        match row_values(name_views(names@), row.values@, r as int, 0, old(values)@) {
            Ok(map) => out is Ok && final(values).sorted() && final(values)@ == map,
            Err(e) => out == Err::<(), FingerprintError>(e),
        },
{
    let ghost start = values@;
    let mut j: usize = 0;
    while j < row.values.len()
        invariant
            j <= row.values@.len(),
            names@.len() == row.values@.len(),
            values.sorted(),
            start == old(values)@,
            row_values(name_views(names@), row.values@, r as int, 0, start) == row_values(
                name_views(names@),
                row.values@,
                r as int,
                j as int,
                values@,
            ),
        decreases row.values@.len() - j,
    {
        match &row.values[j] {
            ValueState::NoColumn => {
                return Err(FingerprintError::NoColumn { row: r });
            },
            ValueState::CodecFailed(e) => {
                return Err(FingerprintError::CodecFailed(e.clone()));
            },
            ValueState::NoCodec => {
                return Err(FingerprintError::NoValueCodec);
            },
            ValueState::Bytes(bytes) => {
                let name = vstd::slice::slice_to_vec(names[j].as_slice());
                values.put(name, hash_value(bytes));
            },
        }
        j = j + 1;
    }
    Ok(())
}

fn add_rows(rows: &mut Rows, names: &Vec<Vec<u8>>, a: &ArchetypeState) -> (out: Result<
    (),
    FingerprintError,
>)
    requires
        rows_wf(*old(rows)),
        a.wf(),
        names@.len() == a.components@.len(),
    ensures
        match archetype_rows(name_views(names@), a.rows@, 0, old(rows)@) {
            Ok(map) => out is Ok && rows_wf(*final(rows)) && final(rows)@ == map,
            Err(e) => out == Err::<(), FingerprintError>(e),
        },
{
    let ghost start = rows@;
    let mut r: usize = 0;
    while r < a.rows.len()
        invariant
            r <= a.rows@.len(),
            a.wf(),
            names@.len() == a.components@.len(),
            rows_wf(*rows),
            start == old(rows)@,
            archetype_rows(name_views(names@), a.rows@, 0, start) == archetype_rows(
                name_views(names@),
                a.rows@,
                r as int,
                rows@,
            ),
        decreases a.rows@.len() - r,
    {
        let row = &a.rows[r];
        let key = Bits(row.entity);
        let ghost before = rows@;
        let mut values = match rows.take(&key) {
            Some(values) => values,
            None => SortedMap::new(),
        };
        assert(values@ == found_or_empty(before, row.entity));
        let ghost taken = *rows;
        if let Err(e) = add_values(&mut values, names, row, r) {
            return Err(e);
        }
        rows.put(key, values);
        assert(rows@ =~= before.insert(row.entity, values@));
        r = r + 1;
    }
    Ok(())
}

fn feed_values(hasher: &mut DefaultHasher, values: &Values)
    requires
        values.sorted(),
    ensures
        ({
            let entries = sorted::listing(values@, sorted::bytes_order());
            final(hasher)@ == old(hasher)@ + fed_values(entries, entries.len() as int)
        }),
{
    proof {
        values.lemma_is_listing();
    }
    let ghost entries = sorted::entry_views(values.entries@);
    let ghost start = hasher@;
    let mut i: usize = 0;
    assert(start + fed_values(entries, 0) =~= start);
    while i < values.entries.len()
        invariant
            i <= values.entries@.len(),
            entries == sorted::entry_views(values.entries@),
            hasher@ == start + fed_values(entries, i as int),
        decreases values.entries@.len() - i,
    {
        hasher.write(values.entries[i].0.as_slice());
        hasher.write(byte_ff().as_slice());
        hasher.write(u64_to_le_bytes(values.entries[i].1).as_slice());
        i = i + 1;
        assert(hasher@ =~= start + fed_values(entries, i as int));
    }
}

fn byte_ff() -> (bytes: Vec<u8>)
    ensures
        bytes@ == seq![0xffu8],
{
    let mut bytes: Vec<u8> = Vec::new();
    bytes.push(0xff);
    assert(bytes@ =~= seq![0xffu8]);
    bytes
}

fn feed_rows(hasher: &mut DefaultHasher, rows: &Rows)
    requires
        rows_wf(*rows),
    ensures
        ({
            let entries = sorted::listing(rows@, sorted::bits_order());
            final(hasher)@ == old(hasher)@ + fed_rows(entries, entries.len() as int)
        }),
{
    proof {
        rows.lemma_is_listing();
    }
    let ghost entries = sorted::entry_views(rows.entries@);
    let ghost start = hasher@;
    let mut i: usize = 0;
    assert(start + fed_rows(entries, 0) =~= start);
    while i < rows.entries.len()
        invariant
            i <= rows.entries@.len(),
            rows_wf(*rows),
            entries == sorted::entry_views(rows.entries@),
            hasher@ == start + fed_rows(entries, i as int),
        decreases rows.entries@.len() - i,
    {
        hasher.write(u64_to_le_bytes(rows.entries[i].0.0).as_slice());
        feed_values(hasher, &rows.entries[i].1);
        i = i + 1;
        assert(hasher@ =~= start + fed_rows(entries, i as int));
    }
}

fn feed_archetypes(hasher: &mut DefaultHasher, archetypes: &Archetypes)
    requires
        archetypes_wf(*archetypes),
    ensures
        ({
            let entries = sorted::listing(archetypes@, sorted::bytes_order());
            final(hasher)@ == old(hasher)@ + fed_archetypes(entries, entries.len() as int)
        }),
{
    proof {
        archetypes.lemma_is_listing();
    }
    let ghost entries = sorted::entry_views(archetypes.entries@);
    let ghost start = hasher@;
    let mut i: usize = 0;
    assert(start + fed_archetypes(entries, 0) =~= start);
    while i < archetypes.entries.len()
        invariant
            i <= archetypes.entries@.len(),
            archetypes_wf(*archetypes),
            entries == sorted::entry_views(archetypes.entries@),
            hasher@ == start + fed_archetypes(entries, i as int),
        decreases archetypes.entries@.len() - i,
    {
        hasher.write(archetypes.entries[i].0.as_slice());
        hasher.write(byte_ff().as_slice());
        feed_rows(hasher, &archetypes.entries[i].1);
        i = i + 1;
        assert(hasher@ =~= start + fed_archetypes(entries, i as int));
    }
}

/// Computes the world fingerprint over the archetypes of a world. Every dense
/// component must have a registered codec.
pub fn world_fingerprint(archetypes: &Vec<ArchetypeState>) -> (r: Result<u64, FingerprintError>)
    requires
        forall|i: int| 0 <= i < archetypes@.len() ==> (#[trigger] archetypes@[i]).wf(),
    ensures
        r == match world_contents(archetypes@, 0, Map::empty()) {
            Ok(contents) => Ok(contents_hash(contents)),
            Err(e) => Err(e),
        },
{
    let mut map: Archetypes = SortedMap::new();
    let mut i: usize = 0;
    while i < archetypes.len()
        invariant
            i <= archetypes@.len(),
            forall|i: int| 0 <= i < archetypes@.len() ==> (#[trigger] archetypes@[i]).wf(),
            archetypes_wf(map),
            world_contents(archetypes@, 0, Map::empty()) == world_contents(
                archetypes@,
                i as int,
                map@,
            ),
        decreases archetypes@.len() - i,
    {
        let a = &archetypes[i];
        let names = match component_names(&a.components) {
            Err(e) => {
                return Err(e);
            },
            Ok(names) => names,
        };
        let key = join_names(&sort_names(&names));
        let ghost before = map@;
        let ghost k = key@;
        let mut rows: Rows = match map.take(&key) {
            Some(rows) => rows,
            None => SortedMap::new(),
        };
        assert(rows@ == found_or_empty(before, k));
        if let Err(e) = add_rows(&mut rows, &names, a) {
            return Err(e);
        }
        map.put(key, rows);
        assert(map@ =~= before.insert(k, rows@));
        i = i + 1;
    }
    let mut hasher = DefaultHasher::new();
    feed_archetypes(&mut hasher, &map);
    proof {
        let entries = sorted::listing(map@, sorted::bytes_order());
        assert(Seq::<Seq<u8>>::empty() + fed_archetypes(entries, entries.len() as int)
            =~= fed_archetypes(entries, entries.len() as int));
    }
    Ok(hasher.finish())
}

} // verus!
