//! Resolution of records against a destination: source components to codecs
//! and world columns, commit ticks, and the changes a record makes.
use crate::error::{CodecError, FormatIssue, WalError};
use crate::record::{
    ComponentId, ComponentSchema, SerializedMutation, WalRecord, WalSchema,
};
use std::collections::{HashMap, HashSet};
use vstd::prelude::*;

verus! {

broadcast use vstd::std_specs::hash::group_hash_axioms;

/// One registered component codec.
#[derive(Clone, Debug, PartialEq, Eq)]
pub struct CodecInfo {
    pub id: ComponentId,
    pub name: String,
    pub size: usize,
    pub align: usize,
}

/// The registered codecs, in registration order.
#[derive(Clone, Debug, PartialEq, Eq)]
pub struct Codecs {
    pub entries: Vec<CodecInfo>,
}

/// The stable name of codec `id` among `entries[i..]`.
pub open spec fn name_from(entries: Seq<CodecInfo>, id: ComponentId, i: int) -> Option<String>
    decreases entries.len() - i,
{
    if i < 0 || i >= entries.len() {
        None
    } else if entries[i].id == id {
        Some(entries[i].name)
    } else {
        name_from(entries, id, i + 1)
    }
}

impl Codecs {
    pub open spec fn spec_stable_name(&self, id: ComponentId) -> Option<String> {
        name_from(self.entries@, id, 0)
    }

    /// The stable name under which codec `id` is registered.
    pub fn stable_name(&self, id: ComponentId) -> (name: Option<&String>)
        ensures
            match name {
                Some(n) => self.spec_stable_name(id) == Some(*n),
                None => self.spec_stable_name(id) is None,
            },
    {
        let mut i: usize = 0;
        while i < self.entries.len()
            invariant
                i <= self.entries@.len(),
                self.spec_stable_name(id) == name_from(self.entries@, id, i as int),
            decreases self.entries@.len() - i,
        {
            if self.entries[i].id == id {
                return Some(&self.entries[i].name);
            }
            i = i + 1;
        }
        None
    }

    pub open spec fn spec_schema(&self) -> Seq<ComponentSchema> {
        Seq::new(
            self.entries@.len(),
            |i: int|
                ComponentSchema {
                    id: self.entries@[i].id,
                    name: self.entries@[i].name,
                    size: self.entries@[i].size,
                    align: self.entries@[i].align,
                },
        )
    }

    /// The schema preamble that describes the registered codecs.
    pub fn build_schema(&self) -> (schema: WalSchema)
        ensures
            schema@ == self.spec_schema(),
    {
        let mut components: Vec<ComponentSchema> = Vec::new();
        let mut i: usize = 0;
        while i < self.entries.len()
            invariant
                i <= self.entries@.len(),
                components@ == self.spec_schema().take(i as int),
            decreases self.entries@.len() - i,
        {
            let codec = &self.entries[i];
            components.push(
                ComponentSchema {
                    id: codec.id,
                    name: codec.name.clone(),
                    size: codec.size,
                    align: codec.align,
                },
            );
            i = i + 1;
            assert(components@ =~= self.spec_schema().take(i as int));
        }
        assert(self.spec_schema().take(i as int) =~= self.spec_schema());
        WalSchema { components }
    }

    pub open spec fn spec_identity(&self) -> Seq<(ComponentId, ComponentId)> {
        Seq::new(self.entries@.len(), |i: int| (self.entries@[i].id, self.entries@[i].id))
    }

    fn identity_pairs(&self) -> (pairs: Vec<(ComponentId, ComponentId)>)
        ensures
            pairs@ == self.spec_identity(),
    {
        let mut pairs: Vec<(ComponentId, ComponentId)> = Vec::new();
        let mut i: usize = 0;
        while i < self.entries.len()
            invariant
                i <= self.entries@.len(),
                pairs@ == self.spec_identity().take(i as int),
            decreases self.entries@.len() - i,
        {
            pairs.push((self.entries[i].id, self.entries[i].id));
            i = i + 1;
            assert(pairs@ =~= self.spec_identity().take(i as int));
        }
        assert(self.spec_identity().take(i as int) =~= self.spec_identity());
        pairs
    }
}

/// What resolution reads of a destination world.
#[derive(Clone, Debug, PartialEq, Eq)]
pub struct WorldShape {
    /// For each column, the stable name of its type, if a codec handles it.
    pub columns: Vec<Option<String>>,
    /// The world's current tick.
    pub tick: u64,
}

/// The last of `columns` that holds the type named `name`.
pub open spec fn column_of(columns: Seq<Option<String>>, name: Seq<char>) -> Option<ComponentId>
    decreases columns.len(),
{
    if columns.len() == 0 {
        None
    } else if columns.last() matches Some(n) && n@ == name {
        Some((columns.len() - 1) as usize)
    } else {
        column_of(columns.drop_last(), name)
    }
}

impl WorldShape {
    fn column(&self, name: &String) -> (id: Option<ComponentId>)
        ensures
            id == column_of(self.columns@, name@),
    {
        let mut i: usize = self.columns.len();
        assert(self.columns@.take(i as int) =~= self.columns@);
        while i > 0
            invariant
                i <= self.columns@.len(),
                column_of(self.columns@, name@) == column_of(self.columns@.take(i as int), name@),
            decreases i,
        {
            assert(self.columns@.take(i as int).drop_last() =~= self.columns@.take(i - 1));
            if let Some(n) = &self.columns[i - 1] {
                if *n == *name {
                    return Some(i - 1);
                }
            }
            i = i - 1;
        }
        None
    }
}

/// A source component resolves separately to a decoder and a world column.
#[derive(Clone, Copy, Debug, PartialEq, Eq)]
pub struct ApplyComponent {
    pub codec_id: ComponentId,
    pub world_id: Option<ComponentId>,
}

/// Destination bindings by source component.
pub type ApplyRemap = HashMap<ComponentId, ApplyComponent>;

/// What binding `pairs` of source component and codec gives.
pub open spec fn bound_pairs(
    pairs: Seq<(ComponentId, ComponentId)>,
    world: WorldShape,
    codecs: Codecs,
) -> Result<Map<ComponentId, ApplyComponent>, WalError>
    decreases pairs.len(),
{
    if pairs.len() == 0 {
        Ok(Map::empty())
    } else {
        let (source_id, codec_id) = pairs.last();
        match bound_pairs(pairs.drop_last(), world, codecs) {
            Err(e) => Err(e),
            Ok(bound) => match codecs.spec_stable_name(codec_id) {
                None => Err(WalError::Codec(CodecError::UnregisteredComponent(codec_id))),
                Some(name) => Ok(
                    bound.insert(
                        source_id,
                        ApplyComponent { codec_id, world_id: column_of(world.columns@, name@) },
                    ),
                ),
            },
        }
    }
}

pub open spec fn pair_sources(pairs: Seq<(ComponentId, ComponentId)>) -> Set<ComponentId> {
    Seq::new(pairs.len(), |i: int| pairs[i].0).to_set()
}

pub open spec fn pair_codecs(pairs: Seq<(ComponentId, ComponentId)>) -> Set<ComponentId> {
    Seq::new(pairs.len(), |i: int| pairs[i].1).to_set()
}

/// What a schema resolves to. `schema` is its component count and what the
/// registry made of its names; without one, codec ids stand for themselves.
pub open spec fn apply_remap(
    schema: Option<(usize, Result<Vec<(ComponentId, ComponentId)>, CodecError>)>,
    world: WorldShape,
    codecs: Codecs,
) -> Result<Map<ComponentId, ApplyComponent>, WalError> {
    match schema {
        None => bound_pairs(codecs.spec_identity(), world, codecs),
        Some((count, Err(e))) => Err(WalError::Codec(e)),
        Some((count, Ok(pairs))) => if pair_sources(pairs@).len() != count || pair_codecs(
            pairs@,
        ).len() != count {
            Err(
                WalError::Format(FormatIssue::Text("duplicate component ID or name in WAL schema")),
            )
        } else {
            bound_pairs(pairs@, world, codecs)
        },
    }
}

fn distinct_counts(pairs: &Vec<(ComponentId, ComponentId)>) -> (r: (usize, usize))
    ensures
        r.0 == pair_sources(pairs@).len(),
        r.1 == pair_codecs(pairs@).len(),
{
    let mut sources: HashSet<ComponentId> = HashSet::new();
    let mut targets: HashSet<ComponentId> = HashSet::new();
    let mut i: usize = 0;
    assert(sources@ =~= pair_sources(pairs@.take(0)));
    assert(targets@ =~= pair_codecs(pairs@.take(0)));
    while i < pairs.len()
        invariant
            i <= pairs@.len(),
            sources@ == pair_sources(pairs@.take(i as int)),
            targets@ == pair_codecs(pairs@.take(i as int)),
        decreases pairs@.len() - i,
    {
        let _ = sources.insert(pairs[i].0);
        let _ = targets.insert(pairs[i].1);
        proof {
            let before = pairs@.take(i as int);
            let after = pairs@.take(i + 1);
            let s0 = Seq::new(before.len(), |k: int| before[k].0);
            let s1 = Seq::new(after.len(), |k: int| after[k].0);
            assert(s1 =~= s0.push(pairs@[i as int].0));
            lemma_push_to_set(s0, pairs@[i as int].0);
            let t0 = Seq::new(before.len(), |k: int| before[k].1);
            let t1 = Seq::new(after.len(), |k: int| after[k].1);
            assert(t1 =~= t0.push(pairs@[i as int].1));
            lemma_push_to_set(t0, pairs@[i as int].1);
        }
        i = i + 1;
    }
    assert(pairs@.take(i as int) =~= pairs@);
    (sources.len(), targets.len())
}

proof fn lemma_push_to_set(s: Seq<usize>, x: usize)
    ensures
        s.push(x).to_set() == s.to_set().insert(x),
{
    let a = s.push(x).to_set();
    let b = s.to_set().insert(x);
    assert forall|y: usize| a.contains(y) <==> b.contains(y) by {
        if a.contains(y) {
            let k = choose|k: int| 0 <= k < s.push(x).len() && s.push(x)[k] == y;
            if k < s.len() {
                assert(s[k] == y);
            }
        }
        if s.to_set().contains(y) {
            let k = choose|k: int| 0 <= k < s.len() && s[k] == y;
            assert(s.push(x)[k] == y);
        }
        if y == x {
            assert(s.push(x)[s.len() as int] == y);
        }
    }
    assert(a =~= b);
}

fn bind_pairs(
    pairs: &Vec<(ComponentId, ComponentId)>,
    world: &WorldShape,
    codecs: &Codecs,
) -> (r: Result<ApplyRemap, WalError>)
    ensures
        match bound_pairs(pairs@, *world, *codecs) {
            Ok(bound) => r matches Ok(remap) && remap@ == bound,
            Err(e) => r == Err::<ApplyRemap, WalError>(e),
        },
{
    let mut remap: ApplyRemap = HashMap::new();
    let mut i: usize = 0;
    assert(pairs@.take(0) =~= Seq::empty());
    while i < pairs.len()
        invariant
            i <= pairs@.len(),
            bound_pairs(pairs@.take(i as int), *world, *codecs) == Ok::<
                Map<ComponentId, ApplyComponent>,
                WalError,
            >(remap@),
        decreases pairs@.len() - i,
    {
        let (source_id, codec_id) = pairs[i];
        assert(pairs@.take(i + 1).drop_last() =~= pairs@.take(i as int));
        match codecs.stable_name(codec_id) {
            None => {
                proof {
                    lemma_bind_error_stays(pairs@, *world, *codecs, i + 1);
                }
                return Err(WalError::Codec(CodecError::UnregisteredComponent(codec_id)));
            },
            Some(name) => {
                let world_id = world.column(name);
                let _ = remap.insert(source_id, ApplyComponent { codec_id, world_id });
            },
        }
        i = i + 1;
    }
    assert(pairs@.take(i as int) =~= pairs@);
    Ok(remap)
}

proof fn lemma_bind_error_stays(
    pairs: Seq<(ComponentId, ComponentId)>,
    world: WorldShape,
    codecs: Codecs,
    i: int,
)
    requires
        0 <= i <= pairs.len(),
        bound_pairs(pairs.take(i), world, codecs) is Err,
    ensures
        bound_pairs(pairs, world, codecs) == bound_pairs(pairs.take(i), world, codecs),
    decreases pairs.len(),
{
    if i == pairs.len() {
        assert(pairs.take(i) =~= pairs);
    } else {
        assert(pairs.drop_last().take(i) =~= pairs.take(i));
        lemma_bind_error_stays(pairs.drop_last(), world, codecs, i);
    }
}

/// Resolves a schema against both the codec registry and the destination
/// world. A schema may declare types that no retained record uses, so a
/// missing column is no error until a record refers to it.
pub fn build_apply_remap(
    schema: Option<(usize, &Result<Vec<(ComponentId, ComponentId)>, CodecError>)>,
    world: &WorldShape,
    codecs: &Codecs,
) -> (r: Result<ApplyRemap, WalError>)
    ensures
        match apply_remap(
            match schema {
                Some((count, binding)) => Some((count, *binding)),
                None => None,
            },
            *world,
            *codecs,
        ) {
            Ok(bound) => r matches Ok(remap) && remap@ == bound,
            Err(e) => r == Err::<ApplyRemap, WalError>(e),
        },
{
    match schema {
        None => {
            let pairs = codecs.identity_pairs();
            bind_pairs(&pairs, world, codecs)
        },
        Some((count, binding)) => match binding {
            Err(e) => Err(WalError::Codec(e.duplicate())),
            Ok(pairs) => {
                let (sources, targets) = distinct_counts(pairs);
                if sources != count || targets != count {
                    Err(
                        WalError::Format(
                            FormatIssue::Text("duplicate component ID or name in WAL schema"),
                        ),
                    )
                } else {
                    bind_pairs(pairs, world, codecs)
                }
            },
        },
    }
}

/// The tick after applying a record to a world at `world_tick`: applying
/// advances once past the record's commit tick, also for an empty record.
pub open spec fn tick_after_apply(record: WalRecord, world_tick: u64) -> Result<u64, WalError> {
    if record.tick_after < world_tick {
        Err(
            WalError::TickRegression {
                seq: record.seq,
                record_tick: record.tick_after,
                world_tick,
            },
        )
    } else if record.tick_after == u64::MAX {
        Err(WalError::Format(FormatIssue::TickOverflow { seq: record.seq }))
    } else {
        Ok((record.tick_after + 1) as u64)
    }
}

/// Validates the commit boundary and returns the tick after applying.
pub fn validate_record_tick(record: &WalRecord, world_tick: u64) -> (r: Result<u64, WalError>)
    ensures
        r == tick_after_apply(*record, world_tick),
{
    if record.tick_after < world_tick {
        return Err(
            WalError::TickRegression {
                seq: record.seq,
                record_tick: record.tick_after,
                world_tick,
            },
        );
    }
    match record.tick_after.checked_add(1) {
        Some(tick) => Ok(tick),
        None => Err(WalError::Format(FormatIssue::TickOverflow { seq: record.seq })),
    }
}

/// The codec and world column of a source component.
pub open spec fn resolved(
    remap: Map<ComponentId, ApplyComponent>,
    codecs: Codecs,
    id: ComponentId,
) -> Result<(ComponentId, ComponentId), WalError> {
    if !remap.contains_key(id) {
        Err(WalError::Codec(CodecError::UnregisteredComponent(id)))
    } else {
        match remap[id].world_id {
            Some(world_id) => Ok((remap[id].codec_id, world_id)),
            None => Err(
                WalError::Format(
                    FormatIssue::UnboundComponent {
                        name: codecs.spec_stable_name(remap[id].codec_id),
                    },
                ),
            ),
        }
    }
}

pub fn resolve_apply_component(remap: &ApplyRemap, codecs: &Codecs, id: ComponentId) -> (r: Result<
    (ComponentId, ComponentId),
    WalError,
>)
    ensures
        r == resolved(remap@, *codecs, id),
{
    match remap.get(&id) {
        None => Err(WalError::Codec(CodecError::UnregisteredComponent(id))),
        Some(binding) => match binding.world_id {
            Some(world_id) => Ok((binding.codec_id, world_id)),
            None => {
                let name = match codecs.stable_name(binding.codec_id) {
                    Some(name) => Some(name.clone()),
                    None => None,
                };
                Err(WalError::Format(FormatIssue::UnboundComponent { name }))
            },
        },
    }
}

/// The components that a mutation refers to, in order.
pub open spec fn refs_of(mutation: SerializedMutation) -> Seq<ComponentId> {
    match mutation {
        SerializedMutation::Spawn { components, .. } => Seq::new(
            components@.len(),
            |i: int| components@[i].0,
        ),
        SerializedMutation::Despawn { .. } => Seq::empty(),
        SerializedMutation::Insert { component_id, .. } => seq![component_id],
        SerializedMutation::Remove { component_id, .. } => seq![component_id],
        SerializedMutation::SparseInsert { component_id, .. } => seq![component_id],
        SerializedMutation::SparseRemove { component_id, .. } => seq![component_id],
    }
}

/// Why the first of `ids[i..]` that does not resolve does not.
pub open spec fn first_unresolved(
    ids: Seq<ComponentId>,
    i: int,
    remap: Map<ComponentId, ApplyComponent>,
    codecs: Codecs,
) -> Option<WalError>
    decreases ids.len() - i,
{
    if i < 0 || i >= ids.len() {
        None
    } else {
        match resolved(remap, codecs, ids[i]) {
            Err(e) => Some(e),
            Ok(_) => first_unresolved(ids, i + 1, remap, codecs),
        }
    }
}

/// Why the first of `mutations[i..]` with an unresolved component has one.
pub open spec fn unresolved_from(
    mutations: Seq<SerializedMutation>,
    i: int,
    remap: Map<ComponentId, ApplyComponent>,
    codecs: Codecs,
) -> Option<WalError>
    decreases mutations.len() - i,
{
    if i < 0 || i >= mutations.len() {
        None
    } else {
        match first_unresolved(refs_of(mutations[i]), 0, remap, codecs) {
            Some(e) => Some(e),
            None => unresolved_from(mutations, i + 1, remap, codecs),
        }
    }
}

fn validate_one(id: ComponentId, remap: &ApplyRemap, codecs: &Codecs) -> (r: Result<(), WalError>)
    ensures
        match first_unresolved(seq![id], 0, remap@, *codecs) {
            Some(e) => r == Err::<(), WalError>(e),
            None => r is Ok,
        },
{
    proof {
        reveal_with_fuel(first_unresolved, 2);
    }
    match resolve_apply_component(remap, codecs, id) {
        Err(e) => Err(e),
        Ok(_) => Ok(()),
    }
}

/// Checks that every component a record refers to resolves, without applying.
pub fn validate_record_components(record: &WalRecord, remap: &ApplyRemap, codecs: &Codecs) -> (r:
    Result<(), WalError>)
    ensures
        match unresolved_from(record.mutations@, 0, remap@, *codecs) {
            Some(e) => r == Err::<(), WalError>(e),
            None => r is Ok,
        },
{
    let mut i: usize = 0;
    while i < record.mutations.len()
        invariant
            i <= record.mutations@.len(),
            unresolved_from(record.mutations@, 0, remap@, *codecs) == unresolved_from(
                record.mutations@,
                i as int,
                remap@,
                *codecs,
            ),
        decreases record.mutations@.len() - i,
    {
        let one = match &record.mutations[i] {
            SerializedMutation::Spawn { components, .. } => {
                let ghost ids = refs_of(record.mutations@[i as int]);
                let mut failure: Option<WalError> = None;
                let mut j: usize = 0;
                while j < components.len() && failure.is_none()
                    invariant
                        j <= components@.len(),
                        ids == Seq::new(components@.len(), |k: int| components@[k].0),
                        failure is None ==> first_unresolved(ids, 0, remap@, *codecs)
                            == first_unresolved(ids, j as int, remap@, *codecs),
                        failure is Some ==> first_unresolved(ids, 0, remap@, *codecs) == failure,
                    decreases components@.len() - j, (if failure is None { 1int } else { 0int }),
                {
                    match resolve_apply_component(remap, codecs, components[j].0) {
                        Err(e) => {
                            failure = Some(e);
                        },
                        Ok(_) => {
                            j = j + 1;
                        },
                    }
                }
                match failure {
                    Some(e) => Err(e),
                    None => Ok(()),
                }
            },
            SerializedMutation::Insert { component_id, .. } => validate_one(
                *component_id,
                remap,
                codecs,
            ),
            SerializedMutation::Remove { component_id, .. } => validate_one(
                *component_id,
                remap,
                codecs,
            ),
            SerializedMutation::SparseInsert { component_id, .. } => validate_one(
                *component_id,
                remap,
                codecs,
            ),
            SerializedMutation::SparseRemove { component_id, .. } => validate_one(
                *component_id,
                remap,
                codecs,
            ),
            SerializedMutation::Despawn { .. } => Ok(()),
        };
        if let Err(e) = one {
            return Err(e);
        }
        i = i + 1;
    }
    Ok(())
}

} // verus!
