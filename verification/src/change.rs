//! Records to world changes, and changesets to records. Decoding and encoding
//! component values is the host's work; its outcomes come in as arguments.
use crate::apply;
use crate::apply::{
    build_apply_remap, resolve_apply_component, validate_record_tick, ApplyComponent, ApplyRemap,
    Codecs, WorldShape,
};
use crate::error::{CodecError, WalError};
use crate::record;
use crate::record::{ComponentId, MutationView, SerializedMutation, WalRecord};
use vstd::prelude::*;
use vstd::slice::*;

verus! {

/// Where a component payload of a record stands, the codec that decodes it
/// and the world column that it goes to.
#[derive(Clone, Copy, Debug, PartialEq, Eq)]
pub struct Target {
    /// The mutation, counted from 0.
    pub mutation: usize,
    /// The component within a spawn; 0 otherwise.
    pub component: usize,
    pub codec_id: ComponentId,
    pub world_id: ComponentId,
}

/// One change to a world. `first`, `count` and `value` number the record's
/// component payloads in order.
#[derive(Clone, Copy, Debug, PartialEq, Eq)]
pub enum WorldChange {
    Spawn { entity: u64, first: usize, count: usize },
    Despawn { entity: u64 },
    Insert { entity: u64, value: usize },
    Remove { entity: u64, world_id: ComponentId },
    SparseInsert { entity: u64, value: usize },
    SparseRemove { entity: u64, world_id: ComponentId },
}

/// A record's changes and payload targets up to the first component that does
/// not resolve, if there is one.
#[verifier::ext_equal]
pub struct ResolvedView {
    pub changes: Seq<WorldChange>,
    pub targets: Seq<Target>,
    pub failure: Option<WalError>,
}

pub open spec fn resolve_components(
    components: Seq<(ComponentId, Vec<u8>)>,
    mutation: usize,
    j: int,
    targets: Seq<Target>,
    remap: Map<ComponentId, ApplyComponent>,
    codecs: Codecs,
) -> (Seq<Target>, Option<WalError>)
    decreases components.len() - j,
{
    if j < 0 || j >= components.len() {
        (targets, None)
    } else {
        match apply::resolved(remap, codecs, components[j].0) {
            Err(e) => (targets, Some(e)),
            Ok((codec_id, world_id)) => resolve_components(
                components,
                mutation,
                j + 1,
                targets.push(Target { mutation, component: j as usize, codec_id, world_id }),
                remap,
                codecs,
            ),
        }
    }
}

/// What resolving `mutations[i..]` adds to `changes` and `targets`.
pub open spec fn resolve_mutations(
    mutations: Seq<SerializedMutation>,
    i: int,
    changes: Seq<WorldChange>,
    targets: Seq<Target>,
    remap: Map<ComponentId, ApplyComponent>,
    codecs: Codecs,
) -> ResolvedView
    decreases mutations.len() - i,
{
    if i < 0 || i >= mutations.len() {
        ResolvedView { changes, targets, failure: None }
    } else {
        let value = targets.len() as usize;
        match mutations[i] {
            SerializedMutation::Spawn { entity, components } => {
                let (after, failure) = resolve_components(
                    components@,
                    i as usize,
                    0,
                    targets,
                    remap,
                    codecs,
                );
                if failure is Some {
                    ResolvedView { changes, targets: after, failure }
                } else {
                    resolve_mutations(
                        mutations,
                        i + 1,
                        changes.push(
                            WorldChange::Spawn {
                                entity,
                                first: value,
                                count: components@.len() as usize,
                            },
                        ),
                        after,
                        remap,
                        codecs,
                    )
                }
            },
            SerializedMutation::Despawn { entity } => resolve_mutations(
                mutations,
                i + 1,
                changes.push(WorldChange::Despawn { entity }),
                targets,
                remap,
                codecs,
            ),
            SerializedMutation::Insert { entity, component_id, .. } => match apply::resolved(
                remap,
                codecs,
                component_id,
            ) {
                Err(e) => ResolvedView { changes, targets, failure: Some(e) },
                Ok((codec_id, world_id)) => resolve_mutations(
                    mutations,
                    i + 1,
                    changes.push(WorldChange::Insert { entity, value }),
                    targets.push(
                        Target { mutation: i as usize, component: 0, codec_id, world_id },
                    ),
                    remap,
                    codecs,
                ),
            },
            SerializedMutation::Remove { entity, component_id } => match apply::resolved(
                remap,
                codecs,
                component_id,
            ) {
                Err(e) => ResolvedView { changes, targets, failure: Some(e) },
                Ok((_, world_id)) => resolve_mutations(
                    mutations,
                    i + 1,
                    changes.push(WorldChange::Remove { entity, world_id }),
                    targets,
                    remap,
                    codecs,
                ),
            },
            SerializedMutation::SparseInsert { entity, component_id, .. } => match apply::resolved(
                remap,
                codecs,
                component_id,
            ) {
                Err(e) => ResolvedView { changes, targets, failure: Some(e) },
                Ok((codec_id, world_id)) => resolve_mutations(
                    mutations,
                    i + 1,
                    changes.push(WorldChange::SparseInsert { entity, value }),
                    targets.push(
                        Target { mutation: i as usize, component: 0, codec_id, world_id },
                    ),
                    remap,
                    codecs,
                ),
            },
            SerializedMutation::SparseRemove { entity, component_id } => match apply::resolved(
                remap,
                codecs,
                component_id,
            ) {
                Err(e) => ResolvedView { changes, targets, failure: Some(e) },
                Ok((_, world_id)) => resolve_mutations(
                    mutations,
                    i + 1,
                    changes.push(WorldChange::SparseRemove { entity, world_id }),
                    targets,
                    remap,
                    codecs,
                ),
            },
        }
    }
}

pub open spec fn resolved_record(
    record: WalRecord,
    remap: Map<ComponentId, ApplyComponent>,
    codecs: Codecs,
) -> ResolvedView {
    resolve_mutations(record.mutations@, 0, Seq::empty(), Seq::empty(), remap, codecs)
}

/// A record resolved against a destination.
pub struct ResolvedRecord {
    pub changes: Vec<WorldChange>,
    pub targets: Vec<Target>,
    pub failure: Option<WalError>,
}

impl View for ResolvedRecord {
    type V = ResolvedView;

    open spec fn view(&self) -> ResolvedView {
        ResolvedView {
            changes: self.changes@,
            targets: self.targets@,
            failure: self.failure,
        }
    }
}

fn resolve_spawn(
    components: &Vec<(ComponentId, Vec<u8>)>,
    mutation: usize,
    targets: &mut Vec<Target>,
    remap: &ApplyRemap,
    codecs: &Codecs,
) -> (failure: Option<WalError>)
    ensures
        (final(targets)@, failure) == resolve_components(
            components@,
            mutation,
            0,
            old(targets)@,
            remap@,
            *codecs,
        ),
{
    let mut j: usize = 0;
    while j < components.len()
        invariant
            j <= components@.len(),
            resolve_components(components@, mutation, 0, old(targets)@, remap@, *codecs)
                == resolve_components(
                components@,
                mutation,
                j as int,
                targets@,
                remap@,
                *codecs,
            ),
        decreases components@.len() - j,
    {
        match resolve_apply_component(remap, codecs, components[j].0) {
            Err(e) => {
                return Some(e);
            },
            Ok((codec_id, world_id)) => {
                targets.push(Target { mutation, component: j, codec_id, world_id });
            },
        }
        j = j + 1;
    }
    None
}

/// Resolves a record's mutations in order, up to the first component that does
/// not resolve. The targets say what the host has to decode.
pub fn resolve_record(record: &WalRecord, remap: &ApplyRemap, codecs: &Codecs) -> (r:
    ResolvedRecord)
    ensures
        r@ == resolved_record(*record, remap@, *codecs),
{
    let mut changes: Vec<WorldChange> = Vec::new();
    let mut targets: Vec<Target> = Vec::new();
    let mut i: usize = 0;
    while i < record.mutations.len()
        invariant
            i <= record.mutations@.len(),
            resolved_record(*record, remap@, *codecs) == resolve_mutations(
                record.mutations@,
                i as int,
                changes@,
                targets@,
                remap@,
                *codecs,
            ),
        decreases record.mutations@.len() - i,
    {
        let value: usize = targets.len();
        match &record.mutations[i] {
            SerializedMutation::Spawn { entity, components } => {
                let failure = resolve_spawn(components, i, &mut targets, remap, codecs);
                if failure.is_some() {
                    return ResolvedRecord { changes, targets, failure };
                }
                changes.push(
                    WorldChange::Spawn { entity: *entity, first: value, count: components.len() },
                );
            },
            SerializedMutation::Despawn { entity } => {
                changes.push(WorldChange::Despawn { entity: *entity });
            },
            SerializedMutation::Insert { entity, component_id, .. } => {
                match resolve_apply_component(remap, codecs, *component_id) {
                    Err(e) => {
                        return ResolvedRecord { changes, targets, failure: Some(e) };
                    },
                    Ok((codec_id, world_id)) => {
                        changes.push(WorldChange::Insert { entity: *entity, value });
                        targets.push(Target { mutation: i, component: 0, codec_id, world_id });
                    },
                }
            },
            SerializedMutation::Remove { entity, component_id } => {
                match resolve_apply_component(remap, codecs, *component_id) {
                    Err(e) => {
                        return ResolvedRecord { changes, targets, failure: Some(e) };
                    },
                    Ok((_, world_id)) => {
                        changes.push(WorldChange::Remove { entity: *entity, world_id });
                    },
                }
            },
            SerializedMutation::SparseInsert { entity, component_id, .. } => {
                match resolve_apply_component(remap, codecs, *component_id) {
                    Err(e) => {
                        return ResolvedRecord { changes, targets, failure: Some(e) };
                    },
                    Ok((codec_id, world_id)) => {
                        changes.push(WorldChange::SparseInsert { entity: *entity, value });
                        targets.push(Target { mutation: i, component: 0, codec_id, world_id });
                    },
                }
            },
            SerializedMutation::SparseRemove { entity, component_id } => {
                match resolve_apply_component(remap, codecs, *component_id) {
                    Err(e) => {
                        return ResolvedRecord { changes, targets, failure: Some(e) };
                    },
                    Ok((_, world_id)) => {
                        changes.push(WorldChange::SparseRemove { entity: *entity, world_id });
                    },
                }
            },
        }
        i = i + 1;
    }
    ResolvedRecord { changes, targets, failure: None }
}

/// A component value that the host decoded, with its layout.
#[derive(Clone, Debug, PartialEq, Eq)]
pub struct ComponentValue {
    pub bytes: Vec<u8>,
    pub size: usize,
    pub align: usize,
}

/// The first failure among `outcomes[i..n]`.
pub open spec fn first_failure<T>(
    outcomes: Seq<Result<T, CodecError>>,
    i: int,
    n: int,
) -> Option<CodecError>
    decreases n - i,
{
    if i < 0 || i >= n || i >= outcomes.len() {
        None
    } else {
        match outcomes[i] {
            Err(e) => Some(e),
            Ok(_) => first_failure(outcomes, i + 1, n),
        }
    }
}

/// `outcomes` holds one outcome for each of `n` pieces of work, or ends at the
/// failure that stopped the work.
pub open spec fn covers<T>(outcomes: Seq<Result<T, CodecError>>, n: int) -> bool {
    n <= outcomes.len() || (outcomes.len() > 0 && outcomes.last() is Err)
}

/// What applying a record does to a world: its tick is set to `tick`, then the
/// changes are made in order, which leaves it at `next_tick`.
#[verifier::ext_equal]
pub struct ChangePlanView {
    pub tick: u64,
    pub next_tick: u64,
    pub changes: Seq<WorldChange>,
    pub targets: Seq<Target>,
}

/// The bindings that a record is applied with: those given, or else the codecs
/// under their own ids.
pub open spec fn effective_remap(
    remap: Option<Map<ComponentId, ApplyComponent>>,
    world: WorldShape,
    codecs: Codecs,
) -> Result<Map<ComponentId, ApplyComponent>, WalError> {
    match remap {
        Some(m) => Ok(m),
        None => apply::apply_remap(None, world, codecs),
    }
}

/// The payloads of a record that the host decodes before it is applied.
pub open spec fn decode_targets(
    record: WalRecord,
    world: WorldShape,
    codecs: Codecs,
    remap: Option<Map<ComponentId, ApplyComponent>>,
) -> Seq<Target> {
    match effective_remap(remap, world, codecs) {
        Ok(m) => resolved_record(record, m, codecs).targets,
        Err(_) => Seq::empty(),
    }
}

/// What applying a record comes to, given how decoding its payloads went. The
/// commit tick is looked at first; a payload that does not decode counts before
/// any component that follows it.
pub open spec fn planned_record(
    record: WalRecord,
    world: WorldShape,
    codecs: Codecs,
    remap: Option<Map<ComponentId, ApplyComponent>>,
    decoded: Seq<Result<ComponentValue, CodecError>>,
) -> Result<ChangePlanView, WalError> {
    match apply::tick_after_apply(record, world.tick) {
        Err(e) => Err(e),
        Ok(next_tick) => match effective_remap(remap, world, codecs) {
            Err(e) => Err(e),
            Ok(m) => {
                let r = resolved_record(record, m, codecs);
                match first_failure(decoded, 0, r.targets.len() as int) {
                    Some(c) => Err(WalError::Codec(c)),
                    None => match r.failure {
                        Some(e) => Err(e),
                        None => Ok(
                            ChangePlanView {
                                tick: record.tick_after,
                                next_tick,
                                changes: r.changes,
                                targets: r.targets,
                            },
                        ),
                    },
                }
            },
        },
    }
}

/// The changes a record makes to a world, with the ticks around them.
pub struct ChangePlan {
    pub tick: u64,
    pub next_tick: u64,
    pub changes: Vec<WorldChange>,
    pub targets: Vec<Target>,
}

impl View for ChangePlan {
    type V = ChangePlanView;

    open spec fn view(&self) -> ChangePlanView {
        ChangePlanView {
            tick: self.tick,
            next_tick: self.next_tick,
            changes: self.changes@,
            targets: self.targets@,
        }
    }
}

/// Plans the application of a single record with destination-specific
/// component bindings. Without bindings, codec ids stand for source ids but
/// still resolve to columns by type.
pub fn apply_record(
    record: &WalRecord,
    world: &WorldShape,
    codecs: &Codecs,
    remap: Option<&ApplyRemap>,
    decoded: &Vec<Result<ComponentValue, CodecError>>,
) -> (r: Result<ChangePlan, WalError>)
    requires
        covers(
            decoded@,
            decode_targets(
                *record,
                *world,
                *codecs,
                match remap {
                    Some(m) => Some(m@),
                    None => None,
                },
            ).len() as int,
        ),
    ensures
        match planned_record(
            *record,
            *world,
            *codecs,
            match remap {
                Some(m) => Some(m@),
                None => None,
            },
            decoded@,
        ) {
            Ok(plan) => r matches Ok(p) && p@ == plan,
            Err(e) => r == Err::<ChangePlan, WalError>(e),
        },
{
    let next_tick: u64 = match validate_record_tick(record, world.tick) {
        Err(e) => {
            return Err(e);
        },
        Ok(tick) => tick,
    };
    match remap {
        Some(m) => apply_resolved(record, next_tick, codecs, m, decoded),
        None => match build_apply_remap(None, world, codecs) {
            Err(e) => Err(e),
            Ok(m) => apply_resolved(record, next_tick, codecs, &m, decoded),
        },
    }
}

fn apply_resolved(
    record: &WalRecord,
    next_tick: u64,
    codecs: &Codecs,
    remap: &ApplyRemap,
    decoded: &Vec<Result<ComponentValue, CodecError>>,
) -> (r: Result<ChangePlan, WalError>)
    ensures
        ({
            let v = resolved_record(*record, remap@, *codecs);
            match first_failure(decoded@, 0, v.targets.len() as int) {
                Some(c) => r == Err::<ChangePlan, WalError>(WalError::Codec(c)),
                None => match v.failure {
                    Some(e) => r == Err::<ChangePlan, WalError>(e),
                    None => r matches Ok(p) && p@ == (ChangePlanView {
                        tick: record.tick_after,
                        next_tick,
                        changes: v.changes,
                        targets: v.targets,
                    }),
                },
            }
        }),
{
    let resolved = resolve_record(record, remap, codecs);
    let n: usize = resolved.targets.len();
    let mut i: usize = 0;
    while i < n && i < decoded.len()
        invariant
            i <= n,
            n == resolved.targets@.len(),
            resolved@ == resolved_record(*record, remap@, *codecs),
            i <= decoded@.len(),
            first_failure(decoded@, 0, n as int) == first_failure(decoded@, i as int, n as int),
        decreases n - i,
    {
        if let Err(c) = &decoded[i] {
            return Err(WalError::Codec(c.duplicate()));
        }
        i = i + 1;
    }
    match resolved.failure {
        Some(e) => Err(e),
        None => Ok(
            ChangePlan {
                tick: record.tick_after,
                next_tick,
                changes: resolved.changes,
                targets: resolved.targets,
            },
        ),
    }
}

/// One recorded change of a changeset, without its component values.
#[derive(Clone, Debug, PartialEq, Eq)]
pub enum MutationShape {
    Spawn { entity: u64, components: Vec<ComponentId> },
    Despawn { entity: u64 },
    Insert { entity: u64, component_id: ComponentId },
    Remove { entity: u64, component_id: ComponentId },
    SparseInsert { entity: u64, component_id: ComponentId },
    SparseRemove { entity: u64, component_id: ComponentId },
}

/// The number of component values that a change carries.
pub open spec fn payload_count(m: MutationShape) -> int {
    match m {
        MutationShape::Spawn { components, .. } => components@.len() as int,
        MutationShape::Insert { .. } => 1,
        MutationShape::SparseInsert { .. } => 1,
        _ => 0,
    }
}

/// The number of component values that `changes[..n]` carry.
pub open spec fn payload_total(changes: Seq<MutationShape>, n: int) -> int
    decreases n,
{
    if n <= 0 {
        0
    } else {
        payload_total(changes, n - 1) + payload_count(changes[n - 1])
    }
}

/// The encoding of payload `k`.
pub open spec fn encoding(encoded: Seq<Result<Vec<u8>, CodecError>>, k: int) -> Seq<u8> {
    match encoded[k] {
        Ok(data) => data@,
        Err(_) => Seq::empty(),
    }
}

/// What a change is written as, when its values are encoded by
/// `encoded[from..]`.
pub open spec fn serialized(
    m: MutationShape,
    encoded: Seq<Result<Vec<u8>, CodecError>>,
    from: int,
) -> Result<MutationView, WalError> {
    match first_failure(encoded, from, from + payload_count(m)) {
        Some(e) => Err(WalError::Codec(e)),
        None => Ok(
            match m {
                MutationShape::Spawn { entity, components } => MutationView::Spawn {
                    entity,
                    components: Seq::new(
                        components@.len(),
                        |j: int| (components@[j], encoding(encoded, from + j)),
                    ),
                },
                MutationShape::Despawn { entity } => MutationView::Despawn { entity },
                MutationShape::Insert { entity, component_id } => MutationView::Insert {
                    entity,
                    component_id,
                    data: encoding(encoded, from),
                },
                MutationShape::Remove { entity, component_id } => MutationView::Remove {
                    entity,
                    component_id,
                },
                MutationShape::SparseInsert { entity, component_id } => MutationView::SparseInsert {
                    entity,
                    component_id,
                    data: encoding(encoded, from),
                },
                MutationShape::SparseRemove { entity, component_id } => MutationView::SparseRemove {
                    entity,
                    component_id,
                },
            },
        ),
    }
}

/// Outcome `k` of encoding.
fn encoded_value(encoded: &Vec<Result<Vec<u8>, CodecError>>, k: usize) -> (r: Result<
    Vec<u8>,
    WalError,
>)
    requires
        k < encoded@.len(),
    ensures
        match encoded@[k as int] {
            Ok(data) => r matches Ok(copy) && copy@ == data@,
            Err(e) => r == Err::<Vec<u8>, WalError>(WalError::Codec(e)),
        },
        first_failure(encoded@, k as int, k + 1) is Some <==> r is Err,
        r is Ok ==> r->Ok_0@ == encoding(encoded@, k as int),
        r is Err ==> r->Err_0 == WalError::Codec(
            first_failure(encoded@, k as int, k + 1)->Some_0,
        ),
{
    proof {
        reveal_with_fuel(first_failure, 2);
    }
    match &encoded[k] {
        Ok(data) => Ok(slice_to_vec(data.as_slice())),
        Err(e) => Err(WalError::Codec(e.duplicate())),
    }
}

/// Builds the record form of one change from the encodings of its component
/// values, which start at `encoded[from]`.
pub fn serialize_mutation(
    m: &MutationShape,
    encoded: &Vec<Result<Vec<u8>, CodecError>>,
    from: usize,
) -> (r: Result<SerializedMutation, WalError>)
    requires
        from <= encoded@.len(),
        payload_count(*m) == 0 || (from < encoded@.len() && covers(
            encoded@,
            from + payload_count(*m),
        )),
    ensures
        match serialized(*m, encoded@, from as int) {
            Ok(view) => r matches Ok(s) && s@ == view,
            Err(e) => r == Err::<SerializedMutation, WalError>(e),
        },
{
    let total: usize = encoded.len();
    match m {
        MutationShape::Spawn { entity, components } => {
            let ghost n = from + components@.len();
            let mut copied: Vec<(ComponentId, Vec<u8>)> = Vec::new();
            let ghost whole = Seq::new(
                components@.len(),
                |j: int| (components@[j], encoding(encoded@, from + j)),
            );
            let mut j: usize = 0;
            while j < components.len()
                invariant
                    j <= components@.len(),
                    *m == (MutationShape::Spawn { entity: *entity, components: *components }),
                    total == encoded@.len(),
                    from + j <= encoded@.len(),
                    n == from + components@.len(),
                    components@.len() > 0 ==> covers(encoded@, n),
                    whole == Seq::new(
                        components@.len(),
                        |j: int| (components@[j], encoding(encoded@, from + j)),
                    ),
                    forall|k: int| from <= k < from + j ==> #[trigger] encoded@[k] is Ok,
                    components@.len() > 0 ==> from < encoded@.len(),
                    first_failure(encoded@, from as int, n) == first_failure(
                        encoded@,
                        from + j,
                        n,
                    ),
                    record::component_views(copied@) == whole.take(j as int),
                decreases components@.len() - j,
            {
                assert(from + j < encoded@.len()) by {
                    if from + j == encoded@.len() {
                        assert(encoded@[encoded@.len() - 1] is Ok || j == 0);
                    }
                }
                let ghost before = copied@;
                match encoded_value(encoded, from + j) {
                    Err(e) => {
                        return Err(e);
                    },
                    Ok(data) => {
                        copied.push((components[j], data));
                    },
                }
                j = j + 1;
                assert(record::component_views(copied@) =~= record::component_views(before).push(
                    whole[j - 1],
                ));
                assert(record::component_views(copied@) =~= whole.take(j as int));
            }
            assert(whole.take(j as int) =~= whole);
            Ok(SerializedMutation::Spawn { entity: *entity, components: copied })
        },
        MutationShape::Despawn { entity } => Ok(SerializedMutation::Despawn { entity: *entity }),
        MutationShape::Insert { entity, component_id } => match encoded_value(encoded, from) {
            Err(e) => Err(e),
            Ok(data) => Ok(
                SerializedMutation::Insert { entity: *entity, component_id: *component_id, data },
            ),
        },
        MutationShape::Remove { entity, component_id } => Ok(
            SerializedMutation::Remove { entity: *entity, component_id: *component_id },
        ),
        MutationShape::SparseInsert { entity, component_id } => match encoded_value(
            encoded,
            from,
        ) {
            Err(e) => Err(e),
            Ok(data) => Ok(
                SerializedMutation::SparseInsert {
                    entity: *entity,
                    component_id: *component_id,
                    data,
                },
            ),
        },
        MutationShape::SparseRemove { entity, component_id } => Ok(
            SerializedMutation::SparseRemove { entity: *entity, component_id: *component_id },
        ),
    }
}

/// What `changes[i..]` are written as, behind `written`.
pub open spec fn serialized_from(
    changes: Seq<MutationShape>,
    i: int,
    encoded: Seq<Result<Vec<u8>, CodecError>>,
    written: Seq<MutationView>,
) -> Result<Seq<MutationView>, WalError>
    decreases changes.len() - i,
{
    if i < 0 || i >= changes.len() {
        Ok(written)
    } else {
        match serialized(changes[i], encoded, payload_total(changes, i)) {
            Err(e) => Err(e),
            Ok(view) => serialized_from(changes, i + 1, encoded, written.push(view)),
        }
    }
}

/// The record that a changeset is written as.
pub open spec fn recorded(
    seq: u64,
    changes: Seq<MutationShape>,
    encoded: Seq<Result<Vec<u8>, CodecError>>,
    tick_after: u64,
) -> Result<record::RecordView, WalError> {
    match serialized_from(changes, 0, encoded, Seq::empty()) {
        Ok(mutations) => Ok(record::RecordView { seq, mutations, tick_after }),
        Err(e) => Err(e),
    }
}

/// Builds the record of a changeset. `encoded` holds the outcome of encoding
/// each component value, in order, up to the first failure.
pub fn changeset_to_record(
    seq: u64,
    changes: &Vec<MutationShape>,
    encoded: &Vec<Result<Vec<u8>, CodecError>>,
    tick_after: u64,
) -> (r: Result<WalRecord, WalError>)
    requires
        covers(encoded@, payload_total(changes@, changes@.len() as int)),
    ensures
        match serialized_from(changes@, 0, encoded@, Seq::empty()) {
            Ok(mutations) => r matches Ok(rec) && rec@ == (record::RecordView {
                seq,
                mutations,
                tick_after,
            }),
            Err(e) => r == Err::<WalRecord, WalError>(e),
        },
        match recorded(seq, changes@, encoded@, tick_after) {
            Ok(record) => r matches Ok(rec) && rec@ == record,
            Err(e) => r == Err::<WalRecord, WalError>(e),
        },
{
    let mut mutations: Vec<SerializedMutation> = Vec::new();
    let total: usize = encoded.len();
    let mut i: usize = 0;
    let mut from: usize = 0;
    assert(record::mutation_views(mutations@) =~= Seq::empty());
    while i < changes.len()
        invariant
            i <= changes@.len(),
            total == encoded@.len(),
            covers(encoded@, payload_total(changes@, changes@.len() as int)),
            from == payload_total(changes@, i as int),
            from <= encoded@.len(),
            forall|k: int| 0 <= k < from ==> #[trigger] encoded@[k] is Ok,
            serialized_from(changes@, 0, encoded@, Seq::empty()) == serialized_from(
                changes@,
                i as int,
                encoded@,
                record::mutation_views(mutations@),
            ),
        decreases changes@.len() - i,
    {
        let m = &changes[i];
        let ghost before = mutations@;
        proof {
            lemma_total_monotone(changes@, i + 1, changes@.len() as int);
            if payload_count(*m) > 0 && from == encoded@.len() && from > 0 {
                assert(encoded@[from - 1] is Ok);
            }
        }
        match serialize_mutation(m, encoded, from) {
            Err(e) => {
                return Err(e);
            },
            Ok(s) => {
                let count: usize = match m {
                    MutationShape::Spawn { components, .. } => components.len(),
                    MutationShape::Insert { .. } => 1,
                    MutationShape::SparseInsert { .. } => 1,
                    _ => 0,
                };
                proof {
                    lemma_no_failure(encoded@, from as int, from + count);
                }
                from = from + count;
                mutations.push(s);
            },
        }
        i = i + 1;
        assert(record::mutation_views(mutations@) =~= record::mutation_views(before).push(
            mutations@.last()@,
        ));
    }
    Ok(WalRecord { seq, mutations, tick_after })
}

proof fn lemma_total_monotone(changes: Seq<MutationShape>, a: int, b: int)
    requires
        0 <= a <= b,
    ensures
        payload_total(changes, a) <= payload_total(changes, b),
    decreases b,
{
    if a < b {
        lemma_total_monotone(changes, a, b - 1);
    }
}

/// Without a failure in a covered stretch, all its outcomes are there.
proof fn lemma_no_failure(encoded: Seq<Result<Vec<u8>, CodecError>>, from: int, n: int)
    requires
        0 <= from <= encoded.len(),
        from <= n,
        first_failure(encoded, from, n) is None,
        from == n || (from < encoded.len() && covers(encoded, n)),
    ensures
        n <= encoded.len(),
        forall|k: int| from <= k < n ==> #[trigger] encoded[k] is Ok,
    decreases n - from,
{
    if from < n {
        assert(encoded[from] is Ok);
        if from + 1 < n {
            if from + 1 == encoded.len() {
                assert(encoded.last() == encoded[from]);
            }
            lemma_no_failure(encoded, from + 1, n);
        }
    }
}

} // verus!
