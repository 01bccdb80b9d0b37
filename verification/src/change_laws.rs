//! Laws on what a record does to a world, and on what a changeset is written as.
use crate::apply;
use crate::apply::{ApplyComponent, Codecs, WorldShape};
use crate::apply_laws;
use crate::change;
use crate::change::{ComponentValue, MutationShape, ResolvedView, Target, WorldChange};
use crate::error::{CodecError, FormatIssue, WalError};
use crate::record::{ComponentId, MutationView, SerializedMutation, WalRecord};
use vstd::prelude::*;

verus! {

/// The component has a codec and a column to go to.
pub open spec fn is_bound(remap: Map<ComponentId, ApplyComponent>, id: ComponentId) -> bool {
    remap.contains_key(id) && remap[id].world_id is Some
}

/// The mutation refers to component `id`.
pub open spec fn refers_to(m: SerializedMutation, id: ComponentId) -> bool {
    match m {
        SerializedMutation::Spawn { components, .. } => exists|j: int|
            0 <= j < components@.len() && (#[trigger] components@[j]).0 == id,
        SerializedMutation::Despawn { .. } => false,
        SerializedMutation::Insert { component_id, .. } => component_id == id,
        SerializedMutation::Remove { component_id, .. } => component_id == id,
        SerializedMutation::SparseInsert { component_id, .. } => component_id == id,
        SerializedMutation::SparseRemove { component_id, .. } => component_id == id,
    }
}

/// Everything that the mutation refers to is bound.
pub open spec fn all_bound(
    m: SerializedMutation,
    remap: Map<ComponentId, ApplyComponent>,
) -> bool {
    forall|id: ComponentId| #[trigger] refers_to(m, id) ==> is_bound(remap, id)
}

/// Target `t` stands for value `j` of mutation `i`, which is of component `id`:
/// the codec and the column are those that `id` is bound to.
pub open spec fn stands_for(
    t: Target,
    i: int,
    j: int,
    id: ComponentId,
    remap: Map<ComponentId, ApplyComponent>,
) -> bool {
    &&& t.mutation == i
    &&& t.component == j
    &&& remap.contains_key(id)
    &&& remap[id].codec_id == t.codec_id
    &&& remap[id].world_id == Some(t.world_id)
}

/// `change` does to the world what mutation `i`, which is `m`, says: a change
/// of the same kind, on the same entity, with the values of that mutation.
pub open spec fn carries_out(
    change: WorldChange,
    m: SerializedMutation,
    i: int,
    targets: Seq<Target>,
    remap: Map<ComponentId, ApplyComponent>,
) -> bool {
    match m {
        SerializedMutation::Spawn { entity, components } => {
            &&& change matches WorldChange::Spawn { entity: e, first, count } && e == entity
                && count == components@.len() && first + count <= targets.len() && forall|k: int|
                first <= k < first + count ==> stands_for(
                    #[trigger] targets[k],
                    i,
                    k - first,
                    components@[k - first].0,
                    remap,
                )
        },
        SerializedMutation::Despawn { entity } => change == (WorldChange::Despawn { entity }),
        SerializedMutation::Insert { entity, component_id, .. } => {
            &&& change matches WorldChange::Insert { entity: e, value } && e == entity && value
                < targets.len() && stands_for(targets[value as int], i, 0, component_id, remap)
        },
        SerializedMutation::Remove { entity, component_id } => {
            &&& change matches WorldChange::Remove { entity: e, world_id } && e == entity
                && remap.contains_key(component_id) && remap[component_id].world_id == Some(
                world_id,
            )
        },
        SerializedMutation::SparseInsert { entity, component_id, .. } => {
            &&& change matches WorldChange::SparseInsert { entity: e, value } && e == entity
                && value < targets.len() && stands_for(
                targets[value as int],
                i,
                0,
                component_id,
                remap,
            )
        },
        SerializedMutation::SparseRemove { entity, component_id } => {
            &&& change matches WorldChange::SparseRemove { entity: e, world_id } && e == entity
                && remap.contains_key(component_id) && remap[component_id].world_id == Some(
                world_id,
            )
        },
    }
}

/// Value `j` of the mutation is there, and is of component `id`.
pub open spec fn has_value(m: SerializedMutation, j: int, id: ComponentId) -> bool {
    match m {
        SerializedMutation::Spawn { components, .. } => 0 <= j < components@.len()
            && components@[j].0 == id,
        SerializedMutation::Insert { component_id, .. } => j == 0 && component_id == id,
        SerializedMutation::SparseInsert { component_id, .. } => j == 0 && component_id == id,
        _ => false,
    }
}

/// The target stands for a value that the record carries.
pub open spec fn is_value(
    t: Target,
    mutations: Seq<SerializedMutation>,
    remap: Map<ComponentId, ApplyComponent>,
) -> bool {
    t.mutation < mutations.len() && exists|id: ComponentId| #[trigger]
        has_value(mutations[t.mutation as int], t.component as int, id) && stands_for(
            t,
            t.mutation as int,
            t.component as int,
            id,
            remap,
        )
}

/// The targets stand in the order of the record's values, none twice.
pub open spec fn in_record_order(targets: Seq<Target>) -> bool {
    forall|a: int, b: int|
        #![trigger targets[a], targets[b]]
        0 <= a < b < targets.len() ==> targets[a].mutation < targets[b].mutation
            || targets[a].mutation == targets[b].mutation && targets[a].component
            < targets[b].component
}

/// What holds of the first `i` mutations, resolved.
spec fn resolved_upto(
    mutations: Seq<SerializedMutation>,
    i: int,
    changes: Seq<WorldChange>,
    targets: Seq<Target>,
    remap: Map<ComponentId, ApplyComponent>,
) -> bool {
    &&& changes.len() == i
    &&& forall|k: int|
        0 <= k < i ==> carries_out(#[trigger] changes[k], mutations[k], k, targets, remap)
    &&& forall|k: int| 0 <= k < i ==> all_bound(#[trigger] mutations[k], remap)
    &&& forall|t: int|
        0 <= t < targets.len() ==> is_value(#[trigger] targets[t], mutations, remap)
            && targets[t].mutation < i
    &&& in_record_order(targets)
}

proof fn lemma_carried_out_stays(
    change: WorldChange,
    m: SerializedMutation,
    i: int,
    targets: Seq<Target>,
    more: Seq<Target>,
    remap: Map<ComponentId, ApplyComponent>,
)
    requires
        carries_out(change, m, i, targets, remap),
        targets.is_prefix_of(more),
    ensures
        carries_out(change, m, i, more, remap),
{
    assert forall|k: int| 0 <= k < targets.len() implies #[trigger] more[k] == targets[k] by {
        assert(more.take(targets.len() as int)[k] == targets[k]);
    }
}

/// What resolving the components of a spawn from the `j`-th on adds.
proof fn lemma_components(
    mutations: Seq<SerializedMutation>,
    i: int,
    components: Seq<(ComponentId, Vec<u8>)>,
    j: int,
    start: Seq<Target>,
    targets: Seq<Target>,
    remap: Map<ComponentId, ApplyComponent>,
    codecs: Codecs,
)
    requires
        0 <= i < mutations.len() <= usize::MAX,
        mutations[i] matches SerializedMutation::Spawn { components: c, .. } && c@ == components,
        0 <= j <= components.len() <= usize::MAX,
        targets.len() == start.len() + j,
        start.is_prefix_of(targets),
        forall|k: int|
            start.len() <= k < targets.len() ==> stands_for(
                #[trigger] targets[k],
                i,
                k - start.len(),
                components[k - start.len()].0,
                remap,
            ),
        forall|k: int| 0 <= k < j ==> is_bound(remap, (#[trigger] components[k]).0),
    ensures
        ({
            let (after, failure) = change::resolve_components(
                components,
                i as usize,
                j,
                targets,
                remap,
                codecs,
            );
            let n = after.len() - start.len();
            &&& start.is_prefix_of(after)
            &&& 0 <= n <= components.len()
            &&& forall|k: int|
                start.len() <= k < after.len() ==> stands_for(
                    #[trigger] after[k],
                    i,
                    k - start.len(),
                    components[k - start.len()].0,
                    remap,
                )
            &&& forall|k: int| 0 <= k < n ==> is_bound(remap, (#[trigger] components[k]).0)
            &&& failure is None ==> n == components.len()
            &&& failure matches Some(e) ==> n < components.len() && apply::resolved(
                remap,
                codecs,
                components[n].0,
            ) == Err::<(ComponentId, ComponentId), WalError>(e)
        }),
    decreases components.len() - j,
{
    if j < components.len() {
        if let Ok((codec_id, world_id)) = apply::resolved(remap, codecs, components[j].0) {
            let t = Target { mutation: i as usize, component: j as usize, codec_id, world_id };
            let next = targets.push(t);
            assert(start =~= next.take(start.len() as int)) by {
                assert(start =~= targets.take(start.len() as int));
            }
            lemma_components(mutations, i, components, j + 1, start, next, remap, codecs);
        }
    }
}

/// Why a component that is not bound is refused.
pub open spec fn refusal(
    remap: Map<ComponentId, ApplyComponent>,
    codecs: Codecs,
    id: ComponentId,
    e: WalError,
) -> bool {
    if remap.contains_key(id) {
        remap[id].world_id is None && e == WalError::Format(
            FormatIssue::UnboundComponent { name: codecs.spec_stable_name(remap[id].codec_id) },
        )
    } else {
        e == WalError::Codec(CodecError::UnregisteredComponent(id))
    }
}

/// Resolution stopped at a component of `m` that is not bound.
pub open spec fn stopped_at(
    m: SerializedMutation,
    remap: Map<ComponentId, ApplyComponent>,
    codecs: Codecs,
    e: WalError,
) -> bool {
    exists|id: ComponentId| #[trigger] refers_to(m, id) && refusal(remap, codecs, id, e)
}

/// What resolving a record must come to.
pub open spec fn soundly_resolved(
    mutations: Seq<SerializedMutation>,
    r: ResolvedView,
    remap: Map<ComponentId, ApplyComponent>,
    codecs: Codecs,
) -> bool {
    let n = r.changes.len() as int;
    &&& n <= mutations.len()
    &&& forall|k: int|
        0 <= k < n ==> carries_out(#[trigger] r.changes[k], mutations[k], k, r.targets, remap)
    &&& forall|t: int| 0 <= t < r.targets.len() ==> is_value(#[trigger] r.targets[t], mutations, remap)
    &&& in_record_order(r.targets)
    &&& forall|k: int| 0 <= k < n ==> all_bound(#[trigger] mutations[k], remap)
    &&& r.failure is None ==> n == mutations.len()
    &&& r.failure matches Some(e) ==> n < mutations.len() && stopped_at(
        mutations[n],
        remap,
        codecs,
        e,
    )
}

proof fn lemma_resolved(
    mutations: Seq<SerializedMutation>,
    i: int,
    changes: Seq<WorldChange>,
    targets: Seq<Target>,
    remap: Map<ComponentId, ApplyComponent>,
    codecs: Codecs,
)
    requires
        0 <= i <= mutations.len() <= usize::MAX,
        resolved_upto(mutations, i, changes, targets, remap),
        change::resolve_mutations(mutations, i, changes, targets, remap, codecs).targets.len()
            <= usize::MAX,
    ensures
        targets.len() <= change::resolve_mutations(
            mutations,
            i,
            changes,
            targets,
            remap,
            codecs,
        ).targets.len(),
        soundly_resolved(
            mutations,
            change::resolve_mutations(mutations, i, changes, targets, remap, codecs),
            remap,
            codecs,
        ),
    decreases mutations.len() - i, 1int,
{
    let r = change::resolve_mutations(mutations, i, changes, targets, remap, codecs);
    lemma_targets_grow(mutations, i, changes, targets, remap, codecs);
    if i < mutations.len() {
        let value = targets.len() as usize;
        match mutations[i] {
            SerializedMutation::Spawn { .. } => {
                lemma_spawn(mutations, i, changes, targets, remap, codecs);
            },
            SerializedMutation::Despawn { entity } => {
                let next = changes.push(WorldChange::Despawn { entity });
                assert(resolved_upto(mutations, i + 1, next, targets, remap));
                lemma_resolved(mutations, i + 1, next, targets, remap, codecs);
            },
            SerializedMutation::Insert { entity, component_id, .. } => {
                lemma_one_value(
                    mutations,
                    i,
                    changes,
                    targets,
                    remap,
                    codecs,
                    WorldChange::Insert { entity, value },
                    component_id,
                );
            },
            SerializedMutation::SparseInsert { entity, component_id, .. } => {
                lemma_one_value(
                    mutations,
                    i,
                    changes,
                    targets,
                    remap,
                    codecs,
                    WorldChange::SparseInsert { entity, value },
                    component_id,
                );
            },
            SerializedMutation::Remove { entity, component_id } => {
                assert(refers_to(mutations[i], component_id));
                match apply::resolved(remap, codecs, component_id) {
                    Ok((_, world_id)) => {
                        let next = changes.push(WorldChange::Remove { entity, world_id });
                        assert(all_bound(mutations[i], remap));
                        assert(resolved_upto(mutations, i + 1, next, targets, remap));
                        lemma_resolved(mutations, i + 1, next, targets, remap, codecs);
                    },
                    Err(e) => {
                        assert(refusal(remap, codecs, component_id, e));
                    },
                }
            },
            SerializedMutation::SparseRemove { entity, component_id } => {
                assert(refers_to(mutations[i], component_id));
                match apply::resolved(remap, codecs, component_id) {
                    Ok((_, world_id)) => {
                        let next = changes.push(WorldChange::SparseRemove { entity, world_id });
                        assert(all_bound(mutations[i], remap));
                        assert(resolved_upto(mutations, i + 1, next, targets, remap));
                        lemma_resolved(mutations, i + 1, next, targets, remap, codecs);
                    },
                    Err(e) => {
                        assert(refusal(remap, codecs, component_id, e));
                    },
                }
            },
        }
    }
}

/// The values of a spawn behind `targets`, and its change behind `changes`.
proof fn lemma_spawn(
    mutations: Seq<SerializedMutation>,
    i: int,
    changes: Seq<WorldChange>,
    targets: Seq<Target>,
    remap: Map<ComponentId, ApplyComponent>,
    codecs: Codecs,
)
    requires
        0 <= i < mutations.len() <= usize::MAX,
        mutations[i] is Spawn,
        resolved_upto(mutations, i, changes, targets, remap),
        change::resolve_mutations(mutations, i, changes, targets, remap, codecs).targets.len()
            <= usize::MAX,
    ensures
        soundly_resolved(
            mutations,
            change::resolve_mutations(mutations, i, changes, targets, remap, codecs),
            remap,
            codecs,
        ),
    decreases mutations.len() - i, 0int,
{
    lemma_targets_grow(mutations, i, changes, targets, remap, codecs);
    let value = targets.len() as usize;
    if let SerializedMutation::Spawn { entity, components } = mutations[i] {
        assert(components.len() == components@.len());
        let (after, failure) = change::resolve_components(
            components@,
            i as usize,
            0,
            targets,
            remap,
            codecs,
        );
        assert(targets =~= targets.take(targets.len() as int));
        lemma_components(mutations, i, components@, 0, targets, targets, remap, codecs);
        let n = after.len() - targets.len();
        assert(after.take(targets.len() as int) =~= targets);
        assert forall|t: int| 0 <= t < after.len() implies is_value(
            #[trigger] after[t],
            mutations,
            remap,
        ) && after[t].mutation <= i by {
            if t < targets.len() {
                assert(after[t] == targets[t]);
            } else {
                assert(has_value(
                    mutations[i],
                    t - targets.len(),
                    components@[t - targets.len()].0,
                ));
            }
        }
        assert(in_record_order(after)) by {
            assert forall|a: int, b: int|
                #![trigger after[a], after[b]]
                0 <= a < b < after.len() implies after[a].mutation < after[b].mutation
                || after[a].mutation == after[b].mutation && after[a].component
                < after[b].component by {
                if b < targets.len() {
                    assert(after[a] == targets[a] && after[b] == targets[b]);
                } else if a < targets.len() {
                    assert(after[a] == targets[a]);
                }
            }
        }
        assert forall|k: int| 0 <= k < i implies carries_out(
            #[trigger] changes[k],
            mutations[k],
            k,
            after,
            remap,
        ) by {
            lemma_carried_out_stays(changes[k], mutations[k], k, targets, after, remap);
        }
        if let Some(e) = failure {
            assert(refers_to(mutations[i], components@[n].0));
            assert(refusal(remap, codecs, components@[n].0, e));
        } else {
            let next = changes.push(
                WorldChange::Spawn {
                    entity,
                    first: value,
                    count: components@.len() as usize,
                },
            );
            lemma_targets_grow(mutations, i + 1, next, after, remap, codecs);
            assert(carries_out(next[i], mutations[i], i, after, remap));
            assert(all_bound(mutations[i], remap));
            assert(resolved_upto(mutations, i + 1, next, after, remap));
            lemma_resolved(mutations, i + 1, next, after, remap, codecs);
        }
    }
}

/// One more value behind `targets`, and one more change behind `changes`.
proof fn lemma_one_value(
    mutations: Seq<SerializedMutation>,
    i: int,
    changes: Seq<WorldChange>,
    targets: Seq<Target>,
    remap: Map<ComponentId, ApplyComponent>,
    codecs: Codecs,
    change: WorldChange,
    component_id: ComponentId,
)
    requires
        0 <= i < mutations.len() <= usize::MAX,
        resolved_upto(mutations, i, changes, targets, remap),
        match mutations[i] {
            SerializedMutation::Insert { entity, component_id: id, .. } => id == component_id
                && change == (WorldChange::Insert { entity, value: targets.len() as usize }),
            SerializedMutation::SparseInsert { entity, component_id: id, .. } => id == component_id
                && change == (WorldChange::SparseInsert {
                entity,
                value: targets.len() as usize,
            }),
            _ => false,
        },
        change::resolve_mutations(mutations, i, changes, targets, remap, codecs).targets.len()
            <= usize::MAX,
    ensures
        soundly_resolved(
            mutations,
            change::resolve_mutations(mutations, i, changes, targets, remap, codecs),
            remap,
            codecs,
        ),
    decreases mutations.len() - i, 0int,
{
    assert(refers_to(mutations[i], component_id));
    match apply::resolved(remap, codecs, component_id) {
        Err(e) => {
            assert(refusal(remap, codecs, component_id, e));
        },
        Ok((codec_id, world_id)) => {
            let t = Target { mutation: i as usize, component: 0, codec_id, world_id };
            let after = targets.push(t);
            let next = changes.push(change);
            lemma_targets_grow(mutations, i + 1, next, after, remap, codecs);
            assert(after.take(targets.len() as int) =~= targets);
            assert(t.mutation == i);
            assert(has_value(mutations[t.mutation as int], t.component as int, component_id));
            assert(is_value(t, mutations, remap));
            assert forall|k: int| 0 <= k < i implies carries_out(
                #[trigger] changes[k],
                mutations[k],
                k,
                after,
                remap,
            ) by {
                lemma_carried_out_stays(changes[k], mutations[k], k, targets, after, remap);
            }
            assert(carries_out(next[i], mutations[i], i, after, remap));
            assert(all_bound(mutations[i], remap));
            assert(resolved_upto(mutations, i + 1, next, after, remap));
            lemma_resolved(mutations, i + 1, next, after, remap, codecs);
        },
    }
}

proof fn lemma_components_grow(
    components: Seq<(ComponentId, Vec<u8>)>,
    mutation: usize,
    j: int,
    targets: Seq<Target>,
    remap: Map<ComponentId, ApplyComponent>,
    codecs: Codecs,
)
    ensures
        targets.len() <= change::resolve_components(
            components,
            mutation,
            j,
            targets,
            remap,
            codecs,
        ).0.len(),
    decreases components.len() - j,
{
    if 0 <= j < components.len() {
        if let Ok((codec_id, world_id)) = apply::resolved(remap, codecs, components[j].0) {
            let t = Target { mutation, component: j as usize, codec_id, world_id };
            lemma_components_grow(components, mutation, j + 1, targets.push(t), remap, codecs);
        }
    }
}

proof fn lemma_targets_grow(
    mutations: Seq<SerializedMutation>,
    i: int,
    changes: Seq<WorldChange>,
    targets: Seq<Target>,
    remap: Map<ComponentId, ApplyComponent>,
    codecs: Codecs,
)
    ensures
        targets.len() <= change::resolve_mutations(
            mutations,
            i,
            changes,
            targets,
            remap,
            codecs,
        ).targets.len(),
    decreases mutations.len() - i,
{
    if 0 <= i < mutations.len() {
        let value = targets.len() as usize;
        match mutations[i] {
            SerializedMutation::Spawn { entity, components } => {
                lemma_components_grow(components@, i as usize, 0, targets, remap, codecs);
                let (after, failure) = change::resolve_components(
                    components@,
                    i as usize,
                    0,
                    targets,
                    remap,
                    codecs,
                );
                lemma_targets_grow(
                    mutations,
                    i + 1,
                    changes.push(
                        WorldChange::Spawn {
                            entity,
                            first: value,
                            count: components@.len() as usize,
                        },
                    ),
                    after,
                    remap,
                    codecs,
                );
            },
            SerializedMutation::Despawn { entity } => {
                lemma_targets_grow(
                    mutations,
                    i + 1,
                    changes.push(WorldChange::Despawn { entity }),
                    targets,
                    remap,
                    codecs,
                );
            },
            SerializedMutation::Insert { entity, component_id, .. } => {
                if let Ok((codec_id, world_id)) = apply::resolved(remap, codecs, component_id) {
                    let t = Target { mutation: i as usize, component: 0, codec_id, world_id };
                    let next = changes.push(WorldChange::Insert { entity, value });
                    lemma_targets_grow(mutations, i + 1, next, targets.push(t), remap, codecs);
                }
            },
            SerializedMutation::SparseInsert { entity, component_id, .. } => {
                if let Ok((codec_id, world_id)) = apply::resolved(remap, codecs, component_id) {
                    let t = Target { mutation: i as usize, component: 0, codec_id, world_id };
                    let next = changes.push(WorldChange::SparseInsert { entity, value });
                    lemma_targets_grow(mutations, i + 1, next, targets.push(t), remap, codecs);
                }
            },
            SerializedMutation::Remove { entity, component_id } => {
                if let Ok((_, world_id)) = apply::resolved(remap, codecs, component_id) {
                    let next = changes.push(WorldChange::Remove { entity, world_id });
                    lemma_targets_grow(mutations, i + 1, next, targets, remap, codecs);
                }
            },
            SerializedMutation::SparseRemove { entity, component_id } => {
                if let Ok((_, world_id)) = apply::resolved(remap, codecs, component_id) {
                    let next = changes.push(WorldChange::SparseRemove { entity, world_id });
                    lemma_targets_grow(mutations, i + 1, next, targets, remap, codecs);
                }
            },
        }
    }
}

/// A resolved record does to the world what it says: one change for each
/// mutation, in order, of the same kind and on the same entity, with that
/// mutation's values and in the columns that its components are bound to. Each
/// value to decode is one that the record carries. Resolution fails exactly
/// where a component is not bound, and then stops at the first mutation that
/// refers to one.
pub proof fn law_record_is_carried_out(
    record: WalRecord,
    remap: Map<ComponentId, ApplyComponent>,
    codecs: Codecs,
)
    requires
        change::resolved_record(record, remap, codecs).targets.len() <= usize::MAX,
    ensures
        soundly_resolved(
            record.mutations@,
            change::resolved_record(record, remap, codecs),
            remap,
            codecs,
        ),
        change::resolved_record(record, remap, codecs).failure is None <==> forall|k: int|
            0 <= k < record.mutations@.len() ==> all_bound(#[trigger] record.mutations@[k], remap),
{
    let mutations = record.mutations@;
    assert(record.mutations.len() == mutations.len());
    assert(resolved_upto(mutations, 0, Seq::empty(), Seq::empty(), remap));
    lemma_resolved(mutations, 0, Seq::empty(), Seq::empty(), remap, codecs);
    let r = change::resolved_record(record, remap, codecs);
    if let Some(e) = r.failure {
        let n = r.changes.len() as int;
        let id = choose|id: ComponentId| #[trigger]
            refers_to(mutations[n], id) && refusal(remap, codecs, id, e);
        assert(refers_to(mutations[n], id) && !is_bound(remap, id));
        assert(!all_bound(mutations[n], remap));
    }
}

proof fn lemma_first_unresolved(
    ids: Seq<ComponentId>,
    i: int,
    remap: Map<ComponentId, ApplyComponent>,
    codecs: Codecs,
)
    requires
        0 <= i <= ids.len(),
    ensures
        apply::first_unresolved(ids, i, remap, codecs) is None <==> forall|j: int|
            i <= j < ids.len() ==> is_bound(remap, #[trigger] ids[j]),
    decreases ids.len() - i,
{
    if i < ids.len() {
        lemma_first_unresolved(ids, i + 1, remap, codecs);
    }
}

/// A record passes exactly where everything that it refers to is bound.
pub proof fn lemma_passes(
    mutations: Seq<SerializedMutation>,
    i: int,
    remap: Map<ComponentId, ApplyComponent>,
    codecs: Codecs,
)
    requires
        0 <= i <= mutations.len(),
    ensures
        apply::unresolved_from(mutations, i, remap, codecs) is None <==> forall|k: int|
            i <= k < mutations.len() ==> all_bound(#[trigger] mutations[k], remap),
    decreases mutations.len() - i,
{
    if i < mutations.len() {
        lemma_passes(mutations, i + 1, remap, codecs);
        let m = mutations[i];
        let ids = apply::refs_of(m);
        lemma_first_unresolved(ids, 0, remap, codecs);
        if forall|j: int| 0 <= j < ids.len() ==> is_bound(remap, #[trigger] ids[j]) {
            assert forall|id: ComponentId| #[trigger] refers_to(m, id) implies is_bound(
                remap,
                id,
            ) by {
                if let SerializedMutation::Spawn { components, .. } = m {
                    let j = choose|j: int|
                        0 <= j < components@.len() && (#[trigger] components@[j]).0 == id;
                    assert(ids[j] == id);
                } else {
                    assert(ids[0] == id);
                }
            }
        }
        if all_bound(m, remap) {
            assert forall|j: int| 0 <= j < ids.len() implies is_bound(remap, #[trigger] ids[j]) by {
                if let SerializedMutation::Spawn { components, .. } = m {
                    assert(components@[j].0 == ids[j]);
                }
                assert(refers_to(m, ids[j]));
            }
        }
    }
}

/// Checking a record's components beforehand finds what resolving it finds.
pub proof fn law_validation_foretells_resolution(
    record: WalRecord,
    remap: Map<ComponentId, ApplyComponent>,
    codecs: Codecs,
)
    ensures
        apply::unresolved_from(record.mutations@, 0, remap, codecs) == change::resolved_record(
            record,
            remap,
            codecs,
        ).failure,
{
    lemma_validation(record.mutations@, 0, Seq::empty(), Seq::empty(), remap, codecs);
}

proof fn lemma_validated_components(
    components: Seq<(ComponentId, Vec<u8>)>,
    ids: Seq<ComponentId>,
    mutation: usize,
    j: int,
    targets: Seq<Target>,
    remap: Map<ComponentId, ApplyComponent>,
    codecs: Codecs,
)
    requires
        0 <= j <= components.len(),
        ids == Seq::new(components.len(), |k: int| components[k].0),
    ensures
        apply::first_unresolved(ids, j, remap, codecs) == change::resolve_components(
            components,
            mutation,
            j,
            targets,
            remap,
            codecs,
        ).1,
    decreases components.len() - j,
{
    if j < components.len() {
        assert(ids[j] == components[j].0);
        if let Ok((codec_id, world_id)) = apply::resolved(remap, codecs, components[j].0) {
            let t = Target { mutation, component: j as usize, codec_id, world_id };
            lemma_validated_components(
                components,
                ids,
                mutation,
                j + 1,
                targets.push(t),
                remap,
                codecs,
            );
        }
    }
}

proof fn lemma_validation(
    mutations: Seq<SerializedMutation>,
    i: int,
    changes: Seq<WorldChange>,
    targets: Seq<Target>,
    remap: Map<ComponentId, ApplyComponent>,
    codecs: Codecs,
)
    requires
        0 <= i <= mutations.len(),
    ensures
        apply::unresolved_from(mutations, i, remap, codecs) == change::resolve_mutations(
            mutations,
            i,
            changes,
            targets,
            remap,
            codecs,
        ).failure,
    decreases mutations.len() - i,
{
    if i < mutations.len() {
        let value = targets.len() as usize;
        reveal_with_fuel(apply::first_unresolved, 2);
        let ids = apply::refs_of(mutations[i]);
        match mutations[i] {
            SerializedMutation::Spawn { entity, components } => {
                lemma_validated_components(
                    components@,
                    ids,
                    i as usize,
                    0,
                    targets,
                    remap,
                    codecs,
                );
                let (after, failure) = change::resolve_components(
                    components@,
                    i as usize,
                    0,
                    targets,
                    remap,
                    codecs,
                );
                if failure is None {
                    let next = changes.push(
                        WorldChange::Spawn {
                            entity,
                            first: value,
                            count: components@.len() as usize,
                        },
                    );
                    lemma_validation(mutations, i + 1, next, after, remap, codecs);
                }
            },
            SerializedMutation::Despawn { entity } => {
                let next = changes.push(WorldChange::Despawn { entity });
                lemma_validation(mutations, i + 1, next, targets, remap, codecs);
            },
            SerializedMutation::Insert { entity, component_id, .. } => {
                if let Ok((codec_id, world_id)) = apply::resolved(remap, codecs, component_id) {
                    let t = Target { mutation: i as usize, component: 0, codec_id, world_id };
                    let next = changes.push(WorldChange::Insert { entity, value });
                    lemma_validation(mutations, i + 1, next, targets.push(t), remap, codecs);
                }
            },
            SerializedMutation::SparseInsert { entity, component_id, .. } => {
                if let Ok((codec_id, world_id)) = apply::resolved(remap, codecs, component_id) {
                    let t = Target { mutation: i as usize, component: 0, codec_id, world_id };
                    let next = changes.push(WorldChange::SparseInsert { entity, value });
                    lemma_validation(mutations, i + 1, next, targets.push(t), remap, codecs);
                }
            },
            SerializedMutation::Remove { entity, component_id } => {
                if let Ok((_, world_id)) = apply::resolved(remap, codecs, component_id) {
                    let next = changes.push(WorldChange::Remove { entity, world_id });
                    lemma_validation(mutations, i + 1, next, targets, remap, codecs);
                }
            },
            SerializedMutation::SparseRemove { entity, component_id } => {
                if let Ok((_, world_id)) = apply::resolved(remap, codecs, component_id) {
                    let next = changes.push(WorldChange::SparseRemove { entity, world_id });
                    lemma_validation(mutations, i + 1, next, targets, remap, codecs);
                }
            },
        }
    }
}

/// The first of the outcomes that is a failure, if any of the first `n` is.
pub open spec fn fails_with<T>(
    outcomes: Seq<Result<T, CodecError>>,
    n: int,
    e: CodecError,
) -> bool {
    exists|k: int| #[trigger] fails_at(outcomes, k, e) && k < n
}

/// Outcome `k` is the failure `e`, and those before it are successes.
pub open spec fn fails_at<T>(outcomes: Seq<Result<T, CodecError>>, k: int, e: CodecError) -> bool {
    &&& 0 <= k < outcomes.len()
    &&& outcomes[k] == Err::<T, CodecError>(e)
    &&& forall|j: int| 0 <= j < k ==> #[trigger] outcomes[j] is Ok
}

proof fn lemma_first_failure<T>(outcomes: Seq<Result<T, CodecError>>, i: int, n: int)
    requires
        0 <= i,
        forall|j: int| 0 <= j < i && j < outcomes.len() ==> #[trigger] outcomes[j] is Ok,
    ensures
        match change::first_failure(outcomes, i, n) {
            Some(e) => fails_with(outcomes, n, e),
            None => forall|j: int| 0 <= j < n && j < outcomes.len() ==> #[trigger] outcomes[j] is Ok,
        },
    decreases n - i,
{
    if i < n && i < outcomes.len() {
        match outcomes[i] {
            Err(e) => {
                assert(fails_at(outcomes, i, e));
            },
            Ok(_) => {
                lemma_first_failure(outcomes, i + 1, n);
            },
        }
    }
}

/// Applying a record either refuses it, for its commit tick, a binding or a
/// value that does not decode, or sets the world's tick to the record's, makes
/// the changes that the record says and leaves the world one tick later.
pub proof fn law_applied_record_moves_the_world(
    record: WalRecord,
    world: WorldShape,
    codecs: Codecs,
    remap: Map<ComponentId, ApplyComponent>,
    decoded: Seq<Result<ComponentValue, CodecError>>,
)
    requires
        change::resolved_record(record, remap, codecs).targets.len() <= usize::MAX,
    ensures
        match change::planned_record(record, world, codecs, Some(remap), decoded) {
            Ok(plan) => {
                &&& world.tick <= plan.tick
                &&& plan.tick == record.tick_after
                &&& plan.next_tick == record.tick_after + 1
                &&& soundly_resolved(
                    record.mutations@,
                    ResolvedView { changes: plan.changes, targets: plan.targets, failure: None },
                    remap,
                    codecs,
                )
                &&& forall|k: int|
                    0 <= k < plan.targets.len() && k < decoded.len() ==> #[trigger] decoded[k] is Ok
            },
            Err(e) => {
                ||| record.tick_after < world.tick && e == (WalError::TickRegression {
                    seq: record.seq,
                    record_tick: record.tick_after,
                    world_tick: world.tick,
                })
                ||| record.tick_after == u64::MAX && e == WalError::Format(
                    FormatIssue::TickOverflow { seq: record.seq },
                )
                ||| e matches WalError::Codec(c) && fails_with(
                    decoded,
                    decoded.len() as int,
                    c,
                )
                ||| exists|k: int|
                    0 <= k < record.mutations@.len() && stopped_at(
                        #[trigger] record.mutations@[k],
                        remap,
                        codecs,
                        e,
                    )
            },
        },
        change::planned_record(record, world, codecs, Some(remap), decoded) is Ok <==> {
            &&& world.tick <= record.tick_after < u64::MAX
            &&& forall|k: int|
                0 <= k < record.mutations@.len() ==> all_bound(
                    #[trigger] record.mutations@[k],
                    remap,
                )
            &&& forall|k: int|
                0 <= k < change::resolved_record(record, remap, codecs).targets.len() && k
                    < decoded.len() ==> #[trigger] decoded[k] is Ok
        },
{
    law_record_is_carried_out(record, remap, codecs);
    let r = change::resolved_record(record, remap, codecs);
    lemma_first_failure(decoded, 0, r.targets.len() as int);
    if let Some(c) = change::first_failure(decoded, 0, r.targets.len() as int) {
        let k = choose|k: int| #[trigger] fails_at(decoded, k, c) && k < r.targets.len();
        assert(fails_at(decoded, k, c) && k < decoded.len());
        assert(decoded[k] is Err);
    }
}

/// The written mutation `v` is the change `m`: of the same kind, on the same
/// entity and of the same components.
pub open spec fn writes_down(m: MutationShape, v: MutationView) -> bool {
    match m {
        MutationShape::Spawn { entity, components } => {
            v matches MutationView::Spawn { entity: e, components: written } && e == entity
                && written.len() == components@.len() && forall|j: int|
                0 <= j < written.len() ==> (#[trigger] written[j]).0 == components@[j]
        },
        MutationShape::Despawn { entity } => v == (MutationView::Despawn { entity }),
        MutationShape::Insert { entity, component_id } => {
            v matches MutationView::Insert { entity: e, component_id: id, .. } && e == entity && id
                == component_id
        },
        MutationShape::Remove { entity, component_id } => v == (MutationView::Remove {
            entity,
            component_id,
        }),
        MutationShape::SparseInsert { entity, component_id } => {
            v matches MutationView::SparseInsert { entity: e, component_id: id, .. } && e == entity
                && id == component_id
        },
        MutationShape::SparseRemove { entity, component_id } => v == (MutationView::SparseRemove {
            entity,
            component_id,
        }),
    }
}

/// The component values that a written mutation holds, in order.
pub open spec fn values_in(v: MutationView) -> Seq<Seq<u8>> {
    match v {
        MutationView::Spawn { components, .. } => Seq::new(
            components.len(),
            |j: int| components[j].1,
        ),
        MutationView::Insert { data, .. } => seq![data],
        MutationView::SparseInsert { data, .. } => seq![data],
        _ => Seq::empty(),
    }
}

/// The component values that written mutations hold, in order.
pub open spec fn all_values(mutations: Seq<MutationView>) -> Seq<Seq<u8>>
    decreases mutations.len(),
{
    if mutations.len() == 0 {
        Seq::empty()
    } else {
        all_values(mutations.drop_last()) + values_in(mutations.last())
    }
}

/// The values are the first encodings, in order.
pub open spec fn are_encodings(
    values: Seq<Seq<u8>>,
    encoded: Seq<Result<Vec<u8>, CodecError>>,
) -> bool {
    &&& values.len() <= encoded.len()
    &&& forall|k: int|
        0 <= k < values.len() ==> (#[trigger] encoded[k] matches Ok(data) && data@ == values[k])
}

proof fn lemma_stretch_failure(encoded: Seq<Result<Vec<u8>, CodecError>>, from: int, n: int)
    requires
        0 <= from <= n,
        from <= encoded.len(),
        change::covers(encoded, n),
        from == n || from < encoded.len() || from == 0,
        forall|k: int| 0 <= k < from ==> #[trigger] encoded[k] is Ok,
    ensures
        match change::first_failure(encoded, from, n) {
            Some(e) => fails_with(encoded, n, e),
            None => n <= encoded.len() && forall|k: int| 0 <= k < n ==> #[trigger] encoded[k] is Ok,
        },
{
    lemma_first_failure(encoded, from, n);
    if change::first_failure(encoded, from, n) is None && n > encoded.len() {
        assert(encoded[encoded.len() - 1] is Ok);
    }
}

proof fn lemma_covers_less(encoded: Seq<Result<Vec<u8>, CodecError>>, n: int, total: int)
    requires
        n <= total,
        change::covers(encoded, total),
    ensures
        change::covers(encoded, n),
{
}

proof fn lemma_written(
    changes: Seq<MutationShape>,
    i: int,
    encoded: Seq<Result<Vec<u8>, CodecError>>,
    written: Seq<MutationView>,
)
    requires
        0 <= i <= changes.len(),
        written.len() == i,
        change::covers(encoded, change::payload_total(changes, changes.len() as int)),
        all_values(written).len() == change::payload_total(changes, i),
        are_encodings(all_values(written), encoded),
        forall|k: int| 0 <= k < i ==> writes_down(#[trigger] changes[k], written[k]),
    ensures
        match change::serialized_from(changes, i, encoded, written) {
            Ok(mutations) => {
                &&& mutations.len() == changes.len()
                &&& forall|k: int|
                    0 <= k < changes.len() ==> writes_down(#[trigger] changes[k], mutations[k])
                &&& are_encodings(all_values(mutations), encoded)
            },
            Err(e) => e matches WalError::Codec(c) && fails_with(
                encoded,
                encoded.len() as int,
                c,
            ),
        },
    decreases changes.len() - i,
{
    if i < changes.len() {
        let from = change::payload_total(changes, i);
        let m = changes[i];
        let n = from + change::payload_count(m);
        assert(n == change::payload_total(changes, i + 1));
        lemma_total(changes, i + 1, changes.len() as int);
        lemma_covers_less(
            encoded,
            n,
            change::payload_total(changes, changes.len() as int),
        );
        assert forall|k: int| 0 <= k < from implies #[trigger] encoded[k] is Ok by {}
        lemma_stretch_failure(encoded, from, n);
        match change::serialized(m, encoded, from) {
            Err(e) => {
                let c = e->Codec_0;
                let k = choose|k: int| #[trigger] fails_at(encoded, k, c) && k < n;
                assert(fails_at(encoded, k, c) && k < encoded.len());
            },
            Ok(v) => {
                let next = written.push(v);
                assert(next.drop_last() =~= written);
                assert(values_in(v).len() == change::payload_count(m));
                assert forall|k: int| 0 <= k < all_values(next).len() implies (
                #[trigger] encoded[k] matches Ok(data) && data@ == all_values(next)[k]) by {
                    if k >= from {
                        assert(all_values(next)[k] == values_in(v)[k - from]);
                    } else {
                        assert(all_values(next)[k] == all_values(written)[k]);
                    }
                }
                lemma_written(changes, i + 1, encoded, next);
            },
        }
    }
}

proof fn lemma_total(changes: Seq<MutationShape>, a: int, b: int)
    requires
        0 <= a <= b,
    ensures
        0 <= change::payload_total(changes, a) <= change::payload_total(changes, b),
    decreases b,
{
    if a < b {
        lemma_total(changes, a, b - 1);
    } else if b > 0 {
        lemma_total(changes, b - 1, b - 1);
    }
}

/// A changeset is written down as it is: one mutation for each change, in
/// order, of the same kind, on the same entity and of the same components. The
/// encodings go in one after the other, each to its own component. It is
/// refused only for the first value that does not encode.
pub proof fn law_changeset_is_written_down(
    changes: Seq<MutationShape>,
    encoded: Seq<Result<Vec<u8>, CodecError>>,
)
    requires
        change::covers(encoded, change::payload_total(changes, changes.len() as int)),
    ensures
        match change::serialized_from(changes, 0, encoded, Seq::empty()) {
            Ok(mutations) => {
                &&& mutations.len() == changes.len()
                &&& forall|k: int|
                    0 <= k < changes.len() ==> writes_down(#[trigger] changes[k], mutations[k])
                &&& are_encodings(all_values(mutations), encoded)
            },
            Err(e) => e matches WalError::Codec(c) && fails_with(
                encoded,
                encoded.len() as int,
                c,
            ),
        },
{
    lemma_written(changes, 0, encoded, Seq::empty());
}

/// `change` repeats on the world what `m` was recorded as.
pub open spec fn repeats(
    change: WorldChange,
    m: MutationShape,
    targets: Seq<Target>,
    remap: Map<ComponentId, ApplyComponent>,
) -> bool {
    match m {
        MutationShape::Spawn { entity, components } => {
            change matches WorldChange::Spawn { entity: e, first, count } && e == entity && count
                == components@.len() && first + count <= targets.len() && forall|k: int|
                first <= k < first + count ==> remap[components@[k - first]].codec_id == (
                #[trigger] targets[k]).codec_id && remap[components@[k - first]].world_id == Some(
                    targets[k].world_id,
                )
        },
        MutationShape::Despawn { entity } => change == (WorldChange::Despawn { entity }),
        MutationShape::Insert { entity, component_id } => {
            change matches WorldChange::Insert { entity: e, value } && e == entity && value
                < targets.len() && remap[component_id].world_id == Some(
                targets[value as int].world_id,
            )
        },
        MutationShape::Remove { entity, component_id } => {
            change matches WorldChange::Remove { entity: e, world_id } && e == entity
                && remap[component_id].world_id == Some(world_id)
        },
        MutationShape::SparseInsert { entity, component_id } => {
            change matches WorldChange::SparseInsert { entity: e, value } && e == entity && value
                < targets.len() && remap[component_id].world_id == Some(
                targets[value as int].world_id,
            )
        },
        MutationShape::SparseRemove { entity, component_id } => {
            change matches WorldChange::SparseRemove { entity: e, world_id } && e == entity
                && remap[component_id].world_id == Some(world_id)
        },
    }
}

/// What was written down is what a replay does: the record of a changeset
/// resolves to changes of the same kinds, on the same entities, in the columns
/// that the changes' own components are bound to.
pub proof fn law_written_changeset_is_replayed(
    changes: Seq<MutationShape>,
    encoded: Seq<Result<Vec<u8>, CodecError>>,
    record: WalRecord,
    remap: Map<ComponentId, ApplyComponent>,
    codecs: Codecs,
)
    requires
        change::covers(encoded, change::payload_total(changes, changes.len() as int)),
        change::serialized_from(changes, 0, encoded, Seq::empty()) == Ok::<
            Seq<MutationView>,
            WalError,
        >(record@.mutations),
        change::resolved_record(record, remap, codecs).targets.len() <= usize::MAX,
        change::resolved_record(record, remap, codecs).failure is None,
    ensures
        ({
            let r = change::resolved_record(record, remap, codecs);
            &&& r.changes.len() == changes.len()
            &&& forall|k: int|
                0 <= k < changes.len() ==> repeats(
                    r.changes[k],
                    #[trigger] changes[k],
                    r.targets,
                    remap,
                )
        }),
{
    law_changeset_is_written_down(changes, encoded);
    law_record_is_carried_out(record, remap, codecs);
    let r = change::resolved_record(record, remap, codecs);
    assert forall|k: int| 0 <= k < changes.len() implies repeats(
        r.changes[k],
        #[trigger] changes[k],
        r.targets,
        remap,
    ) by {
        let m = record.mutations@[k];
        assert(record@.mutations[k] == m@);
        assert(writes_down(changes[k], m@));
        assert(carries_out(r.changes[k], m, k, r.targets, remap));
        if let SerializedMutation::Spawn { components, .. } = m {
            let first = r.changes[k]->first;
            let count = r.changes[k]->count;
            let shape = changes[k]->Spawn_components@;
            assert forall|j: int| first <= j < first + count implies remap[shape[j
                - first]].codec_id == (#[trigger] r.targets[j]).codec_id && remap[shape[j
                - first]].world_id == Some(r.targets[j].world_id) by {
                assert(m@->Spawn_components[j - first].0 == shape[j - first]);
                assert(stands_for(r.targets[j], k, j - first, components@[j - first].0, remap));
            }
        }
    }
}

/// A record without bindings is applied with every codec standing for its own
/// id.
pub proof fn law_record_without_bindings_uses_codec_ids(
    record: WalRecord,
    world: WorldShape,
    codecs: Codecs,
    decoded: Seq<Result<ComponentValue, CodecError>>,
)
    ensures
        ({
            let own = apply::apply_remap(None, world, codecs);
            &&& own is Ok
            &&& change::planned_record(record, world, codecs, None, decoded)
                == change::planned_record(record, world, codecs, Some(own->Ok_0), decoded)
            &&& forall|id: ComponentId| #[trigger]
                own->Ok_0.contains_key(id) ==> own->Ok_0[id].codec_id == id
        }),
{
    apply_laws::law_codecs_stand_for_themselves(world, codecs);
}

/// The record of a changeset carries the number and the commit tick that it was
/// given, and the changes as they are.
pub proof fn law_record_carries_its_number_and_tick(
    seq: u64,
    changes: Seq<MutationShape>,
    encoded: Seq<Result<Vec<u8>, CodecError>>,
    tick_after: u64,
)
    requires
        change::covers(encoded, change::payload_total(changes, changes.len() as int)),
    ensures
        match change::recorded(seq, changes, encoded, tick_after) {
            Ok(record) => {
                &&& record.seq == seq
                &&& record.tick_after == tick_after
                &&& record.mutations.len() == changes.len()
                &&& forall|k: int|
                    0 <= k < changes.len() ==> writes_down(
                        #[trigger] changes[k],
                        record.mutations[k],
                    )
                &&& are_encodings(all_values(record.mutations), encoded)
            },
            Err(e) => e matches WalError::Codec(c) && fails_with(
                encoded,
                encoded.len() as int,
                c,
            ),
        },
{
    law_changeset_is_written_down(changes, encoded);
}

} // verus!
