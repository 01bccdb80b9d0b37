//! What a log frame carries once decoded.
use vstd::prelude::*;
use vstd::slice::*;

verus! {

/// Numeric identity of a component type within one registry or world.
pub type ComponentId = usize;

/// One component type of a schema preamble.
#[derive(Clone, Debug, PartialEq, Eq)]
pub struct ComponentSchema {
    pub id: ComponentId,
    pub name: String,
    pub size: usize,
    pub align: usize,
}

/// One change to an entity. The entity is its raw bits, generation included;
/// component data is already encoded by the component's codec.
#[derive(Clone, Debug, PartialEq, Eq)]
pub enum SerializedMutation {
    Spawn { entity: u64, components: Vec<(ComponentId, Vec<u8>)> },
    Despawn { entity: u64 },
    Insert { entity: u64, component_id: ComponentId, data: Vec<u8> },
    Remove { entity: u64, component_id: ComponentId },
    /// Insert a component into sparse storage (not archetypes).
    SparseInsert { entity: u64, component_id: ComponentId, data: Vec<u8> },
    /// Remove a component from sparse storage.
    SparseRemove { entity: u64, component_id: ComponentId },
}

/// A single log record: one committed changeset with its sequence number and
/// the world tick at its commit boundary.
#[derive(Clone, Debug, PartialEq, Eq)]
pub struct WalRecord {
    pub seq: u64,
    pub mutations: Vec<SerializedMutation>,
    pub tick_after: u64,
}

/// Schema preamble: maps sender-local IDs to stable names.
#[derive(Clone, Debug, PartialEq, Eq)]
pub struct WalSchema {
    pub components: Vec<ComponentSchema>,
}

/// The payload of one frame.
#[derive(Clone, Debug, PartialEq, Eq)]
pub enum WalEntry {
    Schema(WalSchema),
    Mutations(WalRecord),
    Checkpoint { flush_seq: u64 },
}

/// Self-describing replication payload. Every batch carries its own schema so
/// receivers can decode without prior handshake.
#[derive(Clone, Debug, PartialEq, Eq)]
pub struct ReplicationBatch {
    pub schema: WalSchema,
    pub records: Vec<WalRecord>,
}

/// A mutation as mathematical values.
#[verifier::ext_equal]
pub enum MutationView {
    Spawn { entity: u64, components: Seq<(ComponentId, Seq<u8>)> },
    Despawn { entity: u64 },
    Insert { entity: u64, component_id: ComponentId, data: Seq<u8> },
    Remove { entity: u64, component_id: ComponentId },
    SparseInsert { entity: u64, component_id: ComponentId, data: Seq<u8> },
    SparseRemove { entity: u64, component_id: ComponentId },
}

pub open spec fn component_views(components: Seq<(ComponentId, Vec<u8>)>) -> Seq<
    (ComponentId, Seq<u8>),
> {
    Seq::new(components.len(), |i: int| (components[i].0, components[i].1@))
}

impl View for SerializedMutation {
    type V = MutationView;

    open spec fn view(&self) -> MutationView {
        match *self {
            SerializedMutation::Spawn { entity, components } => MutationView::Spawn {
                entity,
                components: component_views(components@),
            },
            SerializedMutation::Despawn { entity } => MutationView::Despawn { entity },
            SerializedMutation::Insert { entity, component_id, data } => MutationView::Insert {
                entity,
                component_id,
                data: data@,
            },
            SerializedMutation::Remove { entity, component_id } => MutationView::Remove {
                entity,
                component_id,
            },
            SerializedMutation::SparseInsert { entity, component_id, data } => MutationView::SparseInsert {
                entity,
                component_id,
                data: data@,
            },
            SerializedMutation::SparseRemove { entity, component_id } => MutationView::SparseRemove {
                entity,
                component_id,
            },
        }
    }
}

impl SerializedMutation {
    /// A copy with the same contents.
    pub fn duplicate(&self) -> (copy: SerializedMutation)
        ensures
            copy@ == self@,
    {
        match self {
            SerializedMutation::Spawn { entity, components } => {
                let mut copied: Vec<(ComponentId, Vec<u8>)> = Vec::new();
                let mut i: usize = 0;
                while i < components.len()
                    invariant
                        i <= components@.len(),
                        component_views(copied@) == component_views(components@).take(i as int),
                    decreases components@.len() - i,
                {
                    let ghost before = copied@;
                    copied.push((components[i].0, slice_to_vec(components[i].1.as_slice())));
                    i = i + 1;
                    assert(component_views(copied@) =~= component_views(before).push(
                        component_views(components@)[i - 1],
                    ));
                    assert(component_views(copied@) =~= component_views(components@).take(
                        i as int,
                    ));
                }
                assert(component_views(components@).take(i as int) =~= component_views(
                    components@,
                ));
                SerializedMutation::Spawn { entity: *entity, components: copied }
            },
            SerializedMutation::Despawn { entity } => SerializedMutation::Despawn {
                entity: *entity,
            },
            SerializedMutation::Insert { entity, component_id, data } => SerializedMutation::Insert {
                entity: *entity,
                component_id: *component_id,
                data: slice_to_vec(data.as_slice()),
            },
            SerializedMutation::Remove { entity, component_id } => SerializedMutation::Remove {
                entity: *entity,
                component_id: *component_id,
            },
            SerializedMutation::SparseInsert { entity, component_id, data } => SerializedMutation::SparseInsert {
                entity: *entity,
                component_id: *component_id,
                data: slice_to_vec(data.as_slice()),
            },
            SerializedMutation::SparseRemove { entity, component_id } => SerializedMutation::SparseRemove {
                entity: *entity,
                component_id: *component_id,
            },
        }
    }
}

/// A record as mathematical values.
#[verifier::ext_equal]
pub struct RecordView {
    pub seq: u64,
    pub mutations: Seq<MutationView>,
    pub tick_after: u64,
}

pub open spec fn mutation_views(mutations: Seq<SerializedMutation>) -> Seq<MutationView> {
    Seq::new(mutations.len(), |i: int| mutations[i]@)
}

impl View for WalRecord {
    type V = RecordView;

    open spec fn view(&self) -> RecordView {
        RecordView {
            seq: self.seq,
            mutations: mutation_views(self.mutations@),
            tick_after: self.tick_after,
        }
    }
}

pub open spec fn record_views(records: Seq<WalRecord>) -> Seq<RecordView> {
    Seq::new(records.len(), |i: int| records[i]@)
}

impl WalRecord {
    /// A copy with the same contents.
    pub fn duplicate(&self) -> (copy: WalRecord)
        ensures
            copy@ == self@,
    {
        let mut mutations: Vec<SerializedMutation> = Vec::new();
        let mut i: usize = 0;
        while i < self.mutations.len()
            invariant
                i <= self.mutations@.len(),
                mutation_views(mutations@) == mutation_views(self.mutations@).take(i as int),
            decreases self.mutations@.len() - i,
        {
            let ghost before = mutations@;
            mutations.push(self.mutations[i].duplicate());
            i = i + 1;
            assert(mutation_views(mutations@) =~= mutation_views(before).push(
                self.mutations@[i - 1]@,
            ));
            assert(mutation_views(mutations@) =~= mutation_views(self.mutations@).take(i as int));
        }
        assert(mutation_views(self.mutations@).take(i as int) =~= mutation_views(self.mutations@));
        WalRecord { seq: self.seq, mutations, tick_after: self.tick_after }
    }
}

impl ComponentSchema {
    /// An equal copy.
    pub fn duplicate(&self) -> (copy: ComponentSchema)
        ensures
            copy == *self,
    {
        ComponentSchema { id: self.id, name: self.name.clone(), size: self.size, align: self.align }
    }
}

impl View for WalSchema {
    type V = Seq<ComponentSchema>;

    open spec fn view(&self) -> Seq<ComponentSchema> {
        self.components@
    }
}

impl WalSchema {
    /// A copy with the same components.
    pub fn duplicate(&self) -> (copy: WalSchema)
        ensures
            copy@ == self@,
    {
        let mut components: Vec<ComponentSchema> = Vec::new();
        let mut i: usize = 0;
        while i < self.components.len()
            invariant
                i <= self.components@.len(),
                components@ == self.components@.take(i as int),
            decreases self.components@.len() - i,
        {
            components.push(self.components[i].duplicate());
            i = i + 1;
            assert(components@ =~= self.components@.take(i as int));
        }
        assert(self.components@.take(i as int) =~= self.components@);
        WalSchema { components }
    }
}

} // verus!
