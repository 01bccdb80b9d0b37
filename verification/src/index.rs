//! Persistent secondary indexes: the file envelope and its payload.
use crate::crc;
use crate::error::IoError;
use crate::frame;
use vstd::bytes::*;
use vstd::prelude::*;
use vstd::slice::*;

verus! {

/// Header size: magic (8), CRC-32 (4), version (4), length (8).
pub const INDEX_HEADER_SIZE: usize = 24;

/// Current index file format version.
pub const INDEX_VERSION: u32 = 1;

/// What is wrong with an index file or its payload.
#[derive(Clone, Debug, PartialEq, Eq)]
pub enum IndexIssue {
    TooSmall,
    Magic,
    Version { version: u32 },
    PayloadLength,
    Truncated { expected: u64, got: u64 },
    Checksum { expected: u32, actual: u32 },
    KeyType { found: String, expected: String },
    KeyEncode(String),
    KeyDecode(String),
    PayloadEncode(String),
    PayloadDecode(String),
}

#[derive(Clone, Debug, PartialEq, Eq)]
pub enum IndexPersistError {
    Io(IoError),
    Format(IndexIssue),
}

/// A secondary index that can be saved to disk and loaded on recovery.
///
/// Saving goes to a temporary file first, which then replaces the one at
/// `path`: a crash cannot corrupt the previous file. After loading, an index
/// has to catch up with changes made since it was saved.
pub trait PersistentIndex {
    /// Saves the index state to a file.
    fn save(&self, path: &str) -> Result<(), IndexPersistError>;
}

/// The magic `MK2INDXK`.
pub open spec fn index_magic() -> Seq<u8> {
    seq![0x4d, 0x4b, 0x32, 0x49, 0x4e, 0x44, 0x58, 0x4b]
}

/// The bytes of an index file: magic, checksum, version, length, payload.
pub open spec fn index_bytes(payload: Seq<u8>) -> Seq<u8> {
    index_magic() + spec_u32_to_le_bytes(crc::crc32(payload)) + spec_u32_to_le_bytes(INDEX_VERSION)
        + spec_u64_to_le_bytes(payload.len() as u64) + payload
}

/// What reading an index file gives. Bytes behind the payload are ignored.
pub open spec fn index_payload(bytes: Seq<u8>) -> Result<Seq<u8>, IndexPersistError> {
    let version = spec_u32_from_le_bytes(bytes.subrange(12, 16));
    let stored = spec_u32_from_le_bytes(bytes.subrange(8, 12));
    let len = spec_u64_from_le_bytes(bytes.subrange(16, 24)) as usize;
    let payload = bytes.subrange(24, 24 + len);
    if bytes.len() < 24 {
        Err(IndexPersistError::Format(IndexIssue::TooSmall))
    } else if bytes.take(8) != index_magic() {
        Err(IndexPersistError::Format(IndexIssue::Magic))
    } else if version != INDEX_VERSION {
        Err(IndexPersistError::Format(IndexIssue::Version { version }))
    } else if 24 + len > usize::MAX {
        Err(IndexPersistError::Format(IndexIssue::PayloadLength))
    } else if bytes.len() < 24 + len {
        Err(
            IndexPersistError::Format(
                IndexIssue::Truncated { expected: len as u64, got: (bytes.len() - 24) as u64 },
            ),
        )
    } else if crc::crc32(payload) != stored {
        Err(
            IndexPersistError::Format(
                IndexIssue::Checksum { expected: stored, actual: crc::crc32(payload) },
            ),
        )
    } else {
        Ok(payload)
    }
}

/// Builds the bytes of an index file around `payload`.
pub fn index_file(payload: &[u8]) -> (bytes: Vec<u8>)
    ensures
        bytes@ == index_bytes(payload@),
{
    let mut bytes: Vec<u8> = Vec::new();
    bytes.push(0x4d);
    bytes.push(0x4b);
    bytes.push(0x32);
    bytes.push(0x49);
    bytes.push(0x4e);
    bytes.push(0x44);
    bytes.push(0x58);
    bytes.push(0x4b);
    assert(bytes@ =~= index_magic());
    frame::append_slice(&mut bytes, u32_to_le_bytes(crc::checksum(payload)).as_slice());
    frame::append_slice(&mut bytes, u32_to_le_bytes(INDEX_VERSION).as_slice());
    frame::append_slice(&mut bytes, u64_to_le_bytes(payload.len() as u64).as_slice());
    frame::append_slice(&mut bytes, payload);
    bytes
}

/// Outcomes of saving an index file, each up to the first failure: writing and
/// synchronizing the temporary file, then renaming it.
#[derive(Debug, PartialEq, Eq)]
pub struct SaveIo {
    pub written: Result<(), IoError>,
    pub synced: Result<(), IoError>,
    pub renamed: Result<(), IoError>,
}

/// The outcome of a save: that of its first step that failed.
pub open spec fn save_outcome(io: SaveIo) -> Result<(), IndexPersistError> {
    match io.written {
        Err(e) => Err(IndexPersistError::Io(e)),
        Ok(_) => match io.synced {
            Err(e) => Err(IndexPersistError::Io(e)),
            Ok(_) => match io.renamed {
                Err(e) => Err(IndexPersistError::Io(e)),
                Ok(_) => Ok(()),
            },
        },
    }
}

/// An index is saved exactly where its file was written, synchronized and put
/// in place of the previous one.
pub proof fn law_index_is_saved_once_in_place(io: SaveIo)
    ensures
        save_outcome(io) is Ok <==> io.written is Ok && io.synced is Ok && io.renamed is Ok,
        io.written matches Err(e) ==> save_outcome(io) == Err::<(), IndexPersistError>(
            IndexPersistError::Io(e),
        ),
        io.written is Ok ==> (io.synced matches Err(e) ==> save_outcome(io) == Err::<
            (),
            IndexPersistError,
        >(IndexPersistError::Io(e))),
        io.written is Ok && io.synced is Ok ==> (io.renamed matches Err(e) ==> save_outcome(io)
            == Err::<(), IndexPersistError>(IndexPersistError::Io(e))),
{
}

/// Settles a save: the previous file is replaced only if every step went
/// through. On a failure the temporary file is to be removed, which the second
/// value says.
pub fn write_index_file(io: SaveIo) -> (r: (Result<(), IndexPersistError>, bool))
    ensures
        r.0 == match io.written {
            Err(e) => Err(IndexPersistError::Io(e)),
            Ok(_) => match io.synced {
                Err(e) => Err(IndexPersistError::Io(e)),
                Ok(_) => match io.renamed {
                    Err(e) => Err(IndexPersistError::Io(e)),
                    Ok(_) => Ok::<(), IndexPersistError>(()),
                },
            },
        },
        r.1 == (r.0 is Err),
        r.0 == save_outcome(io),
{
    if let Err(e) = io.written {
        return (Err(IndexPersistError::Io(e)), true);
    }
    if let Err(e) = io.synced {
        return (Err(IndexPersistError::Io(e)), true);
    }
    if let Err(e) = io.renamed {
        return (Err(IndexPersistError::Io(e)), true);
    }
    (Ok(()), false)
}

fn has_magic(bytes: &[u8]) -> (b: bool)
    requires
        bytes@.len() >= 8,
    ensures
        b == (bytes@.take(8) == index_magic()),
{
    let b = bytes[0] == 0x4d && bytes[1] == 0x4b && bytes[2] == 0x32 && bytes[3] == 0x49 && bytes[4]
        == 0x4e && bytes[5] == 0x44 && bytes[6] == 0x58 && bytes[7] == 0x4b;
    proof {
        let lead = bytes@.take(8);
        if b {
            assert(lead =~= index_magic());
        } else {
            assert(lead[0] == bytes@[0] && lead[1] == bytes@[1] && lead[2] == bytes@[2] && lead[3]
                == bytes@[3] && lead[4] == bytes@[4] && lead[5] == bytes@[5] && lead[6]
                == bytes@[6] && lead[7] == bytes@[7]);
            let magic = index_magic();
            assert(magic[0] == 0x4d && magic[1] == 0x4b && magic[2] == 0x32 && magic[3] == 0x49
                && magic[4] == 0x4e && magic[5] == 0x44 && magic[6] == 0x58 && magic[7] == 0x4b);
        }
    }
    b
}

/// Validates what reading an index file gave, and returns the verified payload
/// bytes.
pub fn read_index_file(read: Result<Vec<u8>, IoError>) -> (r: Result<Vec<u8>, IndexPersistError>)
    ensures
        match read {
            Err(e) => r == Err::<Vec<u8>, IndexPersistError>(IndexPersistError::Io(e)),
            Ok(bytes) => match index_payload(bytes@) {
                Ok(payload) => r matches Ok(found) && found@ == payload,
                Err(e) => r == Err::<Vec<u8>, IndexPersistError>(e),
            },
        },
{
    let bytes = match read {
        Err(e) => {
            return Err(IndexPersistError::Io(e));
        },
        Ok(bytes) => bytes,
    };
    let bytes = bytes.as_slice();
    if bytes.len() < INDEX_HEADER_SIZE {
        return Err(IndexPersistError::Format(IndexIssue::TooSmall));
    }
    if !has_magic(bytes) {
        return Err(IndexPersistError::Format(IndexIssue::Magic));
    }
    let stored: u32 = u32_from_le_bytes(slice_subrange(bytes, 8, 12));
    let version: u32 = u32_from_le_bytes(slice_subrange(bytes, 12, 16));
    if version != INDEX_VERSION {
        return Err(IndexPersistError::Format(IndexIssue::Version { version }));
    }
    let len: usize = u64_from_le_bytes(slice_subrange(bytes, 16, 24)) as usize;
    let end: usize = match INDEX_HEADER_SIZE.checked_add(len) {
        None => {
            return Err(IndexPersistError::Format(IndexIssue::PayloadLength));
        },
        Some(end) => end,
    };
    if bytes.len() < end {
        return Err(
            IndexPersistError::Format(
                IndexIssue::Truncated {
                    expected: len as u64,
                    got: (bytes.len() - INDEX_HEADER_SIZE) as u64,
                },
            ),
        );
    }
    let payload = slice_subrange(bytes, INDEX_HEADER_SIZE, end);
    let actual: u32 = crc::checksum(payload);
    if actual != stored {
        return Err(IndexPersistError::Format(IndexIssue::Checksum { expected: stored, actual }));
    }
    Ok(slice_to_vec(payload))
}

/// Reading an index file gives back what was written, whatever follows it.
pub proof fn law_index_file_reads_back(payload: Seq<u8>, rest: Seq<u8>)
    requires
        payload.len() + 24 <= usize::MAX,
    ensures
        index_payload(index_bytes(payload) + rest) == Ok::<Seq<u8>, IndexPersistError>(payload),
{
    lemma_auto_spec_u32_to_from_le_bytes();
    lemma_auto_spec_u64_to_from_le_bytes();
    let bytes = index_bytes(payload) + rest;
    assert(bytes.take(8) =~= index_magic());
    assert(bytes.subrange(8, 12) =~= spec_u32_to_le_bytes(crc::crc32(payload)));
    assert(bytes.subrange(12, 16) =~= spec_u32_to_le_bytes(INDEX_VERSION));
    assert(bytes.subrange(16, 24) =~= spec_u64_to_le_bytes(payload.len() as u64));
    assert(bytes.subrange(24, (24 + payload.len()) as int) =~= payload);
}

/// An index file cut short anywhere is refused.
pub proof fn law_torn_index_file_is_refused(payload: Seq<u8>, kept: int)
    requires
        payload.len() + 24 <= usize::MAX,
        0 <= kept < index_bytes(payload).len(),
    ensures
        index_payload(index_bytes(payload).take(kept)) matches Err(IndexPersistError::Format(_)),
{
    lemma_auto_spec_u32_to_from_le_bytes();
    lemma_auto_spec_u64_to_from_le_bytes();
    let bytes = index_bytes(payload).take(kept);
    if kept >= 24 {
        assert(bytes.subrange(16, 24) =~= spec_u64_to_le_bytes(payload.len() as u64));
    }
}

/// An index file with any one byte of its magic, checksum, version or payload
/// altered is refused.
pub proof fn law_altered_index_file_is_refused(payload: Seq<u8>, i: int, byte: u8)
    requires
        payload.len() + 24 <= usize::MAX,
        0 <= i < 16 || 24 <= i < index_bytes(payload).len(),
        byte != index_bytes(payload)[i],
    ensures
        index_payload(index_bytes(payload).update(i, byte)) matches Err(
            IndexPersistError::Format(_),
        ),
{
    lemma_auto_spec_u32_to_from_le_bytes();
    lemma_auto_spec_u64_to_from_le_bytes();
    let whole = index_bytes(payload);
    let bytes = whole.update(i, byte);
    let crc = crc::crc32(payload);
    assert(whole.take(8) =~= index_magic());
    assert(whole.subrange(8, 12) =~= spec_u32_to_le_bytes(crc));
    assert(whole.subrange(12, 16) =~= spec_u32_to_le_bytes(INDEX_VERSION));
    assert(whole.subrange(24, (24 + payload.len()) as int) =~= payload);
    if i < 8 {
        assert(bytes.take(8)[i] != index_magic()[i]) by {
            assert(whole.take(8)[i] == whole[i]);
        }
    } else if i < 12 {
        assert(bytes.subrange(8, 12)[i - 8] != whole.subrange(8, 12)[i - 8]);
        assert(bytes.subrange(16, 24) =~= spec_u64_to_le_bytes(payload.len() as u64));
        assert(bytes.subrange(24, (24 + payload.len()) as int) =~= payload);
        if spec_u32_from_le_bytes(bytes.subrange(8, 12)) == crc {
            assert(spec_u32_to_le_bytes(crc) == bytes.subrange(8, 12));
        }
    } else if i < 16 {
        assert(bytes.subrange(12, 16)[i - 12] != whole.subrange(12, 16)[i - 12]);
        if spec_u32_from_le_bytes(bytes.subrange(12, 16)) == INDEX_VERSION {
            assert(spec_u32_to_le_bytes(INDEX_VERSION) == bytes.subrange(12, 16));
        }
    } else {
        assert(bytes.subrange(8, 12) =~= spec_u32_to_le_bytes(crc));
        assert(bytes.subrange(16, 24) =~= spec_u64_to_le_bytes(payload.len() as u64));
        assert(bytes.subrange(24, (24 + payload.len()) as int) =~= payload.update(i - 24, byte));
        crc::law_changed_byte_changes_checksum(payload, i - 24, byte);
    }
}

/// Payload of an index file. Keys are encoded one by one.
#[derive(Clone, Debug, PartialEq, Eq)]
pub struct IndexPayload {
    /// Name of the key type, checked on load to catch a wrong-type load.
    pub key_type_name: String,
    /// Encoded key to entity bits.
    pub entries: Vec<(Vec<u8>, Vec<u64>)>,
    /// Entity bits to encoded key.
    pub reverse: Vec<(u64, Vec<u8>)>,
    /// Last sync tick, for diagnostics only: the tick timeline does not survive
    /// crash recovery, so loading takes the actual tick from the caller.
    pub last_sync_tick: u64,
}

/// The first failure among `outcomes[i..]`.
pub open spec fn first_failed<T>(outcomes: Seq<Result<T, String>>, i: int) -> Option<String>
    decreases outcomes.len() - i,
{
    if i < 0 || i >= outcomes.len() {
        None
    } else {
        match outcomes[i] {
            Err(e) => Some(e),
            Ok(_) => first_failed(outcomes, i + 1),
        }
    }
}

fn find_failed<T>(outcomes: &Vec<Result<T, String>>) -> (r: Option<String>)
    ensures
        r == first_failed(outcomes@, 0),
        r is None ==> forall|k: int| 0 <= k < outcomes@.len() ==> #[trigger] outcomes@[k] is Ok,
{
    let mut i: usize = 0;
    while i < outcomes.len()
        invariant
            i <= outcomes@.len(),
            first_failed(outcomes@, 0) == first_failed(outcomes@, i as int),
            forall|k: int| 0 <= k < i ==> #[trigger] outcomes@[k] is Ok,
        decreases outcomes@.len() - i,
    {
        if let Err(e) = &outcomes[i] {
            return Some(e.clone());
        }
        i = i + 1;
    }
    None
}

/// An index by its encoded keys: what goes into the payload.
pub struct IndexParts {
    pub key_type_name: String,
    /// Outcome of encoding each forward key, in iteration order.
    pub keys: Vec<Result<Vec<u8>, String>>,
    /// The entities of each forward key.
    pub entities: Vec<Vec<u64>>,
    /// The entities of the reverse map, in iteration order.
    pub reverse_entities: Vec<u64>,
    /// Outcome of encoding the key of each.
    pub reverse_keys: Vec<Result<Vec<u8>, String>>,
    pub last_sync_tick: u64,
}

impl IndexParts {
    pub open spec fn wf(&self) -> bool {
        &&& self.keys@.len() == self.entities@.len()
        &&& self.reverse_keys@.len() == self.reverse_entities@.len()
    }
}

/// `payload` holds the encoded keys of `parts` with their entities, forward and
/// reverse, in order.
pub open spec fn is_payload_of(payload: IndexPayload, parts: IndexParts) -> bool {
    &&& payload.key_type_name == parts.key_type_name
    &&& payload.last_sync_tick == parts.last_sync_tick
    &&& payload.entries@.len() == parts.keys@.len()
    &&& payload.reverse@.len() == parts.reverse_keys@.len()
    &&& forall|i: int|
        #![trigger payload.entries@[i]]
        0 <= i < parts.keys@.len() ==> payload.entries@[i].0@ == parts.keys@[i]->Ok_0@
            && payload.entries@[i].1@ == parts.entities@[i]@
    &&& forall|i: int|
        #![trigger payload.reverse@[i]]
        0 <= i < parts.reverse_keys@.len() ==> payload.reverse@[i].1@
            == parts.reverse_keys@[i]->Ok_0@ && payload.reverse@[i].0 == parts.reverse_entities@[i]
}

/// Builds the payload of an index. A key that does not encode refuses it,
/// forward keys first.
pub fn build_payload(parts: IndexParts) -> (r: Result<IndexPayload, IndexPersistError>)
    requires
        parts.wf(),
    ensures
        match first_failed(parts.keys@, 0) {
            Some(e) => r == Err::<IndexPayload, IndexPersistError>(
                IndexPersistError::Format(IndexIssue::KeyEncode(e)),
            ),
            None => match first_failed(parts.reverse_keys@, 0) {
                Some(e) => r == Err::<IndexPayload, IndexPersistError>(
                    IndexPersistError::Format(IndexIssue::KeyEncode(e)),
                ),
                None => r matches Ok(payload) && {
                    &&& payload.key_type_name == parts.key_type_name
                    &&& payload.last_sync_tick == parts.last_sync_tick
                    &&& payload.entries@.len() == parts.keys@.len()
                    &&& payload.reverse@.len() == parts.reverse_keys@.len()
                    &&& forall|i: int|
                        #![trigger payload.entries@[i]]
                        0 <= i < parts.keys@.len() ==> payload.entries@[i].0@
                            == parts.keys@[i]->Ok_0@ && payload.entries@[i].1@
                            == parts.entities@[i]@
                    &&& forall|i: int|
                        #![trigger payload.reverse@[i]]
                        0 <= i < parts.reverse_keys@.len() ==> payload.reverse@[i].1@
                            == parts.reverse_keys@[i]->Ok_0@ && payload.reverse@[i].0
                            == parts.reverse_entities@[i]
                },
            },
        },
        r matches Ok(payload) ==> is_payload_of(payload, parts),
{
    if let Some(e) = find_failed(&parts.keys) {
        return Err(IndexPersistError::Format(IndexIssue::KeyEncode(e)));
    }
    if let Some(e) = find_failed(&parts.reverse_keys) {
        return Err(IndexPersistError::Format(IndexIssue::KeyEncode(e)));
    }
    let mut entries: Vec<(Vec<u8>, Vec<u64>)> = Vec::new();
    let mut i: usize = 0;
    while i < parts.keys.len()
        invariant
            i <= parts.keys@.len(),
            parts.wf(),
            forall|k: int| 0 <= k < parts.keys@.len() ==> #[trigger] parts.keys@[k] is Ok,
            entries@.len() == i,
            forall|k: int|
                #![trigger entries@[k]]
                0 <= k < i ==> entries@[k].0@ == parts.keys@[k]->Ok_0@ && entries@[k].1@
                    == parts.entities@[k]@,
        decreases parts.keys@.len() - i,
    {
        assert(parts.keys@[i as int] is Ok);
        if let Ok(key) = &parts.keys[i] {
            entries.push(
                (slice_to_vec(key.as_slice()), slice_to_vec(parts.entities[i].as_slice())),
            );
        }
        i = i + 1;
    }
    let mut reverse: Vec<(u64, Vec<u8>)> = Vec::new();
    let mut j: usize = 0;
    while j < parts.reverse_keys.len()
        invariant
            j <= parts.reverse_keys@.len(),
            parts.wf(),
            forall|k: int|
                0 <= k < parts.reverse_keys@.len() ==> #[trigger] parts.reverse_keys@[k] is Ok,
            reverse@.len() == j,
            forall|k: int|
                #![trigger reverse@[k]]
                0 <= k < j ==> reverse@[k].1@ == parts.reverse_keys@[k]->Ok_0@ && reverse@[k].0
                    == parts.reverse_entities@[k],
        decreases parts.reverse_keys@.len() - j,
    {
        assert(parts.reverse_keys@[j as int] is Ok);
        if let Ok(key) = &parts.reverse_keys[j] {
            reverse.push((parts.reverse_entities[j], slice_to_vec(key.as_slice())));
        }
        j = j + 1;
    }
    Ok(
        IndexPayload {
            key_type_name: parts.key_type_name,
            entries,
            reverse,
            last_sync_tick: parts.last_sync_tick,
        },
    )
}

/// A loaded index: forward and reverse entries in file order, to be inserted
/// in that order, and the tick from which it has to catch up.
pub struct LoadedIndex<T> {
    pub entries: Vec<(T, Vec<u64>)>,
    pub reverse: Vec<(u64, T)>,
    pub sync_tick: u64,
}

/// Why an index payload cannot be loaded. The key type is looked at before
/// the keys, forward keys before reverse ones.
pub open spec fn load_error<T>(
    payload: Result<IndexPayload, String>,
    expected: String,
    keys: Seq<Result<T, String>>,
    reverse_keys: Seq<Result<T, String>>,
) -> Option<IndexIssue> {
    match payload {
        Err(e) => Some(IndexIssue::PayloadDecode(e)),
        Ok(p) => if p.key_type_name@ != expected@ {
            Some(IndexIssue::KeyType { found: p.key_type_name, expected })
        } else {
            match first_failed(keys, 0) {
                Some(e) => Some(IndexIssue::KeyDecode(e)),
                None => match first_failed(reverse_keys, 0) {
                    Some(e) => Some(IndexIssue::KeyDecode(e)),
                    None => None,
                },
            }
        },
    }
}

/// The keys of `payload` are decoded, as far as they are looked at.
pub open spec fn keys_decoded<T>(
    payload: Result<IndexPayload, String>,
    expected: String,
    keys: Seq<Result<T, String>>,
    reverse_keys: Seq<Result<T, String>>,
) -> bool {
    payload matches Ok(p) ==> (p.key_type_name@ == expected@ ==> keys.len() == p.entries@.len()
        && reverse_keys.len() == p.reverse@.len())
}

/// `index` holds the decoded keys with the payload's entities, in file order.
pub open spec fn is_loaded<T>(
    index: LoadedIndex<T>,
    p: IndexPayload,
    keys: Seq<Result<T, String>>,
    reverse_keys: Seq<Result<T, String>>,
) -> bool {
    &&& index.entries@.len() == keys.len()
    &&& index.reverse@.len() == reverse_keys.len()
    &&& forall|i: int|
        #![trigger index.entries@[i]]
        0 <= i < keys.len() ==> index.entries@[i].0 == keys[i]->Ok_0 && index.entries@[i].1@
            == p.entries@[i].1@
    &&& forall|i: int|
        #![trigger index.reverse@[i]]
        0 <= i < reverse_keys.len() ==> index.reverse@[i].1 == reverse_keys[i]->Ok_0
            && index.reverse@[i].0 == p.reverse@[i].0
}

/// Loads an index ordered by key from its decoded payload. `keys` and
/// `reverse_keys` are the outcomes of decoding the payload's keys, in order;
/// they are not looked at for a payload of another key type. `sync_tick`
/// overrides the stored tick: pass the tick captured right after restoring the
/// baseline, so that catching up covers exactly the log tail.
pub fn load_btree_index<T>(
    payload: Result<IndexPayload, String>,
    expected_type: &String,
    keys: Vec<Result<T, String>>,
    reverse_keys: Vec<Result<T, String>>,
    sync_tick: u64,
) -> (r: Result<LoadedIndex<T>, IndexPersistError>)
    requires
        keys_decoded(payload, *expected_type, keys@, reverse_keys@),
    ensures
        match load_error(payload, *expected_type, keys@, reverse_keys@) {
            Some(issue) => r == Err::<LoadedIndex<T>, IndexPersistError>(
                IndexPersistError::Format(issue),
            ),
            None => r matches Ok(index) && index.sync_tick == sync_tick && is_loaded(
                index,
                payload->Ok_0,
                keys@,
                reverse_keys@,
            ),
        },
{
    load_index(payload, expected_type, keys, reverse_keys, sync_tick)
}

/// Loads a hashed index from its decoded payload; see `load_btree_index`.
pub fn load_hash_index<T>(
    payload: Result<IndexPayload, String>,
    expected_type: &String,
    keys: Vec<Result<T, String>>,
    reverse_keys: Vec<Result<T, String>>,
    sync_tick: u64,
) -> (r: Result<LoadedIndex<T>, IndexPersistError>)
    requires
        keys_decoded(payload, *expected_type, keys@, reverse_keys@),
    ensures
        match load_error(payload, *expected_type, keys@, reverse_keys@) {
            Some(issue) => r == Err::<LoadedIndex<T>, IndexPersistError>(
                IndexPersistError::Format(issue),
            ),
            None => r matches Ok(index) && index.sync_tick == sync_tick && is_loaded(
                index,
                payload->Ok_0,
                keys@,
                reverse_keys@,
            ),
        },
{
    load_index(payload, expected_type, keys, reverse_keys, sync_tick)
}

fn load_index<T>(
    payload: Result<IndexPayload, String>,
    expected_type: &String,
    keys: Vec<Result<T, String>>,
    reverse_keys: Vec<Result<T, String>>,
    sync_tick: u64,
) -> (r: Result<LoadedIndex<T>, IndexPersistError>)
    requires
        keys_decoded(payload, *expected_type, keys@, reverse_keys@),
    ensures
        match load_error(payload, *expected_type, keys@, reverse_keys@) {
            Some(issue) => r == Err::<LoadedIndex<T>, IndexPersistError>(
                IndexPersistError::Format(issue),
            ),
            None => r matches Ok(index) && index.sync_tick == sync_tick && is_loaded(
                index,
                payload->Ok_0,
                keys@,
                reverse_keys@,
            ),
        },
{
    let p = match payload {
        Err(e) => {
            return Err(IndexPersistError::Format(IndexIssue::PayloadDecode(e)));
        },
        Ok(p) => p,
    };
    if p.key_type_name != *expected_type {
        return Err(
            IndexPersistError::Format(
                IndexIssue::KeyType { found: p.key_type_name, expected: expected_type.clone() },
            ),
        );
    }
    if let Some(e) = find_failed(&keys) {
        return Err(IndexPersistError::Format(IndexIssue::KeyDecode(e)));
    }
    if let Some(e) = find_failed(&reverse_keys) {
        return Err(IndexPersistError::Format(IndexIssue::KeyDecode(e)));
    }
    let ghost keys0 = keys@;
    let ghost reverse0 = reverse_keys@;
    let mut entries: Vec<(T, Vec<u64>)> = Vec::new();
    for key in it: keys
        invariant
            it.seq() == keys0,
            keys0.len() == p.entries@.len(),
            forall|k: int| 0 <= k < keys0.len() ==> #[trigger] keys0[k] is Ok,
            entries@.len() == it.index(),
            forall|k: int|
                #![trigger entries@[k]]
                0 <= k < it.index() ==> entries@[k].0 == keys0[k]->Ok_0 && entries@[k].1@
                    == p.entries@[k].1@,
    {
        let i: usize = entries.len();
        if let Ok(key) = key {
            entries.push((key, slice_to_vec(p.entries[i].1.as_slice())));
        }
    }
    let mut reverse: Vec<(u64, T)> = Vec::new();
    for key in it: reverse_keys
        invariant
            it.seq() == reverse0,
            reverse0.len() == p.reverse@.len(),
            forall|k: int| 0 <= k < reverse0.len() ==> #[trigger] reverse0[k] is Ok,
            reverse@.len() == it.index(),
            forall|k: int|
                #![trigger reverse@[k]]
                0 <= k < it.index() ==> reverse@[k].1 == reverse0[k]->Ok_0 && reverse@[k].0
                    == p.reverse@[k].0,
    {
        let j: usize = reverse.len();
        if let Ok(key) = key {
            reverse.push((p.reverse[j].0, key));
        }
    }
    Ok(LoadedIndex { entries, reverse, sync_tick })
}

/// Outcome `k` is the failure `e`, and those before it are successes.
pub open spec fn fails_first<T>(outcomes: Seq<Result<T, String>>, k: int, e: String) -> bool {
    &&& 0 <= k < outcomes.len()
    &&& outcomes[k] == Err::<T, String>(e)
    &&& forall|j: int| 0 <= j < k ==> #[trigger] outcomes[j] is Ok
}

/// The first of them that is a failure is `e`.
pub open spec fn fails_with<T>(outcomes: Seq<Result<T, String>>, e: String) -> bool {
    exists|k: int| #[trigger] fails_first(outcomes, k, e)
}

/// All of them are successes.
pub open spec fn all_went_well<T>(outcomes: Seq<Result<T, String>>) -> bool {
    forall|j: int| 0 <= j < outcomes.len() ==> #[trigger] outcomes[j] is Ok
}

proof fn lemma_first_failed<T>(outcomes: Seq<Result<T, String>>, i: int)
    requires
        0 <= i <= outcomes.len(),
        forall|j: int| 0 <= j < i ==> #[trigger] outcomes[j] is Ok,
    ensures
        match first_failed(outcomes, i) {
            Some(e) => fails_with(outcomes, e),
            None => all_went_well(outcomes),
        },
    decreases outcomes.len() - i,
{
    if i < outcomes.len() {
        match outcomes[i] {
            Err(e) => {
                assert(first_failed(outcomes, i) == Some(e));
                assert(fails_first(outcomes, i, e));
            },
            Ok(_) => {
                assert(forall|j: int| 0 <= j < i + 1 ==> #[trigger] outcomes[j] is Ok);
                lemma_first_failed(outcomes, i + 1);
                assert(first_failed(outcomes, i) == first_failed(outcomes, i + 1));
            },
        }
    } else {
        assert(first_failed(outcomes, i) is None);
        assert(all_went_well(outcomes));
    }
}

/// Key work fails exactly where a key does, with the first such failure.
pub proof fn law_first_failed_key_is_told<T>(outcomes: Seq<Result<T, String>>)
    ensures
        match first_failed(outcomes, 0) {
            Some(e) => fails_with(outcomes, e),
            None => all_went_well(outcomes),
        },
{
    lemma_first_failed(outcomes, 0);
}

/// An index loads exactly where its payload decodes, is of the key type asked
/// for, and all its keys decode.
pub proof fn law_index_of_its_own_type_loads<T>(
    payload: Result<IndexPayload, String>,
    expected: String,
    keys: Seq<Result<T, String>>,
    reverse_keys: Seq<Result<T, String>>,
)
    ensures
        load_error(payload, expected, keys, reverse_keys) is None <==> {
            &&& payload matches Ok(p) && p.key_type_name@ == expected@
            &&& all_went_well(keys)
            &&& all_went_well(reverse_keys)
        },
        payload matches Ok(p) ==> (p.key_type_name@ != expected@ ==> load_error(
            payload,
            expected,
            keys,
            reverse_keys,
        ) == Some(IndexIssue::KeyType { found: p.key_type_name, expected })),
        payload matches Err(e) ==> load_error(payload, expected, keys, reverse_keys) == Some(
            IndexIssue::PayloadDecode(e),
        ),
{
    lemma_first_failed(keys, 0);
    lemma_first_failed(reverse_keys, 0);
    if let Some(e) = first_failed(keys, 0) {
        let k = choose|k: int| #[trigger] fails_first(keys, k, e);
        assert(keys[k] is Err);
    }
    if let Some(e) = first_failed(reverse_keys, 0) {
        let k = choose|k: int| #[trigger] fails_first(reverse_keys, k, e);
        assert(reverse_keys[k] is Err);
    }
}

/// A saved index loads back: its keys, as the decoder reads their encodings,
/// each with its own entities, forward and reverse and in order.
pub proof fn law_saved_index_loads_back<T>(
    parts: IndexParts,
    payload: IndexPayload,
    decoder: spec_fn(Seq<u8>) -> Result<T, String>,
    keys: Seq<Result<T, String>>,
    reverse_keys: Seq<Result<T, String>>,
    index: LoadedIndex<T>,
)
    requires
        parts.wf(),
        is_payload_of(payload, parts),
        keys.len() == payload.entries@.len(),
        reverse_keys.len() == payload.reverse@.len(),
        forall|i: int|
            0 <= i < keys.len() ==> #[trigger] keys[i] == decoder(payload.entries@[i].0@),
        forall|i: int|
            0 <= i < reverse_keys.len() ==> #[trigger] reverse_keys[i] == decoder(
                payload.reverse@[i].1@,
            ),
        load_error(Ok(payload), parts.key_type_name, keys, reverse_keys) is None,
        is_loaded(index, payload, keys, reverse_keys),
    ensures
        index.entries@.len() == parts.keys@.len(),
        index.reverse@.len() == parts.reverse_keys@.len(),
        forall|i: int|
            0 <= i < parts.keys@.len() ==> decoder(parts.keys@[i]->Ok_0@) == Ok::<T, String>(
                (#[trigger] index.entries@[i]).0,
            ) && index.entries@[i].1@ == parts.entities@[i]@,
        forall|i: int|
            0 <= i < parts.reverse_keys@.len() ==> decoder(parts.reverse_keys@[i]->Ok_0@) == Ok::<
                T,
                String,
            >((#[trigger] index.reverse@[i]).1) && index.reverse@[i].0
                == parts.reverse_entities@[i],
{
    law_index_of_its_own_type_loads(Ok(payload), parts.key_type_name, keys, reverse_keys);
    assert forall|i: int| 0 <= i < parts.keys@.len() implies decoder(parts.keys@[i]->Ok_0@) == Ok::<
        T,
        String,
    >((#[trigger] index.entries@[i]).0) && index.entries@[i].1@ == parts.entities@[i]@ by {
        assert(keys[i] is Ok);
        assert(payload.entries@[i].0@ == parts.keys@[i]->Ok_0@);
    }
    assert forall|i: int| 0 <= i < parts.reverse_keys@.len() implies decoder(
        parts.reverse_keys@[i]->Ok_0@,
    ) == Ok::<T, String>((#[trigger] index.reverse@[i]).1) && index.reverse@[i].0
        == parts.reverse_entities@[i] by {
        assert(reverse_keys[i] is Ok);
        assert(payload.reverse@[i].1@ == parts.reverse_keys@[i]->Ok_0@);
    }
}

/// An index file is its magic, the payload's checksum, the version and the
/// payload's length, each least significant byte first, and then the payload.
pub proof fn law_index_file_layout(payload: Seq<u8>)
    ensures
        ({
            let bytes = index_bytes(payload);
            &&& bytes.len() == 24 + payload.len()
            &&& bytes[0] == 0x4d && bytes[1] == 0x4b && bytes[2] == 0x32 && bytes[3] == 0x49
            &&& bytes[4] == 0x4e && bytes[5] == 0x44 && bytes[6] == 0x58 && bytes[7] == 0x4b
            &&& bytes.subrange(8, 12) == spec_u32_to_le_bytes(crc::crc32(payload))
            &&& bytes.subrange(12, 16) == spec_u32_to_le_bytes(1)
            &&& bytes.subrange(16, 24) == spec_u64_to_le_bytes(payload.len() as u64)
            &&& bytes.skip(24) == payload
        }),
{
    lemma_auto_spec_u32_to_from_le_bytes();
    lemma_auto_spec_u64_to_from_le_bytes();
    let bytes = index_bytes(payload);
    assert(bytes.subrange(8, 12) =~= spec_u32_to_le_bytes(crc::crc32(payload)));
    assert(bytes.subrange(12, 16) =~= spec_u32_to_le_bytes(1));
    assert(bytes.subrange(16, 24) =~= spec_u64_to_le_bytes(payload.len() as u64));
    assert(bytes.skip(24) =~= payload);
}

/// An index file is refused for the first thing that is wrong with it: its
/// size, its magic, its version, a payload cut short or one with another
/// checksum.
pub proof fn law_index_file_is_refused_for_its_fault(bytes: Seq<u8>)
    ensures
        ({
            let r = index_payload(bytes);
            let version = spec_u32_from_le_bytes(bytes.subrange(12, 16));
            let len = spec_u64_from_le_bytes(bytes.subrange(16, 24));
            &&& bytes.len() < 24 ==> r == Err::<Seq<u8>, IndexPersistError>(
                IndexPersistError::Format(IndexIssue::TooSmall),
            )
            &&& bytes.len() >= 24 && bytes.take(8) != index_magic() ==> r == Err::<
                Seq<u8>,
                IndexPersistError,
            >(IndexPersistError::Format(IndexIssue::Magic))
            &&& bytes.len() >= 24 && bytes.take(8) == index_magic() && version != 1 ==> r == Err::<
                Seq<u8>,
                IndexPersistError,
            >(IndexPersistError::Format(IndexIssue::Version { version }))
            &&& r matches Ok(payload) ==> {
                &&& bytes.len() >= 24 && bytes.take(8) == index_magic() && version == 1
                &&& crc::crc32(payload) == spec_u32_from_le_bytes(bytes.subrange(8, 12))
                &&& payload == bytes.subrange(24, 24 + payload.len() as int)
                &&& len <= usize::MAX ==> payload.len() == len
            }
        }),
{
}

} // verus!
