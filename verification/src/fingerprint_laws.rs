//! Laws on what a world fingerprint depends on.
use crate::feed_laws;
use crate::fingerprint;
use crate::fingerprint::{
    ArchetypeMap, ArchetypeState, FingerprintError, RowMap, ValueMap, ValueState,
};
use crate::sorted;
use vstd::prelude::*;

verus! {

/// The stable names of an archetype's components.
pub open spec fn names_of(a: ArchetypeState) -> Seq<Seq<u8>> {
    fingerprint::names_from(a.components@, 0, Seq::empty())->Ok_0
}

/// The encoding of component `j` in row `r`.
pub open spec fn bytes_at(a: ArchetypeState, r: int, j: int) -> Seq<u8> {
    a.rows@[r].values@[j]->Bytes_0@
}

/// Every component of the archetype has a codec, no two share a name, and
/// every value is encoded.
pub open spec fn encoded(a: ArchetypeState) -> bool {
    &&& a.wf()
    &&& fingerprint::names_from(a.components@, 0, Seq::empty()) is Ok
    &&& names_of(a).no_duplicates()
    &&& forall|r: int, j: int|
        #![trigger a.rows@[r].values@[j]]
        0 <= r < a.rows@.len() && 0 <= j < a.components@.len() ==> a.rows@[r].values@[j] is Bytes
}

/// Every archetype is encoded, and every entity stands in one row only.
pub open spec fn sound_world(world: Seq<ArchetypeState>) -> bool {
    &&& forall|i: int| 0 <= i < world.len() ==> encoded(#[trigger] world[i])
    &&& forall|i: int, r: int, j: int, q: int|
        #![trigger world[i].rows@[r], world[j].rows@[q]]
        0 <= i < world.len() && 0 <= r < world[i].rows@.len() && 0 <= j < world.len() && 0 <= q
            < world[j].rows@.len() && world[i].rows@[r].entity == world[j].rows@[q].entity ==> i
            == j && r == q
}

/// The two archetypes have the same set of component names.
pub open spec fn same_names(a: ArchetypeState, b: ArchetypeState) -> bool {
    forall|name: Seq<u8>| #[trigger] names_of(a).contains(name) <==> names_of(b).contains(name)
}

/// Row `r` of `a` and row `q` of `b` are of the same entity, with equal
/// encodings under each name.
pub open spec fn same_row(a: ArchetypeState, r: int, b: ArchetypeState, q: int) -> bool {
    &&& 0 <= q < b.rows@.len()
    &&& a.rows@[r].entity == b.rows@[q].entity
    &&& forall|j: int, l: int|
        #![trigger names_of(a)[j], names_of(b)[l]]
        0 <= j < names_of(a).len() && 0 <= l < names_of(b).len() && names_of(a)[j] == names_of(b)[l]
            ==> bytes_at(a, r, j) == bytes_at(b, q, l)
}

/// Some row of `b` is the same as row `r` of `a`.
pub open spec fn holds_row(b: ArchetypeState, a: ArchetypeState, r: int) -> bool {
    exists|q: int| #[trigger] same_row(a, r, b, q)
}

/// `b` is an archetype with the same component names as `a` and holds each of
/// its rows.
pub open spec fn holds_archetype(b: ArchetypeState, a: ArchetypeState) -> bool {
    &&& same_names(a, b)
    &&& forall|r: int| 0 <= r < a.rows@.len() ==> #[trigger] holds_row(b, a, r)
}

/// Some archetype of `world` holds `a`.
pub open spec fn holds(world: Seq<ArchetypeState>, a: ArchetypeState) -> bool {
    exists|j: int| 0 <= j < world.len() && holds_archetype(#[trigger] world[j], a)
}

/// Each archetype of `a` is found in `b` with all its rows.
pub open spec fn contained(a: Seq<ArchetypeState>, b: Seq<ArchetypeState>) -> bool {
    forall|i: int| 0 <= i < a.len() ==> holds(b, #[trigger] a[i])
}

proof fn lemma_names(components: Seq<fingerprint::ComponentState>, i: int, names: Seq<Seq<u8>>)
    requires
        0 <= i <= components.len(),
        fingerprint::names_from(components, i, names) is Ok,
    ensures
        fingerprint::names_from(components, i, names)->Ok_0.len() == names.len() + components.len()
            - i,
    decreases components.len() - i,
{
    if i < components.len() {
        let name = fingerprint::name_of(components[i])->Ok_0;
        lemma_names(components, i + 1, names.push(name));
    }
}

/// What adding the values of a row from the `j`-th on to `map` gives.
proof fn lemma_values(
    names: Seq<Seq<u8>>,
    values: Seq<ValueState>,
    r: int,
    j: int,
    map: ValueMap,
)
    requires
        names.len() == values.len(),
        names.no_duplicates(),
        0 <= j <= values.len(),
        forall|k: int| 0 <= k < values.len() ==> (#[trigger] values[k]) is Bytes,
    ensures
        fingerprint::row_values(names, values, r, j, map) matches Ok(m) && {
            &&& forall|k: int|
                #![trigger names[k]]
                j <= k < names.len() ==> m.contains_key(names[k]) && m[names[k]]
                    == fingerprint::value_hash(values[k]->Bytes_0@)
            &&& forall|name: Seq<u8>|
                (forall|k: int| j <= k < names.len() ==> #[trigger] names[k] != name) ==> (
                #[trigger] m.contains_key(name) <==> map.contains_key(name))
            &&& forall|name: Seq<u8>|
                (forall|k: int| j <= k < names.len() ==> #[trigger] names[k] != name)
                    && #[trigger] map.contains_key(name) ==> m[name] == map[name]
        },
    decreases values.len() - j,
{
    if j < values.len() {
        assert(values[j] is Bytes);
        let hash = fingerprint::value_hash(values[j]->Bytes_0@);
        let next = map.insert(names[j], hash);
        lemma_values(names, values, r, j + 1, next);
        let m = fingerprint::row_values(names, values, r, j, map)->Ok_0;
        assert forall|k: int| j + 1 <= k < names.len() implies #[trigger] names[k] != names[j] by {}
        assert(next.contains_key(names[j]));
        assert forall|name: Seq<u8>|
            (forall|k: int| j <= k < names.len() ==> #[trigger] names[k] != name) implies (
        #[trigger] m.contains_key(name) <==> map.contains_key(name)) by {
            assert(names[j] != name);
            assert(forall|k: int| j + 1 <= k < names.len() ==> #[trigger] names[k] != name);
            assert(next.contains_key(name) <==> map.contains_key(name));
        }
        assert forall|name: Seq<u8>|
            (forall|k: int| j <= k < names.len() ==> #[trigger] names[k] != name)
                && #[trigger] map.contains_key(name) implies m[name] == map[name] by {
            assert(names[j] != name);
            assert(forall|k: int| j + 1 <= k < names.len() ==> #[trigger] names[k] != name);
            assert(next.contains_key(name));
        }
    }
}

/// The value hashes of row `r` by component name.
spec fn row_map(a: ArchetypeState, r: int) -> ValueMap {
    fingerprint::row_values(names_of(a), a.rows@[r].values@, r, 0, Map::empty())->Ok_0
}

/// Rows with equal encodings under each name have equal value hashes.
proof fn lemma_same_row(a: ArchetypeState, r: int, b: ArchetypeState, q: int)
    requires
        encoded(a),
        encoded(b),
        0 <= r < a.rows@.len(),
        same_names(a, b),
        same_row(a, r, b, q),
    ensures
        fingerprint::row_values(names_of(a), a.rows@[r].values@, r, 0, Map::empty()) is Ok,
        row_map(a, r) == row_map(b, q),
{
    lemma_row_map(a, r);
    lemma_row_map(b, q);
    let (m, n) = (row_map(a, r), row_map(b, q));
    assert forall|name: Seq<u8>| #[trigger] m.contains_key(name) <==> n.contains_key(name) by {
        assert(names_of(a).contains(name) <==> names_of(b).contains(name));
    }
    assert forall|name: Seq<u8>| #[trigger] m.contains_key(name) implies m[name] == n[name] by {
        assert(names_of(a).contains(name));
        assert(names_of(b).contains(name));
        let j = choose|j: int| 0 <= j < names_of(a).len() && names_of(a)[j] == name;
        let l = choose|l: int| 0 <= l < names_of(b).len() && names_of(b)[l] == name;
        assert(bytes_at(a, r, j) == bytes_at(b, q, l));
    }
    assert(m =~= n);
}

proof fn lemma_row_map(a: ArchetypeState, r: int)
    requires
        encoded(a),
        0 <= r < a.rows@.len(),
    ensures
        fingerprint::row_values(names_of(a), a.rows@[r].values@, r, 0, Map::empty()) is Ok,
        names_of(a).len() == a.components@.len(),
        forall|name: Seq<u8>| #[trigger]
            row_map(a, r).contains_key(name) <==> names_of(a).contains(name),
        forall|j: int|
            #![trigger names_of(a)[j]]
            0 <= j < names_of(a).len() ==> row_map(a, r).contains_key(names_of(a)[j]) && row_map(
                a,
                r,
            )[names_of(a)[j]] == fingerprint::value_hash(bytes_at(a, r, j)),
{
    let names = names_of(a);
    let values = a.rows@[r].values@;
    lemma_names(a.components@, 0, Seq::empty());
    assert forall|k: int| 0 <= k < values.len() implies (#[trigger] values[k]) is Bytes by {
        assert(a.rows@[r].values@[k] is Bytes);
    }
    lemma_values(names, values, r, 0, Map::empty());
    let m = row_map(a, r);
    assert forall|name: Seq<u8>| #[trigger] m.contains_key(name) <==> names.contains(name) by {
        if names.contains(name) {
            let j = choose|j: int| 0 <= j < names.len() && names[j] == name;
            assert(m.contains_key(names[j]));
        } else {
            assert forall|k: int| 0 <= k < names.len() implies #[trigger] names[k] != name by {
                assert(names.contains(names[k]));
            }
        }
    }
}

/// What adding the rows of `a` from the `r`-th on to `map` gives, where none of
/// their entities is in `map`.
proof fn lemma_rows(a: ArchetypeState, r: int, map: RowMap)
    requires
        encoded(a),
        0 <= r <= a.rows@.len(),
        forall|q: int| r <= q < a.rows@.len() ==> !map.contains_key((#[trigger] a.rows@[q]).entity),
        forall|p: int, q: int|
            #![trigger a.rows@[p], a.rows@[q]]
            0 <= p < a.rows@.len() && 0 <= q < a.rows@.len() && a.rows@[p].entity
                == a.rows@[q].entity ==> p == q,
    ensures
        fingerprint::archetype_rows(names_of(a), a.rows@, r, map) matches Ok(m) && {
            &&& forall|q: int|
                #![trigger a.rows@[q]]
                r <= q < a.rows@.len() ==> m.contains_key(a.rows@[q].entity)
                    && m[a.rows@[q].entity] == row_map(a, q)
            &&& forall|e: u64| #[trigger]
                m.contains_key(e) <==> map.contains_key(e) || has_entity(a, r, e)
            &&& forall|e: u64| #[trigger] map.contains_key(e) ==> m[e] == map[e]
        },
    decreases a.rows@.len() - r,
{
    if r < a.rows@.len() {
        lemma_row_map(a, r);
        let entity = a.rows@[r].entity;
        assert(!map.contains_key(entity));
        let next = map.insert(entity, row_map(a, r));
        lemma_rows(a, r + 1, next);
        let m = fingerprint::archetype_rows(names_of(a), a.rows@, r, map)->Ok_0;
        assert(next.contains_key(entity));
        assert forall|e: u64| #[trigger] m.contains_key(e) <==> map.contains_key(e) || has_entity(
            a,
            r,
            e,
        ) by {
            assert(next.contains_key(e) <==> map.contains_key(e) || e == entity);
            if has_entity(a, r, e) {
                let q = choose|q: int|
                    r <= q < a.rows@.len() && (#[trigger] a.rows@[q]).entity == e;
                if q > r {
                    assert(has_entity(a, r + 1, e));
                }
            }
            if has_entity(a, r + 1, e) {
                let q = choose|q: int|
                    r + 1 <= q < a.rows@.len() && (#[trigger] a.rows@[q]).entity == e;
                assert(a.rows@[q].entity == e);
            }
            if e == entity {
                assert(a.rows@[r].entity == e);
            }
        }
        assert forall|e: u64| #[trigger] map.contains_key(e) implies m[e] == map[e] by {
            assert(e != entity);
            assert(next.contains_key(e));
        }
    } else {
        assert forall|e: u64| !#[trigger] has_entity(a, r, e) by {}
    }
}

/// Some row of `a` from the `r`-th on is of entity `e`.
spec fn has_entity(a: ArchetypeState, r: int, e: u64) -> bool {
    exists|q: int| r <= q < a.rows@.len() && (#[trigger] a.rows@[q]).entity == e
}

/// Some archetype of `world` from the `i`-th on has key `key`.
spec fn has_key(world: Seq<ArchetypeState>, i: int, key: Seq<u8>) -> bool {
    exists|k: int| i <= k < world.len() && fingerprint::key_of(#[trigger] world[k]) == key
}

/// Some archetype of `world` from the `i`-th on has key `key` and a row of
/// entity `e`.
spec fn has_row(world: Seq<ArchetypeState>, i: int, key: Seq<u8>, e: u64) -> bool {
    exists|k: int|
        i <= k < world.len() && fingerprint::key_of(#[trigger] world[k]) == key && has_entity(
            world[k],
            0,
            e,
        )
}

/// `map` has a row of entity `e` under `key`.
spec fn maps_row(map: ArchetypeMap, key: Seq<u8>, e: u64) -> bool {
    map.contains_key(key) && map[key].contains_key(e)
}

/// What `map` comes to with the archetypes of `world` from the `i`-th on.
#[verifier::opaque]
spec fn filled(
    world: Seq<ArchetypeState>,
    i: int,
    map: ArchetypeMap,
    m: ArchetypeMap,
) -> bool {
    &&& forall|key: Seq<u8>| #[trigger]
        m.contains_key(key) <==> map.contains_key(key) || has_key(world, i, key)
    &&& forall|key: Seq<u8>, e: u64| #[trigger]
        maps_row(m, key, e) <==> maps_row(map, key, e) || has_row(world, i, key, e)
    &&& forall|k: int, r: int|
        #![trigger world[k].rows@[r]]
        i <= k < world.len() && 0 <= r < world[k].rows@.len() ==> m[fingerprint::key_of(
            world[k],
        )][world[k].rows@[r].entity] == row_map(world[k], r)
    &&& forall|key: Seq<u8>, e: u64| #[trigger]
        maps_row(map, key, e) ==> m[key][e] == map[key][e]
}

proof fn lemma_filled(world: Seq<ArchetypeState>, i: int, map: ArchetypeMap)
    requires
        sound_world(world),
        0 <= i <= world.len(),
        forall|k: int, r: int, key: Seq<u8>|
            #![trigger world[k].rows@[r], map.contains_key(key)]
            i <= k < world.len() && 0 <= r < world[k].rows@.len() ==> !maps_row(
                map,
                key,
                world[k].rows@[r].entity,
            ),
    ensures
        fingerprint::world_contents(world, i, map) matches Ok(m) && filled(world, i, map, m),
    decreases world.len() - i,
{
    reveal(filled);
    if i < world.len() {
        let a = world[i];
        let key = fingerprint::key_of(a);
        let old = fingerprint::found_or_empty(map, key);
        assert(encoded(a));
        assert forall|q: int| 0 <= q < a.rows@.len() implies !old.contains_key(
            (#[trigger] a.rows@[q]).entity,
        ) by {
            assert(world[i].rows@[q] == a.rows@[q]);
            if map.contains_key(key) {
                assert(!maps_row(map, key, a.rows@[q].entity));
            }
        }
        assert forall|p: int, q: int|
            #![trigger a.rows@[p], a.rows@[q]]
            0 <= p < a.rows@.len() && 0 <= q < a.rows@.len() && a.rows@[p].entity
                == a.rows@[q].entity implies p == q by {
            assert(world[i].rows@[p] == a.rows@[p]);
            assert(world[i].rows@[q] == a.rows@[q]);
        }
        lemma_rows(a, 0, old);
        let rows = fingerprint::archetype_rows(names_of(a), a.rows@, 0, old)->Ok_0;
        let next = map.insert(key, rows);
        assert forall|k: int, r: int, other: Seq<u8>|
            #![trigger world[k].rows@[r], next.contains_key(other)]
            i + 1 <= k < world.len() && 0 <= r < world[k].rows@.len() implies !maps_row(
            next,
            other,
            world[k].rows@[r].entity,
        ) by {
            let e = world[k].rows@[r].entity;
            if maps_row(next, other, e) {
                if other == key {
                    if has_entity(a, 0, e) {
                        let q = choose|q: int|
                            0 <= q < a.rows@.len() && (#[trigger] a.rows@[q]).entity == e;
                        assert(world[i].rows@[q].entity == e);
                    }
                    assert(old.contains_key(e));
                    assert(map.contains_key(key));
                    assert(maps_row(map, key, e));
                } else {
                    assert(map.contains_key(other));
                    assert(maps_row(map, other, e));
                }
            }
        }
        lemma_filled(world, i + 1, next);
        let m = fingerprint::world_contents(world, i, map)->Ok_0;
        assert(m == fingerprint::world_contents(world, i + 1, next)->Ok_0);
        lemma_filled_step(world, i, map, next, m);
    } else {
        assert forall|key: Seq<u8>| !#[trigger] has_key(world, i, key) by {}
        assert forall|key: Seq<u8>, e: u64| !#[trigger] has_row(world, i, key, e) by {}
    }
}

/// One archetype more.
proof fn lemma_filled_step(
    world: Seq<ArchetypeState>,
    i: int,
    map: ArchetypeMap,
    next: ArchetypeMap,
    m: ArchetypeMap,
)
    requires
        0 <= i < world.len(),
        filled(world, i + 1, next, m),
        ({
            let a = world[i];
            let key = fingerprint::key_of(a);
            let old = fingerprint::found_or_empty(map, key);
            let rows = next[key];
            &&& next == map.insert(key, rows)
            &&& forall|q: int|
                #![trigger a.rows@[q]]
                0 <= q < a.rows@.len() ==> rows.contains_key(a.rows@[q].entity)
                    && rows[a.rows@[q].entity] == row_map(a, q)
            &&& forall|e: u64| #[trigger]
                rows.contains_key(e) <==> old.contains_key(e) || has_entity(a, 0, e)
            &&& forall|e: u64| #[trigger] old.contains_key(e) ==> rows[e] == old[e]
        }),
    ensures
        filled(world, i, map, m),
{
    reveal(filled);
    let a = world[i];
    let key = fingerprint::key_of(a);
    let old = fingerprint::found_or_empty(map, key);
    let rows = next[key];
    assert forall|k: Seq<u8>| #[trigger] m.contains_key(k) <==> map.contains_key(k) || has_key(
        world,
        i,
        k,
    ) by {
        assert(next.contains_key(k) <==> map.contains_key(k) || k == key);
        if has_key(world, i, k) {
            let at = choose|at: int|
                i <= at < world.len() && fingerprint::key_of(#[trigger] world[at]) == k;
            if at > i {
                assert(has_key(world, i + 1, k));
            }
        }
        if has_key(world, i + 1, k) {
            let at = choose|at: int|
                i + 1 <= at < world.len() && fingerprint::key_of(#[trigger] world[at]) == k;
            assert(fingerprint::key_of(world[at]) == k);
        }
        if k == key {
            assert(fingerprint::key_of(world[i]) == k);
        }
    }
    assert forall|k: Seq<u8>, e: u64| #[trigger] maps_row(m, k, e) <==> maps_row(map, k, e)
        || has_row(world, i, k, e) by {
        assert(maps_row(m, k, e) <==> maps_row(next, k, e) || has_row(world, i + 1, k, e));
        if k == key {
            assert(maps_row(next, k, e) <==> rows.contains_key(e));
            assert(old.contains_key(e) <==> maps_row(map, k, e));
        } else {
            assert(maps_row(next, k, e) <==> maps_row(map, k, e));
        }
        if has_row(world, i, k, e) {
            let at = choose|at: int|
                i <= at < world.len() && fingerprint::key_of(#[trigger] world[at]) == k
                    && has_entity(world[at], 0, e);
            if at > i {
                assert(has_row(world, i + 1, k, e));
            }
        }
        if has_row(world, i + 1, k, e) {
            let at = choose|at: int|
                i + 1 <= at < world.len() && fingerprint::key_of(#[trigger] world[at]) == k
                    && has_entity(world[at], 0, e);
            assert(fingerprint::key_of(world[at]) == k);
        }
        if k == key && has_entity(a, 0, e) {
            assert(fingerprint::key_of(world[i]) == k);
        }
    }
    assert forall|k: int, r: int|
        #![trigger world[k].rows@[r]]
        i <= k < world.len() && 0 <= r < world[k].rows@.len() implies m[fingerprint::key_of(
        world[k],
    )][world[k].rows@[r].entity] == row_map(world[k], r) by {
        if k == i {
            let e = a.rows@[r].entity;
            assert(rows.contains_key(e));
            assert(maps_row(next, key, e));
        }
    }
    assert forall|k: Seq<u8>, e: u64| #[trigger] maps_row(map, k, e) implies m[k][e]
        == map[k][e] by {
        if k == key {
            assert(old.contains_key(e));
            assert(rows.contains_key(e));
        }
        assert(maps_row(next, k, e));
    }
}

spec fn ascending(s: Seq<Seq<u8>>) -> bool {
    forall|i: int, j: int|
        #![trigger s[i], s[j]]
        0 <= i < j < s.len() ==> sorted::bytes_before(s[i], s[j])
}

proof fn lemma_insorted(s: Seq<Seq<u8>>, name: Seq<u8>)
    requires
        ascending(s),
        !s.contains(name),
    ensures
        ascending(fingerprint::insorted(s, name)),
        forall|n: Seq<u8>| #[trigger]
            fingerprint::insorted(s, name).contains(n) <==> s.contains(n) || n == name,
    decreases s.len(),
{
    sorted::lemma_bytes_order();
    let lt = sorted::bytes_order();
    assert forall|a: Seq<u8>, b: Seq<u8>| #[trigger] sorted::bytes_before(a, b) == lt(a, b) by {}
    let out = fingerprint::insorted(s, name);
    if s.len() == 0 || !sorted::bytes_before(name, s.last()) {
        if s.len() > 0 {
            assert(s.contains(s.last()));
            assert(lt(s.last(), name) || s.last() == name || lt(name, s.last()));
            assert(sorted::bytes_before(s.last(), name));
        }
        assert forall|i: int, j: int|
            #![trigger out[i], out[j]]
            0 <= i < j < out.len() implies sorted::bytes_before(out[i], out[j]) by {
            if j == s.len() {
                if i < s.len() - 1 {
                    assert(sorted::bytes_before(s[i], s[s.len() - 1]));
                    assert(lt(s[i], s.last()) && lt(s.last(), name));
                }
            } else {
                assert(sorted::bytes_before(s[i], s[j]));
            }
        }
        assert forall|n: Seq<u8>| #[trigger] out.contains(n) <==> s.contains(n) || n == name by {
            assert(out[s.len() as int] == name);
            if s.contains(n) {
                let i = choose|i: int| 0 <= i < s.len() && s[i] == n;
                assert(out[i] == n);
            }
        }
    } else {
        let init = s.drop_last();
        assert forall|i: int, j: int|
            #![trigger init[i], init[j]]
            0 <= i < j < init.len() implies sorted::bytes_before(init[i], init[j]) by {
            assert(sorted::bytes_before(s[i], s[j]));
        }
        assert(!init.contains(name)) by {
            if init.contains(name) {
                let i = choose|i: int| 0 <= i < init.len() && init[i] == name;
                assert(s[i] == name);
            }
        }
        lemma_insorted(init, name);
        let most = fingerprint::insorted(init, name);
        assert forall|i: int, j: int|
            #![trigger out[i], out[j]]
            0 <= i < j < out.len() implies sorted::bytes_before(out[i], out[j]) by {
            if j == most.len() {
                assert(most.contains(most[i]));
                if most[i] != name {
                    let k = choose|k: int| 0 <= k < init.len() && init[k] == most[i];
                    assert(sorted::bytes_before(s[k], s[s.len() - 1]));
                }
            } else {
                assert(sorted::bytes_before(most[i], most[j]));
            }
        }
        assert forall|n: Seq<u8>| #[trigger] out.contains(n) <==> s.contains(n) || n == name by {
            assert(out[most.len() as int] == s.last());
            assert(s[s.len() - 1] == s.last());
            if out.contains(n) {
                let i = choose|i: int| 0 <= i < out.len() && out[i] == n;
                if i < most.len() {
                    assert(most.contains(most[i]));
                    if n != name {
                        let k = choose|k: int| 0 <= k < init.len() && init[k] == n;
                        assert(s[k] == n);
                    }
                }
            }
            if s.contains(n) || n == name {
                if n != s.last() {
                    if n != name {
                        let k = choose|k: int| 0 <= k < s.len() && s[k] == n;
                        assert(init[k] == n);
                    }
                    assert(most.contains(n));
                    let i = choose|i: int| 0 <= i < most.len() && most[i] == n;
                    assert(out[i] == n);
                }
            }
        }
    }
}

proof fn lemma_sorted_names(names: Seq<Seq<u8>>)
    requires
        names.no_duplicates(),
    ensures
        ascending(fingerprint::sorted_names(names)),
        forall|n: Seq<u8>| #[trigger]
            fingerprint::sorted_names(names).contains(n) <==> names.contains(n),
    decreases names.len(),
{
    if names.len() > 0 {
        let init = names.drop_last();
        let last = names.last();
        lemma_sorted_names(init);
        assert(!init.contains(last)) by {
            if init.contains(last) {
                let i = choose|i: int| 0 <= i < init.len() && init[i] == last;
                assert(names[i] == names[names.len() - 1]);
            }
        }
        lemma_insorted(fingerprint::sorted_names(init), last);
        assert forall|n: Seq<u8>| #[trigger]
            fingerprint::sorted_names(names).contains(n) <==> names.contains(n) by {
            if names.contains(n) {
                let i = choose|i: int| 0 <= i < names.len() && names[i] == n;
                if i < init.len() {
                    assert(init[i] == n);
                }
            }
            if init.contains(n) {
                let i = choose|i: int| 0 <= i < init.len() && init[i] == n;
                assert(names[i] == n);
            }
            assert(names[names.len() - 1] == last);
        }
    }
}

/// Two ascending lists of the same names are the same list.
proof fn lemma_one_list(a: Seq<Seq<u8>>, b: Seq<Seq<u8>>)
    requires
        ascending(a),
        ascending(b),
        forall|n: Seq<u8>| #[trigger] a.contains(n) <==> b.contains(n),
    ensures
        a == b,
    decreases a.len(),
{
    sorted::lemma_bytes_order();
    let lt = sorted::bytes_order();
    assert forall|x: Seq<u8>, y: Seq<u8>| #[trigger] sorted::bytes_before(x, y) == lt(x, y) by {}
    if a.len() == 0 {
        if b.len() > 0 {
            assert(b.contains(b[0]));
            assert(a.contains(b[0]));
        }
        assert(a =~= b);
    } else {
        assert(a.contains(a.last()));
        assert(b.contains(a.last()));
        let at = choose|i: int| 0 <= i < b.len() && b[i] == a.last();
        assert(b.contains(b.last()));
        assert(a.contains(b.last()));
        let bt = choose|i: int| 0 <= i < a.len() && a[i] == b.last();
        if at < b.len() - 1 {
            assert(sorted::bytes_before(b[at], b[b.len() - 1]));
            if bt < a.len() - 1 {
                assert(sorted::bytes_before(a[bt], a[a.len() - 1]));
                assert(lt(a.last(), b.last()) && lt(b.last(), a.last()));
            }
            assert(lt(a.last(), a.last()));
        }
        let top = a.last();
        assert(b.last() == top) by {
            if at == b.len() - 1 {
                assert(b[at] == b.last());
            }
        }
        assert(!lt(top, top));
        let (p, q) = (a.drop_last(), b.drop_last());
        assert forall|i: int, j: int|
            #![trigger p[i], p[j]]
            0 <= i < j < p.len() implies sorted::bytes_before(p[i], p[j]) by {
            assert(sorted::bytes_before(a[i], a[j]));
        }
        assert forall|i: int, j: int|
            #![trigger q[i], q[j]]
            0 <= i < j < q.len() implies sorted::bytes_before(q[i], q[j]) by {
            assert(sorted::bytes_before(b[i], b[j]));
        }
        assert forall|n: Seq<u8>| #[trigger] p.contains(n) <==> q.contains(n) by {
            if p.contains(n) {
                let i = choose|i: int| 0 <= i < p.len() && p[i] == n;
                assert(a[i] == n);
                assert(sorted::bytes_before(a[i], a[a.len() - 1]));
                assert(a.contains(n));
                let j = choose|j: int| 0 <= j < b.len() && b[j] == n;
                assert(j < b.len() - 1);
                assert(q[j] == n);
            }
            if q.contains(n) {
                let i = choose|i: int| 0 <= i < q.len() && q[i] == n;
                assert(b[i] == n);
                assert(sorted::bytes_before(b[i], b[b.len() - 1]));
                assert(b.contains(n));
                assert(a.contains(n));
                let j = choose|j: int| 0 <= j < a.len() && a[j] == n;
                assert(j < a.len() - 1);
                assert(p[j] == n);
            }
        }
        lemma_one_list(p, q);
        assert(a =~= p.push(a.last()));
        assert(b =~= q.push(b.last()));
    }
}

/// The key of an archetype depends on its set of names alone.
proof fn lemma_same_key(a: ArchetypeState, b: ArchetypeState)
    requires
        encoded(a),
        encoded(b),
        same_names(a, b),
    ensures
        fingerprint::key_of(a) == fingerprint::key_of(b),
{
    lemma_sorted_names(names_of(a));
    lemma_sorted_names(names_of(b));
    let (s, t) = (
        fingerprint::sorted_names(names_of(a)),
        fingerprint::sorted_names(names_of(b)),
    );
    assert forall|n: Seq<u8>| #[trigger] s.contains(n) <==> t.contains(n) by {
        assert(names_of(a).contains(n) <==> names_of(b).contains(n));
    }
    lemma_one_list(s, t);
}

/// What one world has, a world that contains it has.
proof fn lemma_contained(
    a: Seq<ArchetypeState>,
    b: Seq<ArchetypeState>,
    m: ArchetypeMap,
    n: ArchetypeMap,
)
    requires
        sound_world(a),
        sound_world(b),
        contained(a, b),
        filled(a, 0, Map::empty(), m),
        filled(b, 0, Map::empty(), n),
    ensures
        forall|key: Seq<u8>| #[trigger] m.contains_key(key) ==> n.contains_key(key),
        forall|key: Seq<u8>, e: u64| #[trigger]
            maps_row(m, key, e) ==> maps_row(n, key, e) && m[key][e] == n[key][e],
{
    reveal(filled);
    let none = Map::<Seq<u8>, RowMap>::empty();
    assert forall|key: Seq<u8>| #[trigger] m.contains_key(key) implies n.contains_key(key) by {
        assert(has_key(a, 0, key));
        let i = choose|i: int| 0 <= i < a.len() && fingerprint::key_of(#[trigger] a[i]) == key;
        assert(holds(b, a[i]));
        let j = choose|j: int| 0 <= j < b.len() && holds_archetype(#[trigger] b[j], a[i]);
        lemma_same_key(a[i], b[j]);
        assert(fingerprint::key_of(b[j]) == key);
        assert(has_key(b, 0, key));
    }
    assert forall|key: Seq<u8>, e: u64| #[trigger] maps_row(m, key, e) implies maps_row(n, key, e)
        && m[key][e] == n[key][e] by {
        assert(!maps_row(none, key, e));
        assert(has_row(a, 0, key, e));
        let i = choose|i: int|
            0 <= i < a.len() && fingerprint::key_of(#[trigger] a[i]) == key && has_entity(
                a[i],
                0,
                e,
            );
        let r = choose|r: int| 0 <= r < a[i].rows@.len() && (#[trigger] a[i].rows@[r]).entity == e;
        assert(holds(b, a[i]));
        let j = choose|j: int| 0 <= j < b.len() && holds_archetype(#[trigger] b[j], a[i]);
        lemma_same_key(a[i], b[j]);
        assert(holds_row(b[j], a[i], r));
        let q = choose|q: int| #[trigger] same_row(a[i], r, b[j], q);
        assert(b[j].rows@[q].entity == e);
        assert(has_entity(b[j], 0, e));
        assert(has_row(b, 0, key, e));
        lemma_same_row(a[i], r, b[j], q);
        assert(m[key][e] == row_map(a[i], r));
        assert(n[key][e] == row_map(b[j], q));
    }
}

proof fn lemma_same_map(m: ArchetypeMap, n: ArchetypeMap)
    requires
        forall|key: Seq<u8>| #[trigger] m.contains_key(key) ==> n.contains_key(key),
        forall|key: Seq<u8>| #[trigger] n.contains_key(key) ==> m.contains_key(key),
        forall|key: Seq<u8>, e: u64| #[trigger]
            maps_row(m, key, e) ==> maps_row(n, key, e) && m[key][e] == n[key][e],
        forall|key: Seq<u8>, e: u64| #[trigger]
            maps_row(n, key, e) ==> maps_row(m, key, e) && n[key][e] == m[key][e],
    ensures
        m == n,
{
    assert forall|key: Seq<u8>| #[trigger] m.contains_key(key) implies m[key] == n[key] by {
        assert(n.contains_key(key));
        let (x, y) = (m[key], n[key]);
        assert forall|e: u64| #[trigger] x.contains_key(e) <==> y.contains_key(e) by {
            assert(maps_row(m, key, e) <==> x.contains_key(e));
            assert(maps_row(n, key, e) <==> y.contains_key(e));
        }
        assert forall|e: u64| #[trigger] x.contains_key(e) implies x[e] == y[e] by {
            assert(maps_row(m, key, e));
        }
        assert(x =~= y);
    }
    assert(m =~= n);
}

/// Worlds with equal contents have equal fingerprints: the same archetypes as
/// sets of stable component names and, in each, the same entities with equal
/// encodings of their components. Numeric component ids and the order of
/// archetypes, rows and components do not matter.
pub proof fn law_equal_contents_equal_fingerprints(
    a: Seq<ArchetypeState>,
    b: Seq<ArchetypeState>,
)
    requires
        sound_world(a),
        sound_world(b),
        contained(a, b),
        contained(b, a),
    ensures
        fingerprint::world_contents(a, 0, Map::empty()) is Ok,
        fingerprint::world_contents(a, 0, Map::empty()) == fingerprint::world_contents(
            b,
            0,
            Map::empty(),
        ),
{
    let none = Map::<Seq<u8>, RowMap>::empty();
    lemma_filled(a, 0, none);
    lemma_filled(b, 0, none);
    let m = fingerprint::world_contents(a, 0, none)->Ok_0;
    let n = fingerprint::world_contents(b, 0, none)->Ok_0;
    lemma_contained(a, b, m, n);
    lemma_contained(b, a, n, m);
    lemma_same_map(m, n);
}

/// The names of the archetype's components can be told from a list of them: none
/// is empty or holds the byte that joins names.
pub open spec fn plainly_named(a: ArchetypeState) -> bool {
    forall|j: int|
        0 <= j < names_of(a).len() ==> (#[trigger] names_of(a)[j]).len() > 0
            && !names_of(a)[j].contains(1u8)
}

spec fn is_plain(names: Seq<Seq<u8>>) -> bool {
    forall|j: int|
        0 <= j < names.len() ==> (#[trigger] names[j]).len() > 0 && !names[j].contains(1u8)
            && names[j][0] != 0xffu8
}

proof fn lemma_utf8_start(chars: Seq<char>)
    requires
        vstd::utf8::encode_utf8(chars).len() > 0,
    ensures
        vstd::utf8::encode_utf8(chars)[0] != 0xffu8,
{
    let bytes = vstd::utf8::encode_utf8(chars);
    vstd::utf8::encode_utf8_first_scalar(chars);
    let b = bytes[0];
    if b == 0xffu8 {
        assert(0xffu8 & 0x80u8 != 0x00u8 && 0xffu8 & 0xE0u8 != 0xC0u8 && 0xffu8 & 0xF0u8 != 0xE0u8
            && 0xffu8 & 0xF8u8 != 0xF0u8) by (bit_vector);
        assert(!vstd::utf8::valid_first_scalar(bytes));
    }
}

proof fn lemma_name_starts(
    components: Seq<fingerprint::ComponentState>,
    i: int,
    names: Seq<Seq<u8>>,
)
    requires
        0 <= i <= components.len(),
        fingerprint::names_from(components, i, names) is Ok,
        forall|j: int| 0 <= j < names.len() && (#[trigger] names[j]).len() > 0 ==> names[j][0]
            != 0xffu8,
    ensures
        ({
            let all = fingerprint::names_from(components, i, names)->Ok_0;
            forall|j: int|
                0 <= j < all.len() && (#[trigger] all[j]).len() > 0 ==> all[j][0] != 0xffu8
        }),
    decreases components.len() - i,
{
    if i < components.len() {
        let name = fingerprint::name_of(components[i])->Ok_0;
        let chars = components[i].name->Some_0@;
        if name.len() > 0 {
            lemma_utf8_start(chars);
        }
        lemma_name_starts(components, i + 1, names.push(name));
    }
}

proof fn lemma_plain(a: ArchetypeState)
    requires
        encoded(a),
        plainly_named(a),
    ensures
        is_plain(names_of(a)),
        is_plain(fingerprint::sorted_names(names_of(a))),
        fingerprint::sorted_names(names_of(a)).len() == names_of(a).len(),
{
    lemma_name_starts(a.components@, 0, Seq::empty());
    let names = names_of(a);
    let list = fingerprint::sorted_names(names);
    lemma_sorted_names(names);
    lemma_sorted_len(names);
    assert forall|j: int| 0 <= j < list.len() implies (#[trigger] list[j]).len() > 0
        && !list[j].contains(1u8) && list[j][0] != 0xffu8 by {
        assert(list.contains(list[j]));
        assert(names.contains(list[j]));
    }
}

proof fn lemma_insorted_len(s: Seq<Seq<u8>>, name: Seq<u8>)
    ensures
        fingerprint::insorted(s, name).len() == s.len() + 1,
    decreases s.len(),
{
    if s.len() > 0 && sorted::bytes_before(name, s.last()) {
        lemma_insorted_len(s.drop_last(), name);
    }
}

proof fn lemma_sorted_len(names: Seq<Seq<u8>>)
    ensures
        fingerprint::sorted_names(names).len() == names.len(),
    decreases names.len(),
{
    if names.len() > 0 {
        lemma_sorted_len(names.drop_last());
        lemma_insorted_len(fingerprint::sorted_names(names.drop_last()), names.last());
    }
}

/// How often the byte that joins names occurs.
spec fn joints(s: Seq<u8>) -> nat
    decreases s.len(),
{
    if s.len() == 0 {
        0
    } else if s.last() == 1u8 {
        joints(s.drop_last()) + 1
    } else {
        joints(s.drop_last())
    }
}

proof fn lemma_joints_sum(a: Seq<u8>, b: Seq<u8>)
    ensures
        joints(a + b) == joints(a) + joints(b),
    decreases b.len(),
{
    if b.len() == 0 {
        assert(a + b =~= a);
    } else {
        lemma_joints_sum(a, b.drop_last());
        assert((a + b).drop_last() =~= a + b.drop_last());
        assert((a + b).last() == b.last());
    }
}

proof fn lemma_no_joints(s: Seq<u8>)
    requires
        !s.contains(1u8),
    ensures
        joints(s) == 0,
    decreases s.len(),
{
    if s.len() > 0 {
        assert(s.contains(s[s.len() - 1]));
        assert(!s.drop_last().contains(1u8)) by {
            if s.drop_last().contains(1u8) {
                let i = choose|i: int| 0 <= i < s.drop_last().len() && s.drop_last()[i] == 1u8;
                assert(s[i] == 1u8);
            }
        }
        lemma_no_joints(s.drop_last());
    }
}

proof fn lemma_joined(names: Seq<Seq<u8>>)
    requires
        is_plain(names),
        names.len() > 0,
    ensures
        joints(fingerprint::joined(names)) == names.len() - 1,
        fingerprint::joined(names).len() > 0,
        fingerprint::joined(names)[0] == names[0][0],
    decreases names.len(),
{
    if names.len() == 1 {
        lemma_no_joints(names[0]);
    } else {
        let init = names.drop_last();
        assert forall|j: int| 0 <= j < init.len() implies (#[trigger] init[j]).len() > 0
            && !init[j].contains(1u8) && init[j][0] != 0xffu8 by {
            assert(init[j] == names[j]);
        }
        lemma_joined(init);
        let front = fingerprint::joined(init);
        assert(front.push(1u8).drop_last() =~= front);
        lemma_joints_sum(front.push(1u8), names.last());
        assert(names.last() == names[names.len() - 1]);
        lemma_no_joints(names.last());
    }
}

/// Lists of plain names that are joined to the same key are the same.
proof fn lemma_joined_tells_names(x: Seq<Seq<u8>>, y: Seq<Seq<u8>>)
    requires
        is_plain(x),
        is_plain(y),
        fingerprint::joined(x) == fingerprint::joined(y),
    ensures
        x == y,
    decreases x.len(),
{
    if x.len() > 0 {
        lemma_joined(x);
    }
    if y.len() > 0 {
        lemma_joined(y);
    }
    if x.len() > 0 && y.len() > 0 {
        if x.len() == 1 {
            assert(x =~= y);
        } else {
            let (a, b) = (x.drop_last(), y.drop_last());
            let (p, q) = (x.last(), y.last());
            let key = fingerprint::joined(x);
            let (f, g) = (fingerprint::joined(a), fingerprint::joined(b));
            assert(key == f.push(1u8) + p);
            assert(key == g.push(1u8) + q);
            assert(!x[x.len() - 1].contains(1u8) && !y[y.len() - 1].contains(1u8));
            if p.len() < q.len() {
                assert(key[f.len() as int] == 1u8);
                assert(key[f.len() as int] == q[f.len() - g.len() - 1]);
            } else if q.len() < p.len() {
                assert(key[g.len() as int] == 1u8);
                assert(key[g.len() as int] == p[g.len() - f.len() - 1]);
            }
            assert(f =~= g) by {
                assert forall|i: int| 0 <= i < f.len() implies f[i] == g[i] by {
                    assert(key[i] == f[i] && key[i] == g[i]);
                }
            }
            assert(p =~= q) by {
                assert forall|i: int| 0 <= i < p.len() implies p[i] == q[i] by {
                    let at = f.len() + 1 + i;
                    assert(key[at] == p[i] && key[at] == q[i]);
                }
            }
            assert(is_plain(a)) by {
                assert forall|j: int| 0 <= j < a.len() implies (#[trigger] a[j]).len() > 0
                    && !a[j].contains(1u8) && a[j][0] != 0xffu8 by {
                    assert(a[j] == x[j]);
                }
            }
            assert(is_plain(b)) by {
                assert forall|j: int| 0 <= j < b.len() implies (#[trigger] b[j]).len() > 0
                    && !b[j].contains(1u8) && b[j][0] != 0xffu8 by {
                    assert(b[j] == y[j]);
                }
            }
            lemma_joined_tells_names(a, b);
            assert(x =~= a.push(p));
            assert(y =~= b.push(q));
        }
    } else {
        assert(x =~= y);
    }
}

/// Archetypes are kept apart: with plain names, two share a key exactly when
/// they have the same set of component names.
pub proof fn law_key_tells_component_names(a: ArchetypeState, b: ArchetypeState)
    requires
        encoded(a),
        encoded(b),
        plainly_named(a),
        plainly_named(b),
    ensures
        fingerprint::key_of(a) == fingerprint::key_of(b) <==> same_names(a, b),
{
    if same_names(a, b) {
        lemma_same_key(a, b);
    }
    if fingerprint::key_of(a) == fingerprint::key_of(b) {
        lemma_plain(a);
        lemma_plain(b);
        lemma_sorted_names(names_of(a));
        lemma_sorted_names(names_of(b));
        let x = fingerprint::sorted_names(names_of(a));
        let y = fingerprint::sorted_names(names_of(b));
        lemma_joined_tells_names(x, y);
        assert forall|name: Seq<u8>| #[trigger]
            names_of(a).contains(name) <==> names_of(b).contains(name) by {
            assert(x.contains(name) <==> names_of(a).contains(name));
            assert(y.contains(name) <==> names_of(b).contains(name));
        }
    }
}

/// The contents of a world.
pub open spec fn contents_of(world: Seq<ArchetypeState>) -> ArchetypeMap {
    fingerprint::world_contents(world, 0, Map::empty())->Ok_0
}

/// Some row of the world is of entity `e`, in an archetype with key `key`.
pub open spec fn is_at_home(world: Seq<ArchetypeState>, key: Seq<u8>, e: u64) -> bool {
    exists|k: int, r: int|
        #![trigger world[k].rows@[r]]
        0 <= k < world.len() && 0 <= r < world[k].rows@.len() && fingerprint::key_of(world[k])
            == key && world[k].rows@[r].entity == e
}

/// The contents of a world are its rows: under the key of each archetype and
/// each of its entities, the hash of every component's value by its name, and
/// nothing else.
pub proof fn law_contents_hold_every_value(world: Seq<ArchetypeState>)
    requires
        sound_world(world),
    ensures
        fingerprint::world_contents(world, 0, Map::empty()) is Ok,
        forall|k: int|
            0 <= k < world.len() ==> contents_of(world).contains_key(
                fingerprint::key_of(#[trigger] world[k]),
            ),
        forall|k: int, r: int|
            #![trigger world[k].rows@[r]]
            0 <= k < world.len() && 0 <= r < world[k].rows@.len() ==> {
                let rows = contents_of(world)[fingerprint::key_of(world[k])];
                let values = rows[world[k].rows@[r].entity];
                &&& rows.contains_key(world[k].rows@[r].entity)
                &&& forall|name: Seq<u8>| #[trigger]
                    values.contains_key(name) <==> names_of(world[k]).contains(name)
                &&& forall|j: int|
                    #![trigger names_of(world[k])[j]]
                    0 <= j < names_of(world[k]).len() ==> values[names_of(world[k])[j]]
                        == fingerprint::value_hash(bytes_at(world[k], r, j))
            },
        forall|key: Seq<u8>| #[trigger]
            contents_of(world).contains_key(key) ==> exists|k: int|
                0 <= k < world.len() && fingerprint::key_of(#[trigger] world[k]) == key,
        forall|key: Seq<u8>, e: u64|
            contents_of(world).contains_key(key) && #[trigger] contents_of(
                world,
            )[key].contains_key(e) ==> is_at_home(world, key, e),
{
    let none = Map::<Seq<u8>, RowMap>::empty();
    lemma_filled(world, 0, none);
    reveal(filled);
    let m = contents_of(world);
    assert forall|k: int| 0 <= k < world.len() implies m.contains_key(
        fingerprint::key_of(#[trigger] world[k]),
    ) by {
        assert(has_key(world, 0, fingerprint::key_of(world[k])));
    }
    assert forall|k: int, r: int|
        #![trigger world[k].rows@[r]]
        0 <= k < world.len() && 0 <= r < world[k].rows@.len() implies ({
        let rows = m[fingerprint::key_of(world[k])];
        let values = rows[world[k].rows@[r].entity];
        &&& rows.contains_key(world[k].rows@[r].entity)
        &&& forall|name: Seq<u8>| #[trigger]
            values.contains_key(name) <==> names_of(world[k]).contains(name)
        &&& forall|j: int|
            #![trigger names_of(world[k])[j]]
            0 <= j < names_of(world[k]).len() ==> values[names_of(world[k])[j]]
                == fingerprint::value_hash(bytes_at(world[k], r, j))
    }) by {
        let e = world[k].rows@[r].entity;
        let key = fingerprint::key_of(world[k]);
        assert(encoded(world[k]));
        lemma_row_map(world[k], r);
        assert(has_entity(world[k], 0, e));
        assert(has_row(world, 0, key, e));
        assert(maps_row(m, key, e));
    }
    assert forall|key: Seq<u8>| #[trigger] m.contains_key(key) implies exists|k: int|
        0 <= k < world.len() && fingerprint::key_of(#[trigger] world[k]) == key by {
        assert(!none.contains_key(key));
        assert(has_key(world, 0, key));
    }
    assert forall|key: Seq<u8>, e: u64|
        m.contains_key(key) && #[trigger] m[key].contains_key(e) implies is_at_home(
        world,
        key,
        e,
    ) by {
        assert(maps_row(m, key, e));
        assert(!maps_row(none, key, e));
        assert(has_row(world, 0, key, e));
        let k = choose|k: int|
            0 <= k < world.len() && fingerprint::key_of(#[trigger] world[k]) == key && has_entity(
                world[k],
                0,
                e,
            );
        let r = choose|r: int| 0 <= r < world[k].rows@.len() && (#[trigger] world[k].rows@[r]).entity == e;
        assert(world[k].rows@[r].entity == e);
    }
}

spec fn all_finite(map: ArchetypeMap) -> bool {
    &&& map.dom().finite()
    &&& forall|key: Seq<u8>| #[trigger] map.contains_key(key) ==> map[key].dom().finite()
}

proof fn lemma_rows_finite(
    names: Seq<Seq<u8>>,
    rows: Seq<fingerprint::RowState>,
    r: int,
    map: RowMap,
)
    requires
        map.dom().finite(),
    ensures
        fingerprint::archetype_rows(names, rows, r, map) matches Ok(m) ==> m.dom().finite(),
    decreases rows.len() - r,
{
    if 0 <= r < rows.len() {
        let entity = rows[r].entity;
        if let Ok(values) = fingerprint::row_values(
            names,
            rows[r].values@,
            r,
            0,
            fingerprint::found_or_empty(map, entity),
        ) {
            lemma_rows_finite(names, rows, r + 1, map.insert(entity, values));
        }
    }
}

proof fn lemma_contents_finite(world: Seq<ArchetypeState>, i: int, map: ArchetypeMap)
    requires
        all_finite(map),
    ensures
        fingerprint::world_contents(world, i, map) matches Ok(m) ==> all_finite(m),
    decreases world.len() - i,
{
    if 0 <= i < world.len() {
        let a = world[i];
        if let Ok(names) = fingerprint::names_from(a.components@, 0, Seq::empty()) {
            let key = fingerprint::archetype_key(names);
            let old = fingerprint::found_or_empty(map, key);
            assert(old.dom().finite());
            lemma_rows_finite(names, a.rows@, 0, old);
            if let Ok(rows) = fingerprint::archetype_rows(names, a.rows@, 0, old) {
                lemma_contents_finite(world, i + 1, map.insert(key, rows));
            }
        }
    }
}

/// The number of components of an archetype with this key.
spec fn key_width(key: Seq<u8>) -> nat {
    if key.len() == 0 {
        0
    } else {
        joints(key) + 1
    }
}

proof fn lemma_world_feedable(world: Seq<ArchetypeState>)
    requires
        sound_world(world),
        forall|i: int| 0 <= i < world.len() ==> plainly_named(#[trigger] world[i]),
    ensures
        feed_laws::feedable(contents_of(world), |key: Seq<u8>| key_width(key)),
{
    let width = |key: Seq<u8>| key_width(key);
    let m = contents_of(world);
    law_contents_hold_every_value(world);
    lemma_contents_finite(world, 0, Map::empty());
    assert forall|key: Seq<u8>| #[trigger] m.contains_key(key) implies key != seq![0xffu8]
        && m[key].dom().finite() by {
        let k = choose|k: int|
            0 <= k < world.len() && fingerprint::key_of(#[trigger] world[k]) == key;
        lemma_key_width(world[k]);
        assert(seq![0xffu8][0] == 0xffu8);
    }
    assert forall|key: Seq<u8>, entity: u64|
        #![trigger m[key].contains_key(entity)]
        m.contains_key(key) && m[key].contains_key(entity) implies m[key][entity].dom().finite()
        && m[key][entity].dom().len() == width(key) && !m[key][entity].contains_key(
        seq![0xffu8],
    ) by {
        assert(is_at_home(world, key, entity));
        let (k, r) = choose|k: int, r: int|
            #![trigger world[k].rows@[r]]
            0 <= k < world.len() && 0 <= r < world[k].rows@.len() && fingerprint::key_of(world[k])
                == key && world[k].rows@[r].entity == entity;
        let a = world[k];
        let values = m[key][entity];
        lemma_key_width(a);
        lemma_plain(a);
        let names = names_of(a);
        assert(values.dom() =~= names.to_set()) by {
            assert forall|name: Seq<u8>| values.dom().contains(name) <==> names.to_set().contains(
                name,
            ) by {
                assert(values.contains_key(name) <==> names.contains(name));
            }
        }
        names.unique_seq_to_set();
        if values.contains_key(seq![0xffu8]) {
            assert(names.contains(seq![0xffu8]));
            let j = choose|j: int| 0 <= j < names.len() && names[j] == seq![0xffu8];
            assert(names[j][0] == 0xffu8);
        }
    }
}

proof fn lemma_key_width(a: ArchetypeState)
    requires
        encoded(a),
        plainly_named(a),
    ensures
        key_width(fingerprint::key_of(a)) == names_of(a).len(),
        fingerprint::key_of(a).len() > 0 ==> fingerprint::key_of(a)[0] != 0xffu8,
{
    lemma_plain(a);
    let list = fingerprint::sorted_names(names_of(a));
    if list.len() > 0 {
        lemma_joined(list);
        assert(list[0].len() > 0);
    }
}

/// Row `q` of `b` is of the same entity as row `r` of `a`, with equal value
/// hashes under each name.
pub open spec fn hashes_alike(a: ArchetypeState, r: int, b: ArchetypeState, q: int) -> bool {
    &&& 0 <= q < b.rows@.len()
    &&& same_names(a, b)
    &&& a.rows@[r].entity == b.rows@[q].entity
    &&& forall|j: int, l: int|
        #![trigger names_of(a)[j], names_of(b)[l]]
        0 <= j < names_of(a).len() && 0 <= l < names_of(b).len() && names_of(a)[j] == names_of(b)[l]
            ==> fingerprint::value_hash(bytes_at(a, r, j)) == fingerprint::value_hash(
            bytes_at(b, q, l),
        )
}

/// Some row of `world` hashes like row `r` of `a`.
pub open spec fn has_like(world: Seq<ArchetypeState>, a: ArchetypeState, r: int) -> bool {
    exists|j: int, q: int|
        #![trigger world[j].rows@[q]]
        0 <= j < world.len() && hashes_alike(a, r, world[j], q)
}

/// Diverged worlds are told apart by what the hasher is fed: where two worlds
/// are fed alike, each entity of the one stands in the other, under the same
/// set of component names and with an equal hash of every value.
pub proof fn law_feed_tells_worlds_apart(a: Seq<ArchetypeState>, b: Seq<ArchetypeState>)
    requires
        sound_world(a),
        sound_world(b),
        forall|i: int| 0 <= i < a.len() ==> plainly_named(#[trigger] a[i]),
        forall|i: int| 0 <= i < b.len() ==> plainly_named(#[trigger] b[i]),
        fingerprint::fed_contents(contents_of(a)) == fingerprint::fed_contents(contents_of(b)),
    ensures
        contents_of(a) == contents_of(b),
        forall|i: int, r: int|
            0 <= i < a.len() && 0 <= r < a[i].rows@.len() ==> #[trigger] has_like(b, a[i], r),
        forall|i: int, r: int|
            0 <= i < b.len() && 0 <= r < b[i].rows@.len() ==> #[trigger] has_like(a, b[i], r),
{
    lemma_world_feedable(a);
    lemma_world_feedable(b);
    feed_laws::law_feed_determines_contents(
        contents_of(a),
        contents_of(b),
        |key: Seq<u8>| key_width(key),
    );
    assert forall|i: int, r: int|
        0 <= i < a.len() && 0 <= r < a[i].rows@.len() implies #[trigger] has_like(b, a[i], r) by {
        lemma_has_like(a, b, i, r);
    }
    assert forall|i: int, r: int|
        0 <= i < b.len() && 0 <= r < b[i].rows@.len() implies #[trigger] has_like(a, b[i], r) by {
        lemma_has_like(b, a, i, r);
    }
}

proof fn lemma_has_like(a: Seq<ArchetypeState>, b: Seq<ArchetypeState>, i: int, r: int)
    requires
        sound_world(a),
        sound_world(b),
        forall|i: int| 0 <= i < a.len() ==> plainly_named(#[trigger] a[i]),
        forall|i: int| 0 <= i < b.len() ==> plainly_named(#[trigger] b[i]),
        contents_of(a) == contents_of(b),
        0 <= i < a.len(),
        0 <= r < a[i].rows@.len(),
    ensures
        has_like(b, a[i], r),
{
    law_contents_hold_every_value(a);
    law_contents_hold_every_value(b);
    let key = fingerprint::key_of(a[i]);
    let e = a[i].rows@[r].entity;
    assert(contents_of(a).contains_key(key));
    assert(contents_of(b)[key].contains_key(e));
    assert(is_at_home(b, key, e));
    let (j, q) = choose|k: int, r: int|
        #![trigger b[k].rows@[r]]
        0 <= k < b.len() && 0 <= r < b[k].rows@.len() && fingerprint::key_of(b[k]) == key
            && b[k].rows@[r].entity == e;
    law_key_tells_component_names(a[i], b[j]);
    assert(hashes_alike(a[i], r, b[j], q));
}

/// The component is known to the world and has a codec.
pub open spec fn is_nameable(c: fingerprint::ComponentState) -> bool {
    c.registered && c.name is Some
}

/// Why a component has no stable name.
pub open spec fn is_unnamed(c: fingerprint::ComponentState, e: FingerprintError) -> bool {
    ||| !c.registered && e == (FingerprintError::Unregistered { id: c.id })
    ||| c.registered && c.name is None && e == (FingerprintError::NoCodec { id: c.id })
}

proof fn lemma_names_from(
    components: Seq<fingerprint::ComponentState>,
    i: int,
    names: Seq<Seq<u8>>,
)
    requires
        0 <= i <= components.len(),
        names.len() == i,
        forall|j: int|
            0 <= j < i ==> is_nameable(#[trigger] components[j]) && names[j]
                == vstd::utf8::encode_utf8(components[j].name->Some_0@),
    ensures
        match fingerprint::names_from(components, i, names) {
            Ok(all) => all.len() == components.len() && forall|j: int|
                0 <= j < components.len() ==> is_nameable(#[trigger] components[j]) && all[j]
                    == vstd::utf8::encode_utf8(components[j].name->Some_0@),
            Err(e) => exists|j: int|
                0 <= j < components.len() && is_unnamed(#[trigger] components[j], e),
        },
    decreases components.len() - i,
{
    if i < components.len() {
        match fingerprint::name_of(components[i]) {
            Ok(name) => {
                lemma_names_from(components, i + 1, names.push(name));
            },
            Err(e) => {
                assert(is_unnamed(components[i], e));
            },
        }
    }
}

/// An archetype's components go by the stable names of their codecs, whatever
/// their ids; one without a codec has the world refused.
pub proof fn law_components_go_by_stable_name(a: ArchetypeState)
    ensures
        match fingerprint::names_from(a.components@, 0, Seq::empty()) {
            Ok(names) => names.len() == a.components@.len() && forall|j: int|
                0 <= j < a.components@.len() ==> is_nameable(#[trigger] a.components@[j])
                    && names[j] == vstd::utf8::encode_utf8(a.components@[j].name->Some_0@),
            Err(e) => exists|j: int|
                0 <= j < a.components@.len() && is_unnamed(#[trigger] a.components@[j], e),
        },
{
    lemma_names_from(a.components@, 0, Seq::empty());
}

/// Why a value is not encoded.
pub open spec fn is_unencoded(v: ValueState, r: int, e: FingerprintError) -> bool {
    match v {
        ValueState::Bytes(_) => false,
        ValueState::NoColumn => e matches FingerprintError::NoColumn { row } && row == r,
        ValueState::CodecFailed(m) => e == FingerprintError::CodecFailed(m),
        ValueState::NoCodec => e is NoValueCodec,
    }
}

/// Something in the archetype has no encoding, and `e` says so.
pub open spec fn is_at_fault(a: ArchetypeState, e: FingerprintError) -> bool {
    ||| exists|j: int| 0 <= j < a.components@.len() && is_unnamed(#[trigger] a.components@[j], e)
    ||| exists|r: int, j: int|
        0 <= r < a.rows@.len() && 0 <= j < a.rows@[r].values@.len() && is_unencoded(
            #[trigger] a.rows@[r].values@[j],
            r,
            e,
        )
}

/// Every component of the archetype has a name, and every value an encoding.
pub open spec fn is_encodable(a: ArchetypeState) -> bool {
    &&& forall|j: int| 0 <= j < a.components@.len() ==> is_nameable(#[trigger] a.components@[j])
    &&& forall|r: int, j: int|
        0 <= r < a.rows@.len() && 0 <= j < a.rows@[r].values@.len() ==> (
        #[trigger] a.rows@[r].values@[j]) is Bytes
}

proof fn lemma_row_fails(
    a: ArchetypeState,
    names: Seq<Seq<u8>>,
    r: int,
    j: int,
    map: ValueMap,
)
    requires
        0 <= r < a.rows@.len() <= usize::MAX,
        0 <= j <= a.rows@[r].values@.len(),
        forall|k: int| 0 <= k < j ==> (#[trigger] a.rows@[r].values@[k]) is Bytes,
    ensures
        match fingerprint::row_values(names, a.rows@[r].values@, r, j, map) {
            Ok(_) => forall|k: int|
                0 <= k < a.rows@[r].values@.len() ==> (#[trigger] a.rows@[r].values@[k]) is Bytes,
            Err(e) => is_at_fault(a, e),
        },
    decreases a.rows@[r].values@.len() - j,
{
    if j < a.rows@[r].values@.len() {
        match a.rows@[r].values@[j] {
            ValueState::Bytes(bytes) => {
                lemma_row_fails(
                    a,
                    names,
                    r,
                    j + 1,
                    map.insert(names[j], fingerprint::value_hash(bytes@)),
                );
            },
            _ => {
                let e = fingerprint::row_values(
                    names,
                    a.rows@[r].values@,
                    r,
                    j,
                    map,
                )->Err_0;
                assert(is_unencoded(a.rows@[r].values@[j], r, e));
            },
        }
    }
}

proof fn lemma_rows_fail(a: ArchetypeState, names: Seq<Seq<u8>>, r: int, map: RowMap)
    requires
        0 <= r <= a.rows@.len() <= usize::MAX,
        forall|q: int, k: int|
            0 <= q < r && 0 <= k < a.rows@[q].values@.len() ==> (
            #[trigger] a.rows@[q].values@[k]) is Bytes,
    ensures
        match fingerprint::archetype_rows(names, a.rows@, r, map) {
            Ok(_) => forall|q: int, k: int|
                0 <= q < a.rows@.len() && 0 <= k < a.rows@[q].values@.len() ==> (
                #[trigger] a.rows@[q].values@[k]) is Bytes,
            Err(e) => is_at_fault(a, e),
        },
    decreases a.rows@.len() - r,
{
    if r < a.rows@.len() {
        let entity = a.rows@[r].entity;
        let old = fingerprint::found_or_empty(map, entity);
        lemma_row_fails(a, names, r, 0, old);
        if let Ok(values) = fingerprint::row_values(names, a.rows@[r].values@, r, 0, old) {
            lemma_rows_fail(a, names, r + 1, map.insert(entity, values));
        }
    }
}

proof fn lemma_world_fails(world: Seq<ArchetypeState>, i: int, map: ArchetypeMap)
    requires
        0 <= i <= world.len(),
        forall|k: int| 0 <= k < i ==> is_encodable(#[trigger] world[k]),
    ensures
        match fingerprint::world_contents(world, i, map) {
            Ok(_) => forall|k: int| 0 <= k < world.len() ==> is_encodable(#[trigger] world[k]),
            Err(e) => exists|k: int| 0 <= k < world.len() && is_at_fault(#[trigger] world[k], e),
        },
    decreases world.len() - i,
{
    if i < world.len() {
        let a = world[i];
        assert(a.rows.len() == a.rows@.len());
        law_components_go_by_stable_name(a);
        match fingerprint::names_from(a.components@, 0, Seq::empty()) {
            Err(e) => {
                assert(is_at_fault(world[i], e));
            },
            Ok(names) => {
                let key = fingerprint::archetype_key(names);
                let old = fingerprint::found_or_empty(map, key);
                lemma_rows_fail(a, names, 0, old);
                match fingerprint::archetype_rows(names, a.rows@, 0, old) {
                    Err(e) => {
                        assert(is_at_fault(world[i], e));
                    },
                    Ok(rows) => {
                        assert(is_encodable(world[i]));
                        lemma_world_fails(world, i + 1, map.insert(key, rows));
                    },
                }
            },
        }
    }
}

/// A world has a fingerprint exactly where every dense component has a codec
/// and every value an encoding; otherwise the error names what has none.
pub proof fn law_fingerprint_needs_every_encoding(world: Seq<ArchetypeState>)
    ensures
        match fingerprint::world_contents(world, 0, Map::empty()) {
            Ok(_) => forall|k: int| 0 <= k < world.len() ==> is_encodable(#[trigger] world[k]),
            Err(e) => exists|k: int| 0 <= k < world.len() && is_at_fault(#[trigger] world[k], e),
        },
{
    lemma_world_fails(world, 0, Map::empty());
}

} // verus!
