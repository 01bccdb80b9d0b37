//! Laws on what a fingerprint is computed from: what the hasher is fed tells
//! the contents of a world.
use crate::fingerprint;
use crate::fingerprint::{ArchetypeMap, RowMap, ValueMap};
use crate::sorted;
use vstd::bytes::*;
use vstd::prelude::*;

verus! {

/// The map has an ascending listing.
pub open spec fn listed<K, V>(map: Map<K, V>, lt: spec_fn(K, K) -> bool) -> bool {
    sorted::lists(sorted::listing(map, lt), map, lt)
}

proof fn lemma_le_bytes(a: u64, b: u64)
    ensures
        spec_u64_to_le_bytes(a) == spec_u64_to_le_bytes(b) ==> a == b,
        spec_u64_to_le_bytes(a).len() == 8,
{
    lemma_auto_spec_u64_to_from_le_bytes();
}

/// What is fed for the values of a row from the `k`-th on.
spec fn values_on(v: Seq<(Seq<u8>, u64)>, k: int) -> Seq<Seq<u8>>
    decreases v.len() - k,
{
    if 0 <= k < v.len() {
        seq![v[k].0, seq![0xffu8], spec_u64_to_le_bytes(v[k].1)] + values_on(v, k + 1)
    } else {
        Seq::empty()
    }
}

proof fn lemma_values_on(v: Seq<(Seq<u8>, u64)>, k: int)
    requires
        0 <= k <= v.len(),
    ensures
        fingerprint::fed_values(v, v.len() as int) == fingerprint::fed_values(v, k) + values_on(
            v,
            k,
        ),
    decreases v.len() - k,
{
    if k < v.len() {
        lemma_values_on(v, k + 1);
        assert(fingerprint::fed_values(v, k + 1) + values_on(v, k + 1) =~= fingerprint::fed_values(
            v,
            k,
        ) + values_on(v, k));
    } else {
        assert(fingerprint::fed_values(v, k) + values_on(v, k) =~= fingerprint::fed_values(v, k));
    }
}

/// The values of a row, with its entity.
spec fn row_on(row: (u64, ValueMap)) -> Seq<Seq<u8>> {
    seq![spec_u64_to_le_bytes(row.0)] + values_on(
        sorted::listing(row.1, sorted::bytes_order()),
        0,
    )
}

spec fn rows_on(rows: Seq<(u64, ValueMap)>, j: int) -> Seq<Seq<u8>>
    decreases rows.len() - j,
{
    if 0 <= j < rows.len() {
        row_on(rows[j]) + rows_on(rows, j + 1)
    } else {
        Seq::empty()
    }
}

proof fn lemma_rows_on(rows: Seq<(u64, ValueMap)>, j: int)
    requires
        0 <= j <= rows.len(),
    ensures
        fingerprint::fed_rows(rows, rows.len() as int) == fingerprint::fed_rows(rows, j) + rows_on(
            rows,
            j,
        ),
    decreases rows.len() - j,
{
    if j < rows.len() {
        lemma_rows_on(rows, j + 1);
        let values = sorted::listing(rows[j].1, sorted::bytes_order());
        lemma_values_on(values, 0);
        assert(fingerprint::fed_values(values, 0) + values_on(values, 0) =~= values_on(values, 0));
        assert(fingerprint::fed_rows(rows, j + 1) + rows_on(rows, j + 1) =~= fingerprint::fed_rows(
            rows,
            j,
        ) + rows_on(rows, j));
    } else {
        assert(fingerprint::fed_rows(rows, j) + rows_on(rows, j) =~= fingerprint::fed_rows(
            rows,
            j,
        ));
    }
}

spec fn archetype_on(a: (Seq<u8>, RowMap)) -> Seq<Seq<u8>> {
    seq![a.0, seq![0xffu8]] + rows_on(sorted::listing(a.1, sorted::bits_order()), 0)
}

spec fn archetypes_on(archetypes: Seq<(Seq<u8>, RowMap)>, i: int) -> Seq<Seq<u8>>
    decreases archetypes.len() - i,
{
    if 0 <= i < archetypes.len() {
        archetype_on(archetypes[i]) + archetypes_on(archetypes, i + 1)
    } else {
        Seq::empty()
    }
}

proof fn lemma_archetypes_on(archetypes: Seq<(Seq<u8>, RowMap)>, i: int)
    requires
        0 <= i <= archetypes.len(),
    ensures
        fingerprint::fed_archetypes(archetypes, archetypes.len() as int)
            == fingerprint::fed_archetypes(archetypes, i) + archetypes_on(archetypes, i),
    decreases archetypes.len() - i,
{
    if i < archetypes.len() {
        lemma_archetypes_on(archetypes, i + 1);
        let rows = sorted::listing(archetypes[i].1, sorted::bits_order());
        lemma_rows_on(rows, 0);
        assert(fingerprint::fed_rows(rows, 0) + rows_on(rows, 0) =~= rows_on(rows, 0));
        assert(fingerprint::fed_archetypes(archetypes, i + 1) + archetypes_on(archetypes, i + 1)
            =~= fingerprint::fed_archetypes(archetypes, i) + archetypes_on(archetypes, i));
    } else {
        assert(fingerprint::fed_archetypes(archetypes, i) + archetypes_on(archetypes, i)
            =~= fingerprint::fed_archetypes(archetypes, i));
    }
}

/// Equal feeds of equally many values are of equal values.
proof fn lemma_values_read(
    v: Seq<(Seq<u8>, u64)>,
    w: Seq<(Seq<u8>, u64)>,
    k: int,
    s: Seq<Seq<u8>>,
    t: Seq<Seq<u8>>,
)
    requires
        0 <= k <= v.len(),
        v.len() == w.len(),
        values_on(v, k) + s == values_on(w, k) + t,
    ensures
        forall|l: int| k <= l < v.len() ==> #[trigger] v[l] == w[l],
        s == t,
    decreases v.len() - k,
{
    let a = values_on(v, k) + s;
    let b = values_on(w, k) + t;
    if k < v.len() {
        assert(a[0] == v[k].0 && b[0] == w[k].0);
        assert(a[2] == spec_u64_to_le_bytes(v[k].1));
        assert(b[2] == spec_u64_to_le_bytes(w[k].1));
        lemma_le_bytes(v[k].1, w[k].1);
        assert(a.skip(3) =~= values_on(v, k + 1) + s);
        assert(b.skip(3) =~= values_on(w, k + 1) + t);
        lemma_values_read(v, w, k + 1, s, t);
    } else {
        assert(a =~= s);
        assert(b =~= t);
    }
}

/// What comes behind the rows of an archetype: nothing, or the key of another.
spec fn is_behind_rows(s: Seq<Seq<u8>>) -> bool {
    s.len() == 0 || (s.len() >= 2 && s[0] != seq![0xffu8] && s[1] == seq![0xffu8])
}

/// Each of the rows has `n` values, none of which has the name that is the
/// byte behind names.
spec fn are_rows(rows: Seq<(u64, ValueMap)>, n: nat) -> bool {
    forall|j: int|
        #![trigger rows[j]]
        0 <= j < rows.len() ==> {
            let values = sorted::listing(rows[j].1, sorted::bytes_order());
            &&& listed(rows[j].1, sorted::bytes_order())
            &&& values.len() == n
            &&& forall|k: int| 0 <= k < values.len() ==> (#[trigger] values[k]).0 != seq![0xffu8]
        }
}

proof fn lemma_row_is_no_key(rows: Seq<(u64, ValueMap)>, j: int, n: nat, s: Seq<Seq<u8>>)
    requires
        are_rows(rows, n),
        0 <= j < rows.len(),
        is_behind_rows(s),
    ensures
        (rows_on(rows, j) + s).len() > 0,
        !is_behind_rows(rows_on(rows, j) + s),
{
    let all = rows_on(rows, j) + s;
    let values = sorted::listing(rows[j].1, sorted::bytes_order());
    assert(all[0] == spec_u64_to_le_bytes(rows[j].0));
    if all.len() >= 2 {
        if n > 0 {
            assert(all[1] == values[0].0);
        } else {
            let rest = rows_on(rows, j + 1);
            assert(all =~= seq![all[0]] + (rest + s));
            assert(all[1] == (rest + s)[0]);
            if j + 1 < rows.len() {
                lemma_le_bytes(rows[j + 1].0, 0);
                assert(all[1] == spec_u64_to_le_bytes(rows[j + 1].0));
                assert(seq![0xffu8].len() == 1);
            } else {
                assert(rest + s =~= s);
            }
        }
    }
}

/// Equal feeds of rows with equally many values are of equal rows.
proof fn lemma_rows_read(
    p: Seq<(u64, ValueMap)>,
    q: Seq<(u64, ValueMap)>,
    j: int,
    n: nat,
    s: Seq<Seq<u8>>,
    t: Seq<Seq<u8>>,
)
    requires
        are_rows(p, n),
        are_rows(q, n),
        0 <= j <= p.len(),
        j <= q.len(),
        is_behind_rows(s),
        is_behind_rows(t),
        rows_on(p, j) + s == rows_on(q, j) + t,
    ensures
        p.len() == q.len(),
        forall|l: int| j <= l < p.len() ==> #[trigger] p[l] == q[l],
        s == t,
    decreases p.len() - j,
{
    let a = rows_on(p, j) + s;
    let b = rows_on(q, j) + t;
    if j == p.len() {
        assert(a =~= s);
        if j < q.len() {
            lemma_row_is_no_key(q, j, n, t);
        } else {
            assert(b =~= t);
        }
    } else if j == q.len() {
        assert(b =~= t);
        lemma_row_is_no_key(p, j, n, s);
    } else {
        let v = sorted::listing(p[j].1, sorted::bytes_order());
        let w = sorted::listing(q[j].1, sorted::bytes_order());
        assert(a[0] == spec_u64_to_le_bytes(p[j].0));
        assert(b[0] == spec_u64_to_le_bytes(q[j].0));
        lemma_le_bytes(p[j].0, q[j].0);
        let s2 = rows_on(p, j + 1) + s;
        let t2 = rows_on(q, j + 1) + t;
        assert(a.skip(1) =~= values_on(v, 0) + s2);
        assert(b.skip(1) =~= values_on(w, 0) + t2);
        lemma_values_read(v, w, 0, s2, t2);
        assert(v =~= w);
        sorted::lemma_lists_is(v, p[j].1, sorted::bytes_order());
        sorted::lemma_lists_is(w, q[j].1, sorted::bytes_order());
        assert(p[j] == q[j]);
        lemma_rows_read(p, q, j + 1, n, s, t);
    }
}

/// The archetypes are listed as `width` says: no key is the byte behind keys,
/// and all rows under a key have as many values as it says.
spec fn are_archetypes(e: Seq<(Seq<u8>, RowMap)>, width: spec_fn(Seq<u8>) -> nat) -> bool {
    forall|i: int|
        #![trigger e[i]]
        0 <= i < e.len() ==> {
            &&& e[i].0 != seq![0xffu8]
            &&& listed(e[i].1, sorted::bits_order())
            &&& are_rows(sorted::listing(e[i].1, sorted::bits_order()), width(e[i].0))
        }
}

proof fn lemma_archetypes_read(
    e: Seq<(Seq<u8>, RowMap)>,
    f: Seq<(Seq<u8>, RowMap)>,
    i: int,
    width: spec_fn(Seq<u8>) -> nat,
)
    requires
        are_archetypes(e, width),
        are_archetypes(f, width),
        0 <= i <= e.len(),
        i <= f.len(),
        archetypes_on(e, i) == archetypes_on(f, i),
    ensures
        e.len() == f.len(),
        forall|l: int| i <= l < e.len() ==> #[trigger] e[l] == f[l],
    decreases e.len() - i,
{
    let a = archetypes_on(e, i);
    let b = archetypes_on(f, i);
    if i < e.len() && i < f.len() {
        let p = sorted::listing(e[i].1, sorted::bits_order());
        let q = sorted::listing(f[i].1, sorted::bits_order());
        assert(a[0] == e[i].0);
        assert(b[0] == f[i].0);
        let s = archetypes_on(e, i + 1);
        let t = archetypes_on(f, i + 1);
        assert(a.skip(2) =~= rows_on(p, 0) + s);
        assert(b.skip(2) =~= rows_on(q, 0) + t);
        assert(is_behind_rows(s)) by {
            if i + 1 < e.len() {
                assert(s[0] == e[i + 1].0);
                assert(s[1] == seq![0xffu8]);
            }
        }
        assert(is_behind_rows(t)) by {
            if i + 1 < f.len() {
                assert(t[0] == f[i + 1].0);
                assert(t[1] == seq![0xffu8]);
            }
        }
        lemma_rows_read(p, q, 0, width(e[i].0), s, t);
        assert(p =~= q);
        sorted::lemma_lists_is(p, e[i].1, sorted::bits_order());
        sorted::lemma_lists_is(q, f[i].1, sorted::bits_order());
        assert(e[i] == f[i]);
        lemma_archetypes_read(e, f, i + 1, width);
    } else if i < e.len() {
        assert(a.len() > 0);
        assert(b.len() == 0);
    } else if i < f.len() {
        assert(b.len() > 0);
        assert(a.len() == 0);
    }
}

/// Contents that a hasher can be fed: finite, and with as many values in each
/// row under a key as `width` says.
pub open spec fn feedable(contents: ArchetypeMap, width: spec_fn(Seq<u8>) -> nat) -> bool {
    &&& contents.dom().finite()
    &&& forall|key: Seq<u8>| #[trigger]
        contents.contains_key(key) ==> key != seq![0xffu8] && contents[key].dom().finite()
    &&& forall|key: Seq<u8>, entity: u64|
        #![trigger contents[key].contains_key(entity)]
        contents.contains_key(key) && contents[key].contains_key(entity) ==> {
            &&& contents[key][entity].dom().finite()
            &&& contents[key][entity].dom().len() == width(key)
            &&& !contents[key][entity].contains_key(seq![0xffu8])
        }
}

/// A finite map has an ascending listing, with one entry for each key.
proof fn lemma_finite_is_listed<K, V>(map: Map<K, V>, lt: spec_fn(K, K) -> bool)
    requires
        sorted::strict_order(lt),
        map.dom().finite(),
    ensures
        listed(map, lt),
        sorted::listing(map, lt).len() == map.dom().len(),
{
    let entries = lemma_some_listing(map, lt);
    sorted::lemma_listing_unique(entries, map, lt);
}

proof fn lemma_some_listing<K, V>(map: Map<K, V>, lt: spec_fn(K, K) -> bool) -> (entries: Seq<
    (K, V),
>)
    requires
        sorted::strict_order(lt),
        map.dom().finite(),
    ensures
        sorted::lists(entries, map, lt),
        entries.len() == map.dom().len(),
    decreases map.dom().len(),
{
    if map.dom().len() == 0 {
        assert forall|k: K| !#[trigger] map.contains_key(k) by {
            if map.contains_key(k) {
                assert(map.dom().contains(k));
                assert(map.dom().len() > 0);
            }
        }
        Seq::empty()
    } else {
        let key = map.dom().choose();
        assert(map.dom().contains(key));
        let less = map.remove(key);
        assert(less.dom() =~= map.dom().remove(key));
        let entries = lemma_some_listing(less, lt);
        let at = lemma_place(entries, key, lt, 0);
        let out = entries.insert(at, (key, map[key]));
        assert forall|i: int, j: int|
            #![trigger out[i], out[j]]
            0 <= i < j < out.len() implies lt(out[i].0, out[j].0) by {
            let i2 = if i < at { i } else { i - 1 };
            let j2 = if j < at { j } else { j - 1 };
            if i != at {
                assert(out[i] == entries[i2]);
            }
            if j != at {
                assert(out[j] == entries[j2]);
            }
        }
        assert forall|i: int|
            #![trigger out[i]]
            0 <= i < out.len() implies map.contains_key(out[i].0) && map[out[i].0]
            == out[i].1 by {
            let i2 = if i < at { i } else { i - 1 };
            if i != at {
                assert(out[i] == entries[i2]);
                assert(less.contains_key(entries[i2].0));
            }
        }
        assert forall|k: K| #[trigger] map.contains_key(k) implies exists|i: int|
            0 <= i < out.len() && (#[trigger] out[i]).0 == k by {
            if k == key {
                assert(out[at].0 == k);
            } else {
                assert(less.contains_key(k));
                let i = choose|i: int| 0 <= i < entries.len() && (#[trigger] entries[i]).0 == k;
                let i2 = if i < at { i } else { i + 1 };
                assert(out[i2] == entries[i]);
            }
        }
        out
    }
}

/// Where `key` goes among the entries.
proof fn lemma_place<K, V>(
    entries: Seq<(K, V)>,
    key: K,
    lt: spec_fn(K, K) -> bool,
    i: int,
) -> (at: int)
    requires
        sorted::strict_order(lt),
        sorted::is_sorted(entries, lt),
        0 <= i <= entries.len(),
        forall|j: int| 0 <= j < entries.len() ==> (#[trigger] entries[j]).0 != key,
        forall|j: int| 0 <= j < i ==> lt((#[trigger] entries[j]).0, key),
    ensures
        i <= at <= entries.len(),
        forall|j: int| 0 <= j < at ==> lt((#[trigger] entries[j]).0, key),
        forall|j: int| at <= j < entries.len() ==> lt(key, (#[trigger] entries[j]).0),
    decreases entries.len() - i,
{
    if i == entries.len() {
        i
    } else if lt(entries[i].0, key) {
        lemma_place(entries, key, lt, i + 1)
    } else {
        assert(lt(key, entries[i].0));
        assert forall|j: int| i <= j < entries.len() implies lt(key, (#[trigger] entries[j]).0) by {
            if j > i {
                assert(lt(entries[i].0, entries[j].0));
            }
        }
        i
    }
}

proof fn lemma_feedable(contents: ArchetypeMap, width: spec_fn(Seq<u8>) -> nat)
    requires
        feedable(contents, width),
    ensures
        listed(contents, sorted::bytes_order()),
        are_archetypes(sorted::listing(contents, sorted::bytes_order()), width),
{
    sorted::lemma_bytes_order();
    assert(sorted::strict_order(sorted::bits_order()));
    lemma_finite_is_listed(contents, sorted::bytes_order());
    let e = sorted::listing(contents, sorted::bytes_order());
    assert forall|i: int|
        #![trigger e[i]]
        0 <= i < e.len() implies e[i].0 != seq![0xffu8] && listed(e[i].1, sorted::bits_order())
        && are_rows(sorted::listing(e[i].1, sorted::bits_order()), width(e[i].0)) by {
        let key = e[i].0;
        assert(contents.contains_key(key));
        lemma_finite_is_listed(e[i].1, sorted::bits_order());
        let rows = sorted::listing(e[i].1, sorted::bits_order());
        assert forall|j: int|
            #![trigger rows[j]]
            0 <= j < rows.len() implies ({
            let values = sorted::listing(rows[j].1, sorted::bytes_order());
            &&& listed(rows[j].1, sorted::bytes_order())
            &&& values.len() == width(key)
            &&& forall|k: int| 0 <= k < values.len() ==> (#[trigger] values[k]).0 != seq![0xffu8]
        }) by {
            assert(contents[key].contains_key(rows[j].0));
            lemma_finite_is_listed(rows[j].1, sorted::bytes_order());
            let values = sorted::listing(rows[j].1, sorted::bytes_order());
            assert forall|k: int| 0 <= k < values.len() implies (#[trigger] values[k]).0
                != seq![0xffu8] by {
                assert(rows[j].1.contains_key(values[k].0));
            }
        }
    }
}

/// What the hasher is fed determines the contents: contents that differ in any
/// archetype, entity, component name or value hash are fed differently.
pub proof fn law_feed_determines_contents(
    c: ArchetypeMap,
    d: ArchetypeMap,
    width: spec_fn(Seq<u8>) -> nat,
)
    requires
        feedable(c, width),
        feedable(d, width),
        fingerprint::fed_contents(c) == fingerprint::fed_contents(d),
    ensures
        c == d,
{
    lemma_feedable(c, width);
    lemma_feedable(d, width);
    let e = sorted::listing(c, sorted::bytes_order());
    let f = sorted::listing(d, sorted::bytes_order());
    lemma_archetypes_on(e, 0);
    lemma_archetypes_on(f, 0);
    assert(fingerprint::fed_archetypes(e, 0) + archetypes_on(e, 0) =~= archetypes_on(e, 0));
    assert(fingerprint::fed_archetypes(f, 0) + archetypes_on(f, 0) =~= archetypes_on(f, 0));
    lemma_archetypes_read(e, f, 0, width);
    assert(e =~= f);
    sorted::lemma_lists_is(e, c, sorted::bytes_order());
    sorted::lemma_lists_is(f, d, sorted::bytes_order());
}

/// What the hasher of a value is fed determines the value's encoding.
pub proof fn law_value_feed_determines_encoding(a: Seq<u8>, b: Seq<u8>)
    requires
        fingerprint::fed_value(a) == fingerprint::fed_value(b),
    ensures
        a == b,
{
    assert(fingerprint::fed_value(a)[1] == a);
    assert(fingerprint::fed_value(b)[1] == b);
}

} // verus!
