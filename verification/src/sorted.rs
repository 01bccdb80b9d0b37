//! Maps kept as vectors sorted by key, and the one sorted listing of a map.
use vstd::prelude::*;

verus! {

/// A strict total order.
pub open spec fn strict_order<K>(lt: spec_fn(K, K) -> bool) -> bool {
    &&& forall|a: K| !#[trigger] lt(a, a)
    &&& forall|a: K, b: K, c: K| #[trigger] lt(a, b) && #[trigger] lt(b, c) ==> lt(a, c)
    &&& forall|a: K, b: K| #[trigger] lt(a, b) || a == b || lt(b, a)
}

/// `entries` lists exactly the entries of `map`, each key once, ascending.
pub open spec fn lists<K, V>(
    entries: Seq<(K, V)>,
    map: Map<K, V>,
    lt: spec_fn(K, K) -> bool,
) -> bool {
    &&& forall|i: int, j: int|
        #![trigger entries[i], entries[j]]
        0 <= i < j < entries.len() ==> lt(entries[i].0, entries[j].0)
    &&& forall|i: int|
        #![trigger entries[i]]
        0 <= i < entries.len() ==> map.contains_key(entries[i].0) && map[entries[i].0]
            == entries[i].1
    &&& forall|k: K| #[trigger]
        map.contains_key(k) ==> exists|i: int|
            0 <= i < entries.len() && (#[trigger] entries[i]).0 == k
}

/// The ascending listing of a map.
pub open spec fn listing<K, V>(map: Map<K, V>, lt: spec_fn(K, K) -> bool) -> Seq<(K, V)> {
    choose|entries: Seq<(K, V)>| lists(entries, map, lt)
}

proof fn lemma_lists_prefix<K, V>(
    a: Seq<(K, V)>,
    b: Seq<(K, V)>,
    map: Map<K, V>,
    lt: spec_fn(K, K) -> bool,
    n: int,
)
    requires
        strict_order(lt),
        lists(a, map, lt),
        lists(b, map, lt),
        0 <= n <= a.len(),
    ensures
        n <= b.len(),
        a.take(n) == b.take(n),
    decreases n,
{
    if n > 0 {
        lemma_lists_prefix(a, b, map, lt, n - 1);
        let k = a[n - 1].0;
        assert(map.contains_key(k));
        let j = choose|j: int| 0 <= j < b.len() && (#[trigger] b[j]).0 == k;
        if j < n - 1 {
            assert(a.take(n - 1)[j] == b.take(n - 1)[j]);
            assert(lt(a[j].0, a[n - 1].0));
            assert(lt(k, k));
        }
        if j > n - 1 {
            let k2 = b[n - 1].0;
            assert(lt(b[n - 1].0, b[j].0));
            assert(map.contains_key(k2));
            let i = choose|i: int| 0 <= i < a.len() && (#[trigger] a[i]).0 == k2;
            if i < n - 1 {
                assert(a.take(n - 1)[i] == b.take(n - 1)[i]);
                assert(lt(b[i].0, b[n - 1].0));
                assert(lt(k2, k2));
            } else if i == n - 1 {
                assert(lt(k, k));
            } else {
                assert(lt(a[n - 1].0, a[i].0));
                assert(lt(k, k2) && lt(k2, k));
                assert(lt(k, k));
            }
        }
        assert(j == n - 1);
        assert(a.take(n) =~= a.take(n - 1).push(a[n - 1]));
        assert(b.take(n) =~= b.take(n - 1).push(b[n - 1]));
    }
}

/// A map has one ascending listing.
pub proof fn lemma_listing_unique<K, V>(
    entries: Seq<(K, V)>,
    map: Map<K, V>,
    lt: spec_fn(K, K) -> bool,
)
    requires
        strict_order(lt),
        lists(entries, map, lt),
    ensures
        listing(map, lt) == entries,
{
    let other = listing(map, lt);
    lemma_lists_prefix(entries, other, map, lt, entries.len() as int);
    lemma_lists_prefix(other, entries, map, lt, other.len() as int);
    assert(entries.take(entries.len() as int) =~= entries);
    assert(other.take(other.len() as int) =~= other);
}

/// Byte strings in lexicographic order.
pub open spec fn bytes_before(a: Seq<u8>, b: Seq<u8>) -> bool
    decreases a.len(),
{
    if b.len() == 0 {
        false
    } else if a.len() == 0 {
        true
    } else if a[0] != b[0] {
        a[0] < b[0]
    } else {
        bytes_before(a.skip(1), b.skip(1))
    }
}

proof fn lemma_bytes_irreflexive(a: Seq<u8>)
    ensures
        !bytes_before(a, a),
    decreases a.len(),
{
    if a.len() > 0 {
        lemma_bytes_irreflexive(a.skip(1));
    }
}

proof fn lemma_bytes_transitive(a: Seq<u8>, b: Seq<u8>, c: Seq<u8>)
    requires
        bytes_before(a, b),
        bytes_before(b, c),
    ensures
        bytes_before(a, c),
    decreases a.len(),
{
    if a.len() > 0 && a[0] == b[0] && b[0] == c[0] {
        lemma_bytes_transitive(a.skip(1), b.skip(1), c.skip(1));
    }
}

proof fn lemma_bytes_total(a: Seq<u8>, b: Seq<u8>)
    ensures
        bytes_before(a, b) || a == b || bytes_before(b, a),
    decreases a.len(),
{
    if a.len() == 0 && b.len() == 0 {
        assert(a =~= b);
    } else if a.len() > 0 && b.len() > 0 && a[0] == b[0] {
        lemma_bytes_total(a.skip(1), b.skip(1));
        if a.skip(1) == b.skip(1) {
            assert forall|i: int| 0 <= i < a.len() implies a[i] == b[i] by {
                if i > 0 {
                    assert(a.skip(1)[i - 1] == b.skip(1)[i - 1]);
                }
            }
            assert(a.skip(1).len() == b.skip(1).len());
            assert(a =~= b);
        }
    }
}

/// The order of byte strings, as a value.
pub open spec fn bytes_order() -> spec_fn(Seq<u8>, Seq<u8>) -> bool {
    |a: Seq<u8>, b: Seq<u8>| bytes_before(a, b)
}

/// The order of entity bits, as a value.
pub open spec fn bits_order() -> spec_fn(u64, u64) -> bool {
    |a: u64, b: u64| a < b
}

pub proof fn lemma_bytes_order()
    ensures
        strict_order(bytes_order()),
{
    let lt = bytes_order();
    assert forall|a: Seq<u8>| !#[trigger] lt(a, a) by {
        lemma_bytes_irreflexive(a);
    }
    assert forall|a: Seq<u8>, b: Seq<u8>, c: Seq<u8>| #[trigger] lt(a, b) && #[trigger] lt(
        b,
        c,
    ) implies lt(a, c) by {
        lemma_bytes_transitive(a, b, c);
    }
    assert forall|a: Seq<u8>, b: Seq<u8>| #[trigger] lt(a, b) || a == b || lt(b, a) by {
        lemma_bytes_total(a, b);
    }
}

/// How two keys stand to each other.
#[derive(Clone, Copy, Debug, PartialEq, Eq, Structural)]
pub enum Rank {
    Before,
    Same,
    After,
}

/// A key with an order on its view.
pub trait SortKey: View + Sized {
    spec fn order() -> spec_fn(Self::V, Self::V) -> bool;

    proof fn lemma_order()
        ensures
            strict_order(Self::order()),
    ;

    fn rank(&self, other: &Self) -> (r: Rank)
        ensures
            match r {
                Rank::Before => Self::order()(self@, other@),
                Rank::Same => self@ == other@,
                Rank::After => Self::order()(other@, self@),
            },
    ;
}

/// Entity bits as a key.
#[derive(Clone, Copy, Debug, PartialEq, Eq)]
pub struct Bits(pub u64);

impl View for Bits {
    type V = u64;

    open spec fn view(&self) -> u64 {
        self.0
    }
}

impl SortKey for Bits {
    open spec fn order() -> spec_fn(u64, u64) -> bool {
        bits_order()
    }

    proof fn lemma_order() {
    }

    fn rank(&self, other: &Bits) -> (r: Rank) {
        if self.0 < other.0 {
            Rank::Before
        } else if self.0 == other.0 {
            Rank::Same
        } else {
            Rank::After
        }
    }
}

impl SortKey for Vec<u8> {
    open spec fn order() -> spec_fn(Seq<u8>, Seq<u8>) -> bool {
        bytes_order()
    }

    proof fn lemma_order() {
        lemma_bytes_order();
    }

    fn rank(&self, other: &Vec<u8>) -> (r: Rank) {
        let mut i: usize = 0;
        assert(self@.skip(0) =~= self@);
        assert(other@.skip(0) =~= other@);
        while i < self.len() && i < other.len()
            invariant
                i <= self@.len(),
                i <= other@.len(),
                forall|k: int| 0 <= k < i ==> self@[k] == other@[k],
                bytes_before(self@, other@) == bytes_before(
                    self@.skip(i as int),
                    other@.skip(i as int),
                ),
                bytes_before(other@, self@) == bytes_before(
                    other@.skip(i as int),
                    self@.skip(i as int),
                ),
            decreases self@.len() - i,
        {
            assert(self@.skip(i as int)[0] == self@[i as int]);
            assert(other@.skip(i as int)[0] == other@[i as int]);
            if self[i] < other[i] {
                return Rank::Before;
            }
            if self[i] > other[i] {
                return Rank::After;
            }
            assert(self@.skip(i as int).skip(1) =~= self@.skip(i + 1));
            assert(other@.skip(i as int).skip(1) =~= other@.skip(i + 1));
            i = i + 1;
        }
        if i < other.len() {
            Rank::Before
        } else if i < self.len() {
            Rank::After
        } else {
            assert(self@ =~= other@);
            Rank::Same
        }
    }
}

/// A map as a vector sorted by key.
pub struct SortedMap<K, V> {
    pub entries: Vec<(K, V)>,
}

pub open spec fn entry_views<K: SortKey, V: View>(entries: Seq<(K, V)>) -> Seq<
    (<K as View>::V, <V as View>::V),
> {
    Seq::new(entries.len(), |i: int| (entries[i].0@, entries[i].1@))
}

/// Keys ascend, so none occurs twice.
pub open spec fn is_sorted<K, V>(entries: Seq<(K, V)>, lt: spec_fn(K, K) -> bool) -> bool {
    forall|i: int, j: int|
        #![trigger entries[i], entries[j]]
        0 <= i < j < entries.len() ==> lt(entries[i].0, entries[j].0)
}

/// The map that a listing stands for.
pub open spec fn map_of<K, V>(entries: Seq<(K, V)>) -> Map<K, V> {
    Map::new(
        |k: K| exists|i: int| 0 <= i < entries.len() && (#[trigger] entries[i]).0 == k,
        |k: K|
            entries[choose|i: int| 0 <= i < entries.len() && (#[trigger] entries[i]).0 == k].1,
    )
}

/// A sorted vector lists the map it stands for.
pub proof fn lemma_sorted_lists<K, V>(entries: Seq<(K, V)>, lt: spec_fn(K, K) -> bool)
    requires
        strict_order(lt),
        is_sorted(entries, lt),
    ensures
        lists(entries, map_of(entries), lt),
{
    let map = map_of(entries);
    assert forall|i: int|
        #![trigger entries[i]]
        0 <= i < entries.len() implies map.contains_key(entries[i].0) && map[entries[i].0]
        == entries[i].1 by {
        let k = entries[i].0;
        let j = choose|j: int| 0 <= j < entries.len() && (#[trigger] entries[j]).0 == k;
        if i < j {
            assert(lt(entries[i].0, entries[j].0));
            assert(lt(k, k));
        } else if j < i {
            assert(lt(entries[j].0, entries[i].0));
            assert(lt(k, k));
        }
    }
}

/// A listing stands for the map it lists.
pub proof fn lemma_lists_is<K, V>(entries: Seq<(K, V)>, map: Map<K, V>, lt: spec_fn(K, K) -> bool)
    requires
        lists(entries, map, lt),
    ensures
        is_sorted(entries, lt),
        map_of(entries) == map,
{
    assert forall|k: K| map_of(entries).contains_key(k) <==> map.contains_key(k) by {
        if map_of(entries).contains_key(k) {
            let i = choose|i: int| 0 <= i < entries.len() && (#[trigger] entries[i]).0 == k;
            assert(map.contains_key(entries[i].0));
        }
    }
    assert forall|k: K| map_of(entries).contains_key(k) implies map_of(entries)[k] == map[k] by {
        let i = choose|i: int| 0 <= i < entries.len() && (#[trigger] entries[i]).0 == k;
        assert(map[entries[i].0] == entries[i].1);
    }
    assert(map_of(entries) =~= map);
}

/// `value` is that of an entry.
pub open spec fn among<K, V>(entries: Seq<(K, V)>, value: V) -> bool {
    exists|j: int| 0 <= j < entries.len() && (#[trigger] entries[j]).1 == value
}

proof fn lemma_among<K, V>(entries: Seq<(K, V)>, j: int)
    requires
        0 <= j < entries.len(),
    ensures
        among(entries, entries[j].1),
{
}

impl<K: SortKey, V: View> View for SortedMap<K, V> {
    type V = Map<<K as View>::V, <V as View>::V>;

    open spec fn view(&self) -> Map<<K as View>::V, <V as View>::V> {
        map_of(entry_views(self.entries@))
    }
}

impl<K: SortKey, V: View> SortedMap<K, V> {
    pub open spec fn sorted(&self) -> bool {
        is_sorted(entry_views(self.entries@), K::order())
    }

    /// A sorted vector is the ascending listing of its map.
    pub proof fn lemma_is_listing(&self)
        requires
            self.sorted(),
        ensures
            listing(self@, K::order()) == entry_views(self.entries@),
    {
        K::lemma_order();
        lemma_sorted_lists(entry_views(self.entries@), K::order());
        lemma_listing_unique(entry_views(self.entries@), self@, K::order());
    }

    pub fn new() -> (m: SortedMap<K, V>)
        ensures
            m.sorted(),
            m@ == Map::<<K as View>::V, <V as View>::V>::empty(),
            m.entries@.len() == 0,
    {
        let m: SortedMap<K, V> = SortedMap { entries: Vec::new() };
        assert(m@ =~= Map::empty());
        m
    }

    /// The place of `key`: its entry, or where it would be inserted.
    fn place(&self, key: &K) -> (r: (usize, bool))
        requires
            self.sorted(),
        ensures
            r.0 <= self.entries@.len(),
            r.1 == self@.contains_key(key@),
            r.1 ==> r.0 < self.entries@.len() && self.entries@[r.0 as int].0@ == key@
                && self.entries@[r.0 as int].1@ == self@[key@],
            !r.1 ==> {
                &&& forall|i: int|
                    0 <= i < r.0 ==> K::order()((#[trigger] self.entries@[i]).0@, key@)
                &&& forall|i: int|
                    r.0 <= i < self.entries@.len() ==> K::order()(
                        key@,
                        (#[trigger] self.entries@[i]).0@,
                    )
            },
    {
        let ghost views = entry_views(self.entries@);
        let ghost map = self@;
        proof {
            K::lemma_order();
            lemma_sorted_lists(views, K::order());
        }
        let mut i: usize = 0;
        while i < self.entries.len()
            invariant
                i <= self.entries@.len(),
                map == self@,
                lists(views, map, K::order()),
                views == entry_views(self.entries@),
                strict_order(K::order()),
                forall|k: int| 0 <= k < i ==> K::order()((#[trigger] self.entries@[k]).0@, key@),
            decreases self.entries@.len() - i,
        {
            assert(views[i as int] == (self.entries@[i as int].0@, self.entries@[i as int].1@));
            match self.entries[i].0.rank(key) {
                Rank::Before => {},
                Rank::Same => {
                    return (i, true);
                },
                Rank::After => {
                    assert forall|k: int| i <= k < self.entries@.len() implies K::order()(
                        key@,
                        (#[trigger] self.entries@[k]).0@,
                    ) by {
                        assert(views[k].0 == self.entries@[k].0@);
                        if k > i {
                            assert(K::order()(views[i as int].0, views[k].0));
                        }
                    }
                    proof {
                        if map.contains_key(key@) {
                            let k = choose|k: int|
                                0 <= k < views.len() && (#[trigger] views[k]).0 == key@;
                            assert(self.entries@[k].0@ == key@);
                            assert(K::order()(key@, key@));
                        }
                    }
                    return (i, false);
                },
            }
            i = i + 1;
        }
        proof {
            if map.contains_key(key@) {
                let k = choose|k: int| 0 <= k < views.len() && (#[trigger] views[k]).0 == key@;
                assert(self.entries@[k].0@ == key@);
                assert(K::order()(key@, key@));
            }
        }
        (i, false)
    }

    /// Replaces the value of `key`, or adds it.
    pub fn put(&mut self, key: K, value: V)
        requires
            old(self).sorted(),
        ensures
            final(self).sorted(),
            final(self)@ == old(self)@.insert(key@, value@),
            forall|i: int|
                #![trigger final(self).entries@[i]]
                0 <= i < final(self).entries@.len() ==> final(self).entries@[i].1 == value || among(
                    old(self).entries@,
                    final(self).entries@[i].1,
                ),
    {
        let (at, found) = self.place(&key);
        let ghost before = self.entries@;
        let ghost map = self@;
        let ghost views = entry_views(before);
        let ghost (k, v) = (key@, value@);
        proof {
            K::lemma_order();
            lemma_sorted_lists(views, K::order());
        }
        if found {
            self.entries.set(at, (key, value));
            proof {
                assert(views[at as int].0 == before[at as int].0@);
                lemma_set(views, map, K::order(), at as int, k, v);
                assert(entry_views(self.entries@) =~= views.update(at as int, (k, v)));
                assert forall|i: int|
                    #![trigger self.entries@[i]]
                    0 <= i < self.entries@.len() implies self.entries@[i].1 == value || among(
                    before,
                    self.entries@[i].1,
                ) by {
                    if i != at {
                        assert(before[i].1 == self.entries@[i].1);
                    }
                }
            }
        } else {
            self.entries.insert(at, (key, value));
            proof {
                assert forall|i: int| 0 <= i < at implies K::order()((#[trigger] views[i]).0, k) by {
                    assert(views[i].0 == before[i].0@);
                }
                assert forall|i: int| at <= i < views.len() implies K::order()(
                    k,
                    (#[trigger] views[i]).0,
                ) by {
                    assert(views[i].0 == before[i].0@);
                }
                lemma_insert(views, map, K::order(), at as int, k, v);
                assert(entry_views(self.entries@) =~= views.insert(at as int, (k, v)));
                assert forall|i: int|
                    #![trigger self.entries@[i]]
                    0 <= i < self.entries@.len() implies self.entries@[i].1 == value || among(
                    before,
                    self.entries@[i].1,
                ) by {
                    if i < at {
                        assert(before[i].1 == self.entries@[i].1);
                    } else if i > at {
                        assert(before[i - 1].1 == self.entries@[i].1);
                    }
                }
            }
        }
        proof {
            lemma_lists_is(entry_views(self.entries@), map.insert(k, v), K::order());
        }
    }

    /// Takes the value of `key` out, or gives `None` where it has none.
    pub fn take(&mut self, key: &K) -> (r: Option<V>)
        requires
            old(self).sorted(),
        ensures
            final(self).sorted(),
            final(self)@ == old(self)@.remove(key@),
            match r {
                Some(value) => old(self)@.contains_key(key@) && value@ == old(self)@[key@]
                    && among(old(self).entries@, value),
                None => !old(self)@.contains_key(key@),
            },
            forall|i: int|
                #![trigger final(self).entries@[i]]
                0 <= i < final(self).entries@.len() ==> among(
                    old(self).entries@,
                    final(self).entries@[i].1,
                ),
    {
        let (at, found) = self.place(key);
        let ghost before = self.entries@;
        let ghost views = entry_views(before);
        if !found {
            assert(self@.remove(key@) =~= self@);
            assert forall|i: int|
                #![trigger self.entries@[i]]
                0 <= i < self.entries@.len() implies among(before, self.entries@[i].1) by {
                lemma_among(before, i);
            }
            return None;
        }
        let ghost map = self@;
        proof {
            K::lemma_order();
            lemma_sorted_lists(views, K::order());
            lemma_remove(views, map, K::order(), at as int);
            assert(views[at as int].0 == key@);
        }
        let (_, value) = self.entries.remove(at);
        proof {
            assert(before[at as int].1 == value);
            assert(entry_views(self.entries@) =~= views.remove(at as int));
            lemma_lists_is(entry_views(self.entries@), map.remove(key@), K::order());
            assert forall|i: int|
                #![trigger self.entries@[i]]
                0 <= i < self.entries@.len() implies among(before, self.entries@[i].1) by {
                let j = if i < at { i } else { i + 1 };
                lemma_among(before, j);
            }
        }
        Some(value)
    }
}

proof fn lemma_set<K, V>(
    s: Seq<(K, V)>,
    map: Map<K, V>,
    lt: spec_fn(K, K) -> bool,
    at: int,
    k: K,
    v: V,
)
    requires
        lists(s, map, lt),
        0 <= at < s.len(),
        s[at].0 == k,
        strict_order(lt),
    ensures
        lists(s.update(at, (k, v)), map.insert(k, v), lt),
{
    let t = s.update(at, (k, v));
    let m = map.insert(k, v);
    assert forall|i: int, j: int|
        #![trigger t[i], t[j]]
        0 <= i < j < t.len() implies lt(t[i].0, t[j].0) by {
        assert(lt(s[i].0, s[j].0));
    }
    assert forall|i: int|
        #![trigger t[i]]
        0 <= i < t.len() implies m.contains_key(t[i].0) && m[t[i].0] == t[i].1 by {
        if i != at {
            assert(t[i] == s[i]);
            if s[i].0 == k {
                assert(lt(s[i].0, s[at].0) || lt(s[at].0, s[i].0));
                assert(lt(k, k));
            }
        }
    }
    assert forall|x: K| #[trigger] m.contains_key(x) implies exists|i: int|
        0 <= i < t.len() && (#[trigger] t[i]).0 == x by {
        if x == k {
            assert(t[at].0 == x);
        } else {
            assert(map.contains_key(x));
            let i = choose|i: int| 0 <= i < s.len() && (#[trigger] s[i]).0 == x;
            assert(t[i].0 == x);
        }
    }
}

proof fn lemma_insert<K, V>(
    s: Seq<(K, V)>,
    map: Map<K, V>,
    lt: spec_fn(K, K) -> bool,
    at: int,
    k: K,
    v: V,
)
    requires
        lists(s, map, lt),
        0 <= at <= s.len(),
        !map.contains_key(k),
        strict_order(lt),
        forall|i: int| 0 <= i < at ==> lt((#[trigger] s[i]).0, k),
        forall|i: int| at <= i < s.len() ==> lt(k, (#[trigger] s[i]).0),
    ensures
        lists(s.insert(at, (k, v)), map.insert(k, v), lt),
{
    let t = s.insert(at, (k, v));
    let m = map.insert(k, v);
    assert forall|i: int, j: int|
        #![trigger t[i], t[j]]
        0 <= i < j < t.len() implies lt(t[i].0, t[j].0) by {
        if j < at {
            assert(lt(s[i].0, s[j].0));
        } else if i > at {
            assert(lt(s[i - 1].0, s[j - 1].0));
        } else if i < at && j > at {
            assert(lt(s[i].0, s[j - 1].0));
        } else if i == at {
            assert(t[j] == s[j - 1]);
        } else {
            assert(t[i] == s[i]);
        }
    }
    assert forall|i: int|
        #![trigger t[i]]
        0 <= i < t.len() implies m.contains_key(t[i].0) && m[t[i].0] == t[i].1 by {
        if i < at {
            assert(t[i] == s[i]);
        } else if i > at {
            assert(t[i] == s[i - 1]);
        }
    }
    assert forall|x: K| #[trigger] m.contains_key(x) implies exists|i: int|
        0 <= i < t.len() && (#[trigger] t[i]).0 == x by {
        if x == k {
            assert(t[at].0 == x);
        } else {
            assert(map.contains_key(x));
            let i = choose|i: int| 0 <= i < s.len() && (#[trigger] s[i]).0 == x;
            if i < at {
                assert(t[i].0 == x);
            } else {
                assert(t[i + 1].0 == x);
            }
        }
    }
}

proof fn lemma_remove<K, V>(s: Seq<(K, V)>, map: Map<K, V>, lt: spec_fn(K, K) -> bool, at: int)
    requires
        lists(s, map, lt),
        0 <= at < s.len(),
        strict_order(lt),
    ensures
        lists(s.remove(at), map.remove(s[at].0), lt),
{
    let t = s.remove(at);
    let m = map.remove(s[at].0);
    assert forall|i: int, j: int|
        #![trigger t[i], t[j]]
        0 <= i < j < t.len() implies lt(t[i].0, t[j].0) by {
        let i0 = if i < at { i } else { i + 1 };
        let j0 = if j < at { j } else { j + 1 };
        assert(lt(s[i0].0, s[j0].0));
    }
    assert forall|i: int|
        #![trigger t[i]]
        0 <= i < t.len() implies m.contains_key(t[i].0) && m[t[i].0] == t[i].1 by {
        let i0 = if i < at { i } else { i + 1 };
        assert(t[i] == s[i0]);
        if i0 < at {
            assert(lt(s[i0].0, s[at].0));
        } else {
            assert(lt(s[at].0, s[i0].0));
        }
    }
    assert forall|x: K| #[trigger] m.contains_key(x) implies exists|i: int|
        0 <= i < t.len() && (#[trigger] t[i]).0 == x by {
        assert(map.contains_key(x));
        let i = choose|i: int| 0 <= i < s.len() && (#[trigger] s[i]).0 == x;
        if i < at {
            assert(t[i].0 == x);
        } else {
            assert(t[i - 1].0 == x);
        }
    }
}

} // verus!
