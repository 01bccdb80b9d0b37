//! Laws on how components are bound: from source ids to codecs, and by stable
//! name to the columns of a world.
use crate::apply;
use crate::apply::{ApplyComponent, CodecInfo, Codecs, WorldShape};
use crate::error::{CodecError, FormatIssue, WalError};
use crate::record::ComponentId;
use vstd::prelude::*;

verus! {

/// Codec `id` is registered, first under `name`.
pub open spec fn is_named(codecs: Codecs, id: ComponentId, name: String) -> bool {
    exists|i: int|
        0 <= i < codecs.entries@.len() && (#[trigger] codecs.entries@[i]).id == id
            && codecs.entries@[i].name == name && forall|j: int|
            0 <= j < i ==> (#[trigger] codecs.entries@[j]).id != id
}

/// Some codec is registered under `id`.
pub open spec fn is_registered(codecs: Codecs, id: ComponentId) -> bool {
    exists|i: int| 0 <= i < codecs.entries@.len() && (#[trigger] codecs.entries@[i]).id == id
}

proof fn lemma_name(entries: Seq<CodecInfo>, id: ComponentId, i: int)
    requires
        0 <= i <= entries.len(),
        forall|j: int| 0 <= j < i ==> (#[trigger] entries[j]).id != id,
    ensures
        match apply::name_from(entries, id, i) {
            Some(name) => exists|k: int|
                0 <= k < entries.len() && (#[trigger] entries[k]).id == id && entries[k].name
                    == name && forall|j: int| 0 <= j < k ==> (#[trigger] entries[j]).id != id,
            None => forall|j: int| 0 <= j < entries.len() ==> (#[trigger] entries[j]).id != id,
        },
    decreases entries.len() - i,
{
    if i < entries.len() && entries[i].id != id {
        lemma_name(entries, id, i + 1);
    }
}

/// A codec's stable name is the one it was registered under.
pub proof fn law_stable_name_is_registered(codecs: Codecs, id: ComponentId)
    ensures
        match codecs.spec_stable_name(id) {
            Some(name) => is_named(codecs, id, name),
            None => !is_registered(codecs, id),
        },
{
    lemma_name(codecs.entries@, id, 0);
}

/// The schema that a registry writes describes every codec, in order, by its
/// own id, name and layout.
pub proof fn law_schema_describes_codecs(codecs: Codecs)
    ensures
        codecs.spec_schema().len() == codecs.entries@.len(),
        forall|i: int|
            0 <= i < codecs.entries@.len() ==> {
                let c = #[trigger] codecs.spec_schema()[i];
                let e = codecs.entries@[i];
                c.id == e.id && c.name == e.name && c.size == e.size && c.align == e.align
            },
{
}

/// Column `at` holds the type named `name`, and no later one does.
pub open spec fn is_column(world: WorldShape, name: Seq<char>, at: int) -> bool {
    &&& 0 <= at < world.columns@.len()
    &&& world.columns@[at] matches Some(n) && n@ == name
    &&& forall|j: int|
        at < j < world.columns@.len() ==> !((#[trigger] world.columns@[j]) matches Some(n) && n@
            == name)
}

proof fn lemma_column(columns: Seq<Option<String>>, name: Seq<char>)
    ensures
        match apply::column_of(columns, name) {
            Some(at) => columns.len() <= usize::MAX ==> {
                &&& at < columns.len()
                &&& columns[at as int] matches Some(n) && n@ == name
                &&& forall|j: int|
                    at < j < columns.len() ==> !((#[trigger] columns[j]) matches Some(n) && n@
                        == name)
            },
            None => forall|j: int|
                0 <= j < columns.len() ==> !((#[trigger] columns[j]) matches Some(n) && n@ == name),
        },
    decreases columns.len(),
{
    if columns.len() > 0 && !(columns.last() matches Some(n) && n@ == name) {
        lemma_column(columns.drop_last(), name);
        let init = columns.drop_last();
        assert forall|j: int| 0 <= j < columns.len() implies columns[j] == if j < init.len() {
            init[j]
        } else {
            columns.last()
        } by {}
    }
}

/// `bound` is what source component bound to codec `codec_id` resolves to: that
/// codec, and the column of the type that goes by the codec's stable name.
pub open spec fn binds_by_name(
    bound: ApplyComponent,
    codec_id: ComponentId,
    world: WorldShape,
    codecs: Codecs,
) -> bool {
    &&& bound.codec_id == codec_id
    &&& codecs.spec_stable_name(codec_id) matches Some(name) && match bound.world_id {
        Some(at) => is_column(world, name@, at as int),
        None => forall|at: int| !is_column(world, name@, at),
    }
}

/// Pair `i` is the last one for its source component.
pub open spec fn is_last_for(pairs: Seq<(ComponentId, ComponentId)>, i: int) -> bool {
    &&& 0 <= i < pairs.len()
    &&& forall|j: int| i < j < pairs.len() ==> (#[trigger] pairs[j]).0 != pairs[i].0
}

proof fn lemma_no_column(world: WorldShape, name: Seq<char>)
    requires
        apply::column_of(world.columns@, name) is None,
    ensures
        forall|at: int| !is_column(world, name, at),
{
    lemma_column(world.columns@, name);
    assert forall|at: int| !is_column(world, name, at) by {
        if 0 <= at < world.columns@.len() {
            assert(!(world.columns@[at] matches Some(n) && n@ == name));
        }
    }
}

proof fn lemma_bound(pairs: Seq<(ComponentId, ComponentId)>, world: WorldShape, codecs: Codecs)
    ensures
        match apply::bound_pairs(pairs, world, codecs) {
            Ok(bound) => {
                &&& forall|id: ComponentId| #[trigger]
                    bound.contains_key(id) <==> exists|i: int|
                        0 <= i < pairs.len() && (#[trigger] pairs[i]).0 == id
                &&& forall|i: int| #[trigger]
                    is_last_for(pairs, i) ==> binds_by_name(
                        bound[pairs[i].0],
                        pairs[i].1,
                        world,
                        codecs,
                    )
                &&& forall|i: int|
                    0 <= i < pairs.len() ==> is_registered(codecs, (#[trigger] pairs[i]).1)
            },
            Err(e) => exists|i: int|
                0 <= i < pairs.len() && !is_registered(codecs, (#[trigger] pairs[i]).1) && e
                    == WalError::Codec(CodecError::UnregisteredComponent(pairs[i].1)),
        },
    decreases pairs.len(),
{
    if pairs.len() > 0 {
        let init = pairs.drop_last();
        let last = pairs.last();
        let n = pairs.len() - 1;
        lemma_bound(init, world, codecs);
        law_stable_name_is_registered(codecs, last.1);
        match apply::bound_pairs(init, world, codecs) {
            Err(e) => {
                let i = choose|i: int|
                    0 <= i < init.len() && !is_registered(codecs, (#[trigger] init[i]).1) && e
                        == WalError::Codec(CodecError::UnregisteredComponent(init[i].1));
                assert(pairs[i] == init[i]);
            },
            Ok(before) => {
                match codecs.spec_stable_name(last.1) {
                    None => {
                        assert(pairs[n] == last);
                    },
                    Some(name) => {
                        let bound = apply::bound_pairs(pairs, world, codecs)->Ok_0;
                        assert(world.columns.len() == world.columns@.len());
                        lemma_column(world.columns@, name@);
                        if apply::column_of(world.columns@, name@) is None {
                            lemma_no_column(world, name@);
                        }
                        assert(binds_by_name(bound[last.0], last.1, world, codecs));
                        assert forall|id: ComponentId| #[trigger]
                            bound.contains_key(id) <==> exists|i: int|
                                0 <= i < pairs.len() && (#[trigger] pairs[i]).0 == id by {
                            assert(pairs[n].0 == last.0);
                            if before.contains_key(id) {
                                let i = choose|i: int|
                                    0 <= i < init.len() && (#[trigger] init[i]).0 == id;
                                assert(pairs[i].0 == id);
                            }
                            if exists|i: int| 0 <= i < pairs.len() && (#[trigger] pairs[i]).0
                                == id {
                                let i = choose|i: int|
                                    0 <= i < pairs.len() && (#[trigger] pairs[i]).0 == id;
                                if i < n {
                                    assert(init[i].0 == id);
                                }
                            }
                        }
                        assert forall|i: int| #[trigger] is_last_for(pairs, i) implies binds_by_name(
                            bound[pairs[i].0],
                            pairs[i].1,
                            world,
                            codecs,
                        ) by {
                            if i < n {
                                assert(pairs[n].0 != pairs[i].0);
                                assert(init[i] == pairs[i]);
                                assert forall|j: int| i < j < init.len() implies (
                                #[trigger] init[j]).0 != init[i].0 by {
                                    assert(pairs[j] == init[j]);
                                }
                                assert(is_last_for(init, i));
                            }
                        }
                        assert forall|i: int| 0 <= i < pairs.len() implies is_registered(
                            codecs,
                            (#[trigger] pairs[i]).1,
                        ) by {
                            if i < n {
                                assert(init[i] == pairs[i]);
                            } else {
                                let k = choose|k: int|
                                    0 <= k < codecs.entries@.len() && (
                                    #[trigger] codecs.entries@[k]).id == last.1;
                                assert(codecs.entries@[k].id == last.1);
                            }
                        }
                    },
                }
            },
        }
    }
}

/// No source component and no codec occurs twice, and there are `count` pairs.
pub open spec fn is_one_to_one(pairs: Seq<(ComponentId, ComponentId)>, count: int) -> bool {
    &&& pairs.len() == count
    &&& forall|i: int, j: int|
        #![trigger pairs[i], pairs[j]]
        0 <= i < j < pairs.len() ==> pairs[i].0 != pairs[j].0 && pairs[i].1 != pairs[j].1
}

proof fn lemma_distinct(s: Seq<ComponentId>)
    ensures
        s.to_set().len() <= s.len(),
        s.to_set().len() == s.len() <==> s.no_duplicates(),
    decreases s.len(),
{
    if s.no_duplicates() {
        s.unique_seq_to_set();
    } else {
        let init = s.drop_last();
        lemma_distinct(init);
        assert(s =~= init.push(s.last()));
        assert(s.to_set() =~= init.to_set().insert(s.last())) by {
            assert forall|x: ComponentId| s.to_set().contains(x) <==> init.to_set().insert(
                s.last(),
            ).contains(x) by {
                if s.contains(x) {
                    let i = choose|i: int| 0 <= i < s.len() && s[i] == x;
                    if i < init.len() {
                        assert(init[i] == x);
                    }
                }
                if init.contains(x) {
                    let i = choose|i: int| 0 <= i < init.len() && init[i] == x;
                    assert(s[i] == x);
                }
                assert(s[s.len() - 1] == s.last());
            }
        }
        if init.no_duplicates() {
            if !init.contains(s.last()) {
                assert forall|i: int, j: int|
                    0 <= i < j < s.len() implies s[i] != s[j] by {
                    assert(init[i] == s[i]);
                    if j < init.len() {
                        assert(init[j] == s[j]);
                    } else {
                        assert(init.contains(init[i]));
                    }
                }
                assert(s.no_duplicates());
            }
            assert(init.to_set().contains(s.last()));
            assert(init.to_set().insert(s.last()) =~= init.to_set());
        }
        assert(init.to_set().finite());
    }
}

proof fn lemma_one_to_one(pairs: Seq<(ComponentId, ComponentId)>, count: int)
    requires
        pairs.len() == count,
    ensures
        apply::pair_sources(pairs).len() == count && apply::pair_codecs(pairs).len() == count
            <==> is_one_to_one(pairs, count),
{
    let s = Seq::new(pairs.len(), |i: int| pairs[i].0);
    let t = Seq::new(pairs.len(), |i: int| pairs[i].1);
    lemma_distinct(s);
    lemma_distinct(t);
    if s.no_duplicates() && t.no_duplicates() {
        assert forall|i: int, j: int|
            #![trigger pairs[i], pairs[j]]
            0 <= i < j < pairs.len() implies pairs[i].0 != pairs[j].0 && pairs[i].1
            != pairs[j].1 by {
            assert(s[i] != s[j]);
            assert(t[i] != t[j]);
        }
    }
    if is_one_to_one(pairs, count) {
        assert forall|i: int, j: int| 0 <= i < j < s.len() implies s[i] != s[j] by {
            assert(pairs[i].0 != pairs[j].0);
        }
        assert forall|i: int, j: int| 0 <= i < j < t.len() implies t[i] != t[j] by {
            assert(pairs[i].1 != pairs[j].1);
        }
        assert(s.no_duplicates());
        assert(t.no_duplicates());
    }
}

/// A schema is bound component by component: each to the codec of its own
/// name, and to the column that holds the type of that name, whatever its
/// number in the world. A schema that names a component or a codec twice is
/// refused, and so is one with a codec that is not registered.
pub proof fn law_schema_binds_by_name(
    count: usize,
    pairs: Vec<(ComponentId, ComponentId)>,
    world: WorldShape,
    codecs: Codecs,
)
    requires
        pairs@.len() == count,
    ensures
        match apply::apply_remap(Some((count, Ok(pairs))), world, codecs) {
            Ok(bound) => {
                &&& is_one_to_one(pairs@, count as int)
                &&& forall|i: int|
                    0 <= i < pairs@.len() ==> bound.contains_key((#[trigger] pairs@[i]).0)
                        && binds_by_name(bound[pairs@[i].0], pairs@[i].1, world, codecs)
                &&& forall|id: ComponentId| #[trigger]
                    bound.contains_key(id) ==> exists|i: int|
                        0 <= i < pairs@.len() && (#[trigger] pairs@[i]).0 == id
            },
            Err(e) => {
                ||| !is_one_to_one(pairs@, count as int) && e == WalError::Format(
                    FormatIssue::Text("duplicate component ID or name in WAL schema"),
                )
                ||| exists|i: int|
                    0 <= i < pairs@.len() && !is_registered(codecs, (#[trigger] pairs@[i]).1) && e
                        == WalError::Codec(CodecError::UnregisteredComponent(pairs@[i].1))
            },
        },
        apply::apply_remap(Some((count, Ok(pairs))), world, codecs) is Ok <==> {
            &&& is_one_to_one(pairs@, count as int)
            &&& forall|i: int|
                0 <= i < pairs@.len() ==> is_registered(codecs, (#[trigger] pairs@[i]).1)
        },
{
    lemma_one_to_one(pairs@, count as int);
    lemma_bound(pairs@, world, codecs);
    if let Ok(bound) = apply::apply_remap(Some((count, Ok(pairs))), world, codecs) {
        assert forall|i: int| 0 <= i < pairs@.len() implies bound.contains_key(
            (#[trigger] pairs@[i]).0,
        ) && binds_by_name(bound[pairs@[i].0], pairs@[i].1, world, codecs) by {
            assert(is_last_for(pairs@, i));
        }
    }
}

/// A registry that cannot bind a schema's names has the schema refused.
pub proof fn law_unbound_schema_is_refused(
    count: usize,
    e: CodecError,
    world: WorldShape,
    codecs: Codecs,
)
    ensures
        apply::apply_remap(Some((count, Err(e))), world, codecs) == Err::<
            Map<ComponentId, ApplyComponent>,
            WalError,
        >(WalError::Codec(e)),
{
}

/// Without a schema every codec id stands for itself, and still goes to the
/// column that holds the type of its name.
pub proof fn law_codecs_stand_for_themselves(world: WorldShape, codecs: Codecs)
    ensures
        apply::apply_remap(None, world, codecs) matches Ok(bound) && {
            &&& forall|id: ComponentId| #[trigger]
                bound.contains_key(id) <==> is_registered(codecs, id)
            &&& forall|id: ComponentId| #[trigger]
                bound.contains_key(id) ==> binds_by_name(bound[id], id, world, codecs)
        },
{
    let pairs = codecs.spec_identity();
    lemma_bound(pairs, world, codecs);
    if let Err(e) = apply::bound_pairs(pairs, world, codecs) {
        let i = choose|i: int|
            0 <= i < pairs.len() && !is_registered(codecs, (#[trigger] pairs[i]).1) && e
                == WalError::Codec(CodecError::UnregisteredComponent(pairs[i].1));
        assert(codecs.entries@[i].id == pairs[i].1);
    } else {
        let bound = apply::bound_pairs(pairs, world, codecs)->Ok_0;
        assert forall|id: ComponentId| #[trigger] bound.contains_key(id) <==> is_registered(
            codecs,
            id,
        ) by {
            if bound.contains_key(id) {
                let i = choose|i: int| 0 <= i < pairs.len() && (#[trigger] pairs[i]).0 == id;
                assert(codecs.entries@[i].id == id);
            }
            if is_registered(codecs, id) {
                let i = choose|i: int|
                    0 <= i < codecs.entries@.len() && (#[trigger] codecs.entries@[i]).id == id;
                assert(pairs[i].0 == id);
            }
        }
        assert forall|id: ComponentId| #[trigger] bound.contains_key(id) implies binds_by_name(
            bound[id],
            id,
            world,
            codecs,
        ) by {
            let i = choose|i: int| 0 <= i < pairs.len() && (#[trigger] pairs[i]).0 == id;
            let last = lemma_last(pairs, id, i);
            assert(pairs[last].1 == id);
        }
    }
}

proof fn lemma_last(pairs: Seq<(ComponentId, ComponentId)>, id: ComponentId, i: int) -> (last: int)
    requires
        0 <= i < pairs.len(),
        pairs[i].0 == id,
    ensures
        is_last_for(pairs, last),
        pairs[last].0 == id,
    decreases pairs.len() - i,
{
    if exists|j: int| i < j < pairs.len() && (#[trigger] pairs[j]).0 == id {
        let j = choose|j: int| i < j < pairs.len() && (#[trigger] pairs[j]).0 == id;
        lemma_last(pairs, id, j)
    } else {
        i
    }
}

} // verus!
