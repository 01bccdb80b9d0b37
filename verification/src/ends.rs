//! The published byte ends of segments, keyed and ordered by start sequence.
use vstd::prelude::*;

verus! {

/// No start occurs twice, and starts ascend.
pub open spec fn ascending(ends: Seq<(u64, u64)>) -> bool {
    forall|i: int, j: int|
        #![trigger ends[i], ends[j]]
        0 <= i < j < ends.len() ==> ends[i].0 < ends[j].0
}

pub open spec fn has_start(ends: Seq<(u64, u64)>, start: u64) -> bool {
    exists|i: int| 0 <= i < ends.len() && (#[trigger] ends[i]).0 == start
}

/// `ends` with `start` published up to `end`.
pub open spec fn with_end(ends: Seq<(u64, u64)>, start: u64, end: u64) -> Seq<(u64, u64)>
    decreases ends.len(),
{
    if ends.len() == 0 {
        seq![(start, end)]
    } else if ends.last().0 < start {
        ends.push((start, end))
    } else if ends.last().0 == start {
        ends.drop_last().push((start, end))
    } else {
        with_end(ends.drop_last(), start, end).push(ends.last())
    }
}

/// `ends` without `start`.
pub open spec fn without_start(ends: Seq<(u64, u64)>, start: u64) -> Seq<(u64, u64)>
    decreases ends.len(),
{
    if ends.len() == 0 {
        ends
    } else if ends.last().0 == start {
        without_start(ends.drop_last(), start)
    } else {
        without_start(ends.drop_last(), start).push(ends.last())
    }
}

pub proof fn lemma_with_end(ends: Seq<(u64, u64)>, start: u64, end: u64)
    requires
        ascending(ends),
    ensures
        ascending(with_end(ends, start, end)),
        with_end(ends, start, end).contains((start, end)),
        has_start(with_end(ends, start, end), start),
        forall|s: u64| has_start(ends, s) ==> #[trigger] has_start(with_end(ends, start, end), s),
        forall|i: int|
            0 <= i < with_end(ends, start, end).len() ==> {
                let e = #[trigger] with_end(ends, start, end)[i];
                e == (start, end) || (e.0 != start && ends.contains(e))
            },
    decreases ends.len(),
{
    let out = with_end(ends, start, end);
    if ends.len() == 0 {
        assert(out[0] == (start, end));
    } else {
        let init = ends.drop_last();
        let last = ends.last();
        assert(ascending(init)) by {
            assert forall|i: int, j: int|
                #![trigger init[i], init[j]]
                0 <= i < j < init.len() implies init[i].0 < init[j].0 by {
                assert(ends[i].0 < ends[j].0);
            }
        }
        if last.0 < start {
            assert(out[ends.len() as int] == (start, end));
            assert forall|i: int, j: int|
                #![trigger out[i], out[j]]
                0 <= i < j < out.len() implies out[i].0 < out[j].0 by {
                if j == ends.len() {
                    if i < ends.len() - 1 {
                        assert(ends[i].0 < ends[ends.len() - 1].0);
                    }
                } else {
                    assert(ends[i].0 < ends[j].0);
                }
            }
            assert forall|s: u64| has_start(ends, s) implies #[trigger] has_start(out, s) by {
                let i = choose|i: int| 0 <= i < ends.len() && (#[trigger] ends[i]).0 == s;
                assert(out[i].0 == s);
            }
            assert forall|i: int| 0 <= i < out.len() implies {
                let e = #[trigger] out[i];
                e == (start, end) || (e.0 != start && ends.contains(e))
            } by {
                if i < ends.len() {
                    assert(out[i] == ends[i]);
                    if i < ends.len() - 1 {
                        assert(ends[i].0 < ends[ends.len() - 1].0);
                    }
                }
            }
        } else if last.0 == start {
            assert(out[ends.len() - 1] == (start, end));
            assert forall|i: int, j: int|
                #![trigger out[i], out[j]]
                0 <= i < j < out.len() implies out[i].0 < out[j].0 by {
                assert(ends[i].0 < ends[j].0);
            }
            assert forall|s: u64| has_start(ends, s) implies #[trigger] has_start(out, s) by {
                let i = choose|i: int| 0 <= i < ends.len() && (#[trigger] ends[i]).0 == s;
                assert(out[i].0 == s);
            }
            assert forall|i: int| 0 <= i < out.len() implies {
                let e = #[trigger] out[i];
                e == (start, end) || (e.0 != start && ends.contains(e))
            } by {
                if i < ends.len() - 1 {
                    assert(out[i] == ends[i]);
                    assert(ends[i].0 < ends[ends.len() - 1].0);
                }
            }
        } else {
            lemma_with_end(init, start, end);
            let inner = with_end(init, start, end);
            let k = choose|k: int| 0 <= k < inner.len() && inner[k] == (start, end);
            assert(out[k] == (start, end));
            assert forall|i: int, j: int|
                #![trigger out[i], out[j]]
                0 <= i < j < out.len() implies out[i].0 < out[j].0 by {
                assert(out[i] == inner[i]);
                if j == inner.len() {
                    if inner[i] != (start, end) {
                        assert(init.contains(inner[i]));
                        let m = choose|m: int| 0 <= m < init.len() && init[m] == inner[i];
                        assert(ends[m].0 < ends[ends.len() - 1].0);
                    }
                } else {
                    assert(out[j] == inner[j]);
                }
            }
            assert forall|s: u64| has_start(ends, s) implies #[trigger] has_start(out, s) by {
                let i = choose|i: int| 0 <= i < ends.len() && (#[trigger] ends[i]).0 == s;
                if i < ends.len() - 1 {
                    assert(init[i].0 == s);
                    assert(has_start(init, s));
                    assert(has_start(inner, s));
                    let m = choose|m: int| 0 <= m < inner.len() && (#[trigger] inner[m]).0 == s;
                    assert(out[m].0 == s);
                } else {
                    assert(out[inner.len() as int].0 == s);
                }
            }
            assert forall|i: int| 0 <= i < out.len() implies {
                let e = #[trigger] out[i];
                e == (start, end) || (e.0 != start && ends.contains(e))
            } by {
                if i < inner.len() {
                    assert(out[i] == inner[i]);
                    if inner[i] != (start, end) {
                        let m = choose|m: int| 0 <= m < init.len() && init[m] == inner[i];
                        assert(ends[m] == inner[i]);
                    }
                } else {
                    assert(out[i] == ends[ends.len() - 1]);
                }
            }
        }
    }
}

pub proof fn lemma_without_start(ends: Seq<(u64, u64)>, start: u64)
    requires
        ascending(ends),
    ensures
        ascending(without_start(ends, start)),
        !has_start(without_start(ends, start), start),
        forall|s: u64|
            s != start && has_start(ends, s) ==> #[trigger] has_start(
                without_start(ends, start),
                s,
            ),
        forall|i: int|
            0 <= i < without_start(ends, start).len() ==> ends.contains(
                #[trigger] without_start(ends, start)[i],
            ),
    decreases ends.len(),
{
    if ends.len() > 0 {
        let init = ends.drop_last();
        let last = ends.last();
        let inner = without_start(init, start);
        let out = without_start(ends, start);
        assert forall|i: int, j: int|
            #![trigger init[i], init[j]]
            0 <= i < j < init.len() implies init[i].0 < init[j].0 by {
            assert(ends[i].0 < ends[j].0);
        }
        lemma_without_start(init, start);
        assert forall|i: int| 0 <= i < inner.len() implies ends.contains(#[trigger] inner[i]) by {
            let m = choose|m: int| 0 <= m < init.len() && init[m] == inner[i];
            assert(ends[m] == inner[i]);
        }
        assert forall|i: int| 0 <= i < inner.len() implies (#[trigger] inner[i]).0 < last.0 by {
            let m = choose|m: int| 0 <= m < init.len() && init[m] == inner[i];
            assert(ends[m].0 < ends[ends.len() - 1].0);
        }
        assert forall|s: u64| s != start && has_start(ends, s) implies #[trigger] has_start(
            out,
            s,
        ) by {
            let i = choose|i: int| 0 <= i < ends.len() && (#[trigger] ends[i]).0 == s;
            if i < ends.len() - 1 {
                assert(init[i].0 == s);
                assert(has_start(init, s));
                assert(has_start(inner, s));
                let m = choose|m: int| 0 <= m < inner.len() && (#[trigger] inner[m]).0 == s;
                assert(out[m].0 == s);
            } else {
                assert(out[inner.len() as int].0 == s);
            }
        }
        if last.0 != start {
            assert(out =~= inner.push(last));
            assert(ends[ends.len() - 1] == last);
            assert forall|i: int| 0 <= i < out.len() implies (#[trigger] out[i]).0 != start by {
                if i < inner.len() {
                    assert(out[i] == inner[i]);
                    assert(inner[i].0 != start) by {
                        if inner[i].0 == start {
                            assert(has_start(inner, start));
                        }
                    }
                }
            }
        }
    }
}

/// Publishes `start` up to `end`.
pub fn put_end(ends: &mut Vec<(u64, u64)>, start: u64, end: u64)
    ensures
        final(ends)@ == with_end(old(ends)@, start, end),
{
    let ghost before = ends@;
    let mut at: usize = ends.len();
    assert(before.take(at as int) =~= before);
    assert(before.skip(at as int) =~= Seq::empty());
    while at > 0 && ends[at - 1].0 > start
        invariant
            at <= ends@.len(),
            ends@ == before,
            with_end(before, start, end) == with_end(before.take(at as int), start, end)
                + before.skip(at as int),
        decreases at,
    {
        proof {
            let t = before.take(at as int);
            assert(t.drop_last() =~= before.take(at - 1));
            assert(with_end(t, start, end) == with_end(before.take(at - 1), start, end).push(
                before[at - 1],
            ));
            assert(with_end(t, start, end) + before.skip(at as int) =~= with_end(
                before.take(at - 1),
                start,
                end,
            ) + before.skip(at - 1));
        }
        at = at - 1;
    }
    let ghost t = before.take(at as int);
    if at > 0 && ends[at - 1].0 == start {
        ends.set(at - 1, (start, end));
        assert(ends@ =~= t.drop_last().push((start, end)) + before.skip(at as int));
    } else {
        ends.insert(at, (start, end));
        assert(ends@ =~= t.push((start, end)) + before.skip(at as int));
        assert(at == 0 ==> t.push((start, end)) =~= seq![(start, end)]);
    }
}

/// Forgets `start`.
pub fn remove_start(ends: &mut Vec<(u64, u64)>, start: u64)
    ensures
        final(ends)@ == without_start(old(ends)@, start),
{
    let mut kept: Vec<(u64, u64)> = Vec::new();
    let mut i: usize = 0;
    assert(ends@.take(0) =~= Seq::empty());
    while i < ends.len()
        invariant
            i <= ends@.len(),
            ends@ == old(ends)@,
            kept@ == without_start(ends@.take(i as int), start),
        decreases ends@.len() - i,
    {
        assert(ends@.take(i + 1).drop_last() =~= ends@.take(i as int));
        if ends[i].0 != start {
            kept.push(ends[i]);
        }
        i = i + 1;
    }
    assert(ends@.take(i as int) =~= ends@);
    *ends = kept;
}

} // verus!
