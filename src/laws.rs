//! What holds of every sequence of writer calls, over the models that the
//! store's operations state.
use vstd::prelude::*;
use crate::store::{
    RecView,
    replay_values,
    replay_entries,
    step_values,
    lemma_replay_push,
    select,
    keeps,
    Kept,
    kept_loc,
    rec_loc,
    redirect,
    COMPACTED_ID,
    kept_index,
    LogState,
    apply_ops,
};
use crate::index::Index;

verus! {

/// One call of the writer: a set of `val` under `key`, or a removal of `key`.
pub struct Op {
    pub key: Seq<char>,
    pub val: Seq<char>,
    pub is_remove: bool,
}

/// The live values after the calls in order, as `commit_set` and
/// `commit_remove` state them: a set installs its value, a removal of a live
/// key drops it, and a removal of an absent key fails and changes nothing.
pub open spec fn run(ops: Seq<Op>) -> Map<Seq<char>, Seq<char>>
    decreases ops.len(),
{
    if ops.len() == 0 {
        Map::empty()
    } else {
        let m = run(ops.drop_last());
        let op = ops.last();
        if !op.is_remove {
            m.insert(op.key, op.val)
        } else if m.contains_key(op.key) {
            m.remove(op.key)
        } else {
            m
        }
    }
}

/// The record that a call appends to the log, if any: a put for a set, a
/// delete for a removal that succeeded.
pub open spec fn record_of_op(op: Op) -> RecView {
    RecView { file: 0, offset: 0, len: 0, key: op.key, val: op.val, is_del: op.is_remove }
}

/// The records that the calls append, in order.
pub open spec fn written(ops: Seq<Op>) -> Seq<RecView>
    decreases ops.len(),
{
    if ops.len() == 0 {
        Seq::empty()
    } else {
        let w = written(ops.drop_last());
        let op = ops.last();
        if !op.is_remove || run(ops.drop_last()).contains_key(op.key) {
            w.push(record_of_op(op))
        } else {
            w
        }
    }
}

/// Reopening a directory replays its log; whatever calls the writer took,
/// replaying the records they appended gives back the values they left.
pub proof fn law_reopen(ops: Seq<Op>)
    ensures
        replay_values(written(ops)) == run(ops),
    decreases ops.len(),
{
    if ops.len() > 0 {
        let init = ops.drop_last();
        law_reopen(init);
        let op = ops.last();
        if !op.is_remove || run(init).contains_key(op.key) {
            lemma_replay_push(written(init), record_of_op(op));
            assert(step_values(run(init), record_of_op(op)) =~= run(ops));
        }
    }
}

/// The last call of `ops` that names `key`, if any.
pub open spec fn last_on(ops: Seq<Op>, key: Seq<char>) -> Option<Op>
    decreases ops.len(),
{
    if ops.len() == 0 {
        None
    } else if ops.last().key == key {
        Some(ops.last())
    } else {
        last_on(ops.drop_last(), key)
    }
}

/// Whatever order the writer serialised the clients' calls in, a key ends up
/// holding the value of the last set on it, unless a removal came after.
pub proof fn law_last_write_wins(ops: Seq<Op>, key: Seq<char>)
    ensures
        run(ops).contains_key(key) <==> (last_on(ops, key) is Some && !last_on(
            ops,
            key,
        )->Some_0.is_remove),
        run(ops).contains_key(key) ==> run(ops)[key] == last_on(ops, key)->Some_0.val,
    decreases ops.len(),
{
    if ops.len() > 0 {
        law_last_write_wins(ops.drop_last(), key);
    }
}

/// After a set, the key holds the value set until a later call names it.
pub proof fn law_set_then_get(before: Seq<Op>, key: Seq<char>, val: Seq<char>, after: Seq<Op>)
    requires
        forall|i: int| 0 <= i < after.len() ==> #[trigger] after[i].key != key,
    ensures
        run(before.push(Op { key, val, is_remove: false }) + after).contains_key(key),
        run(before.push(Op { key, val, is_remove: false }) + after)[key] == val,
    decreases after.len(),
{
    let ops = before.push(Op { key, val, is_remove: false });
    lemma_last_untouched(ops, after, key);
    law_last_write_wins(ops + after, key);
    assert(ops.drop_last() =~= before);
}

/// After a removal, the key holds nothing until a later set names it.
pub proof fn law_remove_then_get(before: Seq<Op>, key: Seq<char>, after: Seq<Op>)
    requires
        forall|i: int| 0 <= i < after.len() ==> #[trigger] after[i].key != key,
    ensures
        !run(before.push(Op { key, val: Seq::empty(), is_remove: true }) + after).contains_key(
            key,
        ),
{
    let ops = before.push(Op { key, val: Seq::empty(), is_remove: true });
    lemma_last_untouched(ops, after, key);
    law_last_write_wins(ops + after, key);
}

proof fn lemma_last_untouched(ops: Seq<Op>, after: Seq<Op>, key: Seq<char>)
    requires
        forall|i: int| 0 <= i < after.len() ==> #[trigger] after[i].key != key,
    ensures
        last_on(ops + after, key) == last_on(ops, key),
    decreases after.len(),
{
    if after.len() > 0 {
        assert((ops + after).drop_last() =~= ops + after.drop_last());
        assert((ops + after).last() == after[after.len() - 1]);
        lemma_last_untouched(ops, after.drop_last(), key);
    } else {
        assert(ops + after =~= ops);
    }
}

/// The last record of `recs` on `key`, if any.
pub open spec fn last_rec(recs: Seq<RecView>, key: Seq<char>) -> Option<RecView>
    decreases recs.len(),
{
    if recs.len() == 0 {
        None
    } else if recs.last().key == key {
        Some(recs.last())
    } else {
        last_rec(recs.drop_last(), key)
    }
}

proof fn lemma_replay_by_last(recs: Seq<RecView>, key: Seq<char>)
    ensures
        replay_values(recs).contains_key(key) <==> (last_rec(recs, key) is Some && !last_rec(
            recs,
            key,
        )->Some_0.is_del),
        replay_values(recs).contains_key(key) ==> replay_values(recs)[key] == last_rec(
            recs,
            key,
        )->Some_0.val,
        replay_entries(recs).contains_key(key) <==> replay_values(recs).contains_key(key),
        replay_entries(recs).contains_key(key) ==> replay_entries(recs)[key] == (Index {
            file: last_rec(recs, key)->Some_0.file,
            len: last_rec(recs, key)->Some_0.len,
            offset: last_rec(recs, key)->Some_0.offset,
        }),
    decreases recs.len(),
{
    if recs.len() > 0 {
        lemma_replay_by_last(recs.drop_last(), key);
    }
}

proof fn lemma_last_rec_key(recs: Seq<RecView>, key: Seq<char>)
    ensures
        last_rec(recs, key) is Some ==> last_rec(recs, key)->Some_0.key == key,
    decreases recs.len(),
{
    if recs.len() > 0 {
        lemma_last_rec_key(recs.drop_last(), key);
    }
}

proof fn lemma_last_rec_concat(a: Seq<RecView>, b: Seq<RecView>, key: Seq<char>)
    ensures
        last_rec(a + b, key) == (if last_rec(b, key) is Some {
            last_rec(b, key)
        } else {
            last_rec(a, key)
        }),
    decreases b.len(),
{
    if b.len() == 0 {
        assert(a + b =~= a);
    } else {
        assert((a + b).drop_last() =~= a + b.drop_last());
        assert((a + b).last() == b.last());
        lemma_last_rec_concat(a, b.drop_last(), key);
    }
}

proof fn lemma_select_last(entries: Map<Seq<char>, Index>, recs: Seq<RecView>, key: Seq<char>)
    ensures
        last_rec(recs, key) is None ==> last_rec(select(entries, recs), key) is None,
        last_rec(recs, key) is Some && keeps(entries, last_rec(recs, key)->Some_0) ==> last_rec(
            select(entries, recs),
            key,
        ) == last_rec(recs, key),
    decreases recs.len(),
{
    if recs.len() > 0 {
        let init = recs.drop_last();
        lemma_select_last(entries, init, key);
        let p = select(entries, init);
        if keeps(entries, recs.last()) {
            assert(p.push(recs.last()).drop_last() =~= p);
        }
    }
}

/// Compaction keeps every live key and its value: where the oldest records
/// of a log are replaced by those that compaction keeps of them, judged by
/// the index that the whole log replays to, replaying the result gives the
/// values that the whole log gave.
pub proof fn law_compaction_preserves(old_part: Seq<RecView>, rest: Seq<RecView>)
    ensures
        replay_values(select(replay_entries(old_part + rest), old_part) + rest) == replay_values(
            old_part + rest,
        ),
{
    let full = old_part + rest;
    let entries = replay_entries(full);
    let kept = select(entries, old_part);
    let next = kept + rest;
    assert forall|key: Seq<char>|
        #![trigger replay_values(next).contains_key(key)]
        #![trigger replay_values(full).contains_key(key)]
        (replay_values(next).contains_key(key) <==> replay_values(full).contains_key(key)) && (
        replay_values(next).contains_key(key) ==> replay_values(next)[key] == replay_values(
            full,
        )[key]) by {
        lemma_replay_by_last(next, key);
        lemma_replay_by_last(full, key);
        lemma_last_rec_concat(kept, rest, key);
        lemma_last_rec_concat(old_part, rest, key);
        lemma_select_last(entries, old_part, key);
        if last_rec(rest, key) is None {
            if last_rec(old_part, key) is Some {
                let r = last_rec(old_part, key)->Some_0;
                lemma_last_rec_key(old_part, key);
                assert(last_rec(full, key) == Some(r));
                assert(keeps(entries, r));
                assert(last_rec(next, key) == Some(r));
            } else {
                assert(last_rec(next, key) is None);
            }
        }
    }
    assert(replay_values(next) =~= replay_values(full));
}

/// Two records lie at the same place.
pub open spec fn same_loc(a: RecView, b: RecView) -> bool {
    a.file == b.file && a.offset == b.offset
}

/// No two records of `s` lie at the same place, as in any log.
pub open spec fn unique_locs(s: Seq<RecView>) -> bool {
    forall|i: int, j: int| 0 <= i < j < s.len() ==> !same_loc(#[trigger] s[i], #[trigger] s[j])
}

/// No record of `a` lies where one of `b` does.
pub open spec fn disjoint_locs(a: Seq<RecView>, b: Seq<RecView>) -> bool {
    forall|i: int, j: int|
        0 <= i < a.len() && 0 <= j < b.len() ==> !same_loc(#[trigger] a[i], #[trigger] b[j])
}

/// A kept record as it lies in the compacted segment.
pub open spec fn relocated(k: Kept) -> RecView {
    RecView {
        file: COMPACTED_ID,
        offset: k.new_offset,
        len: k.len,
        key: k.key@,
        val: Seq::empty(),
        is_del: k.is_del,
    }
}

/// The last kept record on `key`, if any.
pub open spec fn last_kept(ks: Seq<Kept>, key: Seq<char>) -> Option<Kept>
    decreases ks.len(),
{
    if ks.len() == 0 {
        None
    } else if ks.last().key@ == key {
        Some(ks.last())
    } else {
        last_kept(ks.drop_last(), key)
    }
}

proof fn lemma_select_members(entries: Map<Seq<char>, Index>, s: Seq<RecView>)
    ensures
        forall|i: int|
            0 <= i < select(entries, s).len() ==> keeps(entries, #[trigger] select(entries, s)[i])
                && s.contains(select(entries, s)[i]),
        unique_locs(s) ==> unique_locs(select(entries, s)),
    decreases s.len(),
{
    if s.len() > 0 {
        let init = s.drop_last();
        lemma_select_members(entries, init);
        let p = select(entries, init);
        assert forall|i: int| 0 <= i < p.len() implies s.contains(#[trigger] p[i]) by {
            let j = choose|j: int| 0 <= j < init.len() && init[j] == p[i];
            assert(s[j] == p[i]);
        }
        if keeps(entries, s.last()) {
            let q = p.push(s.last());
            assert(s[s.len() - 1] == s.last());
            assert forall|i: int| 0 <= i < q.len() implies keeps(entries, #[trigger] q[i])
                && s.contains(q[i]) by {
                if i < p.len() {
                    assert(q[i] == p[i]);
                }
            }
            if unique_locs(s) {
                assert forall|i: int, j: int| 0 <= i < j < q.len() implies !same_loc(
                    #[trigger] q[i],
                    #[trigger] q[j],
                ) by {
                    if j == q.len() - 1 {
                        let a = choose|a: int| 0 <= a < init.len() && init[a] == p[i];
                        assert(s[a] == q[i]);
                        assert(s[s.len() - 1] == q[j]);
                    } else {
                        assert(unique_locs(init)) by {
                            assert forall|a: int, b: int| 0 <= a < b < init.len() implies !same_loc(
                                #[trigger] init[a],
                                #[trigger] init[b],
                            ) by {
                                assert(init[a] == s[a] && init[b] == s[b]);
                            }
                        }
                        assert(q[i] == p[i] && q[j] == p[j]);
                    }
                }
            }
        } else if unique_locs(s) {
            assert forall|a: int, b: int| 0 <= a < b < init.len() implies !same_loc(
                #[trigger] init[a],
                #[trigger] init[b],
            ) by {
                assert(init[a] == s[a] && init[b] == s[b]);
            }
        }
    }
}

proof fn lemma_last_kept(ks: Seq<Kept>, recs: Seq<RecView>, key: Seq<char>)
    requires
        ks.map_values(|k: Kept| kept_loc(k)) == recs.map_values(|r: RecView| rec_loc(r)),
    ensures
        last_rec(ks.map_values(|k: Kept| relocated(k)), key) == (match last_kept(ks, key) {
            Some(x) => Some(relocated(x)),
            None => None,
        }),
        last_kept(ks, key) is Some <==> last_rec(recs, key) is Some,
        last_kept(ks, key) is Some ==> kept_loc(last_kept(ks, key)->Some_0) == rec_loc(
            last_rec(recs, key)->Some_0,
        ),
    decreases ks.len(),
{
    assert(ks.len() == ks.map_values(|k: Kept| kept_loc(k)).len());
    assert(recs.len() == recs.map_values(|r: RecView| rec_loc(r)).len());
    if ks.len() > 0 {
        let n = ks.len() - 1;
        assert forall|i: int| 0 <= i < n implies kept_loc(#[trigger] ks.drop_last()[i]) == rec_loc(
            recs.drop_last()[i],
        ) by {
            assert(ks.map_values(|k: Kept| kept_loc(k))[i] == recs.map_values(
                |r: RecView| rec_loc(r),
            )[i]);
        }
        assert(ks.drop_last().map_values(|k: Kept| kept_loc(k)) =~= recs.drop_last().map_values(
            |r: RecView| rec_loc(r),
        ));
        lemma_last_kept(ks.drop_last(), recs.drop_last(), key);
        assert(ks.map_values(|k: Kept| kept_loc(k))[n] == recs.map_values(|r: RecView| rec_loc(r))[n]);
        assert(ks.map_values(|k: Kept| relocated(k)).drop_last() =~= ks.drop_last().map_values(
            |k: Kept| relocated(k),
        ));
        assert(ks.map_values(|k: Kept| relocated(k)).last() == relocated(ks.last()));
    }
}

/// Redirecting touches a key only through its one kept put, if any.
proof fn lemma_redirect_key(entries: Map<Seq<char>, Index>, ks: Seq<Kept>, key: Seq<char>)
    requires
        forall|i: int, j: int|
            0 <= i < j < ks.len() ==> !(#[trigger] ks[i].key@ == key && !ks[i].is_del
                && #[trigger] ks[j].key@ == key && !ks[j].is_del),
    ensures
        (forall|i: int|
            0 <= i < ks.len() ==> !(#[trigger] ks[i].key@ == key && !ks[i].is_del
                && entries.contains_key(key) && kept_index(ks[i]) == entries[key])) ==> (
        redirect(entries, ks).contains_key(key) == entries.contains_key(key) && (
        entries.contains_key(key) ==> redirect(entries, ks)[key] == entries[key])),
        forall|i: int|
            0 <= i < ks.len() && #[trigger] ks[i].key@ == key && !ks[i].is_del
                && entries.contains_key(key) && kept_index(ks[i]) == entries[key] ==> redirect(
                entries,
                ks,
            ).contains_key(key) && redirect(entries, ks)[key] == (Index {
                file: COMPACTED_ID,
                len: ks[i].len,
                offset: ks[i].new_offset,
            }),
    decreases ks.len(),
{
    if ks.len() > 0 {
        let init = ks.drop_last();
        assert forall|i: int, j: int| 0 <= i < j < init.len() implies !(#[trigger] init[i].key@
            == key && !init[i].is_del && #[trigger] init[j].key@ == key && !init[j].is_del) by {
            assert(init[i] == ks[i] && init[j] == ks[j]);
        }
        lemma_redirect_key(entries, init, key);
        let y = ks.last();
        let n = ks.len() - 1;
        assert(y == ks[n]);
        assert forall|i: int| 0 <= i < init.len() implies #[trigger] init[i] == ks[i] by {}
        let m = redirect(entries, init);
        assert forall|i: int|
            0 <= i < ks.len() && #[trigger] ks[i].key@ == key && !ks[i].is_del
                && entries.contains_key(key) && kept_index(ks[i]) == entries[key] implies redirect(
            entries,
            ks,
        ).contains_key(key) && redirect(entries, ks)[key] == (Index {
            file: COMPACTED_ID,
            len: ks[i].len,
            offset: ks[i].new_offset,
        }) by {
            if i == n {
                assert forall|j: int| 0 <= j < init.len() implies !(#[trigger] init[j].key@ == key
                    && !init[j].is_del && entries.contains_key(key) && kept_index(init[j])
                    == entries[key]) by {
                    assert(init[j] == ks[j]);
                }
                assert(m.contains_key(key) && m[key] == entries[key]);
            } else {
                assert(init[i] == ks[i]);
                assert(!(y.key@ == key && !y.is_del));
            }
        }
        if forall|i: int|
            0 <= i < ks.len() ==> !(#[trigger] ks[i].key@ == key && !ks[i].is_del
                && entries.contains_key(key) && kept_index(ks[i]) == entries[key]) {
            assert forall|j: int| 0 <= j < init.len() implies !(#[trigger] init[j].key@ == key
                && !init[j].is_del && entries.contains_key(key) && kept_index(init[j])
                == entries[key]) by {
                assert(init[j] == ks[j]);
            }
            assert(!(y.key@ == key && !y.is_del && entries.contains_key(key) && kept_index(y)
                == entries[key]));
        }
    }
}

/// Compaction leaves the index as a reopen would build it: replaying the kept
/// records where they lie in the compacted segment, then the rest of the log,
/// gives the index that redirecting the kept puts gives. Of the log only the
/// validity of a real one is asked: no two records share a place.
pub proof fn law_compaction_index(old_part: Seq<RecView>, rest: Seq<RecView>, kept: Seq<Kept>)
    requires
        kept.map_values(|k: Kept| kept_loc(k)) == select(
            replay_entries(old_part + rest),
            old_part,
        ).map_values(|r: RecView| rec_loc(r)),
        unique_locs(old_part),
        disjoint_locs(old_part, rest),
    ensures
        replay_entries(kept.map_values(|k: Kept| relocated(k)) + rest) == redirect(
            replay_entries(old_part + rest),
            kept,
        ),
{
    let full = old_part + rest;
    let entries = replay_entries(full);
    let sel = select(entries, old_part);
    let moved = kept.map_values(|k: Kept| relocated(k));
    let next = moved + rest;
    lemma_select_members(entries, old_part);
    assert(kept.len() == kept.map_values(|k: Kept| kept_loc(k)).len());
    assert(sel.len() == sel.map_values(|r: RecView| rec_loc(r)).len());
    assert forall|i: int| 0 <= i < kept.len() implies kept_loc(#[trigger] kept[i]) == rec_loc(
        sel[i],
    ) by {
        assert(kept.map_values(|k: Kept| kept_loc(k))[i] == sel.map_values(|r: RecView| rec_loc(r))[i]);
    }
    assert forall|key: Seq<char>|
        #![trigger replay_entries(next).contains_key(key)]
        #![trigger redirect(entries, kept).contains_key(key)]
        (replay_entries(next).contains_key(key) == redirect(entries, kept).contains_key(key)) && (
        replay_entries(next).contains_key(key) ==> replay_entries(next)[key] == redirect(
            entries,
            kept,
        )[key]) by {
        lemma_replay_by_last(next, key);
        lemma_replay_by_last(full, key);
        lemma_last_rec_concat(moved, rest, key);
        lemma_last_rec_concat(old_part, rest, key);
        lemma_last_rec_key(old_part, key);
        lemma_last_rec_key(rest, key);
        lemma_select_last(entries, old_part, key);
        lemma_last_kept(kept, sel, key);
        assert forall|i: int, j: int| 0 <= i < j < kept.len() implies !(#[trigger] kept[i].key@
            == key && !kept[i].is_del && #[trigger] kept[j].key@ == key && !kept[j].is_del) by {
            if kept[i].key@ == key && !kept[i].is_del && kept[j].key@ == key && !kept[j].is_del {
                assert(keeps(entries, sel[i]) && keeps(entries, sel[j]));
                assert(same_loc(sel[i], sel[j]));
            }
        }
        lemma_redirect_key(entries, kept, key);
        if last_rec(rest, key) is Some {
            let r = last_rec(rest, key)->Some_0;
            assert forall|i: int| 0 <= i < kept.len() implies !(#[trigger] kept[i].key@ == key
                && !kept[i].is_del && entries.contains_key(key) && kept_index(kept[i])
                == entries[key]) by {
                if kept[i].key@ == key && !kept[i].is_del && entries.contains_key(key)
                    && kept_index(kept[i]) == entries[key] {
                    assert(old_part.contains(sel[i]));
                    let a = choose|a: int| 0 <= a < old_part.len() && old_part[a] == sel[i];
                    lemma_last_rec_in(rest, key);
                    let b = choose|b: int| 0 <= b < rest.len() && rest[b] == r;
                    assert(same_loc(old_part[a], rest[b]));
                }
            }
        } else if last_rec(old_part, key) is Some {
            let p = last_rec(old_part, key)->Some_0;
            assert(last_rec(full, key) == Some(p));
            assert(keeps(entries, p));
            if !p.is_del {
                let x = last_kept(kept, key)->Some_0;
                lemma_last_kept_in(kept, key);
                let i = choose|i: int| 0 <= i < kept.len() && kept[i] == x;
                assert(kept[i].key@ == key);
            } else {
                assert(!entries.contains_key(key));
            }
        } else {
            assert(!entries.contains_key(key));
        }
    }
    assert(replay_entries(next) =~= redirect(entries, kept));
}

proof fn lemma_last_rec_in(recs: Seq<RecView>, key: Seq<char>)
    ensures
        last_rec(recs, key) is Some ==> recs.contains(last_rec(recs, key)->Some_0),
    decreases recs.len(),
{
    if recs.len() > 0 {
        lemma_last_rec_in(recs.drop_last(), key);
        assert(recs[recs.len() - 1] == recs.last());
        if last_rec(recs.drop_last(), key) is Some {
            let j = choose|j: int|
                0 <= j < recs.drop_last().len() && recs.drop_last()[j] == last_rec(
                    recs.drop_last(),
                    key,
                )->Some_0;
            assert(recs[j] == recs.drop_last()[j]);
        }
    }
}

proof fn lemma_last_kept_in(ks: Seq<Kept>, key: Seq<char>)
    ensures
        last_kept(ks, key) is Some ==> ks.contains(last_kept(ks, key)->Some_0) && last_kept(
            ks,
            key,
        )->Some_0.key@ == key,
    decreases ks.len(),
{
    if ks.len() > 0 {
        lemma_last_kept_in(ks.drop_last(), key);
        assert(ks[ks.len() - 1] == ks.last());
        if last_kept(ks.drop_last(), key) is Some {
            let j = choose|j: int|
                0 <= j < ks.drop_last().len() && ks.drop_last()[j] == last_kept(
                    ks.drop_last(),
                    key,
                )->Some_0;
            assert(ks[j] == ks.drop_last()[j]);
        }
    }
}

proof fn lemma_apply_last(base: Map<Seq<char>, Seq<char>>, ops: Seq<Op>, key: Seq<char>)
    ensures
        apply_ops(base, ops).contains_key(key) <==> (if last_on(ops, key) is Some {
            !last_on(ops, key)->Some_0.is_remove
        } else {
            base.contains_key(key)
        }),
        apply_ops(base, ops).contains_key(key) ==> apply_ops(base, ops)[key] == (if last_on(
            ops,
            key,
        ) is Some {
            last_on(ops, key)->Some_0.val
        } else {
            base[key]
        }),
    decreases ops.len(),
{
    if ops.len() > 0 {
        lemma_apply_last(base, ops.drop_last(), key);
    }
}

proof fn lemma_last_on_at(ops: Seq<Op>, i: int, key: Seq<char>)
    requires
        0 <= i < ops.len(),
        ops[i].key == key,
        forall|j: int| i < j < ops.len() ==> #[trigger] ops[j].key != key,
    ensures
        last_on(ops, key) == Some(ops[i]),
    decreases ops.len(),
{
    if i < ops.len() - 1 {
        let init = ops.drop_last();
        assert forall|j: int| i < j < init.len() implies #[trigger] init[j].key != key by {
            assert(init[j] == ops[j]);
        }
        lemma_last_on_at(init, i, key);
        assert(ops.last() == ops[ops.len() - 1]);
    }
}

/// Whatever order the writer committed the clients' calls in, a key of the
/// store holds the value of the last committed set on it unless a removal
/// came after, and a key that no committed call names holds what it held
/// when the store was opened.
pub proof fn law_store_last_write_wins(s: &LogState, key: Seq<char>)
    requires
        s.wf(),
    ensures
        s.view().contains_key(key) <==> (if last_on(s.history(), key) is Some {
            !last_on(s.history(), key)->Some_0.is_remove
        } else {
            s.base().contains_key(key)
        }),
        s.view().contains_key(key) ==> s.view()[key] == (if last_on(s.history(), key) is Some {
            last_on(s.history(), key)->Some_0.val
        } else {
            s.base()[key]
        }),
        s.entries().contains_key(key) == s.view().contains_key(key),
{
    s.lemma_wf();
    lemma_apply_last(s.base(), s.history(), key);
}

/// After a committed set, the store's key holds the value set, and `lookup`
/// finds it, until a later committed call names the key.
pub proof fn law_store_set_then_get(s: &LogState, i: int)
    requires
        s.wf(),
        0 <= i < s.history().len(),
        !s.history()[i].is_remove,
        forall|j: int| i < j < s.history().len() ==> #[trigger] s.history()[j].key != s.history()[i].key,
    ensures
        s.view().contains_key(s.history()[i].key),
        s.view()[s.history()[i].key] == s.history()[i].val,
        s.entries().contains_key(s.history()[i].key),
{
    lemma_last_on_at(s.history(), i, s.history()[i].key);
    law_store_last_write_wins(s, s.history()[i].key);
}

/// After a committed removal, the store's key holds nothing, and `lookup`
/// finds nothing, until a later committed set names the key.
pub proof fn law_store_remove_then_get(s: &LogState, i: int)
    requires
        s.wf(),
        0 <= i < s.history().len(),
        s.history()[i].is_remove,
        forall|j: int| i < j < s.history().len() ==> #[trigger] s.history()[j].key != s.history()[i].key,
    ensures
        !s.view().contains_key(s.history()[i].key),
        !s.entries().contains_key(s.history()[i].key),
{
    lemma_last_on_at(s.history(), i, s.history()[i].key);
    law_store_last_write_wins(s, s.history()[i].key);
}

} // verus!
