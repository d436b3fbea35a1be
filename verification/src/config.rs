//! The evaluated configuration store.
//!
//! A [`Config`] holds entries in insertion order together with two derived
//! indexes: `sorted_indices`, a permutation of the entry indices sorted by
//! key, and `group_order`, one record per distinct key ordered by the first
//! occurrence of that key.  Exact-key and prefix queries are answered from
//! the sorted index while yielding entries in insertion order, grouped by
//! key.

use vstd::prelude::*;

use crate::text::{
    chars_eq, chars_lt, chars_starts_with, chars_to_string, is_prefix_of, lemma_lex_lt_asym,
    lemma_lex_lt_trans, lemma_lex_trichotomy, lemma_prefix_leq, lemma_prefix_window, lex_leq,
    lex_lt, str_chars,
};
use crate::index_buf::{index_buf_from, index_buf_get, index_buf_len, index_buf_seq, index_buf_sort};
use crate::text_arena::{TextArena, TextId};

verus! {

/// The mathematical shape of a configuration value.
pub enum ValueModel {
    Bool(bool),
    Int(Seq<char>),
    Str(Seq<char>),
}

/// A configuration value handed to or returned from the store.
///
/// Integers are carried as their textual form; conversion to a numeric type
/// happens only at the JSON boundary.
#[derive(Debug, Clone)]
pub enum Value {
    Bool(bool),
    Integer(String),
    String(String),
}

impl View for Value {
    type V = ValueModel;

    open spec fn view(&self) -> ValueModel {
        match self {
            Value::Bool(b) => ValueModel::Bool(*b),
            Value::Integer(s) => ValueModel::Int(s@),
            Value::String(s) => ValueModel::Str(s@),
        }
    }
}

impl PartialEq for Value {
    fn eq(&self, other: &Value) -> (r: bool) {
        match (self, other) {
            (Value::Bool(a), Value::Bool(b)) => *a == *b,
            (Value::Integer(a), Value::Integer(b)) => *a == *b,
            (Value::String(a), Value::String(b)) => *a == *b,
            _ => false,
        }
    }
}

impl vstd::std_specs::cmp::PartialEqSpecImpl for Value {
    open spec fn obeys_eq_spec() -> bool {
        true
    }

    open spec fn eq_spec(&self, other: &Value) -> bool {
        self@ == other@
    }
}

/// A value as stored: booleans inline, texts as arena handles.
#[derive(Clone, Copy)]
pub(crate) enum ValueRaw {
    Bool(bool),
    Integer(TextId),
    String(TextId),
}

pub(crate) open spec fn raw_wf(arena: TextArena, raw: ValueRaw) -> bool {
    match raw {
        ValueRaw::Bool(_) => true,
        ValueRaw::Integer(id) => arena.wf_id(id),
        ValueRaw::String(id) => arena.wf_id(id),
    }
}

pub(crate) open spec fn raw_model(arena: TextArena, raw: ValueRaw) -> ValueModel {
    match raw {
        ValueRaw::Bool(b) => ValueModel::Bool(b),
        ValueRaw::Integer(id) => ValueModel::Int(arena.text(id)),
        ValueRaw::String(id) => ValueModel::Str(arena.text(id)),
    }
}

/// The key texts of an entry list, in insertion order.
pub(crate) open spec fn keys_of(arena: TextArena, entries: Seq<(TextId, ValueRaw)>) -> Seq<
    Seq<char>,
> {
    Seq::new(entries.len(), |i: int| arena.text(entries[i].0))
}

/// Every handle of the entry list lies inside the arena.
pub(crate) open spec fn entries_wf(arena: TextArena, entries: Seq<(TextId, ValueRaw)>) -> bool {
    forall|i: int|
        0 <= i < entries.len() ==> arena.wf_id((#[trigger] entries[i]).0) && raw_wf(
            arena,
            entries[i].1,
        )
}

/// Entry index `e` appears somewhere in `si`.
pub(crate) open spec fn appears(si: Seq<usize>, e: int) -> bool {
    exists|p: int| 0 <= p < si.len() && (#[trigger] si[p]) as int == e
}

/// The key at sorted position `p`.
pub(crate) open spec fn skey(keys: Seq<Seq<char>>, si: Seq<usize>, p: int) -> Seq<char> {
    keys[si[p] as int]
}

/// `si` is a permutation of the entry indices, sorted by key.
pub(crate) open spec fn sorted_perm(keys: Seq<Seq<char>>, si: Seq<usize>) -> bool {
    let n = keys.len() as int;
    &&& si.len() == n
    &&& forall|p: int| 0 <= p < n ==> (#[trigger] si[p]) < n
    &&& forall|p: int, q: int| 0 <= p < q < n ==> si[p] != si[q]
    &&& forall|e: int| 0 <= e < n ==> #[trigger] appears(si, e)
    &&& forall|p: int, q: int|
        0 <= p < q < n ==> lex_leq(#[trigger] skey(keys, si, p), #[trigger] skey(keys, si, q))
}

/// Sorted position `p` lies inside some record of `gs`.
pub open spec fn covered(gs: Seq<(usize, usize)>, p: int) -> bool {
    exists|k: int| 0 <= k < gs.len() && group_covers(#[trigger] gs[k], p)
}

/// Does group record `g = (sorted_start, count)` cover sorted position `p`?
pub open spec fn group_covers(g: (usize, usize), p: int) -> bool {
    g.0 <= p < g.0 + g.1
}

/// The smallest entry index inside a non-empty suffix-extensible sequence;
/// one past the largest `usize` for the empty sequence.
pub(crate) open spec fn seq_min(s: Seq<usize>) -> int
    decreases s.len(),
{
    if s.len() == 0 {
        usize::MAX as int + 1
    } else {
        let m = seq_min(s.drop_last());
        if (s.last() as int) < m {
            s.last() as int
        } else {
            m
        }
    }
}

/// The first-occurrence entry index of the key of group `g`.
pub(crate) open spec fn group_min(si: Seq<usize>, g: (usize, usize)) -> int {
    seq_min(si.subrange(g.0 as int, g.0 + g.1))
}

pub open spec fn sum_counts(gs: Seq<(usize, usize)>) -> int
    decreases gs.len(),
{
    if gs.len() == 0 {
        0
    } else {
        sum_counts(gs.drop_last()) + gs.last().1
    }
}

/// `gs` partitions the sorted positions into maximal equal-key runs, one
/// record per distinct key, ordered by first occurrence.
pub(crate) open spec fn groups_wf(
    keys: Seq<Seq<char>>,
    si: Seq<usize>,
    gs: Seq<(usize, usize)>,
) -> bool {
    let n = keys.len() as int;
    &&& forall|k: int|
        0 <= k < gs.len() ==> (#[trigger] gs[k]).1 > 0 && gs[k].0 + gs[k].1 <= n
    &&& forall|k: int, p: int|
        0 <= k < gs.len() && group_covers(#[trigger] gs[k], p) ==> #[trigger] skey(keys, si, p)
            == skey(keys, si, gs[k].0 as int)
    &&& forall|k: int|
        0 <= k < gs.len() ==> ((#[trigger] gs[k]).0 == 0 || skey(keys, si, gs[k].0 - 1) != skey(
            keys,
            si,
            gs[k].0 as int,
        ))
    &&& forall|k: int|
        0 <= k < gs.len() ==> ((#[trigger] gs[k]).0 + gs[k].1 == n || skey(
            keys,
            si,
            gs[k].0 + gs[k].1,
        ) != skey(keys, si, gs[k].0 + gs[k].1 - 1))
    &&& forall|p: int| 0 <= p < n ==> #[trigger] covered(gs, p)
    &&& forall|k1: int, k2: int|
        0 <= k1 < k2 < gs.len() ==> group_min(si, #[trigger] gs[k1]) < group_min(
            si,
            #[trigger] gs[k2],
        )
    &&& sum_counts(gs) == n
}

/// The minimum of a non-empty sequence is attained and bounds every element.
pub(crate) proof fn lemma_seq_min_props(s: Seq<usize>)
    requires
        s.len() > 0,
    ensures
        exists|i: int| 0 <= i < s.len() && (#[trigger] s[i]) as int == seq_min(s),
        forall|i: int| 0 <= i < s.len() ==> seq_min(s) <= (#[trigger] s[i]) as int,
    decreases s.len(),
{
    if s.len() == 1 {
        assert(s.drop_last() =~= Seq::<usize>::empty());
        assert(seq_min(Seq::<usize>::empty()) == usize::MAX as int + 1);
        assert(s[0] as int == seq_min(s));
    } else {
        lemma_seq_min_props(s.drop_last());
        let m = seq_min(s.drop_last());
        if (s.last() as int) < m {
            assert(s[s.len() - 1] as int == seq_min(s));
        } else {
            let i = choose|i: int| 0 <= i < s.drop_last().len() && (#[trigger] s.drop_last()[i]) as int == m;
            assert(s[i] as int == seq_min(s));
        }
        assert forall|i: int| 0 <= i < s.len() implies seq_min(s) <= (#[trigger] s[i]) as int by {
            if i < s.len() - 1 {
                assert(s.drop_last()[i] == s[i]);
            }
        }
    }
}

/// Compares the keys of entries `a` and `b`.
fn key_lt(arena: &TextArena, entries: &Vec<(TextId, ValueRaw)>, a: usize, b: usize) -> (r: bool)
    requires
        entries_wf(*arena, entries@),
        a < entries@.len(),
        b < entries@.len(),
    ensures
        r == lex_lt(keys_of(*arena, entries@)[a as int], keys_of(*arena, entries@)[b as int]),
{
    let ka = arena.get(entries[a].0);
    let kb = arena.get(entries[b].0);
    chars_lt(ka, kb)
}

/// Tests the keys of entries `a` and `b` for equality.
fn key_eq(arena: &TextArena, entries: &Vec<(TextId, ValueRaw)>, a: usize, b: usize) -> (r: bool)
    requires
        entries_wf(*arena, entries@),
        a < entries@.len(),
        b < entries@.len(),
    ensures
        r == (keys_of(*arena, entries@)[a as int] == keys_of(*arena, entries@)[b as int]),
{
    let ka = arena.get(entries[a].0);
    let kb = arena.get(entries[b].0);
    chars_eq(ka, kb)
}

/// Sorts the entry indices in `idx` by key text (selection sort), keeping
/// them a permutation of the entry indices.
fn sort_indices(arena: &TextArena, entries: &Vec<(TextId, ValueRaw)>, idx: &mut Vec<usize>)
    requires
        entries_wf(*arena, entries@),
        old(idx)@.len() == entries@.len(),
        forall|p: int| 0 <= p < old(idx)@.len() ==> (#[trigger] old(idx)@[p]) < entries@.len(),
        forall|p: int, q: int| 0 <= p < q < old(idx)@.len() ==> old(idx)@[p] != old(idx)@[q],
        forall|e: int| 0 <= e < entries@.len() ==> #[trigger] appears(old(idx)@, e),
    ensures
        sorted_perm(keys_of(*arena, entries@), final(idx)@),
{
    let ghost keys = keys_of(*arena, entries@);
    let n = idx.len();
    let mut i: usize = 0;
    while i < n
        invariant
            n == idx@.len(),
            n == entries@.len(),
            entries_wf(*arena, entries@),
            keys == keys_of(*arena, entries@),
            i <= n,
            forall|p: int| 0 <= p < n ==> (#[trigger] idx@[p]) < n,
            forall|p: int, q: int| 0 <= p < q < n ==> idx@[p] != idx@[q],
            forall|e: int| 0 <= e < n ==> #[trigger] appears(idx@, e),
            forall|p: int, q: int|
                0 <= p < q < i ==> lex_leq(
                    #[trigger] skey(keys, idx@, p),
                    #[trigger] skey(keys, idx@, q),
                ),
            forall|p: int, q: int|
                0 <= p < i && i <= q < n ==> lex_leq(
                    #[trigger] skey(keys, idx@, p),
                    #[trigger] skey(keys, idx@, q),
                ),
        decreases n - i,
    {
        let ghost pre = idx@;
        let mut m: usize = i;
        let mut j: usize = i + 1;
        while j < n
            invariant
                n == idx@.len(),
                n == entries@.len(),
                entries_wf(*arena, entries@),
                keys == keys_of(*arena, entries@),
                idx@ == pre,
                i <= m < j <= n,
                i < n,
                forall|p: int| 0 <= p < n ==> (#[trigger] idx@[p]) < n,
                forall|t: int|
                    i <= t < j ==> lex_leq(
                        skey(keys, idx@, m as int),
                        #[trigger] skey(keys, idx@, t),
                    ),
            decreases n - j,
        {
            if key_lt(arena, entries, idx[j], idx[m]) {
                proof {
                    let kj = skey(keys, idx@, j as int);
                    let km = skey(keys, idx@, m as int);
                    assert forall|t: int| i <= t < j + 1 implies lex_leq(
                        kj,
                        #[trigger] skey(keys, idx@, t),
                    ) by {
                        if t < j {
                            let kt = skey(keys, idx@, t);
                            if km == kt {
                            } else {
                                lemma_lex_lt_trans(kj, km, kt);
                            }
                        }
                    }
                }
                m = j;
            } else {
                proof {
                    let kj = skey(keys, idx@, j as int);
                    let km = skey(keys, idx@, m as int);
                    lemma_lex_trichotomy(kj, km);
                }
            }
            j = j + 1;
        }
        let a = idx[i];
        let b = idx[m];
        idx[i] = b;
        idx[m] = a;
        proof {
            let post = idx@;
            assert forall|p: int| 0 <= p < n implies (#[trigger] post[p]) < n by {
                if p != i && p != m {
                    assert(post[p] == pre[p]);
                }
            }
            assert forall|p: int, q: int| 0 <= p < q < n implies post[p] != post[q] by {
                let p0: int = if p == i {
                    m as int
                } else if p == m {
                    i as int
                } else {
                    p
                };
                let q0: int = if q == i {
                    m as int
                } else if q == m {
                    i as int
                } else {
                    q
                };
                assert(post[p] == pre[p0] && post[q] == pre[q0]);
                if p0 < q0 {
                    assert(pre[p0] != pre[q0]);
                } else {
                    assert(pre[q0] != pre[p0]);
                }
            }
            assert forall|e: int| 0 <= e < n implies #[trigger] appears(post, e) by {
                assert(appears(pre, e));
                let p = choose|p: int| 0 <= p < pre.len() && (#[trigger] pre[p]) as int == e;
                let p2: int = if p == i {
                    m as int
                } else if p == m {
                    i as int
                } else {
                    p
                };
                assert(post[p2] as int == e);
            }
            assert forall|p: int, q: int| 0 <= p < q < i + 1 implies lex_leq(
                #[trigger] skey(keys, post, p),
                #[trigger] skey(keys, post, q),
            ) by {
                assert(post[p] == pre[p]);
                if q < i {
                    assert(post[q] == pre[q]);
                    assert(lex_leq(skey(keys, pre, p), skey(keys, pre, q)));
                } else {
                    // q == i; the new key here is the old key at position m.
                    assert(skey(keys, post, q) == skey(keys, pre, m as int));
                    assert(lex_leq(skey(keys, pre, p), skey(keys, pre, m as int)));
                }
            }
            assert forall|p: int, q: int| 0 <= p < i + 1 && i + 1 <= q < n implies lex_leq(
                #[trigger] skey(keys, post, p),
                #[trigger] skey(keys, post, q),
            ) by {
                if p < i {
                    assert(post[p] == pre[p]);
                    if q == m {
                        assert(skey(keys, post, q) == skey(keys, pre, i as int));
                        assert(lex_leq(skey(keys, pre, p), skey(keys, pre, i as int)));
                    } else {
                        assert(post[q] == pre[q]);
                        assert(lex_leq(skey(keys, pre, p), skey(keys, pre, q)));
                    }
                } else {
                    // p == i holds the minimum of the old positions [i, n).
                    assert(skey(keys, post, p) == skey(keys, pre, m as int));
                    if q == m {
                        assert(skey(keys, post, q) == skey(keys, pre, i as int));
                        assert(lex_leq(skey(keys, pre, m as int), skey(keys, pre, i as int)));
                    } else {
                        assert(post[q] == pre[q]);
                        assert(lex_leq(skey(keys, pre, m as int), skey(keys, pre, q)));
                    }
                }
            }
        }
        i = i + 1;
    }
}

/// Sorted position `p` lies inside some record of the triple list `gs`
/// (a group record still carrying its first-occurrence index).
pub(crate) open spec fn covered3(gs: Seq<(usize, usize, usize)>, p: int) -> bool {
    exists|k: int| 0 <= k < gs.len() && (#[trigger] gs[k]).0 <= p < gs[k].0 + gs[k].1
}

pub(crate) open spec fn sum3(gs: Seq<(usize, usize, usize)>) -> int
    decreases gs.len(),
{
    if gs.len() == 0 {
        0
    } else {
        sum3(gs.drop_last()) + gs.last().1
    }
}

/// One group record is internally consistent: a maximal equal-key run of
/// the sorted positions, carrying the first-occurrence index of its key.
pub(crate) open spec fn group_ok(
    keys: Seq<Seq<char>>,
    si: Seq<usize>,
    g: (usize, usize, usize),
) -> bool {
    let n = keys.len() as int;
    &&& g.1 > 0 && g.0 + g.1 <= n
    &&& forall|p: int|
        g.0 <= p < g.0 + g.1 ==> #[trigger] skey(keys, si, p) == skey(keys, si, g.0 as int)
    &&& (g.0 == 0 || skey(keys, si, g.0 - 1) != skey(keys, si, g.0 as int))
    &&& (g.0 + g.1 == n || skey(keys, si, g.0 + g.1) != skey(keys, si, g.0 + g.1 - 1))
    &&& g.2 as int == group_min(si, (g.0, g.1))
}

/// The raw outcome of the group scan: records tile `[0, hi)` in position
/// order, each an equal-key run with a correct first-occurrence index.
pub(crate) open spec fn scan_ok(
    keys: Seq<Seq<char>>,
    si: Seq<usize>,
    gs: Seq<(usize, usize, usize)>,
    hi: int,
) -> bool {
    &&& forall|k: int| 0 <= k < gs.len() ==> (#[trigger] gs[k]).1 > 0 && gs[k].0 + gs[k].1 <= hi
    &&& forall|k: int| 0 <= k < gs.len() - 1 ==> (#[trigger] gs[k + 1]).0 == gs[k].0 + gs[k].1
    &&& gs.len() > 0 ==> gs[0].0 == 0 && gs[gs.len() - 1].0 + gs[gs.len() - 1].1 == hi
    &&& gs.len() == 0 ==> hi == 0
    &&& forall|k: int, p: int|
        0 <= k < gs.len() && (#[trigger] gs[k]).0 <= p < gs[k].0 + gs[k].1 ==> #[trigger] skey(
            keys,
            si,
            p,
        ) == skey(keys, si, gs[k].0 as int)
    &&& forall|k: int|
        0 <= k < gs.len() ==> ((#[trigger] gs[k]).0 == 0 || skey(keys, si, gs[k].0 - 1) != skey(
            keys,
            si,
            gs[k].0 as int,
        ))
    &&& forall|k: int|
        0 <= k < gs.len() ==> (#[trigger] gs[k]).2 as int == group_min(si, (gs[k].0, gs[k].1))
}

/// In a scan outcome the records sit in strictly increasing positions.
pub(crate) proof fn lemma_scan_monotone(
    keys: Seq<Seq<char>>,
    si: Seq<usize>,
    gs: Seq<(usize, usize, usize)>,
    hi: int,
    k1: int,
    k2: int,
)
    requires
        scan_ok(keys, si, gs, hi),
        0 <= k1 < k2 < gs.len(),
    ensures
        gs[k1].0 + gs[k1].1 <= gs[k2].0,
    decreases k2 - k1,
{
    assert(gs[k1 + 1].0 == gs[k1].0 + gs[k1].1);
    if k1 + 1 < k2 {
        lemma_scan_monotone(keys, si, gs, hi, k1 + 1, k2);
    }
}

/// Coverage and the count sum for a scan outcome.
pub(crate) proof fn lemma_tiling3(gs: Seq<(usize, usize, usize)>, hi: int)
    requires
        forall|k: int| 0 <= k < gs.len() ==> (#[trigger] gs[k]).1 > 0,
        forall|k: int| 0 <= k < gs.len() - 1 ==> (#[trigger] gs[k + 1]).0 == gs[k].0 + gs[k].1,
        gs.len() > 0 ==> gs[0].0 == 0 && gs[gs.len() - 1].0 + gs[gs.len() - 1].1 == hi,
        gs.len() == 0 ==> hi == 0,
    ensures
        forall|p: int| 0 <= p < hi ==> #[trigger] covered3(gs, p),
        sum3(gs) == hi,
    decreases gs.len(),
{
    if gs.len() == 0 {
    } else {
        let last = gs[gs.len() - 1];
        let front = gs.drop_last();
        assert forall|k: int| 0 <= k < front.len() - 1 implies (#[trigger] front[k + 1]).0
            == front[k].0 + front[k].1 by {
            assert(gs[k + 1].0 == gs[k].0 + gs[k].1);
        }
        if front.len() > 0 {
            assert(front[0] == gs[0]);
            assert(gs[gs.len() - 2 + 1].0 == gs[gs.len() - 2].0 + gs[gs.len() - 2].1);
            assert(front[front.len() - 1] == gs[gs.len() - 2]);
        }
        lemma_tiling3(front, last.0 as int);
        assert forall|p: int| 0 <= p < hi implies #[trigger] covered3(gs, p) by {
            if p < last.0 {
                assert(covered3(front, p));
                let k = choose|k: int|
                    0 <= k < front.len() && (#[trigger] front[k]).0 <= p < front[k].0 + front[k].1;
                assert(gs[k].0 <= p < gs[k].0 + gs[k].1);
            } else {
                assert(gs[gs.len() - 1].0 <= p < gs[gs.len() - 1].0 + gs[gs.len() - 1].1);
            }
        }
        assert(sum3(gs) == sum3(front) + last.1);
    }
}

/// Replacing one record changes the count sum by the count difference.
pub(crate) proof fn lemma_sum3_update(gs: Seq<(usize, usize, usize)>, i: int, x: (usize, usize, usize))
    requires
        0 <= i < gs.len(),
    ensures
        sum3(gs.update(i, x)) == sum3(gs) - gs[i].1 + x.1,
    decreases gs.len(),
{
    let upd = gs.update(i, x);
    if i == gs.len() - 1 {
        assert(upd.drop_last() =~= gs.drop_last());
        assert(upd.last() == x);
    } else {
        assert(upd.drop_last() =~= gs.drop_last().update(i, x));
        assert(upd.last() == gs.last());
        lemma_sum3_update(gs.drop_last(), i, x);
    }
}

/// Equal-shape pair and triple lists have the same count sum.
pub(crate) proof fn lemma_sum_pairs(gs: Seq<(usize, usize)>, gs3: Seq<(usize, usize, usize)>)
    requires
        gs.len() == gs3.len(),
        forall|k: int|
            0 <= k < gs.len() ==> (#[trigger] gs[k]) == ((#[trigger] gs3[k]).0, gs3[k].1),
    ensures
        sum_counts(gs) == sum3(gs3),
    decreases gs.len(),
{
    if gs.len() > 0 {
        assert forall|k: int| 0 <= k < gs.len() - 1 implies (#[trigger] gs.drop_last()[k])
            == ((#[trigger] gs3.drop_last()[k]).0, gs3.drop_last()[k].1) by {
            assert(gs[k] == (gs3[k].0, gs3[k].1));
        }
        lemma_sum_pairs(gs.drop_last(), gs3.drop_last());
        assert(gs[gs.len() - 1] == (gs3[gs.len() - 1].0, gs3[gs.len() - 1].1));
    }
}

/// Scans the sorted positions into maximal equal-key runs, recording for
/// each run its start, its length, and the smallest entry index it holds.
fn scan_groups(arena: &TextArena, entries: &Vec<(TextId, ValueRaw)>, si: &Vec<usize>) -> (gs: Vec<
    (usize, usize, usize),
>)
    requires
        entries_wf(*arena, entries@),
        sorted_perm(keys_of(*arena, entries@), si@),
    ensures
        scan_ok(keys_of(*arena, entries@), si@, gs@, entries@.len() as int),
{
    let ghost keys = keys_of(*arena, entries@);
    let n = si.len();
    let mut gs: Vec<(usize, usize, usize)> = Vec::new();
    let mut i: usize = 0;
    while i < n
        invariant
            n == si@.len(),
            n == entries@.len(),
            entries_wf(*arena, entries@),
            sorted_perm(keys, si@),
            keys == keys_of(*arena, entries@),
            i <= n,
            scan_ok(keys, si@, gs@, i as int),
            gs@.len() > 0 && i < n ==> skey(keys, si@, i as int) != skey(keys, si@, i - 1),
        decreases n - i,
    {
        let ghost gs0 = gs@;
        let start = i;
        let mut min_e: usize = si[start];
        let mut stop = false;
        i = i + 1;
        proof {
            assert(seq_min(Seq::<usize>::empty()) == usize::MAX as int + 1);
            assert(si@.subrange(start as int, start + 1).drop_last() =~= Seq::<usize>::empty());
            assert(si@.subrange(start as int, start + 1).last() == si@[start as int]);
            assert(seq_min(si@.subrange(start as int, start + 1)) == si@[start as int] as int);
        }
        while i < n && !stop
            invariant
                n == si@.len(),
                n == entries@.len(),
                entries_wf(*arena, entries@),
                sorted_perm(keys, si@),
                keys == keys_of(*arena, entries@),
                gs@ == gs0,
                start < i <= n,
                start < n,
                min_e as int == seq_min(si@.subrange(start as int, i as int)),
                forall|p: int|
                    start <= p < i ==> #[trigger] skey(keys, si@, p) == skey(
                        keys,
                        si@,
                        start as int,
                    ),
                stop ==> i < n && skey(keys, si@, i as int) != skey(keys, si@, start as int),
            decreases n - i + (if stop { 0int } else { 1int }),
        {
            if !key_eq(arena, entries, si[i], si[start]) {
                stop = true;
            } else {
                proof {
                    assert(si@.subrange(start as int, i + 1).drop_last() =~= si@.subrange(
                        start as int,
                        i as int,
                    ));
                    assert(si@.subrange(start as int, i + 1).last() == si@[i as int]);
                }
                if si[i] < min_e {
                    min_e = si[i];
                }
                i = i + 1;
            }
        }
        let count = i - start;
        gs.push((start, count, min_e));
        proof {
            let gsn = gs@;
            assert(gsn.len() == gs0.len() + 1);
            assert(gsn[gsn.len() - 1] == (start, count, min_e));
            assert forall|k: int| 0 <= k < gs0.len() implies gsn[k] == gs0[k] by {}
            // the new record
            assert(group_min(si@, (start, count)) == min_e as int) by {
                assert(si@.subrange(start as int, start + count) =~= si@.subrange(
                    start as int,
                    i as int,
                ));
            }
            if gs0.len() == 0 {
                assert(start == 0);
            }
            // boundary on the right for the next head
            if i < n {
                assert(skey(keys, si@, i - 1) == skey(keys, si@, start as int));
                assert(skey(keys, si@, i as int) != skey(keys, si@, start as int));
            }
        }
    }
    gs
}

/// Sorts the group records by their first-occurrence index (selection
/// sort), keeping every per-record fact, coverage, distinctness, and the
/// count sum.
fn sort_groups(
    gs: &mut Vec<(usize, usize, usize)>,
    Ghost(keys): Ghost<Seq<Seq<char>>>,
    Ghost(si): Ghost<Seq<usize>>,
)
    requires
        forall|k: int| 0 <= k < old(gs)@.len() ==> group_ok(keys, si, #[trigger] old(gs)@[k]),
        forall|p: int| 0 <= p < keys.len() ==> #[trigger] covered3(old(gs)@, p),
        forall|k1: int, k2: int|
            0 <= k1 < old(gs)@.len() && 0 <= k2 < old(gs)@.len() && k1 != k2 ==> (
            #[trigger] old(gs)@[k1]).2 != (#[trigger] old(gs)@[k2]).2,
        sum3(old(gs)@) == keys.len(),
    ensures
        forall|k: int| 0 <= k < final(gs)@.len() ==> group_ok(keys, si, #[trigger] final(gs)@[k]),
        forall|p: int| 0 <= p < keys.len() ==> #[trigger] covered3(final(gs)@, p),
        forall|k1: int, k2: int|
            0 <= k1 < k2 < final(gs)@.len() ==> (#[trigger] final(gs)@[k1]).2 < (
            #[trigger] final(gs)@[k2]).2,
        sum3(final(gs)@) == keys.len(),
        final(gs)@.len() == old(gs)@.len(),
{
    let n = gs.len();
    let mut i: usize = 0;
    while i < n
        invariant
            n == gs@.len(),
            i <= n,
            forall|k: int| 0 <= k < n ==> group_ok(keys, si, #[trigger] gs@[k]),
            forall|p: int| 0 <= p < keys.len() ==> #[trigger] covered3(gs@, p),
            forall|k1: int, k2: int|
                0 <= k1 < n && 0 <= k2 < n && k1 != k2 ==> (#[trigger] gs@[k1]).2 != (
                #[trigger] gs@[k2]).2,
            sum3(gs@) == keys.len(),
            forall|k1: int, k2: int| 0 <= k1 < k2 < i ==> (#[trigger] gs@[k1]).2 < (#[trigger] gs@[k2]).2,
            forall|k1: int, k2: int|
                0 <= k1 < i && i <= k2 < n ==> (#[trigger] gs@[k1]).2 < (#[trigger] gs@[k2]).2,
        decreases n - i,
    {
        let ghost pre = gs@;
        let mut m: usize = i;
        let mut j: usize = i + 1;
        while j < n
            invariant
                n == gs@.len(),
                gs@ == pre,
                i <= m < j <= n,
                i < n,
                forall|t: int| i <= t < j ==> (#[trigger] gs@[m as int]).2 <= gs@[t].2,
            decreases n - j,
        {
            if gs[j].2 < gs[m].2 {
                m = j;
            }
            j = j + 1;
        }
        let a = gs[i];
        let b = gs[m];
        gs[i] = b;
        gs[m] = a;
        proof {
            let post = gs@;
            lemma_sum3_update(pre, i as int, pre[m as int]);
            lemma_sum3_update(pre.update(i as int, pre[m as int]), m as int, pre[i as int]);
            assert(post =~= pre.update(i as int, pre[m as int]).update(m as int, pre[i as int]));
            assert forall|k: int| 0 <= k < n implies group_ok(keys, si, #[trigger] post[k]) by {
                if k != i && k != m {
                    assert(post[k] == pre[k]);
                }
            }
            assert forall|p: int| 0 <= p < keys.len() implies #[trigger] covered3(post, p) by {
                assert(covered3(pre, p));
                let k = choose|k: int|
                    0 <= k < pre.len() && (#[trigger] pre[k]).0 <= p < pre[k].0 + pre[k].1;
                let k2: int = if k == i {
                    m as int
                } else if k == m {
                    i as int
                } else {
                    k
                };
                assert(post[k2].0 <= p < post[k2].0 + post[k2].1);
            }
            assert forall|k1: int, k2: int|
                0 <= k1 < n && 0 <= k2 < n && k1 != k2 implies (#[trigger] post[k1]).2 != (
            #[trigger] post[k2]).2 by {
                let p1: int = if k1 == i {
                    m as int
                } else if k1 == m {
                    i as int
                } else {
                    k1
                };
                let p2: int = if k2 == i {
                    m as int
                } else if k2 == m {
                    i as int
                } else {
                    k2
                };
                assert(post[k1] == pre[p1] && post[k2] == pre[p2]);
                assert(pre[p1].2 != pre[p2].2);
            }
            assert forall|k1: int, k2: int| 0 <= k1 < k2 < i + 1 implies (#[trigger] post[k1]).2
                < (#[trigger] post[k2]).2 by {
                assert(post[k1] == pre[k1]);
                if k2 < i {
                    assert(post[k2] == pre[k2]);
                } else {
                    assert(post[k2] == pre[m as int]);
                    assert(pre[k1].2 < pre[m as int].2);
                }
            }
            assert forall|k1: int, k2: int| 0 <= k1 < i + 1 && i + 1 <= k2 < n implies (
            #[trigger] post[k1]).2 < (#[trigger] post[k2]).2 by {
                if k1 < i {
                    assert(post[k1] == pre[k1]);
                    if k2 == m {
                        assert(post[k2] == pre[i as int]);
                        assert(pre[k1].2 < pre[i as int].2);
                    } else {
                        assert(post[k2] == pre[k2]);
                        assert(pre[k1].2 < pre[k2].2);
                    }
                } else {
                    assert(post[k1] == pre[m as int]);
                    if k2 == m {
                        assert(post[k2] == pre[i as int]);
                        assert(pre[m as int].2 <= pre[i as int].2);
                        assert(pre[m as int].2 != pre[i as int].2);
                    } else {
                        assert(post[k2] == pre[k2]);
                        assert(pre[m as int].2 <= pre[k2].2);
                        assert(pre[m as int].2 != pre[k2].2);
                    }
                }
            }
        }
        i = i + 1;
    }
}

/// Computes the key-sorted index and the first-occurrence group order for
/// an entry list.
fn build_indices(arena: &TextArena, entries: &Vec<(TextId, ValueRaw)>) -> (r: (
    Vec<usize>,
    Vec<(usize, usize)>,
))
    requires
        entries_wf(*arena, entries@),
    ensures
        sorted_perm(keys_of(*arena, entries@), r.0@),
        groups_wf(keys_of(*arena, entries@), r.0@, r.1@),
{
    let ghost keys = keys_of(*arena, entries@);
    let n = entries.len();
    let mut idx: Vec<usize> = Vec::new();
    let mut e: usize = 0;
    while e < n
        invariant
            e <= n,
            idx@.len() == e,
            forall|p: int| 0 <= p < e ==> (#[trigger] idx@[p]) as int == p,
        decreases n - e,
    {
        idx.push(e);
        e = e + 1;
    }
    proof {
        assert forall|ee: int| 0 <= ee < n implies #[trigger] appears(idx@, ee) by {
            assert(idx@[ee] as int == ee);
        }
    }
    sort_indices(arena, entries, &mut idx);
    let mut gs3 = scan_groups(arena, entries, &idx);
    proof {
        let gsv = gs3@;
        let siv = idx@;
        // per-record consistency, including the right boundary
        assert forall|k: int| 0 <= k < gsv.len() implies group_ok(keys, siv, #[trigger] gsv[k]) by {
            if k < gsv.len() - 1 {
                assert(gsv[k + 1].0 == gsv[k].0 + gsv[k].1);
                assert(gsv[k + 1].0 == 0 || skey(keys, siv, gsv[k + 1].0 - 1) != skey(
                    keys,
                    siv,
                    gsv[k + 1].0 as int,
                ));
                assert(gsv[k + 1].1 > 0 && gsv[k + 1].0 + gsv[k + 1].1 <= n);
                assert(gsv[k].0 + gsv[k].1 < n || gsv[k + 1].1 == 0);
            }
        }
        lemma_tiling3(gsv, n as int);
        // distinct first-occurrence indices
        assert forall|k1: int, k2: int|
            0 <= k1 < gsv.len() && 0 <= k2 < gsv.len() && k1 != k2 implies (#[trigger] gsv[k1]).2
            != (#[trigger] gsv[k2]).2 by {
            let lo1 = gsv[k1].0 as int;
            let hi1 = gsv[k1].0 + gsv[k1].1;
            let lo2 = gsv[k2].0 as int;
            let hi2 = gsv[k2].0 + gsv[k2].1;
            let s1 = siv.subrange(lo1, hi1);
            let s2 = siv.subrange(lo2, hi2);
            lemma_seq_min_props(s1);
            lemma_seq_min_props(s2);
            let p1 = choose|p: int| 0 <= p < s1.len() && (#[trigger] s1[p]) as int == seq_min(s1);
            let p2 = choose|p: int| 0 <= p < s2.len() && (#[trigger] s2[p]) as int == seq_min(s2);
            if k1 < k2 {
                lemma_scan_monotone(keys, siv, gsv, n as int, k1, k2);
                assert(lo1 + p1 < lo2 + p2);
                assert(siv[lo1 + p1] != siv[lo2 + p2]);
            } else {
                lemma_scan_monotone(keys, siv, gsv, n as int, k2, k1);
                assert(lo2 + p2 < lo1 + p1);
                assert(siv[lo2 + p2] != siv[lo1 + p1]);
            }
        }
    }
    sort_groups(&mut gs3, Ghost(keys), Ghost(idx@));
    let mut gs: Vec<(usize, usize)> = Vec::new();
    let mut k: usize = 0;
    let m = gs3.len();
    while k < m
        invariant
            k <= m,
            m == gs3@.len(),
            gs@.len() == k,
            forall|t: int| 0 <= t < k ==> (#[trigger] gs@[t]) == ((#[trigger] gs3@[t]).0, gs3@[t].1),
        decreases m - k,
    {
        let g = gs3[k];
        gs.push((g.0, g.1));
        k = k + 1;
    }
    proof {
        let gsv = gs@;
        let gs3v = gs3@;
        let siv = idx@;
        lemma_sum_pairs(gsv, gs3v);
        assert forall|p: int| 0 <= p < n implies #[trigger] covered(gsv, p) by {
            assert(covered3(gs3v, p));
            let kk = choose|kk: int|
                0 <= kk < gs3v.len() && (#[trigger] gs3v[kk]).0 <= p < gs3v[kk].0 + gs3v[kk].1;
            assert(gsv[kk] == (gs3v[kk].0, gs3v[kk].1));
            assert(group_covers(gsv[kk], p));
        }
        assert forall|k1: int, k2: int| 0 <= k1 < k2 < gsv.len() implies group_min(
            siv,
            #[trigger] gsv[k1],
        ) < group_min(siv, #[trigger] gsv[k2]) by {
            assert(group_ok(keys, siv, gs3v[k1]));
            assert(group_ok(keys, siv, gs3v[k2]));
            assert(gsv[k1] == (gs3v[k1].0, gs3v[k1].1));
            assert(gsv[k2] == (gs3v[k2].0, gs3v[k2].1));
            assert(gs3v[k1].2 < gs3v[k2].2);
        }
        assert forall|kk: int, p: int|
            0 <= kk < gsv.len() && group_covers(#[trigger] gsv[kk], p) implies #[trigger] skey(
            keys,
            siv,
            p,
        ) == skey(keys, siv, gsv[kk].0 as int) by {
            assert(group_ok(keys, siv, gs3v[kk]));
            assert(gsv[kk] == (gs3v[kk].0, gs3v[kk].1));
        }
        assert forall|kk: int| 0 <= kk < gsv.len() implies ((#[trigger] gsv[kk]).1 > 0 && gsv[kk].0
            + gsv[kk].1 <= n) by {
            assert(group_ok(keys, siv, gs3v[kk]));
            assert(gsv[kk] == (gs3v[kk].0, gs3v[kk].1));
        }
        assert forall|kk: int| 0 <= kk < gsv.len() implies ((#[trigger] gsv[kk]).0 == 0 || skey(
            keys,
            siv,
            gsv[kk].0 - 1,
        ) != skey(keys, siv, gsv[kk].0 as int)) by {
            assert(group_ok(keys, siv, gs3v[kk]));
            assert(gsv[kk] == (gs3v[kk].0, gs3v[kk].1));
        }
        assert forall|kk: int| 0 <= kk < gsv.len() implies ((#[trigger] gsv[kk]).0 + gsv[kk].1
            == n || skey(keys, siv, gsv[kk].0 + gsv[kk].1) != skey(
            keys,
            siv,
            gsv[kk].0 + gsv[kk].1 - 1,
        )) by {
            assert(group_ok(keys, siv, gs3v[kk]));
            assert(gsv[kk] == (gs3v[kk].0, gs3v[kk].1));
        }
    }
    (idx, gs)
}

/// The indices of entries whose key is `k`, in ascending insertion order.
pub open spec fn match_idxs(entries: Seq<(Seq<char>, ValueModel)>, k: Seq<char>) -> Seq<int>
    decreases entries.len(),
{
    if entries.len() == 0 {
        Seq::empty()
    } else {
        let front = match_idxs(entries.drop_last(), k);
        if entries.last().0 == k {
            front.push(entries.len() - 1)
        } else {
            front
        }
    }
}

/// The reference answer for `query`: the values stored under `k`, in
/// insertion order.
pub open spec fn query_ref(entries: Seq<(Seq<char>, ValueModel)>, k: Seq<char>) -> Seq<
    ValueModel,
> {
    match_idxs(entries, k).map_values(|i: int| entries[i].1)
}

/// The entries stored under `k`, in insertion order.
pub open spec fn filter_ref(entries: Seq<(Seq<char>, ValueModel)>, k: Seq<char>) -> Seq<
    (Seq<char>, ValueModel),
> {
    match_idxs(entries, k).map_values(|i: int| entries[i])
}

/// Some entry carries key `kk`.
pub open spec fn has_key(entries: Seq<(Seq<char>, ValueModel)>, kk: Seq<char>) -> bool {
    exists|i: int| 0 <= i < entries.len() && (#[trigger] entries[i]).0 == kk
}

/// The distinct keys of `entries`, ordered by first occurrence.
pub open spec fn distinct_keys(entries: Seq<(Seq<char>, ValueModel)>) -> Seq<Seq<char>>
    decreases entries.len(),
{
    if entries.len() == 0 {
        Seq::empty()
    } else {
        let front = distinct_keys(entries.drop_last());
        if front.contains(entries.last().0) {
            front
        } else {
            front.push(entries.last().0)
        }
    }
}

/// The keys of `ks` that start with `p`, keeping their order.
pub open spec fn prefix_filter(ks: Seq<Seq<char>>, p: Seq<char>) -> Seq<Seq<char>>
    decreases ks.len(),
{
    if ks.len() == 0 {
        Seq::empty()
    } else {
        let front = prefix_filter(ks.drop_last(), p);
        if is_prefix_of(p, ks.last()) {
            front.push(ks.last())
        } else {
            front
        }
    }
}

/// Concatenation of the per-key entry groups, in the order of `ks`.
pub open spec fn concat_groups(
    entries: Seq<(Seq<char>, ValueModel)>,
    ks: Seq<Seq<char>>,
) -> Seq<(Seq<char>, ValueModel)>
    decreases ks.len(),
{
    if ks.len() == 0 {
        Seq::empty()
    } else {
        concat_groups(entries, ks.drop_last()) + filter_ref(entries, ks.last())
    }
}

/// The reference answer for `query_prefix`: drop entries whose key does
/// not start with `p`, group them by distinct key in first-occurrence
/// order, and keep insertion order inside each group.
pub open spec fn prefix_ref(entries: Seq<(Seq<char>, ValueModel)>, p: Seq<char>) -> Seq<
    (Seq<char>, ValueModel),
> {
    concat_groups(entries, prefix_filter(distinct_keys(entries), p))
}

/// The values under each key of `ks`, in the order of `ks`.
pub open spec fn groups_of(
    entries: Seq<(Seq<char>, ValueModel)>,
    ks: Seq<Seq<char>>,
) -> Seq<(Seq<char>, Seq<ValueModel>)>
    decreases ks.len(),
{
    if ks.len() == 0 {
        Seq::empty()
    } else {
        groups_of(entries, ks.drop_last()).push((ks.last(), query_ref(entries, ks.last())))
    }
}

/// The abstract content of a grouped result list.
pub open spec fn grouped_model(r: Seq<(String, Vec<Value>)>) -> Seq<(Seq<char>, Seq<ValueModel>)> {
    Seq::new(r.len(), |i: int| (r[i].0@, r[i].1@.map_values(|v: Value| v@)))
}

/// The first entry index that carries key `kk`.
pub open spec fn first_idx(entries: Seq<(Seq<char>, ValueModel)>, kk: Seq<char>) -> int {
    match_idxs(entries, kk)[0]
}

/// `match_idxs` is the strictly increasing enumeration of exactly the
/// indices that carry key `k`.
pub proof fn lemma_match_idxs(entries: Seq<(Seq<char>, ValueModel)>, k: Seq<char>)
    ensures
        forall|i: int, j: int|
            0 <= i < j < match_idxs(entries, k).len() ==> match_idxs(entries, k)[i] < match_idxs(
                entries,
                k,
            )[j],
        forall|i: int|
            0 <= i < match_idxs(entries, k).len() ==> 0 <= #[trigger] match_idxs(entries, k)[i]
                < entries.len() && entries[match_idxs(entries, k)[i]].0 == k,
        forall|e: int|
            0 <= e < entries.len() && (#[trigger] entries[e]).0 == k ==> match_idxs(
                entries,
                k,
            ).contains(e),
    decreases entries.len(),
{
    if entries.len() > 0 {
        lemma_match_idxs(entries.drop_last(), k);
        let front = match_idxs(entries.drop_last(), k);
        let whole = match_idxs(entries, k);
        assert forall|i: int|
            0 <= i < whole.len() implies 0 <= #[trigger] whole[i] < entries.len()
            && entries[whole[i]].0 == k by {
            if i < front.len() {
                assert(whole[i] == front[i]);
                assert(entries.drop_last()[front[i]] == entries[front[i]]);
            }
        }
        assert forall|e: int|
            0 <= e < entries.len() && (#[trigger] entries[e]).0 == k implies whole.contains(e) by {
            if e < entries.len() - 1 {
                assert(entries.drop_last()[e] == entries[e]);
                assert(front.contains(e));
                let i = choose|i: int| 0 <= i < front.len() && front[i] == e;
                assert(whole[i] == e);
            } else {
                assert(entries.last().0 == k);
                assert(whole[whole.len() - 1] == e);
            }
        }
    }
}

/// Two strictly increasing integer sequences with the same members are
/// the same sequence.
pub proof fn lemma_inc_seq_eq(a: Seq<int>, b: Seq<int>)
    requires
        forall|i: int, j: int| 0 <= i < j < a.len() ==> a[i] < a[j],
        forall|i: int, j: int| 0 <= i < j < b.len() ==> b[i] < b[j],
        forall|e: int| a.contains(e) <==> b.contains(e),
    ensures
        a == b,
    decreases a.len(),
{
    if a.len() == 0 {
        if b.len() > 0 {
            assert(b.contains(b[0]));
            assert(a.contains(b[0]));
        }
        assert(a =~= b);
    } else {
        assert(a.contains(a[a.len() - 1]));
        assert(b.contains(a[a.len() - 1]));
        if b.len() == 0 {
            assert(false);
        }
        let la = a[a.len() - 1];
        let lb = b[b.len() - 1];
        assert(la <= lb) by {
            let i = choose|i: int| 0 <= i < b.len() && b[i] == la;
            if i < b.len() - 1 {
                assert(b[i] < b[b.len() - 1]);
            }
        }
        assert(lb <= la) by {
            assert(b.contains(lb));
            assert(a.contains(lb));
            let i = choose|i: int| 0 <= i < a.len() && a[i] == lb;
            if i < a.len() - 1 {
                assert(a[i] < a[a.len() - 1]);
            }
        }
        let fa = a.drop_last();
        let fb = b.drop_last();
        assert forall|e: int| fa.contains(e) <==> fb.contains(e) by {
            if fa.contains(e) {
                let i = choose|i: int| 0 <= i < fa.len() && fa[i] == e;
                assert(a[i] == e);
                assert(a[i] < la);
                assert(a.contains(e));
                assert(b.contains(e));
                let j = choose|j: int| 0 <= j < b.len() && b[j] == e;
                assert(j < b.len() - 1) by {
                    if j == b.len() - 1 {
                        assert(e == lb);
                    }
                }
                assert(fb[j] == e);
                assert(fb.contains(e));
            }
            if fb.contains(e) {
                let i = choose|i: int| 0 <= i < fb.len() && fb[i] == e;
                assert(b[i] == e);
                assert(b[i] < lb);
                assert(b.contains(e));
                assert(a.contains(e));
                let j = choose|j: int| 0 <= j < a.len() && a[j] == e;
                assert(j < a.len() - 1) by {
                    if j == a.len() - 1 {
                        assert(e == la);
                    }
                }
                assert(fa[j] == e);
                assert(fa.contains(e));
            }
        }
        lemma_inc_seq_eq(fa, fb);
        assert forall|i: int| 0 <= i < a.len() implies a[i] == b[i] by {
            if i < a.len() - 1 {
                assert(fa[i] == fb[i]);
            }
        }
        assert(a =~= b);
    }
}

/// `distinct_keys` lists each key once, exactly the keys that occur, in
/// strictly increasing order of first occurrence.
pub proof fn lemma_distinct_keys(entries: Seq<(Seq<char>, ValueModel)>)
    ensures
        forall|kk: Seq<char>| #[trigger] distinct_keys(entries).contains(kk) <==> has_key(entries, kk),
        forall|i: int, j: int|
            0 <= i < j < distinct_keys(entries).len() ==> distinct_keys(entries)[i]
                != distinct_keys(entries)[j],
        forall|i: int|
            0 <= i < distinct_keys(entries).len() ==> match_idxs(
                entries,
                #[trigger] distinct_keys(entries)[i],
            ).len() > 0,
        forall|i: int, j: int|
            0 <= i < j < distinct_keys(entries).len() ==> first_idx(
                entries,
                #[trigger] distinct_keys(entries)[i],
            ) < first_idx(entries, #[trigger] distinct_keys(entries)[j]),
    decreases entries.len(),
{
    let dk = distinct_keys(entries);
    if entries.len() == 0 {
        assert forall|kk: Seq<char>| #[trigger] dk.contains(kk) <==> has_key(entries, kk) by {
            if has_key(entries, kk) {
                let i = choose|i: int| 0 <= i < entries.len() && (#[trigger] entries[i]).0 == kk;
                assert(false);
            }
            if dk.contains(kk) {
                let i = choose|i: int| 0 <= i < dk.len() && dk[i] == kk;
                assert(false);
            }
        }
    } else {
        let front_e = entries.drop_last();
        lemma_distinct_keys(front_e);
        lemma_match_idxs(entries, entries.last().0);
        let fdk = distinct_keys(front_e);
        // membership
        assert forall|kk: Seq<char>| #[trigger] dk.contains(kk) <==> has_key(entries, kk) by {
            if dk.contains(kk) {
                let i = choose|i: int| 0 <= i < dk.len() && dk[i] == kk;
                if i < fdk.len() {
                    assert(fdk.contains(kk));
                    assert(has_key(front_e, kk));
                    let e = choose|e: int|
                        0 <= e < front_e.len() && (#[trigger] front_e[e]).0 == kk;
                    assert(entries[e] == front_e[e]);
                    assert(has_key(entries, kk));
                } else {
                    assert(kk == entries.last().0);
                    assert(entries[entries.len() - 1].0 == kk);
                    assert(has_key(entries, kk));
                }
            }
            if has_key(entries, kk) {
                let e = choose|e: int| 0 <= e < entries.len() && (#[trigger] entries[e]).0 == kk;
                if e < entries.len() - 1 {
                    assert(front_e[e] == entries[e]);
                    assert(has_key(front_e, kk));
                    assert(fdk.contains(kk));
                    let i = choose|i: int| 0 <= i < fdk.len() && fdk[i] == kk;
                    assert(dk[i] == kk);
                    assert(dk.contains(kk));
                } else {
                    if fdk.contains(kk) {
                        let i = choose|i: int| 0 <= i < fdk.len() && fdk[i] == kk;
                        assert(dk[i] == kk);
                        assert(dk.contains(kk));
                    } else {
                        assert(dk[dk.len() - 1] == kk);
                        assert(dk.contains(kk));
                    }
                }
            }
        }
        // distinctness
        assert forall|i: int, j: int| 0 <= i < j < dk.len() implies dk[i] != dk[j] by {
            if j < fdk.len() {
                assert(fdk[i] != fdk[j]);
            } else if j == fdk.len() && dk.len() > fdk.len() {
                // dk[j] is the freshly pushed key, absent from fdk
                assert(dk[i] == fdk[i]);
                if dk[i] == dk[j] {
                    assert(fdk.contains(dk[j]));
                }
            }
        }
        // every listed key occurs, and first occurrences strictly increase
        assert forall|i: int|
            0 <= i < dk.len() implies match_idxs(entries, #[trigger] dk[i]).len() > 0 by {
            assert(dk.contains(dk[i]));
            assert(has_key(entries, dk[i]));
            let e = choose|e: int| 0 <= e < entries.len() && (#[trigger] entries[e]).0 == dk[i];
            lemma_match_idxs(entries, dk[i]);
            assert(match_idxs(entries, dk[i]).contains(e));
        }
        assert forall|i: int, j: int| 0 <= i < j < dk.len() implies first_idx(
            entries,
            #[trigger] dk[i],
        ) < first_idx(entries, #[trigger] dk[j]) by {
            assert(dk.contains(dk[i]));
            assert(dk.contains(dk[j]));
            assert(has_key(entries, dk[i]));
            assert(has_key(entries, dk[j]));
            lemma_first_idx_props(entries, dk[i]);
            lemma_first_idx_props(entries, dk[j]);
            if j < fdk.len() {
                assert(dk[i] == fdk[i] && dk[j] == fdk[j]);
                assert(fdk.contains(fdk[i]));
                assert(fdk.contains(fdk[j]));
                assert(has_key(front_e, fdk[i]));
                assert(has_key(front_e, fdk[j]));
                lemma_first_idx_stable(entries, dk[i]);
                lemma_first_idx_stable(entries, dk[j]);
                assert(first_idx(front_e, fdk[i]) < first_idx(front_e, fdk[j]));
            } else {
                // dk[j] is the freshly pushed key: its first occurrence is the
                // last entry, later than any key already listed.
                assert(dk[i] == fdk[i]);
                assert(fdk.contains(fdk[i]));
                assert(has_key(front_e, fdk[i]));
                lemma_first_idx_stable(entries, dk[i]);
                assert(!fdk.contains(dk[j]));
                assert(!has_key(front_e, dk[j]));
                lemma_first_idx_props(entries, dk[j]);
                assert(first_idx(entries, dk[j]) == entries.len() - 1) by {
                    let fi = first_idx(entries, dk[j]);
                    lemma_match_idxs(entries, dk[j]);
                    assert(match_idxs(entries, dk[j]).len() > 0);
                    assert(0 <= fi < entries.len() && entries[fi].0 == dk[j]);
                    if fi < entries.len() - 1 {
                        assert(front_e[fi] == entries[fi]);
                        assert(has_key(front_e, dk[j]));
                    }
                }
                assert(first_idx(entries, dk[i]) < entries.len() - 1) by {
                    let fi = first_idx(entries, dk[i]);
                    assert(fdk.contains(dk[i]));
                    assert(has_key(front_e, dk[i]));
                    let e = choose|e: int|
                        0 <= e < front_e.len() && (#[trigger] front_e[e]).0 == dk[i];
                    assert(entries[e] == front_e[e]);
                    lemma_match_idxs(entries, dk[i]);
                    assert(match_idxs(entries, dk[i]).contains(e));
                    let t = choose|t: int|
                        0 <= t < match_idxs(entries, dk[i]).len() && match_idxs(entries, dk[i])[t]
                            == e;
                    if t > 0 {
                        assert(match_idxs(entries, dk[i])[0] < match_idxs(entries, dk[i])[t]);
                    }
                }
            }
        }
    }
}

/// The first occurrence index carries the key and is the smallest match.
pub proof fn lemma_first_idx_props(entries: Seq<(Seq<char>, ValueModel)>, kk: Seq<char>)
    requires
        has_key(entries, kk),
    ensures
        0 <= first_idx(entries, kk) < entries.len(),
        entries[first_idx(entries, kk)].0 == kk,
        forall|t: int|
            0 <= t < match_idxs(entries, kk).len() ==> first_idx(entries, kk)
                <= #[trigger] match_idxs(entries, kk)[t],
{
    lemma_match_idxs(entries, kk);
    let e = choose|e: int| 0 <= e < entries.len() && (#[trigger] entries[e]).0 == kk;
    assert(match_idxs(entries, kk).contains(e));
    let mi = match_idxs(entries, kk);
    assert(mi.len() > 0);
    assert(0 <= mi[0] < entries.len() && entries[mi[0]].0 == kk);
    assert forall|t: int| 0 <= t < mi.len() implies mi[0] <= #[trigger] mi[t] by {
        if t > 0 {
            assert(mi[0] < mi[t]);
        }
    }
}

/// A key that occurs before the last entry keeps its first occurrence
/// when the last entry is appended.
pub proof fn lemma_first_idx_stable(entries: Seq<(Seq<char>, ValueModel)>, kk: Seq<char>)
    requires
        entries.len() > 0,
        has_key(entries.drop_last(), kk),
    ensures
        first_idx(entries, kk) == first_idx(entries.drop_last(), kk),
{
    lemma_match_idxs(entries.drop_last(), kk);
    let e = choose|e: int|
        0 <= e < entries.drop_last().len() && (#[trigger] entries.drop_last()[e]).0 == kk;
    assert(match_idxs(entries.drop_last(), kk).contains(e));
    let front = match_idxs(entries.drop_last(), kk);
    assert(front.len() > 0);
    if entries.last().0 == kk {
        assert(match_idxs(entries, kk) == front.push(entries.len() - 1));
        assert(match_idxs(entries, kk)[0] == front[0]);
    } else {
        assert(match_idxs(entries, kk) == front);
    }
}

/// A sorted rearrangement of the entry indices found at sorted positions
/// `[lo, hi)` — the positions carrying exactly key `k` — is precisely the
/// ascending enumeration `match_idxs` of that key.
pub(crate) proof fn lemma_sorted_block_is_match(
    model: Seq<(Seq<char>, ValueModel)>,
    keys: Seq<Seq<char>>,
    si: Seq<usize>,
    lo: int,
    hi: int,
    vals: Seq<usize>,
    k: Seq<char>,
)
    requires
        sorted_perm(keys, si),
        keys.len() == model.len(),
        si.len() <= usize::MAX,
        forall|i: int| 0 <= i < model.len() ==> (#[trigger] model[i]).0 == keys[i],
        0 <= lo <= hi <= si.len(),
        forall|p: int| lo <= p < hi ==> #[trigger] skey(keys, si, p) == k,
        forall|p: int| 0 <= p < lo ==> #[trigger] skey(keys, si, p) != k,
        forall|p: int| hi <= p < si.len() ==> #[trigger] skey(keys, si, p) != k,
        vals.to_multiset() == si.subrange(lo, hi).to_multiset(),
        vals.len() == hi - lo,
        forall|i: int, j: int| 0 <= i < j < vals.len() ==> vals[i] <= vals[j],
    ensures
        Seq::new(vals.len(), |t: int| vals[t] as int) == match_idxs(model, k),
{
    broadcast use vstd::seq_lib::group_to_multiset_ensures;

    let block = si.subrange(lo, hi);
    let n = si.len() as int;
    // membership in the block is exactly "carries key k"
    assert forall|e: usize| block.contains(e) implies (e as int) < n && keys[e as int] == k by {
        let p = choose|p: int| 0 <= p < block.len() && block[p] == e;
        assert(si[lo + p] == e);
        assert(skey(keys, si, lo + p) == k);
    }
    assert forall|e: usize| (e as int) < n && keys[e as int] == k implies block.contains(e) by {
        assert(appears(si, e as int));
        let p = choose|p: int| 0 <= p < si.len() && (#[trigger] si[p]) as int == e as int;
        assert(skey(keys, si, p) == keys[e as int]);
        if p < lo || p >= hi {
            assert(skey(keys, si, p) != k);
        }
        assert(block[p - lo] == e);
    }
    // block has no duplicates, so neither has vals, so vals is strictly
    // increasing
    assert(block.no_duplicates()) by {
        assert forall|i: int, j: int|
            0 <= i < block.len() && 0 <= j < block.len() && i != j implies block[i] != block[j] by {
            if i < j {
                assert(si[lo + i] != si[lo + j]);
            } else {
                assert(si[lo + j] != si[lo + i]);
            }
        }
    }
    block.lemma_multiset_has_no_duplicates();
    vals.lemma_multiset_has_no_duplicates_conv();
    assert forall|i: int, j: int| 0 <= i < j < vals.len() implies vals[i] < vals[j] by {
        if vals[i] == vals[j] {
            let s0 = vals.subrange(0, j);
            let s1 = vals.subrange(j, vals.len() as int);
            assert(vals =~= s0 + s1);
            vstd::seq_lib::lemma_multiset_commutative(s0, s1);
            assert(s0.contains(vals[i]));
            assert(s1.contains(vals[j]));
            assert(vals.to_multiset().count(vals[i]) >= 2);
            assert(vals.contains(vals[i]));
        }
    }
    // the two ascending enumerations have the same members
    let av = Seq::new(vals.len(), |t: int| vals[t] as int);
    let mi = match_idxs(model, k);
    lemma_match_idxs(model, k);
    assert forall|e: int| av.contains(e) <==> mi.contains(e) by {
        if av.contains(e) {
            let t = choose|t: int| 0 <= t < av.len() && av[t] == e;
            assert(vals[t] as int == e);
            assert(vals.contains(vals[t]));
            assert(vals.to_multiset().count(vals[t]) > 0);
            assert(block.to_multiset().count(vals[t]) > 0);
            assert(block.contains(vals[t]));
            assert(model[e].0 == keys[e]);
            assert(mi.contains(e));
        }
        if mi.contains(e) {
            let t = choose|t: int| 0 <= t < mi.len() && mi[t] == e;
            assert(0 <= e < model.len() && model[e].0 == k);
            assert(keys[e] == k);
            assert(block.contains(e as usize));
            assert(block.to_multiset().count(e as usize) > 0);
            assert(vals.to_multiset().count(e as usize) > 0);
            assert(vals.contains(e as usize));
            let u = choose|u: int| 0 <= u < vals.len() && vals[u] == e as usize;
            assert(av[u] == e);
            assert(av.contains(e));
        }
    }
    lemma_inc_seq_eq(av, mi);
}

/// A maximal equal-key run holds its key nowhere outside itself.
pub(crate) proof fn lemma_group_exact(
    keys: Seq<Seq<char>>,
    si: Seq<usize>,
    start: int,
    end: int,
    k: Seq<char>,
)
    requires
        sorted_perm(keys, si),
        0 <= start < end <= si.len(),
        forall|p: int| start <= p < end ==> #[trigger] skey(keys, si, p) == k,
        start == 0 || skey(keys, si, start - 1) != k,
        end == si.len() || skey(keys, si, end) != k,
    ensures
        forall|p: int| 0 <= p < start ==> #[trigger] skey(keys, si, p) != k,
        forall|p: int| end <= p < si.len() ==> #[trigger] skey(keys, si, p) != k,
{
    assert forall|p: int| 0 <= p < start implies #[trigger] skey(keys, si, p) != k by {
        if skey(keys, si, p) == k {
            if p < start - 1 {
                assert(lex_leq(skey(keys, si, p), skey(keys, si, start - 1)));
            }
            assert(lex_leq(skey(keys, si, start - 1), skey(keys, si, start)));
            crate::text::lemma_leq_antisym(skey(keys, si, start - 1), k);
        }
    }
    assert forall|p: int| end <= p < si.len() implies #[trigger] skey(keys, si, p) != k by {
        if skey(keys, si, p) == k {
            if p > end {
                assert(lex_leq(skey(keys, si, end), skey(keys, si, p)));
            }
            assert(lex_leq(skey(keys, si, end - 1), skey(keys, si, end)));
            crate::text::lemma_leq_antisym(skey(keys, si, end), k);
        }
    }
}

/// The keys of the group records, in record order.
pub(crate) open spec fn group_keys(
    keys: Seq<Seq<char>>,
    si: Seq<usize>,
    gs: Seq<(usize, usize)>,
) -> Seq<Seq<char>> {
    Seq::new(gs.len(), |kk: int| skey(keys, si, gs[kk].0 as int))
}

/// The group records list exactly the distinct keys, in first-occurrence
/// order: their key sequence is `distinct_keys`.
pub(crate) proof fn lemma_group_keys(
    model: Seq<(Seq<char>, ValueModel)>,
    keys: Seq<Seq<char>>,
    si: Seq<usize>,
    gs: Seq<(usize, usize)>,
)
    requires
        sorted_perm(keys, si),
        groups_wf(keys, si, gs),
        keys.len() == model.len(),
        si.len() <= usize::MAX,
        forall|i: int| 0 <= i < model.len() ==> (#[trigger] model[i]).0 == keys[i],
    ensures
        group_keys(keys, si, gs) == distinct_keys(model),
        forall|kk: int|
            0 <= kk < gs.len() ==> group_min(si, #[trigger] gs[kk]) == first_idx(
                model,
                group_keys(keys, si, gs)[kk],
            ),
{
    let gk = group_keys(keys, si, gs);
    let dk = distinct_keys(model);
    let n = si.len() as int;
    lemma_distinct_keys(model);
    // each group's first-occurrence index is the first index of its key
    assert forall|kk: int|
        0 <= kk < gs.len() implies group_min(si, #[trigger] gs[kk]) == first_idx(model, gk[kk]) by {
        let g = gs[kk];
        let start = g.0 as int;
        let end = g.0 + g.1;
        let kkey = gk[kk];
        lemma_group_exact(keys, si, start, end, kkey);
        let block = si.subrange(start, end);
        lemma_seq_min_props(block);
        let q = choose|q: int| 0 <= q < block.len() && (#[trigger] block[q]) as int == seq_min(
            block,
        );
        let gm = group_min(si, g);
        // gm is a matching entry index
        assert(si[start + q] as int == gm);
        assert(skey(keys, si, start + q) == kkey);
        assert(model[gm].0 == kkey);
        assert(has_key(model, kkey));
        lemma_first_idx_props(model, kkey);
        lemma_match_idxs(model, kkey);
        let fi = first_idx(model, kkey);
        assert(match_idxs(model, kkey).contains(gm)) by {
            assert(model[gm].0 == kkey);
        }
        let t = choose|t: int|
            0 <= t < match_idxs(model, kkey).len() && match_idxs(model, kkey)[t] == gm;
        assert(fi <= gm);
        // fi is itself in the block, so gm <= fi
        assert(model[fi].0 == kkey);
        assert(keys[fi] == kkey);
        assert(appears(si, fi));
        let pp = choose|pp: int| 0 <= pp < si.len() && (#[trigger] si[pp]) as int == fi;
        assert(skey(keys, si, pp) == kkey);
        assert(start <= pp < end) by {
            if pp < start || pp >= end {
                assert(skey(keys, si, pp) != kkey);
            }
        }
        assert(block[pp - start] == si[pp]);
        assert(gm <= fi);
    }
    // same membership
    assert forall|kx: Seq<char>| gk.contains(kx) <==> dk.contains(kx) by {
        if gk.contains(kx) {
            let kk = choose|kk: int| 0 <= kk < gk.len() && gk[kk] == kx;
            let g = gs[kk];
            assert(skey(keys, si, g.0 as int) == kx);
            let e = si[g.0 as int];
            assert(model[e as int].0 == kx);
            assert(has_key(model, kx));
            assert(dk.contains(kx));
        }
        if dk.contains(kx) {
            assert(has_key(model, kx));
            let e = choose|e: int| 0 <= e < model.len() && (#[trigger] model[e]).0 == kx;
            assert(keys[e] == kx);
            assert(appears(si, e));
            let pp = choose|pp: int| 0 <= pp < si.len() && (#[trigger] si[pp]) as int == e;
            assert(covered(gs, pp));
            let kk = choose|kk: int| 0 <= kk < gs.len() && group_covers(#[trigger] gs[kk], pp);
            assert(skey(keys, si, pp) == skey(keys, si, gs[kk].0 as int));
            assert(gk[kk] == kx);
            assert(gk.contains(kx));
        }
    }
    // map both sequences to their first-occurrence indices
    let fa = Seq::new(gk.len(), |kk: int| first_idx(model, gk[kk]));
    let fb = Seq::new(dk.len(), |kk: int| first_idx(model, dk[kk]));
    assert forall|i: int, j: int| 0 <= i < j < fa.len() implies fa[i] < fa[j] by {
        assert(group_min(si, gs[i]) < group_min(si, gs[j]));
    }
    assert forall|e: int| fa.contains(e) <==> fb.contains(e) by {
        if fa.contains(e) {
            let kk = choose|kk: int| 0 <= kk < fa.len() && fa[kk] == e;
            assert(gk.contains(gk[kk]));
            assert(dk.contains(gk[kk]));
            let jj = choose|jj: int| 0 <= jj < dk.len() && dk[jj] == gk[kk];
            assert(fb[jj] == e);
            assert(fb.contains(e));
        }
        if fb.contains(e) {
            let kk = choose|kk: int| 0 <= kk < fb.len() && fb[kk] == e;
            assert(dk.contains(dk[kk]));
            assert(gk.contains(dk[kk]));
            let jj = choose|jj: int| 0 <= jj < gk.len() && gk[jj] == dk[kk];
            assert(fa[jj] == e);
            assert(fa.contains(e));
        }
    }
    lemma_inc_seq_eq(fa, fb);
    // recover key equality pointwise through the first index
    assert forall|kk: int| 0 <= kk < gk.len() implies gk[kk] == dk[kk] by {
        assert(fa[kk] == fb[kk]);
        assert(gk.contains(gk[kk]));
        assert(dk.contains(dk[kk]));
        assert(has_key(model, gk[kk]));
        assert(has_key(model, dk[kk]));
        lemma_first_idx_props(model, gk[kk]);
        lemma_first_idx_props(model, dk[kk]);
        assert(model[fa[kk]].0 == gk[kk]);
        assert(model[fb[kk]].0 == dk[kk]);
    }
    assert(gk =~= dk);
}

/// The group keys selected by a sorted-position window, in record order.
pub(crate) open spec fn sel_keys(
    keys: Seq<Seq<char>>,
    si: Seq<usize>,
    gs: Seq<(usize, usize)>,
    lo: int,
    hi: int,
) -> Seq<Seq<char>>
    decreases gs.len(),
{
    if gs.len() == 0 {
        Seq::empty()
    } else {
        let front = sel_keys(keys, si, gs.drop_last(), lo, hi);
        if lo <= gs.last().0 < hi {
            front.push(skey(keys, si, gs.last().0 as int))
        } else {
            front
        }
    }
}

/// When the window test agrees pointwise with the prefix test on the
/// group keys, the selected keys are the prefix-filtered keys.
pub(crate) proof fn lemma_sel_is_filter(
    keys: Seq<Seq<char>>,
    si: Seq<usize>,
    gs: Seq<(usize, usize)>,
    lo: int,
    hi: int,
    p: Seq<char>,
)
    requires
        forall|kk: int|
            0 <= kk < gs.len() ==> ((lo <= (#[trigger] gs[kk]).0 < hi) <==> is_prefix_of(
                p,
                skey(keys, si, gs[kk].0 as int),
            )),
    ensures
        sel_keys(keys, si, gs, lo, hi) == prefix_filter(group_keys(keys, si, gs), p),
    decreases gs.len(),
{
    let gk = group_keys(keys, si, gs);
    if gs.len() == 0 {
        assert(sel_keys(keys, si, gs, lo, hi) =~= prefix_filter(gk, p));
    } else {
        let front_gs = gs.drop_last();
        assert forall|kk: int|
            0 <= kk < front_gs.len() implies ((lo <= (#[trigger] front_gs[kk]).0 < hi)
            <==> is_prefix_of(p, skey(keys, si, front_gs[kk].0 as int))) by {
            assert(front_gs[kk] == gs[kk]);
        }
        lemma_sel_is_filter(keys, si, front_gs, lo, hi, p);
        assert(gk.drop_last() =~= group_keys(keys, si, front_gs));
        assert(gk.last() == skey(keys, si, gs.last().0 as int));
        assert(gs[gs.len() - 1] == gs.last());
    }
}

/// Filtering by the empty prefix keeps every key.
pub(crate) proof fn lemma_prefix_filter_all(ks: Seq<Seq<char>>, p: Seq<char>)
    requires
        p.len() == 0,
    ensures
        prefix_filter(ks, p) == ks,
    decreases ks.len(),
{
    if ks.len() > 0 {
        lemma_prefix_filter_all(ks.drop_last(), p);
        assert(is_prefix_of(p, ks.last())) by {
            assert(ks.last().subrange(0, 0) =~= p);
        }
        assert(prefix_filter(ks, p) =~= ks);
    } else {
        assert(prefix_filter(ks, p) =~= ks);
    }
}

/// First sorted position whose key is not below `key`.
fn lower_bound(
    arena: &TextArena,
    entries: &Vec<(TextId, ValueRaw)>,
    si: &Vec<usize>,
    key: &[char],
) -> (lo: usize)
    requires
        entries_wf(*arena, entries@),
        sorted_perm(keys_of(*arena, entries@), si@),
    ensures
        lo <= si@.len(),
        forall|p: int|
            0 <= p < lo ==> lex_lt(#[trigger] skey(keys_of(*arena, entries@), si@, p), key@),
        forall|p: int|
            lo <= p < si@.len() ==> !lex_lt(
                #[trigger] skey(keys_of(*arena, entries@), si@, p),
                key@,
            ),
{
    let ghost keys = keys_of(*arena, entries@);
    let mut lo: usize = 0;
    let mut hi: usize = si.len();
    while lo < hi
        invariant
            entries_wf(*arena, entries@),
            sorted_perm(keys, si@),
            keys == keys_of(*arena, entries@),
            lo <= hi <= si@.len(),
            forall|p: int| 0 <= p < lo ==> lex_lt(#[trigger] skey(keys, si@, p), key@),
            forall|p: int| hi <= p < si@.len() ==> !lex_lt(#[trigger] skey(keys, si@, p), key@),
        decreases hi - lo,
    {
        let mid = lo + (hi - lo) / 2;
        let e = si[mid];
        let kt = arena.get(entries[e].0);
        if chars_lt(kt, key) {
            proof {
                assert forall|p: int| 0 <= p < mid + 1 implies lex_lt(
                    #[trigger] skey(keys, si@, p),
                    key@,
                ) by {
                    if p < mid {
                        assert(lex_leq(skey(keys, si@, p), skey(keys, si@, mid as int)));
                        crate::text::lemma_leq_lt_trans(
                            skey(keys, si@, p),
                            skey(keys, si@, mid as int),
                            key@,
                        );
                    }
                }
            }
            lo = mid + 1;
        } else {
            proof {
                assert forall|p: int| mid <= p < si@.len() implies !lex_lt(
                    #[trigger] skey(keys, si@, p),
                    key@,
                ) by {
                    if p > mid && lex_lt(skey(keys, si@, p), key@) {
                        assert(lex_leq(skey(keys, si@, mid as int), skey(keys, si@, p)));
                        crate::text::lemma_leq_lt_trans(
                            skey(keys, si@, mid as int),
                            skey(keys, si@, p),
                            key@,
                        );
                    }
                }
            }
            hi = mid;
        }
    }
    lo
}

/// First sorted position whose key is above `key`.
fn upper_bound(
    arena: &TextArena,
    entries: &Vec<(TextId, ValueRaw)>,
    si: &Vec<usize>,
    key: &[char],
) -> (hi: usize)
    requires
        entries_wf(*arena, entries@),
        sorted_perm(keys_of(*arena, entries@), si@),
    ensures
        hi <= si@.len(),
        forall|p: int|
            0 <= p < hi ==> !lex_lt(key@, #[trigger] skey(keys_of(*arena, entries@), si@, p)),
        forall|p: int|
            hi <= p < si@.len() ==> lex_lt(
                key@,
                #[trigger] skey(keys_of(*arena, entries@), si@, p),
            ),
{
    let ghost keys = keys_of(*arena, entries@);
    let mut lo: usize = 0;
    let mut hi: usize = si.len();
    while lo < hi
        invariant
            entries_wf(*arena, entries@),
            sorted_perm(keys, si@),
            keys == keys_of(*arena, entries@),
            lo <= hi <= si@.len(),
            forall|p: int| 0 <= p < lo ==> !lex_lt(key@, #[trigger] skey(keys, si@, p)),
            forall|p: int| hi <= p < si@.len() ==> lex_lt(key@, #[trigger] skey(keys, si@, p)),
        decreases hi - lo,
    {
        let mid = lo + (hi - lo) / 2;
        let e = si[mid];
        let kt = arena.get(entries[e].0);
        if !chars_lt(key, kt) {
            proof {
                assert forall|p: int| 0 <= p < mid + 1 implies !lex_lt(
                    key@,
                    #[trigger] skey(keys, si@, p),
                ) by {
                    if p < mid && lex_lt(key@, skey(keys, si@, p)) {
                        assert(lex_leq(skey(keys, si@, p), skey(keys, si@, mid as int)));
                        crate::text::lemma_lt_leq_trans(
                            key@,
                            skey(keys, si@, p),
                            skey(keys, si@, mid as int),
                        );
                    }
                }
            }
            lo = mid + 1;
        } else {
            proof {
                assert forall|p: int| mid <= p < si@.len() implies lex_lt(
                    key@,
                    #[trigger] skey(keys, si@, p),
                ) by {
                    if p > mid {
                        assert(lex_leq(skey(keys, si@, mid as int), skey(keys, si@, p)));
                        crate::text::lemma_lt_leq_trans(
                            key@,
                            skey(keys, si@, mid as int),
                            skey(keys, si@, p),
                        );
                    }
                }
            }
            hi = mid;
        }
    }
    hi
}

/// When every record starts inside the window, selection keeps all keys.
pub(crate) proof fn lemma_sel_all(
    keys: Seq<Seq<char>>,
    si: Seq<usize>,
    gs: Seq<(usize, usize)>,
    lo: int,
    hi: int,
)
    requires
        forall|kk: int| 0 <= kk < gs.len() ==> lo <= (#[trigger] gs[kk]).0 < hi,
    ensures
        sel_keys(keys, si, gs, lo, hi) == group_keys(keys, si, gs),
    decreases gs.len(),
{
    if gs.len() == 0 {
        assert(sel_keys(keys, si, gs, lo, hi) =~= group_keys(keys, si, gs));
    } else {
        let front = gs.drop_last();
        assert forall|kk: int| 0 <= kk < front.len() implies lo <= (#[trigger] front[kk]).0
            < hi by {
            assert(front[kk] == gs[kk]);
        }
        lemma_sel_all(keys, si, front, lo, hi);
        assert(gs[gs.len() - 1] == gs.last());
        assert(group_keys(keys, si, front) =~= group_keys(keys, si, gs).drop_last());
        assert(sel_keys(keys, si, gs, lo, hi) =~= group_keys(keys, si, gs));
    }
}

/// The abstract content of a key-value result list.
pub open spec fn pairs_model(r: Seq<(String, Value)>) -> Seq<(Seq<char>, ValueModel)> {
    Seq::new(r.len(), |i: int| (r[i].0@, r[i].1@))
}

/// First sorted position whose key neither starts with `pfx` nor is
/// below it.
fn prefix_upper_bound(
    arena: &TextArena,
    entries: &Vec<(TextId, ValueRaw)>,
    si: &Vec<usize>,
    pfx: &[char],
) -> (hi: usize)
    requires
        entries_wf(*arena, entries@),
        sorted_perm(keys_of(*arena, entries@), si@),
    ensures
        hi <= si@.len(),
        forall|q: int|
            0 <= q < hi ==> (lex_lt(#[trigger] skey(keys_of(*arena, entries@), si@, q), pfx@)
                || is_prefix_of(pfx@, skey(keys_of(*arena, entries@), si@, q))),
        forall|q: int|
            hi <= q < si@.len() ==> !(lex_lt(
                #[trigger] skey(keys_of(*arena, entries@), si@, q),
                pfx@,
            ) || is_prefix_of(pfx@, skey(keys_of(*arena, entries@), si@, q))),
{
    let ghost keys = keys_of(*arena, entries@);
    let mut lo: usize = 0;
    let mut hi: usize = si.len();
    while lo < hi
        invariant
            entries_wf(*arena, entries@),
            sorted_perm(keys, si@),
            keys == keys_of(*arena, entries@),
            lo <= hi <= si@.len(),
            forall|q: int|
                0 <= q < lo ==> (lex_lt(#[trigger] skey(keys, si@, q), pfx@) || is_prefix_of(
                    pfx@,
                    skey(keys, si@, q),
                )),
            forall|q: int|
                hi <= q < si@.len() ==> !(lex_lt(#[trigger] skey(keys, si@, q), pfx@)
                    || is_prefix_of(pfx@, skey(keys, si@, q))),
        decreases hi - lo,
    {
        let mid = lo + (hi - lo) / 2;
        let e = si[mid];
        let kt = arena.get(entries[e].0);
        let below = chars_lt(kt, pfx);
        let within = chars_starts_with(kt, pfx);
        if below || within {
            proof {
                let km = skey(keys, si@, mid as int);
                assert forall|q: int| 0 <= q < mid + 1 implies (lex_lt(
                    #[trigger] skey(keys, si@, q),
                    pfx@,
                ) || is_prefix_of(pfx@, skey(keys, si@, q))) by {
                    if q < mid {
                        let kq = skey(keys, si@, q);
                        assert(lex_leq(kq, km));
                        if below {
                            crate::text::lemma_leq_lt_trans(kq, km, pfx@);
                        } else {
                            if !lex_lt(kq, pfx@) {
                                lemma_lex_trichotomy(kq, pfx@);
                                assert(lex_leq(pfx@, kq));
                                lemma_prefix_window(pfx@, kq, km);
                            }
                        }
                    }
                }
            }
            lo = mid + 1;
        } else {
            proof {
                let km = skey(keys, si@, mid as int);
                assert forall|q: int| mid <= q < si@.len() implies !(lex_lt(
                    #[trigger] skey(keys, si@, q),
                    pfx@,
                ) || is_prefix_of(pfx@, skey(keys, si@, q))) by {
                    if q > mid {
                        let kq = skey(keys, si@, q);
                        assert(lex_leq(km, kq));
                        if lex_lt(kq, pfx@) {
                            crate::text::lemma_leq_lt_trans(km, kq, pfx@);
                        }
                        if is_prefix_of(pfx@, kq) {
                            lemma_lex_trichotomy(km, pfx@);
                            assert(lex_leq(pfx@, km));
                            lemma_prefix_window(pfx@, km, kq);
                        }
                    }
                }
            }
            hi = mid;
        }
    }
    hi
}

/// Builds a public value from a stored one.
fn raw_to_value(arena: &TextArena, raw: ValueRaw) -> (v: Value)
    requires
        raw_wf(*arena, raw),
    ensures
        v@ == raw_model(*arena, raw),
{
    match raw {
        ValueRaw::Bool(b) => Value::Bool(b),
        ValueRaw::Integer(id) => Value::Integer(chars_to_string(arena.get(id))),
        ValueRaw::String(id) => Value::String(chars_to_string(arena.get(id))),
    }
}

/// An ordered, queryable key-value store with typed values and grouped
/// duplicate-key semantics.
pub struct Config {
    arena: TextArena,
    entries: Vec<(TextId, ValueRaw)>,
    sorted_indices: Vec<usize>,
    group_order: Vec<(usize, usize)>,
}

impl Config {
    /// The number of entries.
    pub closed spec fn num_entries(self) -> int {
        self.entries@.len() as int
    }

    /// The key text of entry `i` (insertion order).
    pub closed spec fn key_at(self, i: int) -> Seq<char> {
        self.arena.text(self.entries@[i].0)
    }

    /// The value of entry `i` (insertion order).
    pub closed spec fn val_at(self, i: int) -> ValueModel {
        raw_model(self.arena, self.entries@[i].1)
    }

    /// The entries in insertion order, as key text and value model.
    pub open spec fn model(self) -> Seq<(Seq<char>, ValueModel)> {
        Seq::new(self.num_entries() as nat, |i: int| (self.key_at(i), self.val_at(i)))
    }

    /// The store's internal invariant: the sorted index is a key-sorted
    /// permutation of the entries, and the group records partition it into
    /// maximal equal-key runs ordered by first occurrence.
    pub closed spec fn wf(self) -> bool {
        &&& entries_wf(self.arena, self.entries@)
        &&& sorted_perm(keys_of(self.arena, self.entries@), self.sorted_indices@)
        &&& groups_wf(
            keys_of(self.arena, self.entries@),
            self.sorted_indices@,
            self.group_order@,
        )
    }

    /// The insertion-order keys, as seen by the index specifications.
    pub(crate) closed spec fn keys(self) -> Seq<Seq<char>> {
        keys_of(self.arena, self.entries@)
    }

    /// The key-sorted permutation of the entry indices.
    pub closed spec fn sorted_index(self) -> Seq<usize> {
        self.sorted_indices@
    }

    /// The group records `(sorted_start, count)`, in first-occurrence order.
    pub closed spec fn group_records(self) -> Seq<(usize, usize)> {
        self.group_order@
    }

    /// The key found at sorted position `p`.
    pub closed spec fn key_at_sorted(self, p: int) -> Seq<char> {
        skey(self.keys(), self.sorted_indices@, p)
    }

    /// Returns the values stored under exactly `key`, in insertion order.
    pub fn query(&self, key: &str) -> (r: Vec<Value>)
        requires
            self.wf(),
        ensures
            r@.map_values(|v: Value| v@) == query_ref(self.model(), key@),
    {
        let kc = str_chars(key);
        let lo = lower_bound(&self.arena, &self.entries, &self.sorted_indices, kc.as_slice());
        let hi = upper_bound(&self.arena, &self.entries, &self.sorted_indices, kc.as_slice());
        let ghost keys = self.keys();
        let ghost siv = self.sorted_indices@;
        proof {
            if hi < lo {
                let x = skey(keys, siv, hi as int);
                lemma_lex_lt_trans(x, key@, x);
                lemma_lex_lt_asym(x, x);
            }
            assert forall|p: int| lo <= p < hi implies #[trigger] skey(keys, siv, p) == key@ by {
                lemma_lex_trichotomy(skey(keys, siv, p), key@);
                if lex_lt(skey(keys, siv, p), key@) {
                }
                if lex_lt(key@, skey(keys, siv, p)) {
                }
            }
            assert forall|p: int| 0 <= p < lo implies #[trigger] skey(keys, siv, p) != key@ by {
                lemma_lex_lt_asym(skey(keys, siv, p), key@);
            }
            assert forall|p: int|
                hi <= p < siv.len() implies #[trigger] skey(keys, siv, p) != key@ by {
                lemma_lex_lt_asym(key@, skey(keys, siv, p));
            }
        }
        let nlen = self.sorted_indices.len();
        let slice = &self.sorted_indices.as_slice()[lo..hi];
        let mut buf = index_buf_from(slice);
        index_buf_sort(&mut buf);
        proof {
            assert forall|i: int| 0 <= i < self.model().len() implies (#[trigger] self.model()[i]).0
                == keys[i] by {}
            lemma_sorted_block_is_match(
                self.model(),
                keys,
                siv,
                lo as int,
                hi as int,
                index_buf_seq(buf),
                key@,
            );
        }
        let ghost bs = index_buf_seq(buf);
        let m = index_buf_len(&buf);
        let mut r: Vec<Value> = Vec::new();
        let mut t: usize = 0;
        while t < m
            invariant
                self.wf(),
                t <= m,
                m == bs.len(),
                bs == index_buf_seq(buf),
                Seq::new(bs.len(), |u: int| bs[u] as int) == match_idxs(self.model(), key@),
                r@.map_values(|v: Value| v@) == query_ref(self.model(), key@).take(t as int),
            decreases m - t,
        {
            let e = index_buf_get(&buf, t);
            proof {
                lemma_match_idxs(self.model(), key@);
                assert(match_idxs(self.model(), key@)[t as int] == e as int);
                assert(0 <= (e as int) && (e as int) < self.model().len());
            }
            let raw = self.entries[e].1;
            let v = raw_to_value(&self.arena, raw);
            let ghost r0 = r@;
            r.push(v);
            proof {
                let mdl = self.model();
                let qr = query_ref(mdl, key@);
                assert(v@ == mdl[e as int].1);
                assert(qr[t as int] == mdl[match_idxs(mdl, key@)[t as int]].1);
                assert(r0.map_values(|vv: Value| vv@).len() == t);
                assert(r0.len() == t);
                assert(r@ == r0.push(v));
                assert forall|u: int| 0 <= u < t + 1 implies r@.map_values(|vv: Value| vv@)[u]
                    == #[trigger] qr.take(t + 1)[u] by {
                    if u < t {
                        assert(r@[u] == r0[u]);
                        assert(r0.map_values(|vv: Value| vv@)[u] == qr.take(t as int)[u]);
                    } else {
                        assert(r@[u] == v);
                    }
                }
                assert(r@.map_values(|vv: Value| vv@) =~= qr.take(t + 1));
            }
            t = t + 1;
        }
        proof {
            assert(query_ref(self.model(), key@).take(m as int) =~= query_ref(
                self.model(),
                key@,
            ));
        }
        r
    }

    /// The counting and partition consequences of the invariant, stated
    /// over the public accessors.
    pub proof fn lemma_wf_unfold(self)
        requires
            self.wf(),
        ensures
            self.sorted_index().len() == self.model().len(),
            sum_counts(self.group_records()) == self.model().len(),
            forall|k: int|
                0 <= k < self.group_records().len() ==> (#[trigger] self.group_records()[k]).1 > 0
                    && self.group_records()[k].0 + self.group_records()[k].1 <= self.model().len(),
            forall|p: int|
                0 <= p < self.model().len() ==> #[trigger] covered(self.group_records(), p),
            forall|k: int, p: int|
                0 <= k < self.group_records().len() && group_covers(
                    #[trigger] self.group_records()[k],
                    p,
                ) ==> #[trigger] self.key_at_sorted(p) == self.key_at_sorted(
                    self.group_records()[k].0 as int,
                ),
    {
    }

    /// Two distinct group records never cover the same sorted position.
    pub proof fn lemma_groups_disjoint(self, k1: int, k2: int, p: int)
        requires
            self.wf(),
            0 <= k1 < self.group_records().len(),
            0 <= k2 < self.group_records().len(),
            k1 != k2,
        ensures
            !(group_covers(self.group_records()[k1], p) && group_covers(
                self.group_records()[k2],
                p,
            )),
    {
        if group_covers(self.group_records()[k1], p) && group_covers(
            self.group_records()[k2],
            p,
        ) {
            self.lemma_groups_overlap_impossible(k1, k2, p);
        }
    }

    /// Overlapping distinct records contradict the invariant.
    proof fn lemma_groups_overlap_impossible(self, k1: int, k2: int, p: int)
        requires
            self.wf(),
            0 <= k1 < self.group_records().len(),
            0 <= k2 < self.group_records().len(),
            k1 != k2,
            group_covers(self.group_records()[k1], p),
            group_covers(self.group_records()[k2], p),
        ensures
            !group_covers(self.group_records()[k1], p),
    {
        let keys = self.keys();
        let siv = self.sorted_indices@;
        let gs = self.group_order@;
        let g1 = gs[k1];
        let g2 = gs[k2];
        if g1.0 == g2.0 {
            if g1.1 != g2.1 {
                // the shorter run's right boundary would sit strictly inside
                // the longer run, where the keys are equal
                let (shorter, longer): ((usize, usize), (usize, usize)) = if g1.1 < g2.1 {
                    (g1, g2)
                } else {
                    (g2, g1)
                };
                let end = shorter.0 + shorter.1;
                assert(group_covers(longer, end - 1));
                assert(group_covers(longer, end as int));
                assert(skey(keys, siv, end - 1) == skey(keys, siv, longer.0 as int));
                assert(skey(keys, siv, end as int) == skey(keys, siv, longer.0 as int));
            } else {
                // identical records would share their first-occurrence index
                if k1 < k2 {
                    assert(group_min(siv, gs[k1]) < group_min(siv, gs[k2]));
                } else {
                    assert(group_min(siv, gs[k2]) < group_min(siv, gs[k1]));
                }
            }
        } else {
            // the later start would sit inside the earlier run, where the
            // keys are equal, contradicting its left boundary
            let (first, second): ((usize, usize), (usize, usize)) = if g1.0 < g2.0 {
                (g1, g2)
            } else {
                (g2, g1)
            };
            assert(first.0 <= p < first.0 + first.1);
            assert(second.0 <= p < second.0 + second.1);
            assert(group_covers(first, second.0 - 1));
            assert(group_covers(first, second.0 as int));
            assert(skey(keys, siv, second.0 - 1) == skey(keys, siv, first.0 as int));
            assert(skey(keys, siv, second.0 as int) == skey(keys, siv, first.0 as int));
            assert(skey(keys, siv, second.0 - 1) != skey(keys, siv, second.0 as int));
        }
    }

    /// Yields the entries of every group whose run starts inside the
    /// sorted-position window `[lo, hi)`, groups in first-occurrence
    /// order, each group in insertion order.
    fn iter_range(&self, lo: usize, hi: usize) -> (r: Vec<(String, Value)>)
        requires
            self.wf(),
            lo <= hi <= self.sorted_indices@.len(),
        ensures
            pairs_model(r@) == concat_groups(
                self.model(),
                sel_keys(
                    self.keys(),
                    self.sorted_indices@,
                    self.group_order@,
                    lo as int,
                    hi as int,
                ),
            ),
    {
        let ghost keys = self.keys();
        let ghost siv = self.sorted_indices@;
        let ghost gsv = self.group_order@;
        let ghost mdl = self.model();
        proof {
            assert forall|i: int| 0 <= i < mdl.len() implies (#[trigger] mdl[i]).0 == keys[i] by {}
        }
        let m = self.group_order.len();
        let nlen = self.sorted_indices.len();
        let mut r: Vec<(String, Value)> = Vec::new();
        let mut k: usize = 0;
        while k < m
            invariant
                self.wf(),
                keys == self.keys(),
                siv == self.sorted_indices@,
                gsv == self.group_order@,
                mdl == self.model(),
                nlen == siv.len(),
                lo <= hi <= siv.len(),
                k <= m,
                m == gsv.len(),
                pairs_model(r@) == concat_groups(
                    mdl,
                    sel_keys(keys, siv, gsv.take(k as int), lo as int, hi as int),
                ),
            decreases m - k,
        {
            let g = self.group_order[k];
            proof {
                assert(gsv.take(k + 1).drop_last() =~= gsv.take(k as int));
                assert(gsv.take(k + 1).last() == gsv[k as int]);
                assert(gsv[k as int].1 > 0 && gsv[k as int].0 + gsv[k as int].1 <= keys.len());
            }
            if lo <= g.0 && g.0 < hi {
                let start = g.0;
                let count = g.1;
                let end = start + count;
                let slice = &self.sorted_indices.as_slice()[start..end];
                let mut buf = index_buf_from(slice);
                index_buf_sort(&mut buf);
                let ghost kkey = skey(keys, siv, start as int);
                proof {
                    assert forall|p: int| start <= p < end implies #[trigger] skey(keys, siv, p)
                        == kkey by {
                        assert(group_covers(gsv[k as int], p));
                    }
                    assert(start == 0 || skey(keys, siv, start - 1) != kkey);
                    assert(end == siv.len() || skey(keys, siv, end as int) != skey(
                        keys,
                        siv,
                        end - 1,
                    ));
                    lemma_group_exact(keys, siv, start as int, end as int, kkey);
                    lemma_sorted_block_is_match(
                        mdl,
                        keys,
                        siv,
                        start as int,
                        end as int,
                        index_buf_seq(buf),
                        kkey,
                    );
                }
                let ghost bs = index_buf_seq(buf);
                let bl = index_buf_len(&buf);
                let mut t: usize = 0;
                while t < bl
                    invariant
                        self.wf(),
                        keys == self.keys(),
                        siv == self.sorted_indices@,
                        mdl == self.model(),
                        t <= bl,
                        bl == bs.len(),
                        bs == index_buf_seq(buf),
                        Seq::new(bs.len(), |u: int| bs[u] as int) == match_idxs(mdl, kkey),
                        pairs_model(r@) == concat_groups(
                            mdl,
                            sel_keys(keys, siv, gsv.take(k as int), lo as int, hi as int),
                        ) + filter_ref(mdl, kkey).take(t as int),
                    decreases bl - t,
                {
                    let e = index_buf_get(&buf, t);
                    proof {
                        lemma_match_idxs(mdl, kkey);
                        assert(match_idxs(mdl, kkey)[t as int] == e as int);
                        assert(0 <= (e as int) && (e as int) < mdl.len());
                    }
                    let kstr = chars_to_string(self.arena.get(self.entries[e].0));
                    let v = raw_to_value(&self.arena, self.entries[e].1);
                    let ghost r0 = r@;
                    r.push((kstr, v));
                    proof {
                        let fr = filter_ref(mdl, kkey);
                        assert(kstr@ == mdl[e as int].0);
                        assert(v@ == mdl[e as int].1);
                        assert(fr[t as int] == mdl[match_idxs(mdl, kkey)[t as int]]);
                        assert(r@ == r0.push((kstr, v)));
                        let base = concat_groups(
                            mdl,
                            sel_keys(keys, siv, gsv.take(k as int), lo as int, hi as int),
                        );
                        assert(fr.len() == bl as int);
                        assert(pairs_model(r0) == base + fr.take(t as int));
                        assert(pairs_model(r0).len() == r0.len());
                        assert(fr.take(t as int).len() == t);
                        assert(r0.len() == base.len() + t);
                        assert forall|u: int| 0 <= u < r@.len() implies #[trigger] pairs_model(
                            r@,
                        )[u] == (base + fr.take(t + 1))[u] by {
                            if u < r0.len() {
                                assert(r@[u] == r0[u]);
                                assert(pairs_model(r0)[u] == (base + fr.take(t as int))[u]);
                                if u >= base.len() {
                                    let w = u - base.len();
                                    assert(pairs_model(r0)[u] == fr.take(t as int)[w]);
                                    assert(fr.take(t as int)[w] == fr[w]);
                                    assert(fr.take(t + 1)[w] == fr[w]);
                                }
                            } else {
                                assert(r@[u] == (kstr, v));
                                assert(pairs_model(r0).len() == base.len() + t);
                                assert((base + fr.take(t + 1))[u] == fr.take(t + 1)[t as int]);
                                assert(fr.take(t + 1)[t as int] == fr[t as int]);
                            }
                        }
                        assert(pairs_model(r@) =~= base + fr.take(t + 1));
                    }
                    t = t + 1;
                }
                proof {
                    let fr = filter_ref(mdl, kkey);
                    assert(fr.take(bl as int) =~= fr);
                    assert(sel_keys(keys, siv, gsv.take(k + 1), lo as int, hi as int)
                        == sel_keys(keys, siv, gsv.take(k as int), lo as int, hi as int).push(
                        kkey,
                    ));
                    let ks2 = sel_keys(keys, siv, gsv.take(k + 1), lo as int, hi as int);
                    assert(ks2.drop_last() == sel_keys(
                        keys,
                        siv,
                        gsv.take(k as int),
                        lo as int,
                        hi as int,
                    ));
                    assert(concat_groups(mdl, ks2) == concat_groups(mdl, ks2.drop_last())
                        + filter_ref(mdl, ks2.last()));
                }
            } else {
                proof {
                    assert(sel_keys(keys, siv, gsv.take(k + 1), lo as int, hi as int) == sel_keys(
                        keys,
                        siv,
                        gsv.take(k as int),
                        lo as int,
                        hi as int,
                    ));
                }
            }
            k = k + 1;
        }
        proof {
            assert(gsv.take(m as int) =~= gsv);
        }
        r
    }

    /// Returns the entries whose key starts with `prefix`: matching keys
    /// in first-occurrence order, each key's entries in insertion order.
    pub fn query_prefix(&self, prefix: &str) -> (r: Vec<(String, Value)>)
        requires
            self.wf(),
        ensures
            pairs_model(r@) == prefix_ref(self.model(), prefix@),
    {
        let pc = str_chars(prefix);
        let lo = lower_bound(&self.arena, &self.entries, &self.sorted_indices, pc.as_slice());
        let hi = prefix_upper_bound(
            &self.arena,
            &self.entries,
            &self.sorted_indices,
            pc.as_slice(),
        );
        let ghost keys = self.keys();
        let ghost siv = self.sorted_indices@;
        let ghost gsv = self.group_order@;
        let ghost mdl = self.model();
        let nlen = self.sorted_indices.len();
        proof {
            assert forall|i: int| 0 <= i < mdl.len() implies (#[trigger] mdl[i]).0 == keys[i] by {}
            if hi < lo {
                let x = skey(keys, siv, hi as int);
                assert(lex_lt(x, pc@));
            }
            assert forall|kk: int|
                0 <= kk < gsv.len() implies ((lo <= (#[trigger] gsv[kk]).0 < hi) <==> is_prefix_of(
                pc@,
                skey(keys, siv, gsv[kk].0 as int),
            )) by {
                let q = gsv[kk].0 as int;
                assert(gsv[kk].1 > 0 && gsv[kk].0 + gsv[kk].1 <= keys.len());
                let kq = skey(keys, siv, q);
                if lo <= q < hi {
                    assert(!lex_lt(kq, pc@));
                    assert(lex_lt(kq, pc@) || is_prefix_of(pc@, kq));
                }
                if is_prefix_of(pc@, kq) {
                    lemma_prefix_leq(pc@, kq);
                    if q < lo {
                        assert(lex_lt(kq, pc@));
                        crate::text::lemma_lt_leq_trans(kq, pc@, kq);
                        lemma_lex_lt_asym(kq, kq);
                    }
                    if q >= hi {
                        assert(!(lex_lt(kq, pc@) || is_prefix_of(pc@, kq)));
                    }
                }
            }
            lemma_sel_is_filter(keys, siv, gsv, lo as int, hi as int, pc@);
            lemma_group_keys(mdl, keys, siv, gsv);
        }
        self.iter_range(lo, hi)
    }

    /// Returns all entries: distinct keys in first-occurrence order, each
    /// key's entries in insertion order.
    pub fn entries(&self) -> (r: Vec<(String, Value)>)
        requires
            self.wf(),
        ensures
            pairs_model(r@) == concat_groups(self.model(), distinct_keys(self.model())),
    {
        let ghost keys = self.keys();
        let ghost siv = self.sorted_indices@;
        let ghost gsv = self.group_order@;
        let ghost mdl = self.model();
        let n = self.sorted_indices.len();
        proof {
            assert forall|i: int| 0 <= i < mdl.len() implies (#[trigger] mdl[i]).0 == keys[i] by {}
            assert forall|kk: int| 0 <= kk < gsv.len() implies 0 <= (#[trigger] gsv[kk]).0
                < n by {
                assert(gsv[kk].1 > 0 && gsv[kk].0 + gsv[kk].1 <= keys.len());
            }
            lemma_sel_all(keys, siv, gsv, 0, n as int);
            lemma_group_keys(mdl, keys, siv, gsv);
        }
        self.iter_range(0, n)
    }

    /// Assembles a configuration from evaluated parts, computing the
    /// sorted index and the group order.
    pub(crate) fn from_parts(arena: TextArena, entries: Vec<(TextId, ValueRaw)>) -> (c: Config)
        requires
            entries_wf(arena, entries@),
        ensures
            c.wf(),
            c.model() == Seq::new(
                entries@.len(),
                |i: int| (arena.text(entries@[i].0), raw_model(arena, entries@[i].1)),
            ),
    {
        let r = build_indices(&arena, &entries);
        let c = Config { arena, entries, sorted_indices: r.0, group_order: r.1 };
        proof {
            assert(c.model() =~= Seq::new(
                c.entries@.len(),
                |i: int| (c.arena.text(c.entries@[i].0), raw_model(c.arena, c.entries@[i].1)),
            ));
        }
        c
    }

    /// Evaluates a parsed source tree into a configuration, collecting
    /// the evaluation errors met on the way: the entries are exactly
    /// those the tree's items denote, in source order.
    pub fn from_source_file(root: &crate::cst::CstNode) -> (r: (Config, Vec<
        crate::error::ConfigError,
    >))
        ensures
            r.0.wf(),
            r.0.model() == crate::eval::spec_items_entries(root.children@, Seq::<char>::empty()),
            r.1@.map_values(|e: crate::error::ConfigError| e@) == crate::eval::spec_items_errors(
                root.children@,
            ),
    {
        let parts = crate::eval::eval_tree(root);
        let c = Config::from_parts(parts.0, parts.1);
        proof {
            assert(c.model() =~= crate::eval::spec_items_entries(
                root.children@,
                Seq::<char>::empty(),
            ));
        }
        (c, parts.2)
    }

    /// Returns the entries whose key starts with `prefix`, one record per
    /// distinct key in first-occurrence order, each holding that key's
    /// values in insertion order.  A record with one value projects to a
    /// single JSON value, one with more to an array.
    pub fn query_prefix_grouped(&self, prefix: &str) -> (r: Vec<(String, Vec<Value>)>)
        requires
            self.wf(),
        ensures
            grouped_model(r@) == groups_of(
                self.model(),
                prefix_filter(distinct_keys(self.model()), prefix@),
            ),
    {
        let pc = str_chars(prefix);
        let lo = lower_bound(&self.arena, &self.entries, &self.sorted_indices, pc.as_slice());
        let hi = prefix_upper_bound(
            &self.arena,
            &self.entries,
            &self.sorted_indices,
            pc.as_slice(),
        );
        let ghost keys = self.keys();
        let ghost siv = self.sorted_indices@;
        let ghost gsv = self.group_order@;
        let ghost mdl = self.model();
        let nlen = self.sorted_indices.len();
        proof {
            assert forall|i: int| 0 <= i < mdl.len() implies (#[trigger] mdl[i]).0 == keys[i] by {}
            if hi < lo {
                let x = skey(keys, siv, hi as int);
                assert(lex_lt(x, pc@));
            }
            assert forall|kk: int|
                0 <= kk < gsv.len() implies ((lo <= (#[trigger] gsv[kk]).0 < hi) <==> is_prefix_of(
                pc@,
                skey(keys, siv, gsv[kk].0 as int),
            )) by {
                let q = gsv[kk].0 as int;
                assert(gsv[kk].1 > 0 && gsv[kk].0 + gsv[kk].1 <= keys.len());
                let kq = skey(keys, siv, q);
                if lo <= q < hi {
                    assert(!lex_lt(kq, pc@));
                    assert(lex_lt(kq, pc@) || is_prefix_of(pc@, kq));
                }
                if is_prefix_of(pc@, kq) {
                    lemma_prefix_leq(pc@, kq);
                    if q < lo {
                        assert(lex_lt(kq, pc@));
                        crate::text::lemma_lt_leq_trans(kq, pc@, kq);
                        lemma_lex_lt_asym(kq, kq);
                    }
                    if q >= hi {
                        assert(!(lex_lt(kq, pc@) || is_prefix_of(pc@, kq)));
                    }
                }
            }
            lemma_sel_is_filter(keys, siv, gsv, lo as int, hi as int, pc@);
            lemma_group_keys(mdl, keys, siv, gsv);
        }
        let m = self.group_order.len();
        let mut r: Vec<(String, Vec<Value>)> = Vec::new();
        let mut k: usize = 0;
        while k < m
            invariant
                self.wf(),
                keys == self.keys(),
                siv == self.sorted_indices@,
                gsv == self.group_order@,
                mdl == self.model(),
                nlen == siv.len(),
                lo <= hi <= siv.len(),
                k <= m,
                m == gsv.len(),
                grouped_model(r@) == groups_of(
                    mdl,
                    sel_keys(keys, siv, gsv.take(k as int), lo as int, hi as int),
                ),
            decreases m - k,
        {
            let g = self.group_order[k];
            proof {
                assert(gsv.take(k + 1).drop_last() =~= gsv.take(k as int));
                assert(gsv.take(k + 1).last() == gsv[k as int]);
                assert(gsv[k as int].1 > 0 && gsv[k as int].0 + gsv[k as int].1 <= keys.len());
            }
            if lo <= g.0 && g.0 < hi {
                let start = g.0;
                let count = g.1;
                let end = start + count;
                let slice = &self.sorted_indices.as_slice()[start..end];
                let mut buf = index_buf_from(slice);
                index_buf_sort(&mut buf);
                let ghost kkey = skey(keys, siv, start as int);
                proof {
                    assert forall|p: int| start <= p < end implies #[trigger] skey(keys, siv, p)
                        == kkey by {
                        assert(group_covers(gsv[k as int], p));
                    }
                    assert(start == 0 || skey(keys, siv, start - 1) != kkey);
                    assert(end == siv.len() || skey(keys, siv, end as int) != skey(
                        keys,
                        siv,
                        end - 1,
                    ));
                    lemma_group_exact(keys, siv, start as int, end as int, kkey);
                    lemma_sorted_block_is_match(
                        mdl,
                        keys,
                        siv,
                        start as int,
                        end as int,
                        index_buf_seq(buf),
                        kkey,
                    );
                }
                let e0 = self.sorted_indices[start];
                let kstr = crate::text::chars_to_string(self.arena.get(self.entries[e0].0));
                let ghost bs = index_buf_seq(buf);
                let bl = index_buf_len(&buf);
                let mut vals: Vec<Value> = Vec::new();
                let mut t: usize = 0;
                while t < bl
                    invariant
                        self.wf(),
                        keys == self.keys(),
                        siv == self.sorted_indices@,
                        mdl == self.model(),
                        t <= bl,
                        bl == bs.len(),
                        bs == index_buf_seq(buf),
                        Seq::new(bs.len(), |u: int| bs[u] as int) == match_idxs(mdl, kkey),
                        vals@.map_values(|v: Value| v@) == query_ref(mdl, kkey).take(t as int),
                    decreases bl - t,
                {
                    let e = index_buf_get(&buf, t);
                    proof {
                        lemma_match_idxs(mdl, kkey);
                        assert(match_idxs(mdl, kkey)[t as int] == e as int);
                        assert(0 <= (e as int) && (e as int) < mdl.len());
                    }
                    let raw = self.entries[e].1;
                    let v = raw_to_value(&self.arena, raw);
                    let ghost vals0 = vals@;
                    vals.push(v);
                    proof {
                        let qr = query_ref(mdl, kkey);
                        assert(v@ == mdl[e as int].1);
                        assert(qr[t as int] == mdl[match_idxs(mdl, kkey)[t as int]].1);
                        assert(vals0.map_values(|vv: Value| vv@).len() == t);
                        assert(vals0.len() == t);
                        assert(vals@ == vals0.push(v));
                        assert forall|u: int| 0 <= u < t + 1 implies vals@.map_values(
                            |vv: Value| vv@,
                        )[u] == #[trigger] qr.take(t + 1)[u] by {
                            if u < t {
                                assert(vals@[u] == vals0[u]);
                                assert(vals0.map_values(|vv: Value| vv@)[u] == qr.take(
                                    t as int,
                                )[u]);
                            } else {
                                assert(vals@[u] == v);
                            }
                        }
                        assert(vals@.map_values(|vv: Value| vv@) =~= qr.take(t + 1));
                    }
                    t = t + 1;
                }
                let ghost r0 = r@;
                r.push((kstr, vals));
                proof {
                    let qr = query_ref(mdl, kkey);
                    assert(qr.take(bl as int) =~= qr);
                    assert(kstr@ == mdl[e0 as int].0);
                    assert(skey(keys, siv, start as int) == keys[e0 as int]);
                    assert(kstr@ == kkey);
                    let sel1 = sel_keys(keys, siv, gsv.take(k + 1), lo as int, hi as int);
                    assert(sel1 == sel_keys(keys, siv, gsv.take(k as int), lo as int, hi as int).push(
                        kkey,
                    ));
                    assert(sel1.drop_last() == sel_keys(
                        keys,
                        siv,
                        gsv.take(k as int),
                        lo as int,
                        hi as int,
                    ));
                    assert(groups_of(mdl, sel1) == groups_of(mdl, sel1.drop_last()).push(
                        (sel1.last(), query_ref(mdl, sel1.last())),
                    ));
                    assert(grouped_model(r@) =~= grouped_model(r0).push((kstr@, qr)));
                }
            } else {
                proof {
                    assert(sel_keys(keys, siv, gsv.take(k + 1), lo as int, hi as int) == sel_keys(
                        keys,
                        siv,
                        gsv.take(k as int),
                        lo as int,
                        hi as int,
                    ));
                }
            }
            k = k + 1;
        }
        proof {
            assert(gsv.take(m as int) =~= gsv);
            assert(prefix_filter(distinct_keys(mdl), prefix@) == prefix_filter(
                group_keys(keys, siv, gsv),
                pc@,
            ));
        }
        r
    }

    /// Builds a configuration directly from key-value pairs, bypassing
    /// parsing: the entries are exactly the given pairs, in order.
    pub fn from_kv_entries(items: Vec<(String, Value)>) -> (c: Config)
        ensures
            c.wf(),
            c.model() == Seq::new(items@.len(), |i: int| (items@[i].0@, items@[i].1@)),
    {
        let mut arena = TextArena::new();
        let mut entries: Vec<(TextId, ValueRaw)> = Vec::new();
        let n = items.len();
        let mut i: usize = 0;
        while i < n
            invariant
                n == items@.len(),
                i <= n,
                entries@.len() == i,
                entries_wf(arena, entries@),
                forall|j: int|
                    0 <= j < i ==> arena.text((#[trigger] entries@[j]).0) == items@[j].0@
                        && raw_model(arena, entries@[j].1) == items@[j].1@,
            decreases n - i,
        {
            let ghost arena0 = arena;
            let kchars = str_chars(items[i].0.as_str());
            let kid = arena.intern(kchars.as_slice());
            let ghost arena1 = arena;
            let raw = match &items[i].1 {
                Value::Bool(b) => ValueRaw::Bool(*b),
                Value::Integer(s) => {
                    let cs = str_chars(s.as_str());
                    ValueRaw::Integer(arena.intern(cs.as_slice()))
                },
                Value::String(s) => {
                    let cs = str_chars(s.as_str());
                    ValueRaw::String(arena.intern(cs.as_slice()))
                },
            };
            proof {
                assert(arena.extends(arena1)) by {
                    if arena == arena1 {
                        arena.lemma_extends_refl();
                    }
                }
                // interning only appends, so earlier texts are stable
                assert forall|j: int|
                    0 <= j < i implies arena.wf_id((#[trigger] entries@[j]).0) && raw_wf(
                    arena,
                    entries@[j].1,
                ) && arena.text(entries@[j].0) == items@[j].0@ && raw_model(arena, entries@[j].1)
                    == items@[j].1@ by {
                    arena1.lemma_extends_stable(arena0, entries@[j].0);
                    arena.lemma_extends_stable(arena1, entries@[j].0);
                    match entries@[j].1 {
                        ValueRaw::Bool(_) => {},
                        ValueRaw::Integer(id) => {
                            arena1.lemma_extends_stable(arena0, id);
                            arena.lemma_extends_stable(arena1, id);
                        },
                        ValueRaw::String(id) => {
                            arena1.lemma_extends_stable(arena0, id);
                            arena.lemma_extends_stable(arena1, id);
                        },
                    }
                }
                arena.lemma_extends_stable(arena1, kid);
            }
            entries.push((kid, raw));
            i = i + 1;
        }
        let r = build_indices(&arena, &entries);
        let c = Config { arena, entries, sorted_indices: r.0, group_order: r.1 };
        proof {
            assert(c.model() =~= Seq::new(items@.len(), |i: int| (items@[i].0@, items@[i].1@)));
        }
        c
    }
}

} // verus!
