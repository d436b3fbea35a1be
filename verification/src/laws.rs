//! The store's global laws, stated and proved once over the public model.
//!
//! Each law is a public proof function: its `requires` asks only for the
//! store invariant, and its `ensures` states the law over the same spec
//! functions that the query contracts use.

use vstd::prelude::*;

use crate::config::{
    concat_groups, covered, distinct_keys, filter_ref, group_covers, lemma_distinct_keys,
    has_key, lemma_match_idxs, lemma_prefix_filter_all, match_idxs, prefix_filter, prefix_ref, query_ref,
    sum_counts, Config, ValueModel,
};
use crate::text::is_prefix_of;

verus! {

/// Key/value count: the sorted index has one slot per entry, and the
/// group counts sum to the number of entries.
pub proof fn lemma_index_counts(c: Config)
    requires
        c.wf(),
    ensures
        c.sorted_index().len() == c.model().len(),
        sum_counts(c.group_records()) == c.model().len(),
{
    c.lemma_wf_unfold();
}

/// Group partition: the group records partition the sorted positions into
/// disjoint contiguous runs of equal keys, covering every position.
pub proof fn lemma_group_partition(c: Config)
    requires
        c.wf(),
    ensures
        forall|k: int|
            0 <= k < c.group_records().len() ==> (#[trigger] c.group_records()[k]).1 > 0
                && c.group_records()[k].0 + c.group_records()[k].1 <= c.model().len(),
        forall|p: int| 0 <= p < c.model().len() ==> #[trigger] covered(c.group_records(), p),
        forall|k: int, p: int|
            0 <= k < c.group_records().len() && group_covers(#[trigger] c.group_records()[k], p)
                ==> #[trigger] c.key_at_sorted(p) == c.key_at_sorted(c.group_records()[k].0 as int),
        forall|k1: int, k2: int, p: int|
            0 <= k1 < c.group_records().len() && 0 <= k2 < c.group_records().len() && k1 != k2
                ==> !(#[trigger] group_covers(c.group_records()[k1], p)
                && #[trigger] group_covers(c.group_records()[k2], p)),
{
    c.lemma_wf_unfold();
    let gs = c.group_records();
    assert forall|k1: int, k2: int, p: int|
        0 <= k1 < gs.len() && 0 <= k2 < gs.len() && k1 != k2 implies !(#[trigger] group_covers(
        gs[k1],
        p,
    ) && #[trigger] group_covers(gs[k2], p)) by {
        if group_covers(gs[k1], p) && group_covers(gs[k2], p) {
            c.lemma_groups_disjoint(k1, k2, p);
        }
    }
}

/// Entries equal the empty-prefix query: enumerating everything is the
/// same as filtering by the empty prefix.
pub proof fn lemma_entries_is_empty_prefix(entries: Seq<(Seq<char>, ValueModel)>)
    ensures
        prefix_ref(entries, Seq::<char>::empty()) == concat_groups(
            entries,
            distinct_keys(entries),
        ),
{
    lemma_prefix_filter_all(distinct_keys(entries), Seq::<char>::empty());
}

/// Every key of `prefix_filter` starts with the prefix.
proof fn lemma_prefix_filter_members(ks: Seq<Seq<char>>, p: Seq<char>)
    ensures
        forall|i: int|
            0 <= i < prefix_filter(ks, p).len() ==> is_prefix_of(
                p,
                #[trigger] prefix_filter(ks, p)[i],
            ),
    decreases ks.len(),
{
    if ks.len() > 0 {
        lemma_prefix_filter_members(ks.drop_last(), p);
        let pf = prefix_filter(ks, p);
        let pfront = prefix_filter(ks.drop_last(), p);
        assert forall|i: int| 0 <= i < pf.len() implies is_prefix_of(p, #[trigger] pf[i]) by {
            if i < pfront.len() {
                assert(pf[i] == pfront[i]);
            } else {
                assert(pf[i] == ks.last());
            }
        }
    }
}

/// Every element of a per-key group carries that key.
proof fn lemma_filter_ref_keys(entries: Seq<(Seq<char>, ValueModel)>, k: Seq<char>)
    ensures
        forall|j: int|
            0 <= j < filter_ref(entries, k).len() ==> (#[trigger] filter_ref(entries, k)[j]).0
                == k,
{
    lemma_match_idxs(entries, k);
}

/// Every element of a group concatenation carries the key of its block:
/// position `i` falls in block `b(i)`, and the element's key is `ks[b(i)]`.
proof fn lemma_concat_keys(entries: Seq<(Seq<char>, ValueModel)>, ks: Seq<Seq<char>>)
    ensures
        forall|i: int|
            0 <= i < concat_groups(entries, ks).len() ==> ks.contains(
                (#[trigger] concat_groups(entries, ks)[i]).0,
            ),
    decreases ks.len(),
{
    if ks.len() > 0 {
        lemma_concat_keys(entries, ks.drop_last());
        lemma_filter_ref_keys(entries, ks.last());
        let front = concat_groups(entries, ks.drop_last());
        let whole = concat_groups(entries, ks);
        assert forall|i: int| 0 <= i < whole.len() implies ks.contains((#[trigger] whole[i]).0) by {
            if i < front.len() {
                assert(whole[i] == front[i]);
                assert(ks.drop_last().contains(front[i].0));
                let j = choose|j: int|
                    0 <= j < ks.drop_last().len() && ks.drop_last()[j] == front[i].0;
                assert(ks[j] == front[i].0);
            } else {
                assert(whole[i] == filter_ref(entries, ks.last())[i - front.len()]);
                assert(ks[ks.len() - 1] == whole[i].0);
            }
        }
    }
}

/// Prefix membership: every key returned by a prefix query starts with
/// the prefix.
pub proof fn lemma_prefix_membership(entries: Seq<(Seq<char>, ValueModel)>, p: Seq<char>)
    ensures
        forall|i: int|
            0 <= i < prefix_ref(entries, p).len() ==> is_prefix_of(
                p,
                (#[trigger] prefix_ref(entries, p)[i]).0,
            ),
{
    let ks = prefix_filter(distinct_keys(entries), p);
    lemma_concat_keys(entries, ks);
    lemma_prefix_filter_members(distinct_keys(entries), p);
    assert forall|i: int| 0 <= i < prefix_ref(entries, p).len() implies is_prefix_of(
        p,
        (#[trigger] prefix_ref(entries, p)[i]).0,
    ) by {
        assert(ks.contains(prefix_ref(entries, p)[i].0));
        let j = choose|j: int| 0 <= j < ks.len() && ks[j] == prefix_ref(entries, p)[i].0;
    }
}

/// A prefix-filtered key list inherits distinctness.
proof fn lemma_prefix_filter_distinct(ks: Seq<Seq<char>>, p: Seq<char>)
    requires
        forall|i: int, j: int| 0 <= i < j < ks.len() ==> ks[i] != ks[j],
    ensures
        forall|i: int, j: int|
            0 <= i < j < prefix_filter(ks, p).len() ==> prefix_filter(ks, p)[i] != prefix_filter(
                ks,
                p,
            )[j],
        forall|i: int|
            0 <= i < prefix_filter(ks, p).len() ==> ks.contains(#[trigger] prefix_filter(ks, p)[i]),
    decreases ks.len(),
{
    if ks.len() > 0 {
        let front = ks.drop_last();
        assert forall|i: int, j: int| 0 <= i < j < front.len() implies front[i] != front[j] by {
            assert(ks[i] != ks[j]);
        }
        lemma_prefix_filter_distinct(front, p);
        let pf = prefix_filter(ks, p);
        let pfront = prefix_filter(front, p);
        assert forall|i: int| 0 <= i < pf.len() implies ks.contains(#[trigger] pf[i]) by {
            if i < pfront.len() {
                assert(front.contains(pfront[i]));
                let j = choose|j: int| 0 <= j < front.len() && front[j] == pfront[i];
                assert(ks[j] == pf[i]);
            } else {
                assert(pf[i] == ks[ks.len() - 1]);
            }
        }
        assert forall|i: int, j: int| 0 <= i < j < pf.len() implies pf[i] != pf[j] by {
            if j < pfront.len() {
                assert(pfront[i] != pfront[j]);
            } else if j == pfront.len() && pf.len() > pfront.len() {
                assert(pf[j] == ks.last());
                assert(front.contains(pf[i]));
                let t = choose|t: int| 0 <= t < front.len() && front[t] == pf[i];
                assert(ks[t] == pf[i]);
                assert(ks[t] != ks[ks.len() - 1]);
            }
        }
    }
}

/// Group contiguity: in a prefix query's answer, once a key's run ends it
/// never reappears.
pub proof fn lemma_group_contiguity(
    entries: Seq<(Seq<char>, ValueModel)>,
    p: Seq<char>,
    i: int,
    j: int,
    t: int,
)
    requires
        0 <= i <= t <= j < prefix_ref(entries, p).len(),
        prefix_ref(entries, p)[i].0 == prefix_ref(entries, p)[j].0,
    ensures
        prefix_ref(entries, p)[t].0 == prefix_ref(entries, p)[i].0,
{
    let dk = distinct_keys(entries);
    lemma_distinct_keys(entries);
    let ks = prefix_filter(dk, p);
    lemma_prefix_filter_distinct(dk, p);
    lemma_blocks_contiguous(entries, ks, i, j, t);
}

/// In a concatenation of per-key blocks with pairwise distinct keys,
/// equal keys at two positions force the same key everywhere between.
proof fn lemma_blocks_contiguous(
    entries: Seq<(Seq<char>, ValueModel)>,
    ks: Seq<Seq<char>>,
    i: int,
    j: int,
    t: int,
)
    requires
        forall|a: int, b: int| 0 <= a < b < ks.len() ==> ks[a] != ks[b],
        0 <= i <= t <= j < concat_groups(entries, ks).len(),
        concat_groups(entries, ks)[i].0 == concat_groups(entries, ks)[j].0,
    ensures
        concat_groups(entries, ks)[t].0 == concat_groups(entries, ks)[i].0,
    decreases ks.len(),
{
    let whole = concat_groups(entries, ks);
    let front = concat_groups(entries, ks.drop_last());
    lemma_filter_ref_keys(entries, ks.last());
    lemma_concat_keys(entries, ks.drop_last());
    if j < front.len() {
        assert forall|a: int, b: int|
            0 <= a < b < ks.drop_last().len() implies ks.drop_last()[a] != ks.drop_last()[b] by {
            assert(ks[a] != ks[b]);
        }
        assert(whole[i] == front[i] && whole[j] == front[j] && whole[t] == front[t]);
        lemma_blocks_contiguous(entries, ks.drop_last(), i, j, t);
    } else if i >= front.len() {
        // all three sit inside the last block
        assert(whole[i].0 == ks.last());
        assert(whole[t].0 == ks.last());
    } else {
        // i in an earlier block, j in the last one: their keys differ
        assert(whole[i] == front[i]);
        assert(ks.drop_last().contains(front[i].0));
        let a = choose|a: int| 0 <= a < ks.drop_last().len() && ks.drop_last()[a] == front[i].0;
        assert(ks[a] == front[i].0);
        assert(whole[j].0 == ks.last());
        assert(ks[a] != ks[ks.len() - 1]);
        assert(false);
    }
}

/// `filter_ref`, recomputed by structural recursion on the entry list.
proof fn lemma_filter_push(entries: Seq<(Seq<char>, ValueModel)>, k: Seq<char>)
    requires
        entries.len() > 0,
    ensures
        filter_ref(entries, k) == if entries.last().0 == k {
            filter_ref(entries.drop_last(), k).push(entries.last())
        } else {
            filter_ref(entries.drop_last(), k)
        },
{
    let front_e = entries.drop_last();
    lemma_match_idxs(entries, k);
    lemma_match_idxs(front_e, k);
    let mf = match_idxs(front_e, k);
    let fw = filter_ref(entries, k);
    let ff = filter_ref(front_e, k);
    assert forall|t: int| 0 <= t < ff.len() implies fw[t] == ff[t] by {
        assert(match_idxs(entries, k)[t] == mf[t]);
        assert(front_e[mf[t]] == entries[mf[t]]);
    }
    if entries.last().0 == k {
        assert(fw[fw.len() - 1] == entries[entries.len() - 1]);
        assert(fw =~= ff.push(entries.last()));
    } else {
        assert(fw =~= ff);
    }
}

/// Filtering distributes over concatenation.
proof fn lemma_filter_concat(
    a: Seq<(Seq<char>, ValueModel)>,
    b: Seq<(Seq<char>, ValueModel)>,
    k: Seq<char>,
)
    ensures
        filter_ref(a + b, k) == filter_ref(a, k) + filter_ref(b, k),
    decreases b.len(),
{
    if b.len() == 0 {
        assert(a + b =~= a);
        assert(filter_ref(b, k) =~= Seq::<(Seq<char>, ValueModel)>::empty());
        assert(filter_ref(a, k) + filter_ref(b, k) =~= filter_ref(a, k));
    } else {
        lemma_filter_concat(a, b.drop_last(), k);
        assert((a + b).drop_last() =~= a + b.drop_last());
        assert((a + b).last() == b.last());
        lemma_filter_push(a + b, k);
        lemma_filter_push(b, k);
        if b.last().0 == k {
            assert(filter_ref(a + b, k) =~= filter_ref(a, k) + filter_ref(b, k));
        } else {
            assert(filter_ref(a + b, k) =~= filter_ref(a, k) + filter_ref(b, k));
        }
    }
}

/// Filtering a constant-key block keeps all of it or none of it.
proof fn lemma_filter_block(b: Seq<(Seq<char>, ValueModel)>, kb: Seq<char>, k: Seq<char>)
    requires
        forall|i: int| 0 <= i < b.len() ==> (#[trigger] b[i]).0 == kb,
    ensures
        filter_ref(b, k) == if k == kb && b.len() > 0 {
            b
        } else {
            Seq::<(Seq<char>, ValueModel)>::empty()
        },
    decreases b.len(),
{
    if b.len() == 0 {
        assert(filter_ref(b, k) =~= Seq::<(Seq<char>, ValueModel)>::empty());
    } else {
        assert forall|i: int| 0 <= i < b.drop_last().len() implies (#[trigger] b.drop_last()[
        i]).0 == kb by {
            assert(b[i].0 == kb);
        }
        lemma_filter_block(b.drop_last(), kb, k);
        lemma_filter_push(b, k);
        assert(b[b.len() - 1].0 == kb);
        if k == kb {
            if b.len() == 1 {
                assert(filter_ref(b, k) =~= b);
            } else {
                assert(filter_ref(b, k) =~= b.drop_last().push(b.last()));
                assert(b.drop_last().push(b.last()) =~= b);
            }
        } else {
            assert(filter_ref(b, k) =~= Seq::<(Seq<char>, ValueModel)>::empty());
        }
    }
}

/// A key that never occurs filters to nothing.
proof fn lemma_filter_absent(entries: Seq<(Seq<char>, ValueModel)>, k: Seq<char>)
    requires
        !has_key(entries, k),
    ensures
        filter_ref(entries, k) == Seq::<(Seq<char>, ValueModel)>::empty(),
{
    lemma_match_idxs(entries, k);
    if match_idxs(entries, k).len() > 0 {
        let e = match_idxs(entries, k)[0];
        assert(entries[e].0 == k);
    }
    assert(filter_ref(entries, k) =~= Seq::<(Seq<char>, ValueModel)>::empty());
}

/// Per-key filtering commutes with regrouping: the grouped enumeration
/// holds, under each key, exactly what the original held.
proof fn lemma_filter_grouped(
    entries: Seq<(Seq<char>, ValueModel)>,
    ks: Seq<Seq<char>>,
    k: Seq<char>,
)
    requires
        forall|a: int, b: int| 0 <= a < b < ks.len() ==> ks[a] != ks[b],
        forall|i: int| 0 <= i < ks.len() ==> filter_ref(entries, #[trigger] ks[i]).len() > 0,
    ensures
        filter_ref(concat_groups(entries, ks), k) == if ks.contains(k) {
            filter_ref(entries, k)
        } else {
            Seq::<(Seq<char>, ValueModel)>::empty()
        },
    decreases ks.len(),
{
    if ks.len() == 0 {
        assert(filter_ref(concat_groups(entries, ks), k) =~= Seq::<
            (Seq<char>, ValueModel),
        >::empty());
        if ks.contains(k) {
            let i = choose|i: int| 0 <= i < ks.len() && ks[i] == k;
        }
    } else {
        let front_ks = ks.drop_last();
        assert forall|a: int, b: int| 0 <= a < b < front_ks.len() implies front_ks[a]
            != front_ks[b] by {
            assert(ks[a] != ks[b]);
        }
        assert forall|i: int| 0 <= i < front_ks.len() implies filter_ref(
            entries,
            #[trigger] front_ks[i],
        ).len() > 0 by {
            assert(ks[i] == front_ks[i]);
        }
        lemma_filter_grouped(entries, front_ks, k);
        let blk = filter_ref(entries, ks.last());
        lemma_filter_ref_keys(entries, ks.last());
        lemma_filter_concat(concat_groups(entries, front_ks), blk, k);
        lemma_filter_block(blk, ks.last(), k);
        assert(ks[ks.len() - 1] == ks.last());
        assert(blk.len() > 0);
        if k == ks.last() {
            assert(!front_ks.contains(k)) by {
                if front_ks.contains(k) {
                    let a = choose|a: int| 0 <= a < front_ks.len() && front_ks[a] == k;
                    assert(ks[a] == k);
                    assert(ks[a] != ks[ks.len() - 1]);
                }
            }
            assert(ks.contains(k));
            assert(filter_ref(concat_groups(entries, ks), k) =~= filter_ref(entries, k));
        } else {
            assert(ks.contains(k) <==> front_ks.contains(k)) by {
                if ks.contains(k) {
                    let a = choose|a: int| 0 <= a < ks.len() && ks[a] == k;
                    assert(front_ks[a] == k);
                }
                if front_ks.contains(k) {
                    let a = choose|a: int| 0 <= a < front_ks.len() && front_ks[a] == k;
                    assert(ks[a] == k);
                }
            }
            assert(filter_ref(concat_groups(entries, ks), k) =~= filter_ref(
                concat_groups(entries, front_ks),
                k,
            ));
        }
    }
}

/// Appending a non-empty constant-key block adds exactly that key to the
/// distinct-key list, if it is new.
proof fn lemma_dk_append_block(
    x: Seq<(Seq<char>, ValueModel)>,
    b: Seq<(Seq<char>, ValueModel)>,
    kb: Seq<char>,
)
    requires
        b.len() > 0,
        forall|i: int| 0 <= i < b.len() ==> (#[trigger] b[i]).0 == kb,
    ensures
        distinct_keys(x + b) == if distinct_keys(x).contains(kb) {
            distinct_keys(x)
        } else {
            distinct_keys(x).push(kb)
        },
    decreases b.len(),
{
    if b.len() == 1 {
        assert((x + b).drop_last() =~= x);
        assert((x + b).last() == b[0]);
        assert(b[0].0 == kb);
    } else {
        assert forall|i: int| 0 <= i < b.drop_last().len() implies (#[trigger] b.drop_last()[
        i]).0 == kb by {
            assert(b[i].0 == kb);
        }
        lemma_dk_append_block(x, b.drop_last(), kb);
        assert((x + b).drop_last() =~= x + b.drop_last());
        assert((x + b).last() == b.last());
        assert(b[b.len() - 1].0 == kb);
        let dfront = distinct_keys(x + b.drop_last());
        assert(dfront.contains(kb)) by {
            if distinct_keys(x).contains(kb) {
            } else {
                assert(dfront == distinct_keys(x).push(kb));
                assert(dfront[dfront.len() - 1] == kb);
            }
        }
    }
}

/// The distinct keys of a concatenation of non-empty pairwise distinct
/// constant-key blocks are exactly the block keys.
proof fn lemma_dk_of_blocks(entries: Seq<(Seq<char>, ValueModel)>, ks: Seq<Seq<char>>)
    requires
        forall|a: int, b: int| 0 <= a < b < ks.len() ==> ks[a] != ks[b],
        forall|i: int| 0 <= i < ks.len() ==> filter_ref(entries, #[trigger] ks[i]).len() > 0,
    ensures
        distinct_keys(concat_groups(entries, ks)) == ks,
    decreases ks.len(),
{
    if ks.len() == 0 {
        assert(distinct_keys(concat_groups(entries, ks)) =~= ks);
    } else {
        let front_ks = ks.drop_last();
        assert forall|a: int, b: int| 0 <= a < b < front_ks.len() implies front_ks[a]
            != front_ks[b] by {
            assert(ks[a] != ks[b]);
        }
        assert forall|i: int| 0 <= i < front_ks.len() implies filter_ref(
            entries,
            #[trigger] front_ks[i],
        ).len() > 0 by {
            assert(ks[i] == front_ks[i]);
        }
        lemma_dk_of_blocks(entries, front_ks);
        let blk = filter_ref(entries, ks.last());
        lemma_filter_ref_keys(entries, ks.last());
        assert(ks[ks.len() - 1] == ks.last());
        assert(blk.len() > 0);
        lemma_dk_append_block(concat_groups(entries, front_ks), blk, ks.last());
        assert(!front_ks.contains(ks.last())) by {
            if front_ks.contains(ks.last()) {
                let a = choose|a: int| 0 <= a < front_ks.len() && front_ks[a] == ks.last();
                assert(ks[a] == ks.last());
                assert(ks[a] != ks[ks.len() - 1]);
            }
        }
        assert(distinct_keys(concat_groups(entries, ks)) =~= front_ks.push(ks.last()));
        assert(front_ks.push(ks.last()) =~= ks);
    }
}

/// Concatenating the same groups of two stores that agree on every
/// listed key yields the same sequence.
proof fn lemma_concat_congruence(
    a: Seq<(Seq<char>, ValueModel)>,
    b: Seq<(Seq<char>, ValueModel)>,
    ks: Seq<Seq<char>>,
)
    requires
        forall|i: int|
            0 <= i < ks.len() ==> filter_ref(a, #[trigger] ks[i]) == filter_ref(b, ks[i]),
    ensures
        concat_groups(a, ks) == concat_groups(b, ks),
    decreases ks.len(),
{
    if ks.len() > 0 {
        assert forall|i: int| 0 <= i < ks.drop_last().len() implies filter_ref(
            a,
            #[trigger] ks.drop_last()[i],
        ) == filter_ref(b, ks.drop_last()[i]) by {
            assert(ks[i] == ks.drop_last()[i]);
        }
        lemma_concat_congruence(a, b, ks.drop_last());
        assert(ks[ks.len() - 1] == ks.last());
    }
}

/// Round trip: rebuilding a store from its own enumeration leaves the
/// enumeration, every exact query, and every prefix query unchanged.
pub proof fn lemma_kv_round_trip(entries: Seq<(Seq<char>, ValueModel)>)
    ensures
        concat_groups(
            concat_groups(entries, distinct_keys(entries)),
            distinct_keys(concat_groups(entries, distinct_keys(entries))),
        ) == concat_groups(entries, distinct_keys(entries)),
        forall|k: Seq<char>|
            #[trigger] query_ref(concat_groups(entries, distinct_keys(entries)), k) == query_ref(
                entries,
                k,
            ),
        forall|p: Seq<char>|
            #[trigger] prefix_ref(concat_groups(entries, distinct_keys(entries)), p) == prefix_ref(
                entries,
                p,
            ),
{
    let dk = distinct_keys(entries);
    let grouped = concat_groups(entries, dk);
    lemma_distinct_keys(entries);
    assert forall|i: int| 0 <= i < dk.len() implies filter_ref(
        entries,
        #[trigger] dk[i],
    ).len() > 0 by {
        lemma_match_idxs(entries, dk[i]);
    }
    // per-key contents are preserved by regrouping
    assert forall|k: Seq<char>| #[trigger] filter_ref(grouped, k) == filter_ref(entries, k) by {
        lemma_filter_grouped(entries, dk, k);
        if !dk.contains(k) {
            assert(!has_key(entries, k));
            lemma_filter_absent(entries, k);
        }
    }
    // so are the distinct keys
    lemma_dk_of_blocks(entries, dk);
    assert(distinct_keys(grouped) == dk);
    // the enumeration is a fixed point
    lemma_concat_congruence(grouped, entries, dk);
    // exact queries map the preserved filters to values
    assert forall|k: Seq<char>| #[trigger] query_ref(grouped, k) == query_ref(entries, k) by {
        lemma_query_is_filter_values(grouped, k);
        lemma_query_is_filter_values(entries, k);
    }
    // prefix queries use the same distinct keys and the same filters
    assert forall|p: Seq<char>| #[trigger] prefix_ref(grouped, p) == prefix_ref(entries, p) by {
        let pf = prefix_filter(dk, p);
        lemma_prefix_filter_distinct(dk, p);
        assert forall|i: int| 0 <= i < pf.len() implies filter_ref(grouped, #[trigger] pf[i])
            == filter_ref(entries, pf[i]) by {}
        lemma_concat_congruence(grouped, entries, pf);
    }
}

/// An exact query lists the values of the filtered entries.
proof fn lemma_query_is_filter_values(entries: Seq<(Seq<char>, ValueModel)>, k: Seq<char>)
    ensures
        query_ref(entries, k) == filter_ref(entries, k).map_values(
            |pr: (Seq<char>, ValueModel)| pr.1,
        ),
{
    lemma_match_idxs(entries, k);
    assert(query_ref(entries, k) =~= filter_ref(entries, k).map_values(
        |pr: (Seq<char>, ValueModel)| pr.1,
    ));
}

/// Length preservation: in a lossless tree — one whose text is the
/// source — the token byte lengths sum to the source's byte length.
pub proof fn lemma_cst_length_preservation(root: crate::cst::CstNode, source: Seq<char>)
    requires
        crate::cst::node_text(root) == source,
    ensures
        crate::cst::subs_byte_sum(root.children@) == crate::text::byte_len(source),
{
    crate::cst::lemma_subs_byte_sum(root.children@);
}

} // verus!
