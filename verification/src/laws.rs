//! The laws of the engine: what flattening's keys are, that flattening is
//! injective over paths, and that merging is last-wins.

use crate::config::comps_of_prefix;
use crate::config::flat_entries;
use crate::config::flat_tree;
use crate::config::flat_value;
use crate::config::pipeline_maps;
use crate::config::FlatFailure;
use crate::strmap::keys_distinct;
use crate::text::join_seqs;
use crate::text::upper_seq;
use crate::value::all_scalars;
use crate::value::scalar_views;
use crate::value::Value;
use vstd::prelude::*;

verus! {

/// Whether `p` is a path of raw table keys from this value down to a node
/// that emits an output key: a scalar other than `Null`, or an array.
pub open spec fn emit_path(v: Value, p: Seq<Seq<char>>) -> bool
    decreases v, 0int,
{
    match v {
        Value::Null => false,
        Value::Table(t) => emit_path_entries(t@, 0, p),
        _ => p.len() == 0,
    }
}

/// Whether `p` is an emitting path through one of the entries from position
/// `i` on: its first component is that entry's raw key, and the rest leads
/// on below the entry's value.
pub open spec fn emit_path_entries(entries: Seq<(String, Value)>, i: int, p: Seq<Seq<char>>) -> bool
    decreases entries, entries.len() - i,
{
    if i < 0 || i >= entries.len() {
        false
    } else {
        (p.len() > 0 && entries[i].0@ == p[0] && emit_path(entries[i].1, p.drop_first()))
            || emit_path_entries(entries, i + 1, p)
    }
}

/// Every component of the path uppercased.
pub open spec fn upper_all(p: Seq<Seq<char>>) -> Seq<Seq<char>> {
    p.map_values(|s: Seq<char>| upper_seq(s))
}

/// The output key of a path: the initial components followed by the
/// uppercased path components, joined with the separator.
pub open spec fn path_key(comps: Seq<Seq<char>>, p: Seq<Seq<char>>, sep: Seq<char>) -> Seq<char> {
    join_seqs(comps + upper_all(p), sep)
}

/// A well-formed source tree: every table in it has pairwise distinct keys.
pub open spec fn tree_wf(v: Value) -> bool
    decreases v,
{
    match v {
        Value::Table(t) => table_wf(t@),
        _ => true,
    }
}

/// A well-formed table: pairwise distinct keys, and well-formed subtrees.
pub open spec fn table_wf(entries: Seq<(String, Value)>) -> bool
    decreases entries,
{
    keys_distinct(entries) && forall|i: int|
        0 <= i < entries.len() ==> tree_wf((#[trigger] entries[i]).1)
}

/// Flattening an empty table yields an empty mapping and no error.
pub proof fn lemma_flatten_empty_table(
    tree: Value,
    prefix: Option<Seq<char>>,
    sep: Seq<char>,
    asep: Seq<char>,
)
    requires
        tree is Table,
        tree->Table_0@.len() == 0,
    ensures
        flat_tree(tree, prefix, sep, asep) == Ok::<_, FlatFailure>(
            Map::<Seq<char>, Seq<char>>::empty(),
        ),
{
}

/// An array of scalars flattens to one key, holding its elements' string
/// forms joined by the array separator in their original order; an array
/// holding a nested table or array fails with `UnsupportedArray` naming the
/// key, once the key itself is free.
pub proof fn lemma_array_flatten(
    elems: Vec<Value>,
    comps: Seq<Seq<char>>,
    sep: Seq<char>,
    asep: Seq<char>,
    acc: Map<Seq<char>, Seq<char>>,
)
    requires
        !acc.contains_key(join_seqs(comps, sep)),
    ensures
        all_scalars(elems@) ==> flat_value(Value::Array(elems), comps, sep, asep, acc) == Ok::<
            _,
            FlatFailure,
        >(acc.insert(join_seqs(comps, sep), join_seqs(scalar_views(elems@), asep))),
        !all_scalars(elems@) ==> flat_value(Value::Array(elems), comps, sep, asep, acc) == Err::<
            Map<Seq<char>, Seq<char>>,
            _,
        >(FlatFailure::UnsupportedArray(join_seqs(comps, sep))),
{
}

/// Stepping one path component into the table transfers the output key: the
/// key of the whole path equals the key of its tail under the extended
/// component list.
proof fn lemma_path_key_step(comps: Seq<Seq<char>>, p: Seq<Seq<char>>, sep: Seq<char>, head: Seq<char>)
    requires
        p.len() > 0,
        p[0] == head,
    ensures
        path_key(comps, p, sep) == path_key(comps.push(upper_seq(head)), p.drop_first(), sep),
{
    assert(comps + upper_all(p) =~= comps.push(upper_seq(head)) + upper_all(p.drop_first()));
}

/// Flattening only adds entries: every key of the accumulator is a key of a
/// successful result.
proof fn lemma_value_mono(
    v: Value,
    comps: Seq<Seq<char>>,
    sep: Seq<char>,
    asep: Seq<char>,
    acc: Map<Seq<char>, Seq<char>>,
)
    requires
        flat_value(v, comps, sep, asep, acc) is Ok,
    ensures
        forall|k: Seq<char>|
            #[trigger] acc.contains_key(k) ==> flat_value(
                v,
                comps,
                sep,
                asep,
                acc,
            )->Ok_0.contains_key(k),
    decreases v, 0int,
{
    match v {
        Value::Table(t) => {
            lemma_entries_mono(t@, 0, comps, sep, asep, acc);
        },
        _ => {},
    }
}

/// As `lemma_value_mono`, for a table's entries from position `i` on.
proof fn lemma_entries_mono(
    entries: Seq<(String, Value)>,
    i: int,
    comps: Seq<Seq<char>>,
    sep: Seq<char>,
    asep: Seq<char>,
    acc: Map<Seq<char>, Seq<char>>,
)
    requires
        flat_entries(entries, i, comps, sep, asep, acc) is Ok,
    ensures
        forall|k: Seq<char>|
            #[trigger] acc.contains_key(k) ==> flat_entries(
                entries,
                i,
                comps,
                sep,
                asep,
                acc,
            )->Ok_0.contains_key(k),
    decreases entries, entries.len() - i,
{
    if 0 <= i < entries.len() {
        let comps2 = comps.push(upper_seq(entries[i].0@));
        let r1 = flat_value(entries[i].1, comps2, sep, asep, acc);
        assert(r1 is Ok);
        lemma_value_mono(entries[i].1, comps2, sep, asep, acc);
        lemma_entries_mono(entries, i + 1, comps, sep, asep, r1->Ok_0);
    }
}

/// When flattening succeeds, every emitting path's key is in the result, and
/// was not yet taken in the accumulator.
proof fn lemma_value_complete(
    v: Value,
    comps: Seq<Seq<char>>,
    sep: Seq<char>,
    asep: Seq<char>,
    acc: Map<Seq<char>, Seq<char>>,
    p: Seq<Seq<char>>,
)
    requires
        flat_value(v, comps, sep, asep, acc) is Ok,
        emit_path(v, p),
    ensures
        flat_value(v, comps, sep, asep, acc)->Ok_0.contains_key(path_key(comps, p, sep)),
        !acc.contains_key(path_key(comps, p, sep)),
    decreases v, 0int,
{
    match v {
        Value::Null => {},
        Value::Table(t) => {
            lemma_entries_complete(t@, 0, comps, sep, asep, acc, p);
        },
        _ => {
            assert(p.len() == 0);
            assert(comps + upper_all(p) =~= comps);
        },
    }
}

/// As `lemma_value_complete`, for a table's entries from position `i` on.
proof fn lemma_entries_complete(
    entries: Seq<(String, Value)>,
    i: int,
    comps: Seq<Seq<char>>,
    sep: Seq<char>,
    asep: Seq<char>,
    acc: Map<Seq<char>, Seq<char>>,
    p: Seq<Seq<char>>,
)
    requires
        flat_entries(entries, i, comps, sep, asep, acc) is Ok,
        emit_path_entries(entries, i, p),
    ensures
        flat_entries(entries, i, comps, sep, asep, acc)->Ok_0.contains_key(
            path_key(comps, p, sep),
        ),
        !acc.contains_key(path_key(comps, p, sep)),
    decreases entries, entries.len() - i,
{
    let comps2 = comps.push(upper_seq(entries[i].0@));
    let r1 = flat_value(entries[i].1, comps2, sep, asep, acc);
    assert(r1 is Ok);
    let m1 = r1->Ok_0;
    if p.len() > 0 && entries[i].0@ == p[0] && emit_path(entries[i].1, p.drop_first()) {
        lemma_value_complete(entries[i].1, comps2, sep, asep, acc, p.drop_first());
        lemma_path_key_step(comps, p, sep, entries[i].0@);
        lemma_entries_mono(entries, i + 1, comps, sep, asep, m1);
    } else {
        assert(emit_path_entries(entries, i + 1, p));
        lemma_entries_complete(entries, i + 1, comps, sep, asep, m1, p);
        lemma_value_mono(entries[i].1, comps2, sep, asep, acc);
    }
}

/// Every key that flattening adds over the accumulator is the key of some
/// emitting path.
proof fn lemma_value_new_keys(
    v: Value,
    comps: Seq<Seq<char>>,
    sep: Seq<char>,
    asep: Seq<char>,
    acc: Map<Seq<char>, Seq<char>>,
    k: Seq<char>,
)
    requires
        flat_value(v, comps, sep, asep, acc) is Ok,
        flat_value(v, comps, sep, asep, acc)->Ok_0.contains_key(k),
        !acc.contains_key(k),
    ensures
        exists|p: Seq<Seq<char>>| #[trigger] emit_path(v, p) && k == path_key(comps, p, sep),
    decreases v, 0int,
{
    match v {
        Value::Null => {},
        Value::Table(t) => {
            lemma_entries_new_keys(t@, 0, comps, sep, asep, acc, k);
            let p0 = choose|p: Seq<Seq<char>>|
                #[trigger] emit_path_entries(t@, 0, p) && k == path_key(comps, p, sep);
            assert(emit_path(v, p0));
        },
        _ => {
            let p0 = Seq::<Seq<char>>::empty();
            assert(emit_path(v, p0));
            assert(comps + upper_all(p0) =~= comps);
            assert(k == path_key(comps, p0, sep));
        },
    }
}

/// As `lemma_value_new_keys`, for a table's entries from position `i` on.
proof fn lemma_entries_new_keys(
    entries: Seq<(String, Value)>,
    i: int,
    comps: Seq<Seq<char>>,
    sep: Seq<char>,
    asep: Seq<char>,
    acc: Map<Seq<char>, Seq<char>>,
    k: Seq<char>,
)
    requires
        flat_entries(entries, i, comps, sep, asep, acc) is Ok,
        flat_entries(entries, i, comps, sep, asep, acc)->Ok_0.contains_key(k),
        !acc.contains_key(k),
    ensures
        exists|p: Seq<Seq<char>>|
            #[trigger] emit_path_entries(entries, i, p) && k == path_key(comps, p, sep),
    decreases entries, entries.len() - i,
{
    if i < 0 || i >= entries.len() {
    } else {
        let head = entries[i].0@;
        let comps2 = comps.push(upper_seq(head));
        let r1 = flat_value(entries[i].1, comps2, sep, asep, acc);
        assert(r1 is Ok);
        let m1 = r1->Ok_0;
        if m1.contains_key(k) {
            lemma_value_new_keys(entries[i].1, comps2, sep, asep, acc, k);
            let p0 = choose|p: Seq<Seq<char>>|
                #[trigger] emit_path(entries[i].1, p) && k == path_key(comps2, p, sep);
            let pfull = seq![head] + p0;
            assert(pfull[0] == head);
            assert(pfull.drop_first() =~= p0);
            lemma_path_key_step(comps, pfull, sep, head);
            assert(emit_path_entries(entries, i, pfull));
        } else {
            lemma_entries_new_keys(entries, i + 1, comps, sep, asep, m1, k);
            let p0 = choose|p: Seq<Seq<char>>|
                #[trigger] emit_path_entries(entries, i + 1, p) && k == path_key(comps, p, sep);
            assert(emit_path_entries(entries, i, p0));
        }
    }
}

/// Every key of a flattened source is the uppercase separator-join of the
/// raw-key path to its emitting node, seeded with the prefix components.
pub proof fn lemma_flatten_keys_are_paths(
    tree: Value,
    prefix: Option<Seq<char>>,
    sep: Seq<char>,
    asep: Seq<char>,
    k: Seq<char>,
)
    requires
        flat_tree(tree, prefix, sep, asep) is Ok,
        flat_tree(tree, prefix, sep, asep)->Ok_0.contains_key(k),
    ensures
        exists|p: Seq<Seq<char>>|
            #[trigger] emit_path(tree, p) && k == path_key(comps_of_prefix(prefix), p, sep),
{
    lemma_value_new_keys(tree, comps_of_prefix(prefix), sep, asep, Map::empty(), k);
}

/// Conversely, when flattening succeeds every emitting path of the source
/// contributes its key to the result.
pub proof fn lemma_flatten_paths_have_keys(
    tree: Value,
    prefix: Option<Seq<char>>,
    sep: Seq<char>,
    asep: Seq<char>,
    p: Seq<Seq<char>>,
)
    requires
        flat_tree(tree, prefix, sep, asep) is Ok,
        emit_path(tree, p),
    ensures
        flat_tree(tree, prefix, sep, asep)->Ok_0.contains_key(
            path_key(comps_of_prefix(prefix), p, sep),
        ),
{
    lemma_value_complete(tree, comps_of_prefix(prefix), sep, asep, Map::empty(), p);
}

/// Every key of a whole pipeline's result is the uppercase separator-join of
/// a path through one of its sources.
pub proof fn lemma_pipeline_keys_are_paths(
    trees: Seq<Value>,
    prefix: Option<Seq<char>>,
    sep: Seq<char>,
    asep: Seq<char>,
    n: int,
    k: Seq<char>,
)
    requires
        0 <= n <= trees.len(),
        pipeline_maps(trees, prefix, sep, asep, n) is Ok,
        pipeline_maps(trees, prefix, sep, asep, n)->Ok_0.contains_key(k),
    ensures
        exists|i: int, p: Seq<Seq<char>>|
            0 <= i < n && #[trigger] emit_path(trees[i], p) && k == path_key(
                comps_of_prefix(prefix),
                p,
                sep,
            ),
    decreases n,
{
    let m = pipeline_maps(trees, prefix, sep, asep, n)->Ok_0;
    let prev = pipeline_maps(trees, prefix, sep, asep, n - 1);
    let f = flat_tree(trees[n - 1], prefix, sep, asep);
    assert(prev is Ok && f is Ok);
    if f->Ok_0.contains_key(k) {
        lemma_flatten_keys_are_paths(trees[n - 1], prefix, sep, asep, k);
        let p0 = choose|p: Seq<Seq<char>>|
            #[trigger] emit_path(trees[n - 1], p) && k == path_key(comps_of_prefix(prefix), p, sep);
        assert(0 <= n - 1 < n && emit_path(trees[n - 1], p0) && k == path_key(
            comps_of_prefix(prefix),
            p0,
            sep,
        ));
    } else {
        assert(prev->Ok_0.contains_key(k));
        lemma_pipeline_keys_are_paths(trees, prefix, sep, asep, n - 1, k);
        let (i0, p0) = choose|i: int, p: Seq<Seq<char>>|
            0 <= i < n - 1 && #[trigger] emit_path(trees[i], p) && k == path_key(
                comps_of_prefix(prefix),
                p,
                sep,
            );
        assert(0 <= i0 < n && emit_path(trees[i0], p0) && k == path_key(
            comps_of_prefix(prefix),
            p0,
            sep,
        ));
    }
}

/// Distinct emitting paths of a well-formed value produce distinct keys
/// whenever flattening succeeds.
proof fn lemma_value_inj(
    v: Value,
    comps: Seq<Seq<char>>,
    sep: Seq<char>,
    asep: Seq<char>,
    acc: Map<Seq<char>, Seq<char>>,
    p1: Seq<Seq<char>>,
    p2: Seq<Seq<char>>,
)
    requires
        tree_wf(v),
        flat_value(v, comps, sep, asep, acc) is Ok,
        emit_path(v, p1),
        emit_path(v, p2),
        p1 != p2,
    ensures
        path_key(comps, p1, sep) != path_key(comps, p2, sep),
    decreases v, 0int,
{
    match v {
        Value::Null => {},
        Value::Table(t) => {
            lemma_entries_inj(t@, 0, comps, sep, asep, acc, p1, p2);
        },
        _ => {
            assert(p1 =~= p2);
        },
    }
}

/// As `lemma_value_inj`, for a table's entries from position `i` on.
proof fn lemma_entries_inj(
    entries: Seq<(String, Value)>,
    i: int,
    comps: Seq<Seq<char>>,
    sep: Seq<char>,
    asep: Seq<char>,
    acc: Map<Seq<char>, Seq<char>>,
    p1: Seq<Seq<char>>,
    p2: Seq<Seq<char>>,
)
    requires
        table_wf(entries),
        flat_entries(entries, i, comps, sep, asep, acc) is Ok,
        emit_path_entries(entries, i, p1),
        emit_path_entries(entries, i, p2),
        p1 != p2,
    ensures
        path_key(comps, p1, sep) != path_key(comps, p2, sep),
    decreases entries, entries.len() - i,
{
    let head = entries[i].0@;
    let comps2 = comps.push(upper_seq(head));
    let r1 = flat_value(entries[i].1, comps2, sep, asep, acc);
    assert(r1 is Ok);
    let m1 = r1->Ok_0;
    let at_i_1 = p1.len() > 0 && head == p1[0] && emit_path(entries[i].1, p1.drop_first());
    let at_i_2 = p2.len() > 0 && head == p2[0] && emit_path(entries[i].1, p2.drop_first());
    if at_i_1 && at_i_2 {
        assert(p1.drop_first() != p2.drop_first()) by {
            if p1.drop_first() == p2.drop_first() {
                assert(p1.len() == p2.len());
                assert forall|m: int| 0 <= m < p1.len() implies p1[m] == p2[m] by {
                    if m > 0 {
                        assert(p1.drop_first()[m - 1] == p1[m]);
                        assert(p2.drop_first()[m - 1] == p2[m]);
                    }
                }
                assert(p1 =~= p2);
            }
        }
        assert(tree_wf(entries[i].1));
        lemma_value_inj(entries[i].1, comps2, sep, asep, acc, p1.drop_first(), p2.drop_first());
        lemma_path_key_step(comps, p1, sep, head);
        lemma_path_key_step(comps, p2, sep, head);
    } else if at_i_1 {
        assert(emit_path_entries(entries, i + 1, p2));
        lemma_value_complete(entries[i].1, comps2, sep, asep, acc, p1.drop_first());
        lemma_path_key_step(comps, p1, sep, head);
        lemma_entries_complete(entries, i + 1, comps, sep, asep, m1, p2);
    } else if at_i_2 {
        assert(emit_path_entries(entries, i + 1, p1));
        lemma_value_complete(entries[i].1, comps2, sep, asep, acc, p2.drop_first());
        lemma_path_key_step(comps, p2, sep, head);
        lemma_entries_complete(entries, i + 1, comps, sep, asep, m1, p1);
    } else {
        assert(emit_path_entries(entries, i + 1, p1));
        assert(emit_path_entries(entries, i + 1, p2));
        lemma_entries_inj(entries, i + 1, comps, sep, asep, m1, p1, p2);
    }
}

/// Flattening is injective within one source: when flattening a well-formed
/// tree succeeds, no two distinct emitting paths collapse to the same output
/// key — equivalently, a collision forces the flattening to fail.
pub proof fn lemma_flatten_injective(
    tree: Value,
    prefix: Option<Seq<char>>,
    sep: Seq<char>,
    asep: Seq<char>,
    p1: Seq<Seq<char>>,
    p2: Seq<Seq<char>>,
)
    requires
        tree_wf(tree),
        flat_tree(tree, prefix, sep, asep) is Ok,
        emit_path(tree, p1),
        emit_path(tree, p2),
        p1 != p2,
    ensures
        path_key(comps_of_prefix(prefix), p1, sep) != path_key(comps_of_prefix(prefix), p2, sep),
{
    lemma_value_inj(tree, comps_of_prefix(prefix), sep, asep, Map::empty(), p1, p2);
}

/// Merging is override-last-wins: merging `a`, then `b`, then `c`, a key
/// that `c` holds ends with `c`'s value, whatever `a` and `b` held.
pub proof fn lemma_merge_last_wins(
    a: Map<Seq<char>, Seq<char>>,
    b: Map<Seq<char>, Seq<char>>,
    c: Map<Seq<char>, Seq<char>>,
    k: Seq<char>,
)
    requires
        c.contains_key(k),
    ensures
        a.union_prefer_right(b).union_prefer_right(c).contains_key(k),
        a.union_prefer_right(b).union_prefer_right(c)[k] == c[k],
{
}

/// In a whole pipeline, the last source wins: a key that the last source's
/// flattened mapping holds ends with that mapping's value.
pub proof fn lemma_last_source_wins(
    trees: Seq<Value>,
    prefix: Option<Seq<char>>,
    sep: Seq<char>,
    asep: Seq<char>,
    n: int,
    k: Seq<char>,
)
    requires
        n >= 1,
        pipeline_maps(trees, prefix, sep, asep, n) is Ok,
        flat_tree(trees[n - 1], prefix, sep, asep) is Ok,
        flat_tree(trees[n - 1], prefix, sep, asep)->Ok_0.contains_key(k),
    ensures
        pipeline_maps(trees, prefix, sep, asep, n)->Ok_0.contains_key(k),
        pipeline_maps(trees, prefix, sep, asep, n)->Ok_0[k] == flat_tree(
            trees[n - 1],
            prefix,
            sep,
            asep,
        )->Ok_0[k],
{
}

} // verus!
