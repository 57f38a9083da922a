//! The flatten-and-merge engine: turning one nested source into a flat
//! mapping, merging flattened sources in order, and the builder that drives
//! the whole pipeline.

use crate::error::ConfpilerError;
use crate::strmap::find_key;
use crate::strmap::keys_distinct;
use crate::strmap::lemma_map_of_contains;
use crate::strmap::lemma_map_of_index;
use crate::strmap::lemma_map_of_push;
use crate::strmap::lemma_map_of_update;
use crate::strmap::map_of;
use crate::text::join_components;
use crate::text::join_seqs;
use crate::text::lemma_lex_total_ordering;
use crate::text::lex_le;
use crate::text::lex_leq_fn;
use crate::text::seq_views;
use crate::text::sort_strings;
use crate::text::to_ascii_upper;
use crate::text::upper_seq;
use crate::text::views_sorted;
use crate::value::all_scalars;
use crate::value::render_array;
use crate::value::render_scalar;
use crate::value::scalar_chars;
use crate::value::scalar_views;
use crate::value::Value;
use vstd::prelude::*;
use vstd::string::StringExecFns;

verus! {

/// A warning produced while merging two flattened configurations.
///
/// Warnings are not errors; the caller may choose to treat them as such.
#[derive(Debug, Clone, PartialEq, Eq)]
pub enum MergeWarning {
    /// A later source wrote a value into a key that already held exactly that
    /// value. This does not say the key's final value stays unchanged: a
    /// still later source may override it again.
    RedundantValue { overrider: String, key: String, value: String },
}

/// The key that a warning names.
pub open spec fn warning_key(w: MergeWarning) -> Seq<char> {
    match w {
        MergeWarning::RedundantValue { overrider, key, value } => key@,
    }
}

/// Whether a warning correctly reports a redundant write: merging `inc` over
/// `base`, the key is present in both with exactly the same value, and the
/// warning carries that value and names `inc`'s origin as the overrider.
pub open spec fn redundant_warning(w: MergeWarning, base: FlatConfigView, inc: FlatConfigView) -> bool {
    match w {
        MergeWarning::RedundantValue { overrider, key, value } => {
            &&& overrider@ == inc.origin
            &&& base.items.contains_key(key@)
            &&& inc.items.contains_key(key@)
            &&& inc.items[key@] == base.items[key@]
            &&& value@ == base.items[key@]
        },
    }
}

/// The mathematical content of a flattened configuration: its origin and the
/// mapping it denotes.
pub struct FlatConfigView {
    pub origin: Seq<char>,
    pub items: Map<Seq<char>, Seq<char>>,
}

/// A flattened, compiled configuration: a set of key/value pairs produced by
/// flattening the nested structure of one or more sources.
#[derive(Debug, Clone, PartialEq, Eq)]
pub struct FlatConfig {
    origin: String,
    items: Vec<(String, String)>,
}

impl View for FlatConfig {
    type V = FlatConfigView;

    closed spec fn view(&self) -> FlatConfigView {
        FlatConfigView { origin: self.origin@, items: map_of(self.items@) }
    }
}

impl FlatConfig {
    /// The internal entries carry pairwise distinct keys.
    pub closed spec fn wf(&self) -> bool {
        keys_distinct(self.items@)
    }

    /// An empty configuration with the given origin.
    pub fn new(origin: &str) -> (c: FlatConfig)
        ensures
            c.wf(),
            c@.origin == origin@,
            c@.items == Map::<Seq<char>, Seq<char>>::empty(),
    {
        FlatConfig { origin: origin.to_owned(), items: Vec::new() }
    }

    /// The key/value entries of the configuration, in no significant order.
    pub fn items(&self) -> (r: &Vec<(String, String)>)
        requires
            self.wf(),
        ensures
            keys_distinct(r@),
            map_of(r@) == self@.items,
    {
        &self.items
    }

    /// The identifier of the configuration's first source.
    pub fn origin(&self) -> (r: &String)
        ensures
            r@ == self@.origin,
    {
        &self.origin
    }

    /// The value held under a key, if any.
    pub fn get(&self, key: &str) -> (r: Option<&String>)
        requires
            self.wf(),
        ensures
            match r {
                Some(v) => self@.items.contains_key(key@) && v@ == self@.items[key@],
                None => !self@.items.contains_key(key@),
            },
    {
        let k = key.to_owned();
        proof {
            lemma_map_of_contains(self.items@, k@);
        }
        match find_key(&self.items, &k) {
            Some(i) => {
                proof {
                    lemma_map_of_index(self.items@, i as int);
                }
                Some(&self.items[i].1)
            },
            None => None,
        }
    }

    /// Puts a value under a key, inserting the entry or overwriting the value
    /// already there.
    pub fn set(&mut self, key: &str, value: &str)
        requires
            old(self).wf(),
        ensures
            final(self).wf(),
            final(self)@.origin == old(self)@.origin,
            final(self)@.items == old(self)@.items.insert(key@, value@),
    {
        let k = key.to_owned();
        let v = value.to_owned();
        match find_key(&self.items, &k) {
            Some(i) => {
                let k0 = self.items[i].0.clone();
                proof {
                    lemma_map_of_update(self.items@, i as int, v);
                }
                let ghost pre = self.items@;
                self.items[i] = (k0, v);
                proof {
                    assert(self.items@ == pre.update(i as int, (pre[i as int].0, v)));
                    assert(keys_distinct(self.items@)) by {
                        assert(forall|p: int|
                            0 <= p < pre.len() && p != i ==> (#[trigger] self.items@[p]) == pre[p]);
                    }
                }
            },
            None => {
                proof {
                    lemma_map_of_push(self.items@, k, v);
                }
                let ghost pre = self.items@;
                self.items.push((k, v));
                proof {
                    assert(forall|p: int|
                        0 <= p < pre.len() ==> (#[trigger] self.items@[p]) == pre[p]);
                    assert(keys_distinct(self.items@));
                }
            },
        }
    }
}

impl FlatConfig {
    /// Merge another configuration into `self`, the incoming values winning:
    /// afterwards `self` holds the union of the two mappings, with `other`'s
    /// value wherever both held the key.
    ///
    /// One `RedundantValue` warning is returned for each key that `other`
    /// set to exactly the value `self` already held, and none otherwise.
    pub fn merge(&mut self, other: &Self) -> (warnings: Vec<MergeWarning>)
        requires
            old(self).wf(),
            other.wf(),
        ensures
            final(self).wf(),
            final(self)@.origin == old(self)@.origin,
            final(self)@.items == old(self)@.items.union_prefer_right(other@.items),
            forall|j: int|
                0 <= j < warnings@.len() ==> redundant_warning(
                    #[trigger] warnings@[j],
                    old(self)@,
                    other@,
                ),
            forall|k: Seq<char>|
                (#[trigger] other@.items.contains_key(k)) && old(self)@.items.contains_key(k)
                    && other@.items[k] == old(self)@.items[k] ==> exists|j: int|
                    0 <= j < warnings@.len() && warning_key(#[trigger] warnings@[j]) == k,
            forall|j1: int, j2: int|
                0 <= j1 < j2 < warnings@.len() ==> warning_key(warnings@[j1]) != warning_key(
                    warnings@[j2],
                ),
    {
        let mut warnings: Vec<MergeWarning> = Vec::new();
        let ghost base = old(self)@;
        let ghost inc = other.items@;
        proof {
            assert(inc.take(0) =~= Seq::<(String, String)>::empty());
            assert(base.items.union_prefer_right(map_of(inc.take(0))) =~= base.items);
        }
        let mut i: usize = 0;
        while i < other.items.len()
            invariant
                i <= inc.len(),
                inc == other.items@,
                other.wf(),
                other@.origin == other.origin@,
                self.wf(),
                self@.origin == base.origin,
                self@.items == base.items.union_prefer_right(map_of(inc.take(i as int))),
                forall|j: int|
                    0 <= j < warnings@.len() ==> redundant_warning(
                        #[trigger] warnings@[j],
                        base,
                        other@,
                    ),
                forall|j: int|
                    0 <= j < warnings@.len() ==> exists|p: int|
                        0 <= p < i && warning_key(#[trigger] warnings@[j]) == (
                        #[trigger] inc[p]).0@,
                forall|p: int|
                    0 <= p < i && base.items.contains_key((#[trigger] inc[p]).0@)
                        && base.items[inc[p].0@] == inc[p].1@ ==> exists|j: int|
                        0 <= j < warnings@.len() && warning_key(#[trigger] warnings@[j])
                            == inc[p].0@,
                forall|j1: int, j2: int|
                    0 <= j1 < j2 < warnings@.len() ==> warning_key(warnings@[j1]) != warning_key(
                        warnings@[j2],
                    ),
            decreases inc.len() - i,
        {
            let ghost pre_w = warnings@;
            let k = other.items[i].0.clone();
            let v = other.items[i].1.clone();
            let ghost kv = k@;
            proof {
                // The key has not been processed before, so the accumulated
                // overrides leave the base's verdict on it unchanged.
                assert(forall|p: int| 0 <= p < i ==> (#[trigger] inc.take(i as int)[p]) == inc[p]);
                assert(forall|p: int| 0 <= p < i ==> (#[trigger] inc[p]).0@ != kv);
                lemma_map_of_contains(inc.take(i as int), kv);
                assert(!map_of(inc.take(i as int)).contains_key(kv));
                assert(self@.items.contains_key(kv) <==> base.items.contains_key(kv));
                assert(base.items.contains_key(kv) ==> self@.items[kv] == base.items[kv]);
                lemma_map_of_contains(self.items@, kv);
                lemma_map_of_index(inc, i as int);
                assert(other@.items[kv] == inc[i as int].1@);
                assert(inc.take(i as int + 1).drop_last() =~= inc.take(i as int));
                assert(inc.take(i as int + 1).last() == inc[i as int]);
                assert(map_of(inc.take(i as int + 1)) == map_of(inc.take(i as int)).insert(
                    kv,
                    inc[i as int].1@,
                ));
            }
            match find_key(&self.items, &k) {
                Some(idx) => {
                    proof {
                        lemma_map_of_index(self.items@, idx as int);
                    }
                    if self.items[idx].1 == v {
                        let value = self.items[idx].1.clone();
                        warnings.push(
                            MergeWarning::RedundantValue {
                                overrider: other.origin.clone(),
                                key: k,
                                value: value,
                            },
                        );
                        proof {
                            assert(redundant_warning(warnings@.last(), base, other@));
                            assert(warning_key(warnings@[warnings@.len() - 1]) == kv);
                            assert(self@.items =~= base.items.union_prefer_right(
                                map_of(inc.take(i as int + 1)),
                            ));
                            assert forall|p: int|
                                0 <= p < i as int + 1 && base.items.contains_key(
                                    (#[trigger] inc[p]).0@,
                                ) && base.items[inc[p].0@] == inc[p].1@ implies exists|j: int|
                                0 <= j < warnings@.len() && warning_key(#[trigger] warnings@[j])
                                    == inc[p].0@ by {
                                if p < i as int {
                                    let j0 = choose|j: int|
                                        0 <= j < pre_w.len() && warning_key(#[trigger] pre_w[j])
                                            == inc[p].0@;
                                    assert(warnings@[j0] == pre_w[j0]);
                                    assert(warning_key(warnings@[j0]) == inc[p].0@);
                                } else {
                                    assert(warning_key(warnings@[warnings@.len() - 1]) == inc[
                                        p
                                    ].0@);
                                }
                            }
                        }
                    } else {
                        let k0 = self.items[idx].0.clone();
                        proof {
                            lemma_map_of_update(self.items@, idx as int, v);
                        }
                        let ghost pre = self.items@;
                        self.items[idx] = (k0, v);
                        proof {
                            assert(self.items@ == pre.update(idx as int, (pre[idx as int].0, v)));
                            assert(keys_distinct(self.items@)) by {
                                assert(forall|p: int|
                                    0 <= p < pre.len() && p != idx ==> (#[trigger] self.items@[p])
                                        == pre[p]);
                            }
                            assert(map_of(self.items@) =~= base.items.union_prefer_right(
                                map_of(inc.take(i as int + 1)),
                            ));
                            assert(!(base.items.contains_key(kv) && base.items[kv] == inc[
                                i as int
                            ].1@));
                        }
                    }
                },
                None => {
                    proof {
                        lemma_map_of_push(self.items@, k, v);
                    }
                    let ghost pre = self.items@;
                    self.items.push((k, v));
                    proof {
                        assert(forall|p: int|
                            0 <= p < pre.len() ==> (#[trigger] self.items@[p]) == pre[p]);
                        assert(keys_distinct(self.items@));
                        assert(map_of(self.items@) =~= base.items.union_prefer_right(
                            map_of(inc.take(i as int + 1)),
                        ));
                        assert(!base.items.contains_key(kv));
                    }
                },
            }
            i = i + 1;
        }
        proof {
            assert(inc.take(inc.len() as int) =~= inc);
            assert(forall|k: Seq<char>|
                (#[trigger] other@.items.contains_key(k)) && base.items.contains_key(k)
                    && other@.items[k] == base.items[k] ==> exists|j: int|
                    0 <= j < warnings@.len() && warning_key(#[trigger] warnings@[j]) == k) by {
                assert forall|k: Seq<char>|
                    (#[trigger] other@.items.contains_key(k)) && base.items.contains_key(k)
                        && other@.items[k] == base.items[k] implies exists|j: int|
                    0 <= j < warnings@.len() && warning_key(#[trigger] warnings@[j]) == k by {
                    lemma_map_of_contains(inc, k);
                    let p = choose|p: int| 0 <= p < inc.len() && (#[trigger] inc[p]).0@ == k;
                    lemma_map_of_index(inc, p);
                    assert(inc[p].1@ == other@.items[k]);
                }
            }
        }
        warnings
    }
}

/// The rendered text of a warning.
pub open spec fn warning_message_chars(w: MergeWarning) -> Seq<char> {
    match w {
        MergeWarning::RedundantValue { overrider, key, value } => "'"@ + overrider@
            + "' is attempting to override '"@ + key@ + "' with '"@ + value@
            + "', but the key already contains that value"@,
    }
}

impl MergeWarning {
    /// The human-readable description of the warning.
    pub fn message(&self) -> (r: String)
        ensures
            r@ == warning_message_chars(*self),
    {
        match self {
            MergeWarning::RedundantValue { overrider, key, value } => {
                let mut r = "'".to_owned();
                r.append(overrider.as_str());
                r.append("' is attempting to override '");
                r.append(key.as_str());
                r.append("' with '");
                r.append(value.as_str());
                r.append("', but the key already contains that value");
                r
            },
        }
    }
}

/// The warnings' messages, each indented by four spaces.
pub open spec fn warning_lines(ws: Seq<MergeWarning>) -> Seq<Seq<char>> {
    ws.map_values(|w: MergeWarning| "    "@ + warning_message_chars(w))
}

/// The warnings rendered one per line, four spaces of indent each, joined in
/// lexicographic order so that the output is reproducible across runs.
pub open spec fn formatted_warnings(ws: Seq<MergeWarning>) -> Seq<char> {
    join_seqs(warning_lines(ws).sort_by(lex_leq_fn()), "\n"@)
}

/// Renders the warnings for display, one per line and in a stable order.
pub fn warnings_formatter(warnings: &Vec<MergeWarning>) -> (r: String)
    ensures
        r@ == formatted_warnings(warnings@),
{
    let ghost target = warning_lines(warnings@);
    let mut lines: Vec<String> = Vec::new();
    let mut i: usize = 0;
    proof {
        assert(seq_views(lines@) =~= target.take(0));
    }
    while i < warnings.len()
        invariant
            i <= warnings@.len(),
            target == warning_lines(warnings@),
            target.len() == warnings@.len(),
            seq_views(lines@) == target.take(i as int),
        decreases warnings@.len() - i,
    {
        let mut line = "    ".to_owned();
        let m = warnings[i].message();
        line.append(m.as_str());
        let ghost pre_lines = lines@;
        let ghost line_v = line@;
        lines.push(line);
        proof {
            assert(target[i as int] == "    "@ + warning_message_chars(warnings@[i as int]));
            assert(line_v == target[i as int]);
            assert(pre_lines.len() == i as int) by {
                assert(seq_views(pre_lines).len() == pre_lines.len());
            }
            assert(lines@ == pre_lines.push(line));
            assert(seq_views(lines@) =~= target.take(i as int + 1)) by {
                assert(forall|j: int| 0 <= j < i ==> lines@[j] == pre_lines[j]);
                assert(lines@[i as int]@ == line_v);
            }
        }
        i = i + 1;
    }
    proof {
        assert(target.take(warnings@.len() as int) =~= target);
    }
    let sorted = sort_strings(&lines);
    let r = join_components(&sorted, "\n");
    proof {
        lemma_join_sorted(sorted@, target);
    }
    r
}

/// A sorted vector of strings whose views carry the same multiset as `target`
/// is, viewed, exactly `target` sorted.
pub proof fn lemma_join_sorted(sorted: Seq<String>, target: Seq<Seq<char>>)
    requires
        views_sorted(sorted),
        seq_views(sorted).to_multiset() == target.to_multiset(),
    ensures
        seq_views(sorted) == target.sort_by(lex_leq_fn()),
{
    lemma_lex_total_ordering();
    target.lemma_sort_by_ensures(lex_leq_fn());
    assert(vstd::relations::sorted_by(seq_views(sorted), lex_leq_fn())) by {
        assert forall|i: int, j: int|
            0 <= i < j < seq_views(sorted).len() implies #[trigger] lex_leq_fn()(
            seq_views(sorted)[i],
            seq_views(sorted)[j],
        ) by {
            assert(seq_views(sorted)[i] == sorted[i]@);
            assert(seq_views(sorted)[j] == sorted[j]@);
            assert(lex_le(sorted[i]@, sorted[j]@));
        }
    }
    vstd::seq_lib::lemma_sorted_unique(
        seq_views(sorted),
        target.sort_by(lex_leq_fn()),
        lex_leq_fn(),
    );
}

impl Default for FlatConfig {
    /// An empty configuration with an empty origin.
    fn default() -> (c: FlatConfig)
        ensures
            c.wf(),
            c@.origin == Seq::<char>::empty(),
            c@.items == Map::<Seq<char>, Seq<char>>::empty(),
    {
        FlatConfig { origin: String::new(), items: Vec::new() }
    }
}

/// The origin that a warning blames for the redundant write.
pub open spec fn warning_overrider(w: MergeWarning) -> Seq<char> {
    match w {
        MergeWarning::RedundantValue { overrider, key, value } => overrider@,
    }
}

/// The value that a warning reports as already present.
pub open spec fn warning_value(w: MergeWarning) -> Seq<char> {
    match w {
        MergeWarning::RedundantValue { overrider, key, value } => value@,
    }
}

/// A flattening failure, at specification level: the offending joined key.
pub enum FlatFailure {
    DuplicateKey(Seq<char>),
    UnsupportedArray(Seq<char>),
}

/// Whether an error value reports exactly the given flattening failure.
pub open spec fn err_matches(e: ConfpilerError, f: FlatFailure) -> bool {
    match (e, f) {
        (ConfpilerError::DuplicateKey(s), FlatFailure::DuplicateKey(k)) => s@ == k,
        (ConfpilerError::UnsupportedArray(s), FlatFailure::UnsupportedArray(k)) => s@ == k,
        _ => false,
    }
}

/// What flattening one value adds to the accumulated mapping, given the path
/// of already-uppercased key components leading to it.
///
/// A `Null` adds nothing; a table's entries are walked in order, each under
/// the path extended by its uppercased key; an array of scalars and every
/// scalar add one entry under the separator-joined path, unless that key is
/// already taken, which is a `DuplicateKey` failure; an array with a nested
/// table or array is an `UnsupportedArray` failure.
pub open spec fn flat_value(
    v: Value,
    comps: Seq<Seq<char>>,
    sep: Seq<char>,
    asep: Seq<char>,
    acc: Map<Seq<char>, Seq<char>>,
) -> Result<Map<Seq<char>, Seq<char>>, FlatFailure>
    decreases v, 0int,
{
    match v {
        Value::Null => Ok(acc),
        Value::Table(t) => flat_entries(t@, 0, comps, sep, asep, acc),
        Value::Array(elems) => {
            let key = join_seqs(comps, sep);
            if acc.contains_key(key) {
                Err(FlatFailure::DuplicateKey(key))
            } else if !all_scalars(elems@) {
                Err(FlatFailure::UnsupportedArray(key))
            } else {
                Ok(acc.insert(key, join_seqs(scalar_views(elems@), asep)))
            }
        },
        _ => {
            let key = join_seqs(comps, sep);
            if acc.contains_key(key) {
                Err(FlatFailure::DuplicateKey(key))
            } else {
                Ok(acc.insert(key, scalar_chars(v)))
            }
        },
    }
}

/// Flattening a table's entries from position `i` on, threading the
/// accumulated mapping and stopping at the first failure.
pub open spec fn flat_entries(
    entries: Seq<(String, Value)>,
    i: int,
    comps: Seq<Seq<char>>,
    sep: Seq<char>,
    asep: Seq<char>,
    acc: Map<Seq<char>, Seq<char>>,
) -> Result<Map<Seq<char>, Seq<char>>, FlatFailure>
    decreases entries, entries.len() - i,
{
    if i < 0 || i >= entries.len() {
        Ok(acc)
    } else {
        match flat_value(entries[i].1, comps.push(upper_seq(entries[i].0@)), sep, asep, acc) {
            Ok(acc2) => flat_entries(entries, i + 1, comps, sep, asep, acc2),
            Err(f) => Err(f),
        }
    }
}

/// The initial path: the prefix alone, when one is given.
pub open spec fn initial_comps(prefix: Option<&String>) -> Seq<Seq<char>> {
    match prefix {
        Some(p) => seq![p@],
        None => Seq::<Seq<char>>::empty(),
    }
}

/// Flattens one source tree into `output`, the keys upper-cased, joined with
/// `separator` and seeded with the prefix, exactly as `flat_entries`
/// describes; fails on a duplicate joined key or an array holding a nested
/// table or array.
pub fn flatten_into(
    input: &Vec<(String, Value)>,
    output: &mut Vec<(String, String)>,
    prefix: Option<&String>,
    separator: &str,
    array_separator: &str,
) -> (r: Result<(), ConfpilerError>)
    requires
        keys_distinct(old(output)@),
    ensures
        keys_distinct(final(output)@),
        ({
            let res = flat_entries(
                input@,
                0,
                initial_comps(prefix),
                separator@,
                array_separator@,
                map_of(old(output)@),
            );
            match r {
                Ok(u) => res == Ok::<_, FlatFailure>(map_of(final(output)@)),
                Err(e) => res is Err && err_matches(e, res->Err_0),
            }
        }),
{
    let mut components: Vec<String> = Vec::new();
    if let Some(p) = prefix {
        components.push(p.clone());
    }
    proof {
        assert(seq_views(components@) =~= initial_comps(prefix));
    }
    flatten_into_inner(input, output, separator, array_separator, &mut components)
}

/// The recursive worker behind `flatten_into`: walks the entries in order
/// under the current path of components, and restores the path before it
/// returns.
pub fn flatten_into_inner(
    input: &Vec<(String, Value)>,
    output: &mut Vec<(String, String)>,
    separator: &str,
    array_separator: &str,
    components: &mut Vec<String>,
) -> (r: Result<(), ConfpilerError>)
    requires
        keys_distinct(old(output)@),
    ensures
        keys_distinct(final(output)@),
        final(components)@ == old(components)@,
        ({
            let res = flat_entries(
                input@,
                0,
                seq_views(old(components)@),
                separator@,
                array_separator@,
                map_of(old(output)@),
            );
            match r {
                Ok(u) => res == Ok::<_, FlatFailure>(map_of(final(output)@)),
                Err(e) => res is Err && err_matches(e, res->Err_0),
            }
        }),
    decreases input@,
{
    let ghost comps = seq_views(components@);
    let ghost sep = separator@;
    let ghost asep = array_separator@;
    let mut i: usize = 0;
    while i < input.len()
        invariant
            i <= input@.len(),
            keys_distinct(output@),
            components@ == old(components)@,
            comps == seq_views(components@),
            sep == separator@,
            asep == array_separator@,
            flat_entries(input@, 0, comps, sep, asep, map_of(old(output)@)) == flat_entries(
                input@,
                i as int,
                comps,
                sep,
                asep,
                map_of(output@),
            ),
        decreases input@.len() - i,
    {
        let ghost m_i = map_of(output@);
        let ghost comps_inner = comps.push(upper_seq(input@[i as int].0@));
        let key_upper = to_ascii_upper(input[i].0.as_str());
        components.push(key_upper);
        proof {
            assert(seq_views(components@) =~= comps_inner);
        }
        match &input[i].1 {
            Value::Null => {
                proof {
                    assert(flat_value(input@[i as int].1, comps_inner, sep, asep, m_i)
                        == Ok::<_, FlatFailure>(m_i));
                }
            },
            Value::Table(t) => {
                proof {
                    assert(decreases_to!(input@ => input@[i as int]));
                    assert(decreases_to!(input@[i as int] => input@[i as int].1));
                    assert(input@[i as int].1 == Value::Table(*t));
                    assert(decreases_to!(input@[i as int].1 => *t));
                    assert(decreases_to!(*t => t@));
                }
                let res = flatten_into_inner(t, output, separator, array_separator, components);
                proof {
                    assert(flat_value(input@[i as int].1, comps_inner, sep, asep, m_i)
                        == flat_entries(t@, 0, comps_inner, sep, asep, m_i));
                }
                if let Err(e) = res {
                    proof {
                        let overall = flat_entries(
                            input@,
                            i as int,
                            comps,
                            sep,
                            asep,
                            m_i,
                        );
                        assert(overall is Err);
                    }
                    components.pop();
                    return Err(e);
                }
            },
            Value::Array(elems) => {
                let candidate = join_components(components, separator);
                proof {
                    assert(candidate@ == join_seqs(comps_inner, sep));
                    lemma_map_of_contains(output@, candidate@);
                }
                if find_key(output, &candidate).is_some() {
                    components.pop();
                    return Err(ConfpilerError::DuplicateKey(candidate));
                }
                match render_array(elems, array_separator) {
                    Some(val) => {
                        proof {
                            lemma_map_of_push(output@, candidate, val);
                        }
                        let ghost pre = output@;
                        output.push((candidate, val));
                        proof {
                            assert(forall|p: int|
                                0 <= p < pre.len() ==> (#[trigger] output@[p]) == pre[p]);
                            assert(keys_distinct(output@));
                        }
                    },
                    None => {
                        components.pop();
                        return Err(ConfpilerError::UnsupportedArray(candidate));
                    },
                }
            },
            other => {
                let candidate = join_components(components, separator);
                proof {
                    assert(candidate@ == join_seqs(comps_inner, sep));
                    lemma_map_of_contains(output@, candidate@);
                }
                if find_key(output, &candidate).is_some() {
                    components.pop();
                    return Err(ConfpilerError::DuplicateKey(candidate));
                }
                let val = render_scalar(other);
                proof {
                    lemma_map_of_push(output@, candidate, val);
                }
                let ghost pre = output@;
                output.push((candidate, val));
                proof {
                    assert(forall|p: int|
                        0 <= p < pre.len() ==> (#[trigger] output@[p]) == pre[p]);
                    assert(keys_distinct(output@));
                }
            },
        }
        components.pop();
        proof {
            assert(components@ =~= old(components)@);
            assert(flat_entries(input@, i as int, comps, sep, asep, m_i) == flat_entries(
                input@,
                i as int + 1,
                comps,
                sep,
                asep,
                map_of(output@),
            ));
        }
        i = i + 1;
    }
    Ok(())
}

/// The initial path that a stored prefix seeds.
pub open spec fn comps_of_prefix(prefix: Option<Seq<char>>) -> Seq<Seq<char>> {
    match prefix {
        Some(p) => seq![p],
        None => Seq::<Seq<char>>::empty(),
    }
}

/// The flat mapping of one source tree, starting from an empty accumulator.
pub open spec fn flat_tree(
    tree: Value,
    prefix: Option<Seq<char>>,
    sep: Seq<char>,
    asep: Seq<char>,
) -> Result<Map<Seq<char>, Seq<char>>, FlatFailure> {
    flat_value(tree, comps_of_prefix(prefix), sep, asep, Map::empty())
}

/// The mapping accumulated after flattening and merging the first `i`
/// sources in order, or the first flattening failure among them.
pub open spec fn pipeline_maps(
    trees: Seq<Value>,
    prefix: Option<Seq<char>>,
    sep: Seq<char>,
    asep: Seq<char>,
    i: int,
) -> Result<Map<Seq<char>, Seq<char>>, FlatFailure>
    decreases i,
{
    if i <= 0 {
        Ok(Map::empty())
    } else {
        match pipeline_maps(trees, prefix, sep, asep, i - 1) {
            Ok(m) => match flat_tree(trees[i - 1], prefix, sep, asep) {
                Ok(f) => Ok(m.union_prefer_right(f)),
                Err(e) => Err(e),
            },
            Err(e) => Err(e),
        }
    }
}

/// Once some stage has failed, every longer pipeline reports that failure.
pub proof fn lemma_pipeline_err(
    trees: Seq<Value>,
    prefix: Option<Seq<char>>,
    sep: Seq<char>,
    asep: Seq<char>,
    i: int,
    n: int,
)
    requires
        pipeline_maps(trees, prefix, sep, asep, i) is Err,
        i <= n,
    ensures
        pipeline_maps(trees, prefix, sep, asep, n) == pipeline_maps(trees, prefix, sep, asep, i),
    decreases n - i,
{
    if i < n {
        lemma_pipeline_err(trees, prefix, sep, asep, i, n - 1);
    }
}

/// Whether the source identifiers are pairwise distinct.
pub open spec fn ids_distinct(ids: Seq<Seq<char>>) -> bool {
    forall|i: int, j: int| 0 <= i < j < ids.len() ==> ids[i] != ids[j]
}

/// Whether the identifier at `j` repeats an earlier one.
pub open spec fn dup_at(ids: Seq<Seq<char>>, j: int) -> bool {
    exists|i: int| 0 <= i < j && ids[i] == ids[j]
}

/// Whether `j` is the first position whose identifier repeats an earlier one.
pub open spec fn is_first_dup(ids: Seq<Seq<char>>, j: int) -> bool {
    &&& 0 <= j < ids.len()
    &&& dup_at(ids, j)
    &&& forall|p: int| 0 <= p < j ==> !dup_at(ids, p)
}

/// Whether, at stage `i` of the pipeline, the key `k` is written redundantly:
/// both the mapping accumulated so far and the stage's flattened source hold
/// `k`, with exactly the same value.
pub open spec fn stage_redundant(
    trees: Seq<Value>,
    prefix: Option<Seq<char>>,
    sep: Seq<char>,
    asep: Seq<char>,
    i: int,
    k: Seq<char>,
) -> bool {
    &&& pipeline_maps(trees, prefix, sep, asep, i) is Ok
    &&& flat_tree(trees[i], prefix, sep, asep) is Ok
    &&& ({
        let m = pipeline_maps(trees, prefix, sep, asep, i)->Ok_0;
        let f = flat_tree(trees[i], prefix, sep, asep)->Ok_0;
        f.contains_key(k) && m.contains_key(k) && f[k] == m[k]
    })
}

/// Whether a warning correctly reports a redundant write of one of the first
/// `n` sources: the overrider is that source's identifier, the key was indeed
/// written redundantly at that stage, and the value is the one already held.
pub open spec fn build_warning_ok(
    w: MergeWarning,
    ids: Seq<Seq<char>>,
    trees: Seq<Value>,
    prefix: Option<Seq<char>>,
    sep: Seq<char>,
    asep: Seq<char>,
    n: int,
) -> bool {
    exists|i: int|
        0 <= i < n && #[trigger] ids[i] == warning_overrider(w) && stage_redundant(
            trees,
            prefix,
            sep,
            asep,
            i,
            warning_key(w),
        ) && warning_value(w) == pipeline_maps(trees, prefix, sep, asep, i)->Ok_0[warning_key(w)]
}

/// Every warning in the list correctly reports a redundant write of one of
/// the first `n` sources.
pub open spec fn warnings_sound(
    warns: Seq<MergeWarning>,
    ids: Seq<Seq<char>>,
    trees: Seq<Value>,
    prefix: Option<Seq<char>>,
    sep: Seq<char>,
    asep: Seq<char>,
    n: int,
) -> bool {
    forall|j: int|
        0 <= j < warns.len() ==> build_warning_ok(#[trigger] warns[j], ids, trees, prefix, sep, asep, n)
}

/// Every redundant write among the first `n` stages is reported by some
/// warning naming that stage's identifier and the key.
pub open spec fn warnings_complete(
    warns: Seq<MergeWarning>,
    ids: Seq<Seq<char>>,
    trees: Seq<Value>,
    prefix: Option<Seq<char>>,
    sep: Seq<char>,
    asep: Seq<char>,
    n: int,
) -> bool {
    forall|s: int, k: Seq<char>|
        0 <= s < n && #[trigger] stage_redundant(trees, prefix, sep, asep, s, k) ==> exists|j: int|
            0 <= j < warns.len() && warning_overrider(#[trigger] warns[j]) == ids[s]
                && warning_key(warns[j]) == k
}

/// No two warnings in the list report the same overrider and key.
pub open spec fn warnings_one_each(warns: Seq<MergeWarning>) -> bool {
    forall|j1: int, j2: int|
        0 <= j1 < j2 < warns.len() ==> !(warning_overrider(warns[j1]) == warning_overrider(
            warns[j2],
        ) && warning_key(warns[j1]) == warning_key(warns[j2]))
}

/// One pipeline stage's worth of warning bookkeeping: appending a merge's
/// warning block keeps every warning correct, keeps every redundant write
/// reported, and keeps the (overrider, key) pairs pairwise distinct.
proof fn lemma_warnings_step(
    pre_w: Seq<MergeWarning>,
    block: Seq<MergeWarning>,
    all: Seq<MergeWarning>,
    ids: Seq<Seq<char>>,
    trees: Seq<Value>,
    pref: Option<Seq<char>>,
    sep: Seq<char>,
    asep: Seq<char>,
    i: int,
    base: FlatConfigView,
    working: FlatConfigView,
)
    requires
        all == pre_w + block,
        0 <= i < ids.len(),
        ids.len() == trees.len(),
        ids_distinct(ids),
        working.origin == ids[i],
        pipeline_maps(trees, pref, sep, asep, i) == Ok::<_, FlatFailure>(base.items),
        flat_tree(trees[i], pref, sep, asep) == Ok::<_, FlatFailure>(working.items),
        forall|j: int|
            0 <= j < block.len() ==> redundant_warning(#[trigger] block[j], base, working),
        forall|k: Seq<char>|
            (#[trigger] working.items.contains_key(k)) && base.items.contains_key(k)
                && working.items[k] == base.items[k] ==> exists|j: int|
                0 <= j < block.len() && warning_key(#[trigger] block[j]) == k,
        forall|j1: int, j2: int|
            0 <= j1 < j2 < block.len() ==> warning_key(block[j1]) != warning_key(block[j2]),
        warnings_sound(pre_w, ids, trees, pref, sep, asep, i),
        warnings_complete(pre_w, ids, trees, pref, sep, asep, i),
        warnings_one_each(pre_w),
    ensures
        warnings_sound(all, ids, trees, pref, sep, asep, i + 1),
        warnings_complete(all, ids, trees, pref, sep, asep, i + 1),
        warnings_one_each(all),
{
    assert forall|j: int| 0 <= j < all.len() implies build_warning_ok(
        #[trigger] all[j],
        ids,
        trees,
        pref,
        sep,
        asep,
        i + 1,
    ) by {
        if j < pre_w.len() {
            assert(all[j] == pre_w[j]);
            let s = choose|s: int|
                0 <= s < i && #[trigger] ids[s] == warning_overrider(pre_w[j]) && stage_redundant(
                    trees,
                    pref,
                    sep,
                    asep,
                    s,
                    warning_key(pre_w[j]),
                ) && warning_value(pre_w[j]) == pipeline_maps(trees, pref, sep, asep, s)->Ok_0[
                    warning_key(pre_w[j])
                ];
            assert(0 <= s < i + 1 && ids[s] == warning_overrider(all[j]));
        } else {
            let w = all[j];
            assert(w == block[j - pre_w.len()]);
            assert(redundant_warning(w, base, working));
            assert(stage_redundant(trees, pref, sep, asep, i, warning_key(w)));
            assert(ids[i] == warning_overrider(w));
        }
    }
    assert forall|s: int, k: Seq<char>|
        0 <= s < i + 1 && #[trigger] stage_redundant(trees, pref, sep, asep, s, k) implies exists|
        j: int,
    |
        0 <= j < all.len() && warning_overrider(#[trigger] all[j]) == ids[s] && warning_key(all[j])
            == k by {
        if s < i {
            let j0 = choose|j: int|
                0 <= j < pre_w.len() && warning_overrider(#[trigger] pre_w[j]) == ids[s]
                    && warning_key(pre_w[j]) == k;
            assert(all[j0] == pre_w[j0]);
            assert(warning_overrider(all[j0]) == ids[s] && warning_key(all[j0]) == k);
        } else {
            assert(working.items.contains_key(k) && base.items.contains_key(k) && working.items[k]
                == base.items[k]);
            let j0 = choose|j: int| 0 <= j < block.len() && warning_key(#[trigger] block[j]) == k;
            assert(all[pre_w.len() + j0] == block[j0]);
            assert(redundant_warning(block[j0], base, working));
            assert(warning_overrider(all[pre_w.len() + j0]) == ids[s] && warning_key(
                all[pre_w.len() + j0],
            ) == k);
        }
    }
    assert forall|j1: int, j2: int| 0 <= j1 < j2 < all.len() implies !(warning_overrider(all[j1])
        == warning_overrider(all[j2]) && warning_key(all[j1]) == warning_key(all[j2])) by {
        if j1 < pre_w.len() && j2 < pre_w.len() {
            assert(all[j1] == pre_w[j1] && all[j2] == pre_w[j2]);
        } else if j1 >= pre_w.len() {
            assert(all[j1] == block[j1 - pre_w.len()]);
            assert(all[j2] == block[j2 - pre_w.len()]);
        } else {
            assert(all[j1] == pre_w[j1]);
            assert(all[j2] == block[j2 - pre_w.len()]);
            let s = choose|s: int|
                0 <= s < i && #[trigger] ids[s] == warning_overrider(pre_w[j1]) && stage_redundant(
                    trees,
                    pref,
                    sep,
                    asep,
                    s,
                    warning_key(pre_w[j1]),
                ) && warning_value(pre_w[j1]) == pipeline_maps(trees, pref, sep, asep, s)->Ok_0[
                    warning_key(pre_w[j1])
                ];
            assert(redundant_warning(block[j2 - pre_w.len()], base, working));
            assert(warning_overrider(all[j2]) == ids[i]);
            assert(ids[s] != ids[i]);
        }
    }
}

/// The mathematical content of a builder: its options and its ordered source
/// identifiers.
pub struct FlatConfigBuilderView {
    pub prefix: Option<Seq<char>>,
    pub configs: Seq<Seq<char>>,
    pub separator: Seq<char>,
    pub array_separator: Seq<char>,
}

/// The builder for [`FlatConfig`]: an ordered list of source identifiers and
/// the formatting options, turned into a compiled configuration by `build`.
#[derive(Debug, Clone, PartialEq, Eq)]
pub struct FlatConfigBuilder {
    prefix: Option<String>,
    configs: Vec<String>,
    separator: String,
    array_separator: String,
}

impl View for FlatConfigBuilder {
    type V = FlatConfigBuilderView;

    closed spec fn view(&self) -> FlatConfigBuilderView {
        FlatConfigBuilderView {
            prefix: match self.prefix {
                Some(p) => Some(p@),
                None => None,
            },
            configs: seq_views(self.configs@),
            separator: self.separator@,
            array_separator: self.array_separator@,
        }
    }
}

impl Default for FlatConfigBuilder {
    /// A builder with no sources, no prefix, and the default separators.
    fn default() -> (b: FlatConfigBuilder)
        ensures
            b@.prefix is None,
            b@.configs == Seq::<Seq<char>>::empty(),
            b@.separator == "__"@,
            b@.array_separator == ","@,
    {
        let b = FlatConfigBuilder {
            prefix: None,
            configs: Vec::new(),
            separator: "__".to_owned(),
            array_separator: ",".to_owned(),
        };
        proof {
            assert(b@.configs =~= Seq::<Seq<char>>::empty());
        }
        b
    }
}

impl FlatConfig {
    /// A fresh builder, in its default state.
    pub fn builder() -> (b: FlatConfigBuilder)
        ensures
            b@.prefix is None,
            b@.configs == Seq::<Seq<char>>::empty(),
            b@.separator == "__"@,
            b@.array_separator == ","@,
    {
        FlatConfigBuilder::default()
    }
}

impl FlatConfigBuilder {
    /// The separator joining key components unless another one is set.
    pub const DEFAULT_SEPARATOR: &'static str = "__";

    /// The separator joining array values unless another one is set.
    pub const DEFAULT_ARRAY_SEPARATOR: &'static str = ",";

    /// Appends a source identifier to the ordered list. Nothing is loaded or
    /// validated at this point; the same identifier given twice makes `build`
    /// fail later.
    pub fn add_config(&mut self, config: &str)
        ensures
            final(self)@.configs == old(self)@.configs.push(config@),
            final(self)@.prefix == old(self)@.prefix,
            final(self)@.separator == old(self)@.separator,
            final(self)@.array_separator == old(self)@.array_separator,
    {
        self.configs.push(config.to_owned());
        proof {
            assert(seq_views(self.configs@) =~= seq_views(old(self).configs@).push(config@));
        }
    }

    /// Sets the separator used to join key components when flattening.
    pub fn with_separator(&mut self, separator: &str)
        ensures
            final(self)@.separator == separator@,
            final(self)@.prefix == old(self)@.prefix,
            final(self)@.configs == old(self)@.configs,
            final(self)@.array_separator == old(self)@.array_separator,
    {
        self.separator = separator.to_owned();
    }

    /// Sets the separator used to join an array's values into one string.
    pub fn with_array_separator(&mut self, separator: &str)
        ensures
            final(self)@.array_separator == separator@,
            final(self)@.prefix == old(self)@.prefix,
            final(self)@.configs == old(self)@.configs,
            final(self)@.separator == old(self)@.separator,
    {
        self.array_separator = separator.to_owned();
    }

    /// Sets a prefix to be prepended to every generated key; it is converted
    /// to ASCII uppercase here, once, at the moment it is set.
    pub fn with_prefix(&mut self, prefix: &str)
        ensures
            final(self)@.prefix == Some(upper_seq(prefix@)),
            final(self)@.configs == old(self)@.configs,
            final(self)@.separator == old(self)@.separator,
            final(self)@.array_separator == old(self)@.array_separator,
    {
        self.prefix = Some(to_ascii_upper(prefix));
    }

    /// The ordered source identifiers added so far.
    pub fn configs(&self) -> (r: &Vec<String>)
        ensures
            seq_views(r@) == self@.configs,
    {
        &self.configs
    }

    /// The stored prefix, already uppercased, if one was set.
    pub fn prefix(&self) -> (r: &Option<String>)
        ensures
            match r {
                Some(p) => self@.prefix == Some(p@),
                None => self@.prefix is None,
            },
    {
        &self.prefix
    }

    /// The separator used to join key components.
    pub fn separator(&self) -> (r: &String)
        ensures
            r@ == self@.separator,
    {
        &self.separator
    }

    /// The separator used to join array values.
    pub fn array_separator(&self) -> (r: &String)
        ensures
            r@ == self@.array_separator,
    {
        &self.array_separator
    }

    /// Checks the source list before anything is loaded: there must be at
    /// least one source, and no identifier may repeat. On the first repeated
    /// identifier the error names it.
    pub fn validate(&self) -> (r: Result<(), ConfpilerError>)
        ensures
            ({
                let ids = self@.configs;
                match r {
                    Ok(u) => ids.len() > 0 && ids_distinct(ids),
                    Err(e) => match e {
                        ConfpilerError::NoConfigSpecified => ids.len() == 0,
                        ConfpilerError::DuplicateConfig(d) => exists|j: int|
                            #[trigger] is_first_dup(ids, j) && d@ == ids[j],
                        _ => false,
                    },
                }
            }),
    {
        let ghost ids = self@.configs;
        if self.configs.is_empty() {
            return Err(ConfpilerError::NoConfigSpecified);
        }
        let mut j: usize = 0;
        while j < self.configs.len()
            invariant
                ids == self@.configs,
                ids.len() == self.configs@.len(),
                j <= ids.len(),
                forall|p: int, q: int| 0 <= p < q < j ==> ids[p] != ids[q],
            decreases ids.len() - j,
        {
            let mut p: usize = 0;
            while p < j
                invariant
                    ids == self@.configs,
                    ids.len() == self.configs@.len(),
                    p <= j < ids.len(),
                    forall|a: int, b: int| 0 <= a < b < j ==> ids[a] != ids[b],
                    forall|q: int| 0 <= q < p ==> ids[q] != ids[j as int],
                decreases j - p,
            {
                if self.configs[p] == self.configs[j] {
                    proof {
                        assert(ids[p as int] == ids[j as int]);
                        assert(dup_at(ids, j as int));
                        assert(forall|q: int| 0 <= q < j ==> !dup_at(ids, q));
                        assert(is_first_dup(ids, j as int));
                    }
                    return Err(ConfpilerError::DuplicateConfig(self.configs[j].clone()));
                }
                p = p + 1;
            }
            j = j + 1;
        }
        Ok(())
    }

    /// Compiles the configuration from the already-loaded source trees, one
    /// per identifier and in the same order.
    ///
    /// Fails with `NoConfigSpecified` when no source was added, with
    /// `DuplicateConfig` naming the first repeated identifier, and otherwise
    /// flattens every source and merges the results in order, the later
    /// sources winning, as `pipeline_maps` describes; the first flattening
    /// failure aborts the pipeline. On success the compiled configuration
    /// carries the first source's identifier as its origin, and the warnings
    /// report exactly the redundant writes of the several merges.
    #[verifier::rlimit(100)]
    pub fn build(&self, trees: &Vec<Value>) -> (r: Result<
        (FlatConfig, Vec<MergeWarning>),
        ConfpilerError,
    >)
        requires
            trees@.len() == self@.configs.len(),
            forall|i: int| 0 <= i < trees@.len() ==> trees@[i] is Table,
        ensures
            ({
                let ids = self@.configs;
                let pref = self@.prefix;
                let sep = self@.separator;
                let asep = self@.array_separator;
                let n = ids.len() as int;
                match r {
                    Ok(cw) => {
                        &&& ids.len() > 0
                        &&& ids_distinct(ids)
                        &&& pipeline_maps(trees@, pref, sep, asep, n) == Ok::<_, FlatFailure>(
                            cw.0@.items,
                        )
                        &&& cw.0.wf()
                        &&& cw.0@.origin == ids[0]
                        &&& warnings_sound(cw.1@, ids, trees@, pref, sep, asep, n)
                        &&& warnings_complete(cw.1@, ids, trees@, pref, sep, asep, n)
                        &&& warnings_one_each(cw.1@)
                    },
                    Err(e) => match e {
                        ConfpilerError::NoConfigSpecified => ids.len() == 0,
                        ConfpilerError::DuplicateConfig(d) => exists|j: int|
                            #[trigger] is_first_dup(ids, j) && d@ == ids[j],
                        _ => {
                            &&& ids.len() > 0
                            &&& ids_distinct(ids)
                            &&& pipeline_maps(trees@, pref, sep, asep, n) is Err
                            &&& err_matches(e, pipeline_maps(trees@, pref, sep, asep, n)->Err_0)
                        },
                    },
                }
            }),
    {
        if let Err(e) = self.validate() {
            return Err(e);
        }
        self.run_pipeline(trees)
    }

    /// The loading-free pipeline behind `build`: flattens each tree and
    /// merges the results in order, once the source list has been validated.
    #[verifier::rlimit(100)]
    fn run_pipeline(&self, trees: &Vec<Value>) -> (r: Result<
        (FlatConfig, Vec<MergeWarning>),
        ConfpilerError,
    >)
        requires
            trees@.len() == self@.configs.len(),
            forall|i: int| 0 <= i < trees@.len() ==> trees@[i] is Table,
            self@.configs.len() > 0,
            ids_distinct(self@.configs),
        ensures
            ({
                let ids = self@.configs;
                let pref = self@.prefix;
                let sep = self@.separator;
                let asep = self@.array_separator;
                let n = ids.len() as int;
                match r {
                    Ok(cw) => {
                        &&& pipeline_maps(trees@, pref, sep, asep, n) == Ok::<_, FlatFailure>(
                            cw.0@.items,
                        )
                        &&& cw.0.wf()
                        &&& cw.0@.origin == ids[0]
                        &&& warnings_sound(cw.1@, ids, trees@, pref, sep, asep, n)
                        &&& warnings_complete(cw.1@, ids, trees@, pref, sep, asep, n)
                        &&& warnings_one_each(cw.1@)
                    },
                    Err(e) => {
                        &&& pipeline_maps(trees@, pref, sep, asep, n) is Err
                        &&& err_matches(e, pipeline_maps(trees@, pref, sep, asep, n)->Err_0)
                    },
                }
            }),
    {
        let ghost ids = self@.configs;
        let ghost pref = self@.prefix;
        let ghost sepv = self@.separator;
        let ghost asepv = self@.array_separator;
        let ghost n = ids.len() as int;
        let mut flat_config = FlatConfig::new(self.configs[0].as_str());
        let mut warnings: Vec<MergeWarning> = Vec::new();
        let mut i: usize = 0;
        while i < self.configs.len()
            invariant
                ids == self@.configs,
                pref == self@.prefix,
                sepv == self@.separator,
                asepv == self@.array_separator,
                n == ids.len() as int,
                ids.len() == self.configs@.len(),
                trees@.len() == ids.len(),
                forall|p: int| 0 <= p < trees@.len() ==> trees@[p] is Table,
                ids.len() > 0,
                ids_distinct(ids),
                i <= ids.len(),
                flat_config.wf(),
                flat_config@.origin == ids[0],
                pipeline_maps(trees@, pref, sepv, asepv, i as int) == Ok::<_, FlatFailure>(
                    flat_config@.items,
                ),
                warnings_sound(warnings@, ids, trees@, pref, sepv, asepv, i as int),
                warnings_complete(warnings@, ids, trees@, pref, sepv, asepv, i as int),
                warnings_one_each(warnings@),
            decreases ids.len() - i,
        {
            let ghost m_i = flat_config@.items;
            let mut out: Vec<(String, String)> = Vec::new();
            match &trees[i] {
                Value::Table(t) => {
                    let pref_ref = self.prefix.as_ref();
                    let res = flatten_into(
                        t,
                        &mut out,
                        pref_ref,
                        self.separator.as_str(),
                        self.array_separator.as_str(),
                    );
                    proof {
                        assert(initial_comps(pref_ref) == comps_of_prefix(pref));
                        assert(map_of(Seq::<(String, String)>::empty())
                            == Map::<Seq<char>, Seq<char>>::empty());
                        assert(trees@[i as int] == Value::Table(*t));
                        assert(flat_tree(trees@[i as int], pref, sepv, asepv) == flat_entries(
                            t@,
                            0,
                            comps_of_prefix(pref),
                            sepv,
                            asepv,
                            Map::empty(),
                        ));
                    }
                    match res {
                        Ok(_) => {},
                        Err(e) => {
                            proof {
                                assert(flat_tree(trees@[i as int], pref, sepv, asepv) is Err);
                                assert(pipeline_maps(trees@, pref, sepv, asepv, i as int + 1)
                                    is Err);
                                lemma_pipeline_err(trees@, pref, sepv, asepv, i as int + 1, n);
                            }
                            return Err(e);
                        },
                    }
                    let working = FlatConfig { origin: self.configs[i].clone(), items: out };
                    proof {
                        assert(working.wf());
                        assert(working@.origin == ids[i as int]);
                        assert(flat_tree(trees@[i as int], pref, sepv, asepv) == Ok::<
                            _,
                            FlatFailure,
                        >(working@.items));
                    }
                    let ghost pre_w = warnings@;
                    let ghost base = flat_config@;
                    let mut working_warnings = flat_config.merge(&working);
                    let ghost block = working_warnings@;
                    warnings.append(&mut working_warnings);
                    proof {
                        assert(warnings@ == pre_w + block);
                        assert(pipeline_maps(trees@, pref, sepv, asepv, i as int + 1) == Ok::<
                            _,
                            FlatFailure,
                        >(flat_config@.items));
                        lemma_warnings_step(
                            pre_w,
                            block,
                            warnings@,
                            ids,
                            trees@,
                            pref,
                            sepv,
                            asepv,
                            i as int,
                            base,
                            working@,
                        );
                    }
                },
                _ => {
                    // every source tree is Table-rooted, so this arm is dead
                    proof {
                        assert(false);
                    }
                },
            }
            i = i + 1;
        }
        proof {
            assert(i as int == n);
        }
        Ok((flat_config, warnings))
    }
}

} // verus!
