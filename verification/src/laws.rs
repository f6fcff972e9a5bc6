//! Proved laws of the comparison engine.
//!
//! Each public proof function here states a property of `spec_diff` that
//! holds for every input its `requires` admits, and every executable
//! caller inherits it through `compare_values_with_lines`'s contract.

use vstd::prelude::*;
use vstd::multiset::Multiset;
use crate::compare::SpecOptions;
use crate::compare::min_len;
use crate::compare::spec_arr_items;
use crate::compare::spec_arr_ordered;
use crate::compare::spec_arr_removed;
use crate::compare::spec_arr_added;
use crate::compare::spec_arr_unordered;
use crate::compare::spec_diff;
use crate::compare::spec_ignored;
use crate::compare::spec_obj_removed;
use crate::compare::spec_obj_right;
use crate::compare::spec_unordered;
use crate::diff::SpecEntry;
use crate::strutil::spec_index_child;
use crate::strutil::spec_key_child;
use crate::compare::spec_matched;
use crate::compare::spec_unordered_added;
use crate::compare::spec_unordered_walk;
use crate::strutil::lemma_usize_str_digits;
use crate::strutil::spec_usize_str;
use crate::value::SpecValue;
use crate::value::clean_fields;
use crate::value::clean_items;
use crate::value::clean_key;
use crate::value::clean_keys;
use crate::value::distinct_keys;
use crate::value::lemma_clean_fields_elem;
use crate::value::lemma_clean_get_val;
use crate::value::lemma_clean_items_elem;
use crate::value::height_arr;
use crate::value::height_obj;
use crate::value::lemma_get_val_first;
use crate::value::lemma_height_arr_elem;
use crate::value::lemma_height_obj_elem;
use crate::value::lemma_wf_fields_elem;
use crate::value::lemma_wf_items_elem;
use crate::value::spec_get_val;
use crate::value::spec_has_key;
use crate::value::sv_height;
use crate::value::wf_fields;
use crate::value::wf_items;
use crate::value::wf_value;

verus! {

/// With distinct keys, looking a key up yields that key's own value.
proof fn lemma_get_val_distinct(fields: Seq<(Seq<char>, SpecValue)>, i: int)
    requires
        distinct_keys(fields),
        0 <= i < fields.len(),
    ensures
        spec_get_val(fields, fields[i].0) == fields[i].1,
{
    assert forall|k: int| 0 <= k < i implies fields[k].0 != fields[i].0 by {
        assert(fields[k] == fields[k]);
    }
    lemma_get_val_first(fields, fields[i].0, i);
}

proof fn lemma_obj_removed_refl(
    fs: Seq<(Seq<char>, SpecValue)>,
    path: Seq<char>,
    opts: SpecOptions,
    lm: Seq<(Seq<char>, usize)>,
    rm: Seq<(Seq<char>, usize)>,
    i: int,
)
    ensures
        spec_obj_removed(fs, fs, path, opts, lm, rm, i) == Seq::<SpecEntry>::empty(),
    decreases fs.len() - i,
{
    if 0 <= i < fs.len() {
        assert(spec_has_key(fs, fs[i].0));
        lemma_obj_removed_refl(fs, path, opts, lm, rm, i + 1);
        assert(spec_obj_removed(fs, fs, path, opts, lm, rm, i) =~= Seq::<SpecEntry>::empty());
    }
}

proof fn lemma_obj_right_refl(
    fs: Seq<(Seq<char>, SpecValue)>,
    path: Seq<char>,
    opts: SpecOptions,
    lm: Seq<(Seq<char>, usize)>,
    rm: Seq<(Seq<char>, usize)>,
    i: int,
)
    requires
        opts.ignore.len() == 0,
        opts.unordered.len() == 0,
        distinct_keys(fs),
        wf_fields(fs),
    ensures
        spec_obj_right(fs, fs, path, opts, lm, rm, i) == Seq::<SpecEntry>::empty(),
    decreases height_obj(fs), 1int, fs.len() - i,
{
    if 0 <= i < fs.len() {
        let child = spec_key_child(path, fs[i].0);
        assert(!spec_ignored(opts, child));
        assert(spec_has_key(fs, fs[i].0));
        lemma_get_val_distinct(fs, i);
        lemma_wf_fields_elem(fs, i);
        lemma_height_obj_elem(fs, i);
        law_reflexive(fs[i].1, child, opts, lm, rm);
        lemma_obj_right_refl(fs, path, opts, lm, rm, i + 1);
        assert(spec_obj_right(fs, fs, path, opts, lm, rm, i) =~= Seq::<SpecEntry>::empty());
    }
}

proof fn lemma_arr_items_refl(
    items: Seq<SpecValue>,
    path: Seq<char>,
    opts: SpecOptions,
    lm: Seq<(Seq<char>, usize)>,
    rm: Seq<(Seq<char>, usize)>,
    i: int,
)
    requires
        opts.ignore.len() == 0,
        opts.unordered.len() == 0,
        wf_items(items),
    ensures
        spec_arr_items(items, items, path, opts, lm, rm, i) == Seq::<SpecEntry>::empty(),
    decreases height_arr(items), 1int, items.len() - i,
{
    if 0 <= i < items.len() {
        lemma_wf_items_elem(items, i);
        lemma_height_arr_elem(items, i);
        law_reflexive(items[i], spec_index_child(path, i as nat), opts, lm, rm);
        lemma_arr_items_refl(items, path, opts, lm, rm, i + 1);
        assert(spec_arr_items(items, items, path, opts, lm, rm, i) =~= Seq::<SpecEntry>::empty());
    }
}

/// Reflexivity: with no ignore and no unordered patterns, comparing a
/// well-formed tree with itself yields no entries, at any address and
/// with any line tables.
pub proof fn law_reflexive(
    v: SpecValue,
    path: Seq<char>,
    opts: SpecOptions,
    lm: Seq<(Seq<char>, usize)>,
    rm: Seq<(Seq<char>, usize)>,
)
    requires
        wf_value(v),
        opts.ignore.len() == 0,
        opts.unordered.len() == 0,
    ensures
        spec_diff(v, v, path, opts, lm, rm) == Seq::<SpecEntry>::empty(),
    decreases sv_height(v), 0int, 0int,
{
    assert(!spec_ignored(opts, path));
    match v {
        SpecValue::Obj(fs) => {
            lemma_obj_removed_refl(fs, path, opts, lm, rm, 0);
            lemma_obj_right_refl(fs, path, opts, lm, rm, 0);
            assert(spec_diff(v, v, path, opts, lm, rm) =~= Seq::<SpecEntry>::empty());
        },
        SpecValue::Arr(items) => {
            assert(!spec_unordered(opts, path));
            if opts.identify {
                lemma_arr_items_refl(items, path, opts, lm, rm, 0);
                assert(spec_arr_removed(items, path, lm, rm, items.len() as int) =~= Seq::<
                    SpecEntry,
                >::empty());
                assert(spec_arr_added(items, path, lm, rm, items.len() as int) =~= Seq::<
                    SpecEntry,
                >::empty());
                assert(spec_diff(v, v, path, opts, lm, rm) =~= Seq::<SpecEntry>::empty());
            }
        },
        _ => {},
    }
}

/// Unordered-array minimality: if the two arrays are equal as sequences,
/// an unordered rule on their address yields no entries, whether or not
/// nested differences are requested.
pub proof fn law_unordered_equal_arrays(
    la: Seq<SpecValue>,
    ra: Seq<SpecValue>,
    path: Seq<char>,
    opts: SpecOptions,
    lm: Seq<(Seq<char>, usize)>,
    rm: Seq<(Seq<char>, usize)>,
)
    requires
        !spec_ignored(opts, path),
        spec_unordered(opts, path),
        la == ra,
    ensures
        spec_diff(SpecValue::Arr(la), SpecValue::Arr(ra), path, opts, lm, rm) == Seq::<
            SpecEntry,
        >::empty(),
{
    assert(spec_arr_unordered(la, ra, path, opts, lm, rm) =~= Seq::<SpecEntry>::empty());
}

/// Whole-array granularity: with per-item identification off, an array
/// address under no other rule yields at most one entry.
pub proof fn law_whole_array_at_most_one(
    la: Seq<SpecValue>,
    ra: Seq<SpecValue>,
    path: Seq<char>,
    opts: SpecOptions,
    lm: Seq<(Seq<char>, usize)>,
    rm: Seq<(Seq<char>, usize)>,
)
    requires
        !spec_ignored(opts, path),
        !spec_unordered(opts, path),
        !opts.identify,
    ensures
        spec_diff(SpecValue::Arr(la), SpecValue::Arr(ra), path, opts, lm, rm).len() <= 1,
{
}

/// A scalar, as opposed to a container.
pub open spec fn is_leaf(v: SpecValue) -> bool {
    !(v is Arr) && !(v is Obj)
}

/// The number of indices from `i` on where the two arrays differ.
pub open spec fn count_differing(la: Seq<SpecValue>, ra: Seq<SpecValue>, i: int) -> int
    decreases la.len() - i,
{
    if i < 0 || i >= la.len() {
        0
    } else {
        (if la[i] != ra[i] {
            1int
        } else {
            0int
        }) + count_differing(la, ra, i + 1)
    }
}

proof fn lemma_arr_items_leaf_count(
    la: Seq<SpecValue>,
    ra: Seq<SpecValue>,
    path: Seq<char>,
    opts: SpecOptions,
    lm: Seq<(Seq<char>, usize)>,
    rm: Seq<(Seq<char>, usize)>,
    i: int,
)
    requires
        la.len() == ra.len(),
        forall|k: int| 0 <= k < la.len() ==> is_leaf(#[trigger] la[k]) && is_leaf(ra[k]),
        forall|k: int|
            0 <= k < la.len() ==> !spec_ignored(opts, #[trigger] spec_index_child(path, k as nat)),
    ensures
        spec_arr_items(la, ra, path, opts, lm, rm, i).len() == count_differing(la, ra, i),
    decreases la.len() - i,
{
    if 0 <= i < la.len() {
        let child = spec_index_child(path, i as nat);
        assert(!spec_ignored(opts, child));
        assert(spec_diff(la[i], ra[i], child, opts, lm, rm).len() == (if la[i] != ra[i] {
            1int
        } else {
            0int
        }));
        lemma_arr_items_leaf_count(la, ra, path, opts, lm, rm, i + 1);
    }
}

/// Ordered-array granularity: with per-item identification on, equal
/// lengths, scalar elements and no ignored element address, the walk
/// emits no more entries than there are differing indices.
pub proof fn law_ordered_granularity(
    la: Seq<SpecValue>,
    ra: Seq<SpecValue>,
    path: Seq<char>,
    opts: SpecOptions,
    lm: Seq<(Seq<char>, usize)>,
    rm: Seq<(Seq<char>, usize)>,
)
    requires
        !spec_ignored(opts, path),
        !spec_unordered(opts, path),
        opts.identify,
        la.len() == ra.len(),
        forall|k: int| 0 <= k < la.len() ==> is_leaf(#[trigger] la[k]) && is_leaf(ra[k]),
        forall|k: int|
            0 <= k < la.len() ==> !spec_ignored(opts, #[trigger] spec_index_child(path, k as nat)),
    ensures
        spec_diff(SpecValue::Arr(la), SpecValue::Arr(ra), path, opts, lm, rm).len()
            <= count_differing(la, ra, 0),
{
    lemma_arr_items_leaf_count(la, ra, path, opts, lm, rm, 0);
    assert(spec_arr_removed(la, path, lm, rm, min_len(la.len() as int, ra.len() as int)) =~= Seq::<
        SpecEntry,
    >::empty());
    assert(spec_arr_added(ra, path, lm, rm, min_len(la.len() as int, ra.len() as int)) =~= Seq::<
        SpecEntry,
    >::empty());
}

/// Ignore short-circuit, first half: at an ignored address the walk stops
/// with exactly one `Ignored` entry at that address, whatever the values.
pub proof fn law_ignore_cut(
    l: SpecValue,
    r: SpecValue,
    path: Seq<char>,
    opts: SpecOptions,
    lm: Seq<(Seq<char>, usize)>,
    rm: Seq<(Seq<char>, usize)>,
)
    requires
        spec_ignored(opts, path),
    ensures
        spec_diff(l, r, path, opts, lm, rm) == seq![
            crate::compare::mk_entry(crate::diff::DiffType::Ignored, path, None, None, lm, rm),
        ],
{
}

/// The kind an entry swaps to when the two documents swap places.
pub open spec fn swap_dt(dt: crate::diff::DiffType) -> crate::diff::DiffType {
    match dt {
        crate::diff::DiffType::Added => crate::diff::DiffType::Removed,
        crate::diff::DiffType::Removed => crate::diff::DiffType::Added,
        other => other,
    }
}

/// The entry for the swapped comparison: added and removed trade places,
/// as do the old and new values and the two line numbers.
pub open spec fn swap_entry(e: SpecEntry) -> SpecEntry {
    SpecEntry {
        diff_type: swap_dt(e.diff_type),
        path: e.path,
        old_value: e.new_value,
        new_value: e.old_value,
        left_line: e.right_line,
        right_line: e.left_line,
    }
}

pub open spec fn swap_entries(s: Seq<SpecEntry>) -> Seq<SpecEntry> {
    s.map_values(|e: SpecEntry| swap_entry(e))
}

/// Two object trees of the same shape: the same keys in the same order at
/// every level, with no arrays anywhere.
pub open spec fn aligned(a: SpecValue, b: SpecValue) -> bool
    decreases sv_height(a), 0int, 0int,
{
    if a is Obj && b is Obj {
        &&& a->Obj_0.len() == b->Obj_0.len()
        &&& (forall|i: int|
            0 <= i < a->Obj_0.len() ==> (#[trigger] a->Obj_0[i]).0 == b->Obj_0[i].0)
        &&& aligned_fields(a->Obj_0, b->Obj_0, 0)
    } else {
        is_leaf(a) && is_leaf(b)
    }
}

pub open spec fn aligned_fields(
    af: Seq<(Seq<char>, SpecValue)>,
    bf: Seq<(Seq<char>, SpecValue)>,
    i: int,
) -> bool
    decreases height_obj(af), 1int, af.len() - i,
    via aligned_fields_dec
{
    if i < 0 || i >= af.len() {
        true
    } else {
        (if 0 <= i < bf.len() {
            aligned(af[i].1, bf[i].1)
        } else {
            true
        }) && aligned_fields(af, bf, i + 1)
    }
}

#[via_fn]
proof fn aligned_fields_dec(
    af: Seq<(Seq<char>, SpecValue)>,
    bf: Seq<(Seq<char>, SpecValue)>,
    i: int,
) {
    if 0 <= i < af.len() {
        lemma_height_obj_elem(af, i);
    }
}

proof fn lemma_aligned_fields_elem(
    af: Seq<(Seq<char>, SpecValue)>,
    bf: Seq<(Seq<char>, SpecValue)>,
    i: int,
)
    requires
        aligned_fields(af, bf, 0),
        0 <= i < af.len(),
        0 <= i < bf.len(),
    ensures
        aligned(af[i].1, bf[i].1),
    decreases i,
{
    lemma_aligned_fields_from(af, bf, 0, i);
}

proof fn lemma_aligned_fields_from(
    af: Seq<(Seq<char>, SpecValue)>,
    bf: Seq<(Seq<char>, SpecValue)>,
    j: int,
    i: int,
)
    requires
        aligned_fields(af, bf, j),
        0 <= j <= i < af.len(),
        0 <= i < bf.len(),
    ensures
        aligned(af[i].1, bf[i].1),
    decreases i - j,
{
    if j < i {
        lemma_aligned_fields_from(af, bf, j + 1, i);
    }
}

proof fn lemma_swap_removed_empty(
    af: Seq<(Seq<char>, SpecValue)>,
    bf: Seq<(Seq<char>, SpecValue)>,
    path: Seq<char>,
    opts: SpecOptions,
    lm: Seq<(Seq<char>, usize)>,
    rm: Seq<(Seq<char>, usize)>,
    i: int,
)
    requires
        af.len() == bf.len(),
        forall|k: int| 0 <= k < af.len() ==> (#[trigger] af[k]).0 == bf[k].0,
    ensures
        spec_obj_removed(af, bf, path, opts, lm, rm, i) == Seq::<SpecEntry>::empty(),
    decreases af.len() - i,
{
    if 0 <= i < af.len() {
        assert(bf[i].0 == af[i].0);
        assert(spec_has_key(bf, af[i].0));
        lemma_swap_removed_empty(af, bf, path, opts, lm, rm, i + 1);
        assert(spec_obj_removed(af, bf, path, opts, lm, rm, i) =~= Seq::<SpecEntry>::empty());
    }
}

proof fn lemma_swap_right_aligned(
    af: Seq<(Seq<char>, SpecValue)>,
    bf: Seq<(Seq<char>, SpecValue)>,
    path: Seq<char>,
    opts: SpecOptions,
    lm: Seq<(Seq<char>, usize)>,
    rm: Seq<(Seq<char>, usize)>,
    i: int,
)
    requires
        af.len() == bf.len(),
        forall|k: int| 0 <= k < af.len() ==> (#[trigger] af[k]).0 == bf[k].0,
        distinct_keys(af),
        distinct_keys(bf),
        wf_fields(af),
        wf_fields(bf),
        aligned_fields(af, bf, 0),
    ensures
        spec_obj_right(af, bf, path, opts, lm, rm, i) == swap_entries(
            spec_obj_right(bf, af, path, opts, rm, lm, i),
        ),
    decreases height_obj(af), 1int, bf.len() - i,
{
    if i < 0 || i >= bf.len() {
        assert(spec_obj_right(af, bf, path, opts, lm, rm, i) =~= swap_entries(
            spec_obj_right(bf, af, path, opts, rm, lm, i),
        ));
    } else {
        let child = spec_key_child(path, bf[i].0);
        assert(af[i].0 == bf[i].0);
        lemma_swap_right_aligned(af, bf, path, opts, lm, rm, i + 1);
        let tail_l = spec_obj_right(af, bf, path, opts, lm, rm, i + 1);
        let tail_r = spec_obj_right(bf, af, path, opts, rm, lm, i + 1);
        if spec_ignored(opts, child) {
            assert(spec_obj_right(af, bf, path, opts, lm, rm, i) =~= swap_entries(
                spec_obj_right(bf, af, path, opts, rm, lm, i),
            ));
        } else {
            assert(spec_has_key(af, bf[i].0));
            assert(spec_has_key(bf, af[i].0));
            lemma_get_val_distinct(af, i);
            lemma_get_val_distinct(bf, i);
            assert(spec_get_val(af, bf[i].0) == af[i].1);
            assert(spec_get_val(bf, af[i].0) == bf[i].1);
            lemma_wf_fields_elem(af, i);
            lemma_wf_fields_elem(bf, i);
            lemma_aligned_fields_elem(af, bf, i);
            lemma_height_obj_elem(af, i);
            law_swap_aligned(af[i].1, bf[i].1, child, opts, lm, rm);
            assert(spec_obj_right(af, bf, path, opts, lm, rm, i) =~= swap_entries(
                spec_obj_right(bf, af, path, opts, rm, lm, i),
            ));
        }
    }
}

/// Swap symmetry for same-shape trees: for object-only trees with the
/// same keys in the same order at every level, swapping the two documents
/// swaps `Added` with `Removed`, old with new values, and the two line
/// numbers, entry for entry.
pub proof fn law_swap_aligned(
    a: SpecValue,
    b: SpecValue,
    path: Seq<char>,
    opts: SpecOptions,
    lm: Seq<(Seq<char>, usize)>,
    rm: Seq<(Seq<char>, usize)>,
)
    requires
        wf_value(a),
        wf_value(b),
        aligned(a, b),
    ensures
        spec_diff(a, b, path, opts, lm, rm) == swap_entries(spec_diff(b, a, path, opts, rm, lm)),
    decreases sv_height(a), 0int, 0int,
{
    if spec_ignored(opts, path) {
        assert(spec_diff(a, b, path, opts, lm, rm) =~= swap_entries(
            spec_diff(b, a, path, opts, rm, lm),
        ));
    } else if a is Obj && b is Obj {
        let af = a->Obj_0;
        let bf = b->Obj_0;
        lemma_swap_removed_empty(af, bf, path, opts, lm, rm, 0);
        assert forall|k: int| 0 <= k < bf.len() implies (#[trigger] bf[k]).0 == af[k].0 by {
            assert(af[k].0 == bf[k].0);
        }
        lemma_swap_removed_empty(bf, af, path, opts, rm, lm, 0);
        lemma_swap_right_aligned(af, bf, path, opts, lm, rm, 0);
        assert(spec_diff(a, b, path, opts, lm, rm) =~= swap_entries(
            spec_diff(b, a, path, opts, rm, lm),
        ));
    } else {
        assert(spec_diff(a, b, path, opts, lm, rm) =~= swap_entries(
            spec_diff(b, a, path, opts, rm, lm),
        ));
    }
}

proof fn lemma_swap_disjoint_left(
    af: Seq<(Seq<char>, SpecValue)>,
    bf: Seq<(Seq<char>, SpecValue)>,
    path: Seq<char>,
    opts: SpecOptions,
    lm: Seq<(Seq<char>, usize)>,
    rm: Seq<(Seq<char>, usize)>,
    i: int,
)
    requires
        forall|k: int| 0 <= k < af.len() ==> !spec_has_key(bf, (#[trigger] af[k]).0),
    ensures
        spec_obj_removed(af, bf, path, opts, lm, rm, i) == swap_entries(
            spec_obj_right(bf, af, path, opts, rm, lm, i),
        ),
    decreases af.len() - i,
{
    if 0 <= i < af.len() {
        assert(!spec_has_key(bf, af[i].0));
        lemma_swap_disjoint_left(af, bf, path, opts, lm, rm, i + 1);
        assert(spec_obj_removed(af, bf, path, opts, lm, rm, i) =~= swap_entries(
            spec_obj_right(bf, af, path, opts, rm, lm, i),
        ));
    } else {
        assert(spec_obj_removed(af, bf, path, opts, lm, rm, i) =~= swap_entries(
            spec_obj_right(bf, af, path, opts, rm, lm, i),
        ));
    }
}

proof fn lemma_swap_disjoint_right(
    af: Seq<(Seq<char>, SpecValue)>,
    bf: Seq<(Seq<char>, SpecValue)>,
    path: Seq<char>,
    opts: SpecOptions,
    lm: Seq<(Seq<char>, usize)>,
    rm: Seq<(Seq<char>, usize)>,
    j: int,
)
    requires
        forall|k: int| 0 <= k < bf.len() ==> !spec_has_key(af, (#[trigger] bf[k]).0),
    ensures
        spec_obj_right(af, bf, path, opts, lm, rm, j) == swap_entries(
            spec_obj_removed(bf, af, path, opts, rm, lm, j),
        ),
    decreases bf.len() - j,
{
    if 0 <= j < bf.len() {
        assert(!spec_has_key(af, bf[j].0));
        lemma_swap_disjoint_right(af, bf, path, opts, lm, rm, j + 1);
        assert(spec_obj_right(af, bf, path, opts, lm, rm, j) =~= swap_entries(
            spec_obj_removed(bf, af, path, opts, rm, lm, j),
        ));
    } else {
        assert(spec_obj_right(af, bf, path, opts, lm, rm, j) =~= swap_entries(
            spec_obj_removed(bf, af, path, opts, rm, lm, j),
        ));
    }
}

/// Swap symmetry for disjoint objects: when no key is shared, the two
/// comparisons report the same entries up to the swap, as multisets (the
/// removals and additions are emitted in different orders).
pub proof fn law_swap_disjoint(
    af: Seq<(Seq<char>, SpecValue)>,
    bf: Seq<(Seq<char>, SpecValue)>,
    path: Seq<char>,
    opts: SpecOptions,
    lm: Seq<(Seq<char>, usize)>,
    rm: Seq<(Seq<char>, usize)>,
)
    requires
        forall|k: int| 0 <= k < af.len() ==> !spec_has_key(bf, (#[trigger] af[k]).0),
    ensures
        spec_diff(SpecValue::Obj(af), SpecValue::Obj(bf), path, opts, lm, rm).to_multiset()
            == swap_entries(
            spec_diff(SpecValue::Obj(bf), SpecValue::Obj(af), path, opts, rm, lm),
        ).to_multiset(),
{
    broadcast use vstd::multiset::group_multiset_axioms;

    if spec_ignored(opts, path) {
        assert(spec_diff(SpecValue::Obj(af), SpecValue::Obj(bf), path, opts, lm, rm) =~= swap_entries(
            spec_diff(SpecValue::Obj(bf), SpecValue::Obj(af), path, opts, rm, lm),
        ));
    } else {
        assert forall|k: int| 0 <= k < bf.len() implies !spec_has_key(
            af,
            (#[trigger] bf[k]).0,
        ) by {
            if spec_has_key(af, bf[k].0) {
                let w = choose|w: int| 0 <= w < af.len() && af[w].0 == bf[k].0;
                assert(!spec_has_key(bf, af[w].0));
            }
        }
        lemma_swap_disjoint_left(af, bf, path, opts, lm, rm, 0);
        lemma_swap_disjoint_right(af, bf, path, opts, lm, rm, 0);
        let r_ab = spec_obj_removed(af, bf, path, opts, lm, rm, 0);
        let w_ab = spec_obj_right(af, bf, path, opts, lm, rm, 0);
        let r_ba = spec_obj_removed(bf, af, path, opts, rm, lm, 0);
        let w_ba = spec_obj_right(bf, af, path, opts, rm, lm, 0);
        vstd::seq_lib::lemma_multiset_commutative(r_ab, w_ab);
        vstd::seq_lib::lemma_multiset_commutative(
            swap_entries(r_ba),
            swap_entries(w_ba),
        );
        assert(swap_entries(r_ba + w_ba) =~= swap_entries(r_ba) + swap_entries(w_ba));
        assert((r_ab + w_ab).to_multiset() =~= (swap_entries(r_ba) + swap_entries(
            w_ba,
        )).to_multiset());
    }
}

/// A multiset of one entry.
pub open spec fn mset1(e: SpecEntry) -> Multiset<SpecEntry> {
    Multiset::<SpecEntry>::empty().insert(e)
}

/// What one common key contributes to a comparison of two objects: its
/// `Ignored` entry if the child address is suppressed, the entries of the
/// recursive walk on its two values otherwise.
pub open spec fn g_key(
    af: Seq<(Seq<char>, SpecValue)>,
    bf: Seq<(Seq<char>, SpecValue)>,
    path: Seq<char>,
    opts: SpecOptions,
    lm: Seq<(Seq<char>, usize)>,
    rm: Seq<(Seq<char>, usize)>,
    k: Seq<char>,
) -> Multiset<SpecEntry> {
    let child = spec_key_child(path, k);
    if spec_ignored(opts, child) {
        mset1(crate::compare::mk_entry(crate::diff::DiffType::Ignored, child, None, None, lm, rm))
    } else {
        spec_diff(spec_get_val(af, k), spec_get_val(bf, k), child, opts, lm, rm).to_multiset()
    }
}

/// The common keys' contributions, summed along the left key order.
pub open spec fn c_left(
    af: Seq<(Seq<char>, SpecValue)>,
    bf: Seq<(Seq<char>, SpecValue)>,
    path: Seq<char>,
    opts: SpecOptions,
    lm: Seq<(Seq<char>, usize)>,
    rm: Seq<(Seq<char>, usize)>,
    i: int,
) -> Multiset<SpecEntry>
    decreases af.len() - i,
{
    if i < 0 || i >= af.len() {
        Multiset::<SpecEntry>::empty()
    } else {
        (if spec_has_key(bf, af[i].0) {
            g_key(af, bf, path, opts, lm, rm, af[i].0)
        } else {
            Multiset::<SpecEntry>::empty()
        }).add(c_left(af, bf, path, opts, lm, rm, i + 1))
    }
}

/// The common keys' contributions, summed along the right key order.
pub open spec fn c_right(
    af: Seq<(Seq<char>, SpecValue)>,
    bf: Seq<(Seq<char>, SpecValue)>,
    path: Seq<char>,
    opts: SpecOptions,
    lm: Seq<(Seq<char>, usize)>,
    rm: Seq<(Seq<char>, usize)>,
    j: int,
) -> Multiset<SpecEntry>
    decreases bf.len() - j,
{
    if j < 0 || j >= bf.len() {
        Multiset::<SpecEntry>::empty()
    } else {
        (if spec_has_key(af, bf[j].0) {
            g_key(af, bf, path, opts, lm, rm, bf[j].0)
        } else {
            Multiset::<SpecEntry>::empty()
        }).add(c_right(af, bf, path, opts, lm, rm, j + 1))
    }
}

/// The left-only keys' entries: one removal, or one `Ignored` entry, per
/// left key absent on the right.
pub open spec fn nc_left(
    af: Seq<(Seq<char>, SpecValue)>,
    bf: Seq<(Seq<char>, SpecValue)>,
    path: Seq<char>,
    opts: SpecOptions,
    lm: Seq<(Seq<char>, usize)>,
    rm: Seq<(Seq<char>, usize)>,
    i: int,
) -> Multiset<SpecEntry>
    decreases af.len() - i,
{
    if i < 0 || i >= af.len() {
        Multiset::<SpecEntry>::empty()
    } else {
        let child = spec_key_child(path, af[i].0);
        (if spec_has_key(bf, af[i].0) {
            Multiset::<SpecEntry>::empty()
        } else if spec_ignored(opts, child) {
            mset1(
                crate::compare::mk_entry(
                    crate::diff::DiffType::Ignored,
                    child,
                    None,
                    None,
                    lm,
                    rm,
                ),
            )
        } else {
            mset1(
                crate::compare::mk_entry(
                    crate::diff::DiffType::Removed,
                    child,
                    Some(af[i].1),
                    None,
                    lm,
                    rm,
                ),
            )
        }).add(nc_left(af, bf, path, opts, lm, rm, i + 1))
    }
}

/// The right-only keys' entries: one addition, or one `Ignored` entry,
/// per right key absent on the left.
pub open spec fn nc_right(
    af: Seq<(Seq<char>, SpecValue)>,
    bf: Seq<(Seq<char>, SpecValue)>,
    path: Seq<char>,
    opts: SpecOptions,
    lm: Seq<(Seq<char>, usize)>,
    rm: Seq<(Seq<char>, usize)>,
    j: int,
) -> Multiset<SpecEntry>
    decreases bf.len() - j,
{
    if j < 0 || j >= bf.len() {
        Multiset::<SpecEntry>::empty()
    } else {
        let child = spec_key_child(path, bf[j].0);
        (if spec_has_key(af, bf[j].0) {
            Multiset::<SpecEntry>::empty()
        } else if spec_ignored(opts, child) {
            mset1(
                crate::compare::mk_entry(
                    crate::diff::DiffType::Ignored,
                    child,
                    None,
                    None,
                    lm,
                    rm,
                ),
            )
        } else {
            mset1(
                crate::compare::mk_entry(
                    crate::diff::DiffType::Added,
                    child,
                    None,
                    Some(bf[j].1),
                    lm,
                    rm,
                ),
            )
        }).add(nc_right(af, bf, path, opts, lm, rm, j + 1))
    }
}

proof fn lemma_distinct_drop_first(fs: Seq<(Seq<char>, SpecValue)>)
    requires
        distinct_keys(fs),
        fs.len() > 0,
    ensures
        distinct_keys(fs.drop_first()),
{
    assert forall|i: int, j: int|
        0 <= i < j < fs.drop_first().len() implies (#[trigger] fs.drop_first()[i]).0 != (
    #[trigger] fs.drop_first()[j]).0 by {
        assert(fs.drop_first()[i] == fs[i + 1]);
        assert(fs.drop_first()[j] == fs[j + 1]);
    }
}

proof fn lemma_distinct_remove(fs: Seq<(Seq<char>, SpecValue)>, j0: int)
    requires
        distinct_keys(fs),
        0 <= j0 < fs.len(),
    ensures
        distinct_keys(fs.remove(j0)),
{
    assert forall|i: int, j: int|
        0 <= i < j < fs.remove(j0).len() implies (#[trigger] fs.remove(j0)[i]).0 != (
    #[trigger] fs.remove(j0)[j]).0 by {
        let i2: int = if i < j0 {
            i
        } else {
            i + 1
        };
        let j2: int = if j < j0 {
            j
        } else {
            j + 1
        };
        assert(fs.remove(j0)[i] == fs[i2]);
        assert(fs.remove(j0)[j] == fs[j2]);
    }
}

proof fn lemma_c_right_empty_af(
    af: Seq<(Seq<char>, SpecValue)>,
    bf: Seq<(Seq<char>, SpecValue)>,
    path: Seq<char>,
    opts: SpecOptions,
    lm: Seq<(Seq<char>, usize)>,
    rm: Seq<(Seq<char>, usize)>,
    j: int,
)
    requires
        af.len() == 0,
    ensures
        c_right(af, bf, path, opts, lm, rm, j) == Multiset::<SpecEntry>::empty(),
    decreases bf.len() - j,
{
    broadcast use vstd::multiset::group_multiset_axioms;

    if 0 <= j < bf.len() {
        assert(!spec_has_key(af, bf[j].0));
        lemma_c_right_empty_af(af, bf, path, opts, lm, rm, j + 1);
        assert(Multiset::<SpecEntry>::empty().add(Multiset::<SpecEntry>::empty()) =~= Multiset::<
            SpecEntry,
        >::empty());
    }
}

proof fn lemma_c_left_tail(
    af: Seq<(Seq<char>, SpecValue)>,
    bf: Seq<(Seq<char>, SpecValue)>,
    j0: int,
    path: Seq<char>,
    opts: SpecOptions,
    lm: Seq<(Seq<char>, usize)>,
    rm: Seq<(Seq<char>, usize)>,
    i: int,
)
    requires
        distinct_keys(af),
        distinct_keys(bf),
        af.len() > 0,
        0 <= j0 < bf.len(),
        bf[j0].0 == af[0].0,
        1 <= i,
    ensures
        c_left(af, bf, path, opts, lm, rm, i) == c_left(
            af.drop_first(),
            bf.remove(j0),
            path,
            opts,
            lm,
            rm,
            i - 1,
        ),
    decreases af.len() - i,
{
    if i >= af.len() {
    } else {
        let k = af[i].0;
        assert(af.drop_first()[i - 1] == af[i]);
        assert(k != af[0].0);
        crate::value::lemma_get_val_remove(bf, j0, k);
        crate::value::lemma_get_val_drop_first(af, k);
        lemma_c_left_tail(af, bf, j0, path, opts, lm, rm, i + 1);
    }
}

proof fn lemma_c_left_tail_nokey(
    af: Seq<(Seq<char>, SpecValue)>,
    bf: Seq<(Seq<char>, SpecValue)>,
    path: Seq<char>,
    opts: SpecOptions,
    lm: Seq<(Seq<char>, usize)>,
    rm: Seq<(Seq<char>, usize)>,
    i: int,
)
    requires
        distinct_keys(af),
        af.len() > 0,
        1 <= i,
    ensures
        c_left(af, bf, path, opts, lm, rm, i) == c_left(
            af.drop_first(),
            bf,
            path,
            opts,
            lm,
            rm,
            i - 1,
        ),
    decreases af.len() - i,
{
    if i >= af.len() {
    } else {
        let k = af[i].0;
        assert(af.drop_first()[i - 1] == af[i]);
        assert(k != af[0].0);
        crate::value::lemma_get_val_drop_first(af, k);
        lemma_c_left_tail_nokey(af, bf, path, opts, lm, rm, i + 1);
    }
}

proof fn lemma_c_right_af_drop(
    af: Seq<(Seq<char>, SpecValue)>,
    bf: Seq<(Seq<char>, SpecValue)>,
    path: Seq<char>,
    opts: SpecOptions,
    lm: Seq<(Seq<char>, usize)>,
    rm: Seq<(Seq<char>, usize)>,
    j: int,
)
    requires
        af.len() > 0,
        !spec_has_key(bf, af[0].0),
    ensures
        c_right(af, bf, path, opts, lm, rm, j) == c_right(
            af.drop_first(),
            bf,
            path,
            opts,
            lm,
            rm,
            j,
        ),
    decreases bf.len() - j,
{
    if 0 <= j < bf.len() {
        let k = bf[j].0;
        assert(k != af[0].0);
        crate::value::lemma_get_val_drop_first(af, k);
        lemma_c_right_af_drop(af, bf, path, opts, lm, rm, j + 1);
    }
}

proof fn lemma_c_right_high(
    af: Seq<(Seq<char>, SpecValue)>,
    bf: Seq<(Seq<char>, SpecValue)>,
    j0: int,
    path: Seq<char>,
    opts: SpecOptions,
    lm: Seq<(Seq<char>, usize)>,
    rm: Seq<(Seq<char>, usize)>,
    j: int,
)
    requires
        distinct_keys(af),
        distinct_keys(bf),
        af.len() > 0,
        0 <= j0 < bf.len(),
        bf[j0].0 == af[0].0,
        j >= j0,
    ensures
        c_right(af.drop_first(), bf.remove(j0), path, opts, lm, rm, j) == c_right(
            af,
            bf,
            path,
            opts,
            lm,
            rm,
            j + 1,
        ),
    decreases bf.len() - j,
{
    let bf2 = bf.remove(j0);
    if j >= bf2.len() {
    } else {
        assert(bf2[j] == bf[j + 1]);
        let k = bf[j + 1].0;
        assert(k != bf[j0].0);
        crate::value::lemma_get_val_drop_first(af, k);
        crate::value::lemma_get_val_remove(bf, j0, k);
        lemma_c_right_high(af, bf, j0, path, opts, lm, rm, j + 1);
    }
}

proof fn lemma_c_right_extract(
    af: Seq<(Seq<char>, SpecValue)>,
    bf: Seq<(Seq<char>, SpecValue)>,
    j0: int,
    path: Seq<char>,
    opts: SpecOptions,
    lm: Seq<(Seq<char>, usize)>,
    rm: Seq<(Seq<char>, usize)>,
    j: int,
)
    requires
        distinct_keys(af),
        distinct_keys(bf),
        af.len() > 0,
        0 <= j <= j0 < bf.len(),
        bf[j0].0 == af[0].0,
    ensures
        c_right(af, bf, path, opts, lm, rm, j) == g_key(af, bf, path, opts, lm, rm, af[0].0).add(
            c_right(af.drop_first(), bf.remove(j0), path, opts, lm, rm, j),
        ),
    decreases j0 - j,
{
    broadcast use vstd::multiset::group_multiset_axioms;

    if j == j0 {
        assert(spec_has_key(af, af[0].0));
        lemma_c_right_high(af, bf, j0, path, opts, lm, rm, j0);
    } else {
        let k = bf[j].0;
        assert(k != bf[j0].0);
        crate::value::lemma_get_val_drop_first(af, k);
        crate::value::lemma_get_val_remove(bf, j0, k);
        assert(bf.remove(j0)[j] == bf[j]);
        lemma_c_right_extract(af, bf, j0, path, opts, lm, rm, j + 1);
        let h = if spec_has_key(af, bf[j].0) {
            g_key(af, bf, path, opts, lm, rm, bf[j].0)
        } else {
            Multiset::<SpecEntry>::empty()
        };
        let g0 = g_key(af, bf, path, opts, lm, rm, af[0].0);
        let x = c_right(af.drop_first(), bf.remove(j0), path, opts, lm, rm, j + 1);
        assert(h.add(g0.add(x)) =~= g0.add(h.add(x)));
    }
}

/// The two common-key sums enumerate the same keys, each exactly once, so
/// they agree.
proof fn lemma_common_sums_equal(
    af: Seq<(Seq<char>, SpecValue)>,
    bf: Seq<(Seq<char>, SpecValue)>,
    path: Seq<char>,
    opts: SpecOptions,
    lm: Seq<(Seq<char>, usize)>,
    rm: Seq<(Seq<char>, usize)>,
)
    requires
        distinct_keys(af),
        distinct_keys(bf),
    ensures
        c_left(af, bf, path, opts, lm, rm, 0) == c_right(af, bf, path, opts, lm, rm, 0),
    decreases af.len(),
{
    broadcast use vstd::multiset::group_multiset_axioms;

    if af.len() == 0 {
        lemma_c_right_empty_af(af, bf, path, opts, lm, rm, 0);
    } else {
        let k0 = af[0].0;
        if spec_has_key(bf, k0) {
            let j0 = choose|j: int| 0 <= j < bf.len() && bf[j].0 == k0;
            let af2 = af.drop_first();
            let bf2 = bf.remove(j0);
            lemma_distinct_drop_first(af);
            lemma_distinct_remove(bf, j0);
            lemma_c_left_tail(af, bf, j0, path, opts, lm, rm, 1);
            lemma_common_sums_equal(af2, bf2, path, opts, lm, rm);
            lemma_c_right_extract(af, bf, j0, path, opts, lm, rm, 0);
        } else {
            lemma_c_left_tail_nokey(af, bf, path, opts, lm, rm, 1);
            lemma_distinct_drop_first(af);
            lemma_common_sums_equal(af.drop_first(), bf, path, opts, lm, rm);
            lemma_c_right_af_drop(af, bf, path, opts, lm, rm, 0);
            assert(Multiset::<SpecEntry>::empty().add(
                c_left(af, bf, path, opts, lm, rm, 1),
            ) =~= c_left(af, bf, path, opts, lm, rm, 1));
        }
    }
}

proof fn lemma_mset_singleton(e: SpecEntry)
    ensures
        seq![e].to_multiset() == mset1(e),
{
    broadcast use vstd::seq_lib::group_to_multiset_ensures;
    broadcast use vstd::multiset::group_multiset_axioms;

    assert(seq![e] =~= Seq::<SpecEntry>::empty().push(e));
    assert(Seq::<SpecEntry>::empty().to_multiset() =~= Multiset::<SpecEntry>::empty());
    assert(seq![e].to_multiset() =~= mset1(e));
}

proof fn lemma_empty_mset()
    ensures
        Seq::<SpecEntry>::empty().to_multiset() == Multiset::<SpecEntry>::empty(),
{
    broadcast use vstd::seq_lib::group_to_multiset_ensures;
    broadcast use vstd::multiset::group_multiset_axioms;

    assert(Seq::<SpecEntry>::empty().to_multiset() =~= Multiset::<SpecEntry>::empty());
}

proof fn lemma_swap_cat(x: Seq<SpecEntry>, y: Seq<SpecEntry>)
    ensures
        swap_entries(x + y) == swap_entries(x) + swap_entries(y),
{
    assert(swap_entries(x + y) =~= swap_entries(x) + swap_entries(y));
}

/// The left-only pass of the comparison contributes exactly the left-only
/// entries, as a multiset.
proof fn lemma_removed_decomp(
    af: Seq<(Seq<char>, SpecValue)>,
    bf: Seq<(Seq<char>, SpecValue)>,
    path: Seq<char>,
    opts: SpecOptions,
    lm: Seq<(Seq<char>, usize)>,
    rm: Seq<(Seq<char>, usize)>,
    i: int,
)
    ensures
        spec_obj_removed(af, bf, path, opts, lm, rm, i).to_multiset() == nc_left(
            af,
            bf,
            path,
            opts,
            lm,
            rm,
            i,
        ),
    decreases af.len() - i,
{
    broadcast use vstd::multiset::group_multiset_axioms;

    if i < 0 || i >= af.len() {
        lemma_empty_mset();
    } else {
        lemma_removed_decomp(af, bf, path, opts, lm, rm, i + 1);
        let tail = spec_obj_removed(af, bf, path, opts, lm, rm, i + 1);
        let child = spec_key_child(path, af[i].0);
        if spec_has_key(bf, af[i].0) {
            assert(Seq::<SpecEntry>::empty() + tail =~= tail);
            assert(Multiset::<SpecEntry>::empty().add(tail.to_multiset()) =~= tail.to_multiset());
        } else {
            let e = if spec_ignored(opts, child) {
                crate::compare::mk_entry(crate::diff::DiffType::Ignored, child, None, None, lm, rm)
            } else {
                crate::compare::mk_entry(
                    crate::diff::DiffType::Removed,
                    child,
                    Some(af[i].1),
                    None,
                    lm,
                    rm,
                )
            };
            vstd::seq_lib::lemma_multiset_commutative(seq![e], tail);
            lemma_mset_singleton(e);
        }
    }
}

/// The right-keys pass contributes the common keys' recursive entries
/// plus the right-only entries, as a multiset.
proof fn lemma_right_decomp(
    af: Seq<(Seq<char>, SpecValue)>,
    bf: Seq<(Seq<char>, SpecValue)>,
    path: Seq<char>,
    opts: SpecOptions,
    lm: Seq<(Seq<char>, usize)>,
    rm: Seq<(Seq<char>, usize)>,
    j: int,
)
    requires
        distinct_keys(bf),
    ensures
        spec_obj_right(af, bf, path, opts, lm, rm, j).to_multiset() == c_right(
            af,
            bf,
            path,
            opts,
            lm,
            rm,
            j,
        ).add(nc_right(af, bf, path, opts, lm, rm, j)),
    decreases bf.len() - j,
{
    broadcast use vstd::multiset::group_multiset_axioms;

    if j < 0 || j >= bf.len() {
        lemma_empty_mset();
        assert(Multiset::<SpecEntry>::empty().add(Multiset::<SpecEntry>::empty()) =~= Multiset::<
            SpecEntry,
        >::empty());
    } else {
        lemma_right_decomp(af, bf, path, opts, lm, rm, j + 1);
        let tail = spec_obj_right(af, bf, path, opts, lm, rm, j + 1);
        let ct = c_right(af, bf, path, opts, lm, rm, j + 1);
        let nct = nc_right(af, bf, path, opts, lm, rm, j + 1);
        let child = spec_key_child(path, bf[j].0);
        if spec_ignored(opts, child) {
            let e = crate::compare::mk_entry(
                crate::diff::DiffType::Ignored,
                child,
                None,
                None,
                lm,
                rm,
            );
            vstd::seq_lib::lemma_multiset_commutative(seq![e], tail);
            lemma_mset_singleton(e);
            assert(mset1(e).add(ct.add(nct)) =~= c_right(af, bf, path, opts, lm, rm, j).add(
                nc_right(af, bf, path, opts, lm, rm, j),
            ));
        } else if !spec_has_key(af, bf[j].0) {
            let e = crate::compare::mk_entry(
                crate::diff::DiffType::Added,
                child,
                None,
                Some(bf[j].1),
                lm,
                rm,
            );
            vstd::seq_lib::lemma_multiset_commutative(seq![e], tail);
            lemma_mset_singleton(e);
            assert(mset1(e).add(ct.add(nct)) =~= c_right(af, bf, path, opts, lm, rm, j).add(
                nc_right(af, bf, path, opts, lm, rm, j),
            ));
        } else {
            lemma_get_val_distinct(bf, j);
            let head = spec_diff(spec_get_val(af, bf[j].0), bf[j].1, child, opts, lm, rm);
            vstd::seq_lib::lemma_multiset_commutative(head, tail);
            assert(head.to_multiset() == g_key(af, bf, path, opts, lm, rm, bf[j].0));
            assert(head.to_multiset().add(ct.add(nct)) =~= c_right(
                af,
                bf,
                path,
                opts,
                lm,
                rm,
                j,
            ).add(nc_right(af, bf, path, opts, lm, rm, j)));
        }
    }
}

/// The swapped right-document-first left-only pass is exactly the
/// right-only entries of the original orientation.
proof fn lemma_removed_swap_decomp(
    af: Seq<(Seq<char>, SpecValue)>,
    bf: Seq<(Seq<char>, SpecValue)>,
    path: Seq<char>,
    opts: SpecOptions,
    lm: Seq<(Seq<char>, usize)>,
    rm: Seq<(Seq<char>, usize)>,
    j: int,
)
    ensures
        swap_entries(spec_obj_removed(bf, af, path, opts, rm, lm, j)).to_multiset() == nc_right(
            af,
            bf,
            path,
            opts,
            lm,
            rm,
            j,
        ),
    decreases bf.len() - j,
{
    broadcast use vstd::multiset::group_multiset_axioms;

    if j < 0 || j >= bf.len() {
        assert(swap_entries(spec_obj_removed(bf, af, path, opts, rm, lm, j)) =~= Seq::<
            SpecEntry,
        >::empty());
        lemma_empty_mset();
    } else {
        lemma_removed_swap_decomp(af, bf, path, opts, lm, rm, j + 1);
        let tail = spec_obj_removed(bf, af, path, opts, rm, lm, j + 1);
        let child = spec_key_child(path, bf[j].0);
        if spec_has_key(af, bf[j].0) {
            assert(Seq::<SpecEntry>::empty() + tail =~= tail);
        } else {
            let orig = if spec_ignored(opts, child) {
                crate::compare::mk_entry(crate::diff::DiffType::Ignored, child, None, None, rm, lm)
            } else {
                crate::compare::mk_entry(
                    crate::diff::DiffType::Removed,
                    child,
                    Some(bf[j].1),
                    None,
                    rm,
                    lm,
                )
            };
            let swapped = if spec_ignored(opts, child) {
                crate::compare::mk_entry(crate::diff::DiffType::Ignored, child, None, None, lm, rm)
            } else {
                crate::compare::mk_entry(
                    crate::diff::DiffType::Added,
                    child,
                    None,
                    Some(bf[j].1),
                    lm,
                    rm,
                )
            };
            assert(swap_entry(orig) == swapped);
            lemma_swap_cat(seq![orig], tail);
            assert(swap_entries(seq![orig]) =~= seq![swapped]);
            vstd::seq_lib::lemma_multiset_commutative(seq![swapped], swap_entries(tail));
            lemma_mset_singleton(swapped);
        }
    }
}

/// The swapped right-document-first right-keys pass contributes the
/// common keys' contributions (by the induction hypothesis) plus the
/// left-only entries of the original orientation.
proof fn lemma_right_swap_decomp(
    af: Seq<(Seq<char>, SpecValue)>,
    bf: Seq<(Seq<char>, SpecValue)>,
    path: Seq<char>,
    opts: SpecOptions,
    lm: Seq<(Seq<char>, usize)>,
    rm: Seq<(Seq<char>, usize)>,
    i: int,
)
    requires
        distinct_keys(af),
        distinct_keys(bf),
        wf_fields(af),
        wf_fields(bf),
        crate::value::obj_only_fields(af),
        crate::value::obj_only_fields(bf),
    ensures
        swap_entries(spec_obj_right(bf, af, path, opts, rm, lm, i)).to_multiset() == c_left(
            af,
            bf,
            path,
            opts,
            lm,
            rm,
            i,
        ).add(nc_left(af, bf, path, opts, lm, rm, i)),
    decreases height_obj(af), 1int, af.len() - i,
{
    broadcast use vstd::multiset::group_multiset_axioms;

    if i < 0 || i >= af.len() {
        assert(swap_entries(spec_obj_right(bf, af, path, opts, rm, lm, i)) =~= Seq::<
            SpecEntry,
        >::empty());
        lemma_empty_mset();
        assert(Multiset::<SpecEntry>::empty().add(Multiset::<SpecEntry>::empty()) =~= Multiset::<
            SpecEntry,
        >::empty());
    } else {
        lemma_right_swap_decomp(af, bf, path, opts, lm, rm, i + 1);
        let tail = spec_obj_right(bf, af, path, opts, rm, lm, i + 1);
        let ct = c_left(af, bf, path, opts, lm, rm, i + 1);
        let nct = nc_left(af, bf, path, opts, lm, rm, i + 1);
        let child = spec_key_child(path, af[i].0);
        if spec_ignored(opts, child) {
            let orig = crate::compare::mk_entry(
                crate::diff::DiffType::Ignored,
                child,
                None,
                None,
                rm,
                lm,
            );
            let swapped = crate::compare::mk_entry(
                crate::diff::DiffType::Ignored,
                child,
                None,
                None,
                lm,
                rm,
            );
            assert(swap_entry(orig) == swapped);
            lemma_swap_cat(seq![orig], tail);
            assert(swap_entries(seq![orig]) =~= seq![swapped]);
            vstd::seq_lib::lemma_multiset_commutative(seq![swapped], swap_entries(tail));
            lemma_mset_singleton(swapped);
            assert(mset1(swapped).add(ct.add(nct)) =~= c_left(af, bf, path, opts, lm, rm, i).add(
                nc_left(af, bf, path, opts, lm, rm, i),
            ));
        } else if !spec_has_key(bf, af[i].0) {
            let orig = crate::compare::mk_entry(
                crate::diff::DiffType::Added,
                child,
                None,
                Some(af[i].1),
                rm,
                lm,
            );
            let swapped = crate::compare::mk_entry(
                crate::diff::DiffType::Removed,
                child,
                Some(af[i].1),
                None,
                lm,
                rm,
            );
            assert(swap_entry(orig) == swapped);
            lemma_swap_cat(seq![orig], tail);
            assert(swap_entries(seq![orig]) =~= seq![swapped]);
            vstd::seq_lib::lemma_multiset_commutative(seq![swapped], swap_entries(tail));
            lemma_mset_singleton(swapped);
            assert(mset1(swapped).add(ct.add(nct)) =~= c_left(af, bf, path, opts, lm, rm, i).add(
                nc_left(af, bf, path, opts, lm, rm, i),
            ));
        } else {
            lemma_get_val_distinct(af, i);
            let ga = spec_get_val(af, af[i].0);
            let gb = spec_get_val(bf, af[i].0);
            let head = spec_diff(gb, af[i].1, child, opts, rm, lm);
            assert(ga == af[i].1);
            crate::value::lemma_wf_get_val(af, af[i].0);
            crate::value::lemma_wf_get_val(bf, af[i].0);
            crate::value::lemma_obj_only_get_val(af, af[i].0);
            crate::value::lemma_obj_only_get_val(bf, af[i].0);
            crate::value::lemma_get_val_height(af, af[i].0);
            law_swap_symmetry(ga, gb, child, opts, lm, rm);
            lemma_swap_cat(head, tail);
            vstd::seq_lib::lemma_multiset_commutative(swap_entries(head), swap_entries(tail));
            assert(swap_entries(head).to_multiset() == g_key(af, bf, path, opts, lm, rm, af[i].0));
            assert(swap_entries(head).to_multiset().add(ct.add(nct)) =~= c_left(
                af,
                bf,
                path,
                opts,
                lm,
                rm,
                i,
            ).add(nc_left(af, bf, path, opts, lm, rm, i)));
        }
    }
}

/// Swap symmetry: for well-formed object-only trees, swapping the two
/// documents swaps `Added` with `Removed`, old with new values, and the
/// two line numbers, as multisets of entries (the two walks emit their
/// entries in different orders).
pub proof fn law_swap_symmetry(
    a: SpecValue,
    b: SpecValue,
    path: Seq<char>,
    opts: SpecOptions,
    lm: Seq<(Seq<char>, usize)>,
    rm: Seq<(Seq<char>, usize)>,
)
    requires
        wf_value(a),
        wf_value(b),
        crate::value::obj_only(a),
        crate::value::obj_only(b),
    ensures
        spec_diff(a, b, path, opts, lm, rm).to_multiset() == swap_entries(
            spec_diff(b, a, path, opts, rm, lm),
        ).to_multiset(),
    decreases sv_height(a), 0int, 0int,
{
    broadcast use vstd::multiset::group_multiset_axioms;

    if spec_ignored(opts, path) {
        let orig = crate::compare::mk_entry(crate::diff::DiffType::Ignored, path, None, None, rm, lm);
        let swapped = crate::compare::mk_entry(
            crate::diff::DiffType::Ignored,
            path,
            None,
            None,
            lm,
            rm,
        );
        assert(swap_entry(orig) == swapped);
        assert(swap_entries(spec_diff(b, a, path, opts, rm, lm)) =~= seq![swapped]);
        assert(spec_diff(a, b, path, opts, lm, rm) =~= seq![swapped]);
    } else if a is Obj && b is Obj {
        let af = a->Obj_0;
        let bf = b->Obj_0;
        lemma_removed_decomp(af, bf, path, opts, lm, rm, 0);
        lemma_right_decomp(af, bf, path, opts, lm, rm, 0);
        lemma_removed_swap_decomp(af, bf, path, opts, lm, rm, 0);
        lemma_right_swap_decomp(af, bf, path, opts, lm, rm, 0);
        lemma_common_sums_equal(af, bf, path, opts, lm, rm);
        let r_ab = spec_obj_removed(af, bf, path, opts, lm, rm, 0);
        let w_ab = spec_obj_right(af, bf, path, opts, lm, rm, 0);
        let r_ba = spec_obj_removed(bf, af, path, opts, rm, lm, 0);
        let w_ba = spec_obj_right(bf, af, path, opts, rm, lm, 0);
        vstd::seq_lib::lemma_multiset_commutative(r_ab, w_ab);
        lemma_swap_cat(r_ba, w_ba);
        vstd::seq_lib::lemma_multiset_commutative(swap_entries(r_ba), swap_entries(w_ba));
        assert((r_ab + w_ab).to_multiset() =~= swap_entries(r_ba + w_ba).to_multiset());
    } else if a == b {
        assert(b == a);
        assert(spec_diff(a, b, path, opts, lm, rm) =~= Seq::<SpecEntry>::empty());
        assert(swap_entries(spec_diff(b, a, path, opts, rm, lm)) =~= Seq::<SpecEntry>::empty());
    } else {
        let orig = crate::compare::mk_entry(
            crate::diff::DiffType::Modified,
            path,
            Some(b),
            Some(a),
            rm,
            lm,
        );
        let swapped = crate::compare::mk_entry(
            crate::diff::DiffType::Modified,
            path,
            Some(a),
            Some(b),
            lm,
            rm,
        );
        assert(swap_entry(orig) == swapped);
        assert(spec_diff(b, a, path, opts, rm, lm) =~= seq![orig]);
        assert(swap_entries(spec_diff(b, a, path, opts, rm, lm)) =~= seq![swapped]);
        assert(spec_diff(a, b, path, opts, lm, rm) =~= seq![swapped]);
    }
}

/// One address lies on or under another: the shorter is a prefix and the
/// next character, if any, opens a new segment.
pub open spec fn addr_extends(a: Seq<char>, q: Seq<char>) -> bool {
    &&& q.len() <= a.len()
    &&& a.take(q.len() as int) == q
    &&& (a.len() == q.len() || a[q.len() as int] == '.' || a[q.len() as int] == '[')
}

proof fn lemma_extends_refl(a: Seq<char>)
    ensures
        addr_extends(a, a),
{
    assert(a.take(a.len() as int) =~= a);
}

proof fn lemma_extends_antisym(a: Seq<char>, b: Seq<char>)
    requires
        addr_extends(a, b),
        addr_extends(b, a),
    ensures
        a == b,
{
    assert(a =~= a.take(b.len() as int));
}

proof fn lemma_extends_trans(a: Seq<char>, b: Seq<char>, c: Seq<char>)
    requires
        addr_extends(a, b),
        addr_extends(b, c),
    ensures
        addr_extends(a, c),
{
    assert(a.take(c.len() as int) =~= c);
    if a.len() > c.len() {
        if b.len() > c.len() {
            assert(a[c.len() as int] == b[c.len() as int]);
        } else {
            assert(b =~= c);
        }
    }
}

/// Two prefixes of one address are comparable.
proof fn lemma_comparable(a: Seq<char>, b: Seq<char>, c: Seq<char>)
    requires
        addr_extends(a, b),
        addr_extends(a, c),
        b.len() <= c.len(),
    ensures
        addr_extends(c, b),
{
    assert(c.take(b.len() as int) =~= b);
    if c.len() > b.len() {
        assert(c[b.len() as int] == a[b.len() as int]);
    }
}

proof fn lemma_key_child_extends(p: Seq<char>, k: Seq<char>)
    ensures
        addr_extends(spec_key_child(p, k), p),
        spec_key_child(p, k) != p,
{
    let child = spec_key_child(p, k);
    assert(child.take(p.len() as int) =~= p);
    assert(child[p.len() as int] == '.');
}

proof fn lemma_index_child_extends(p: Seq<char>, i: nat)
    ensures
        addr_extends(spec_index_child(p, i), p),
        spec_index_child(p, i) != p,
{
    let child = spec_index_child(p, i);
    assert(child.take(p.len() as int) =~= p);
    assert(child[p.len() as int] == '[');
}

/// No address lies strictly between a parent and its key child, when the
/// key is clean.
proof fn lemma_between_key(p: Seq<char>, k: Seq<char>, q: Seq<char>)
    requires
        clean_key(k),
        addr_extends(spec_key_child(p, k), q),
        addr_extends(q, p),
    ensures
        q == p || q == spec_key_child(p, k),
{
    let child = spec_key_child(p, k);
    if q.len() == p.len() {
        assert(q =~= p);
    } else if q.len() == child.len() {
        assert(q =~= child);
    } else {
        assert(child[q.len() as int] == k[q.len() - p.len() - 1]);
        assert(false);
    }
}

/// No address lies strictly between a parent and its index child.
proof fn lemma_between_index(p: Seq<char>, i: nat, q: Seq<char>)
    requires
        addr_extends(spec_index_child(p, i), q),
        addr_extends(q, p),
    ensures
        q == p || q == spec_index_child(p, i),
{
    let child = spec_index_child(p, i);
    let d = spec_usize_str(i);
    lemma_usize_str_digits(i);
    if q.len() == p.len() {
        assert(q =~= p);
    } else if q.len() == child.len() {
        assert(q =~= child);
    } else {
        if q.len() < child.len() - 1 {
            assert(child[q.len() as int] == d[q.len() - p.len() - 1]);
        } else {
            assert(child[q.len() as int] == ']');
        }
        assert(false);
    }
}

/// An entry placed directly at a clean key child never sits strictly
/// below a distinct ignored ancestor address.
proof fn lemma_key_entry_safe(q: Seq<char>, path: Seq<char>, k: Seq<char>)
    requires
        clean_key(k),
        addr_extends(q, path),
        q != path,
    ensures
        !(addr_extends(spec_key_child(path, k), q) && spec_key_child(path, k) != q),
{
    if addr_extends(spec_key_child(path, k), q) && spec_key_child(path, k) != q {
        lemma_between_key(path, k, q);
    }
}

proof fn lemma_index_entry_safe(q: Seq<char>, path: Seq<char>, i: nat)
    requires
        addr_extends(q, path),
        q != path,
    ensures
        !(addr_extends(spec_index_child(path, i), q) && spec_index_child(path, i) != q),
{
    if addr_extends(spec_index_child(path, i), q) && spec_index_child(path, i) != q {
        lemma_between_index(path, i, q);
    }
}

/// An address under a key child never sits strictly below a distinct
/// ignored address that does not reach the child.
proof fn lemma_rec_entry_safe_key(q: Seq<char>, path: Seq<char>, k: Seq<char>, ep: Seq<char>)
    requires
        clean_key(k),
        addr_extends(q, path),
        q != path,
        !addr_extends(q, spec_key_child(path, k)),
        addr_extends(ep, spec_key_child(path, k)),
    ensures
        !(addr_extends(ep, q) && ep != q),
{
    let child = spec_key_child(path, k);
    if addr_extends(ep, q) && ep != q {
        if q.len() <= child.len() {
            lemma_comparable(ep, q, child);
            if child == q {
                lemma_extends_refl(q);
            } else {
                lemma_between_key(path, k, q);
            }
        } else {
            lemma_comparable(ep, child, q);
        }
        assert(false);
    }
}

proof fn lemma_rec_entry_safe_index(q: Seq<char>, path: Seq<char>, i: nat, ep: Seq<char>)
    requires
        addr_extends(q, path),
        q != path,
        !addr_extends(q, spec_index_child(path, i)),
        addr_extends(ep, spec_index_child(path, i)),
    ensures
        !(addr_extends(ep, q) && ep != q),
{
    let child = spec_index_child(path, i);
    if addr_extends(ep, q) && ep != q {
        if q.len() <= child.len() {
            lemma_comparable(ep, q, child);
            if child == q {
                lemma_extends_refl(q);
            } else {
                lemma_between_index(path, i, q);
            }
        } else {
            lemma_comparable(ep, child, q);
        }
        assert(false);
    }
}

/// Every entry the walk emits is addressed at or under the walk's address.
pub proof fn lemma_diff_extends(
    l: SpecValue,
    r: SpecValue,
    path: Seq<char>,
    opts: SpecOptions,
    lm: Seq<(Seq<char>, usize)>,
    rm: Seq<(Seq<char>, usize)>,
)
    ensures
        forall|k: int|
            0 <= k < spec_diff(l, r, path, opts, lm, rm).len() ==> addr_extends(
                (#[trigger] spec_diff(l, r, path, opts, lm, rm)[k]).path,
                path,
            ),
    decreases sv_height(l), 0int, 0int,
{
    lemma_extends_refl(path);
    if spec_ignored(opts, path) {
    } else if l is Obj && r is Obj {
        lemma_obj_removed_extends(l->Obj_0, r->Obj_0, path, opts, lm, rm, 0);
        lemma_obj_right_extends(l->Obj_0, r->Obj_0, path, opts, lm, rm, 0);
    } else if l is Arr && r is Arr {
        let la = l->Arr_0;
        let ra = r->Arr_0;
        if spec_unordered(opts, path) {
            if la != ra && opts.show_nested {
                let ms = spec_matched(la, ra, la.len() as int);
                lemma_unordered_walk_extends(la, ra, ms, path, opts, lm, rm, 0);
                lemma_unordered_added_extends(ra, ms, path, lm, rm, 0);
            }
        } else if opts.identify {
            lemma_arr_items_extends(la, ra, path, opts, lm, rm, 0);
            lemma_arr_removed_extends(la, path, lm, rm, min_len(la.len() as int, ra.len() as int));
            lemma_arr_added_extends(ra, path, lm, rm, min_len(la.len() as int, ra.len() as int));
        }
    }
}

proof fn lemma_obj_removed_extends(
    lf: Seq<(Seq<char>, SpecValue)>,
    rf: Seq<(Seq<char>, SpecValue)>,
    path: Seq<char>,
    opts: SpecOptions,
    lm: Seq<(Seq<char>, usize)>,
    rm: Seq<(Seq<char>, usize)>,
    i: int,
)
    ensures
        forall|k: int|
            0 <= k < spec_obj_removed(lf, rf, path, opts, lm, rm, i).len() ==> addr_extends(
                (#[trigger] spec_obj_removed(lf, rf, path, opts, lm, rm, i)[k]).path,
                path,
            ),
    decreases lf.len() - i,
{
    if 0 <= i < lf.len() {
        lemma_key_child_extends(path, lf[i].0);
        lemma_obj_removed_extends(lf, rf, path, opts, lm, rm, i + 1);
    }
}

proof fn lemma_obj_right_extends(
    lf: Seq<(Seq<char>, SpecValue)>,
    rf: Seq<(Seq<char>, SpecValue)>,
    path: Seq<char>,
    opts: SpecOptions,
    lm: Seq<(Seq<char>, usize)>,
    rm: Seq<(Seq<char>, usize)>,
    i: int,
)
    ensures
        forall|k: int|
            0 <= k < spec_obj_right(lf, rf, path, opts, lm, rm, i).len() ==> addr_extends(
                (#[trigger] spec_obj_right(lf, rf, path, opts, lm, rm, i)[k]).path,
                path,
            ),
    decreases height_obj(lf), 1int, rf.len() - i,
{
    if 0 <= i < rf.len() {
        let child = spec_key_child(path, rf[i].0);
        lemma_key_child_extends(path, rf[i].0);
        if !spec_ignored(opts, child) && spec_has_key(lf, rf[i].0) {
            crate::value::lemma_get_val_height(lf, rf[i].0);
            lemma_diff_extends(spec_get_val(lf, rf[i].0), rf[i].1, child, opts, lm, rm);
            assert forall|k: int|
                0 <= k < spec_diff(spec_get_val(lf, rf[i].0), rf[i].1, child, opts, lm, rm).len()
                    implies addr_extends(
                (#[trigger] spec_diff(spec_get_val(lf, rf[i].0), rf[i].1, child, opts, lm, rm)[k]).path,
                path,
            ) by {
                lemma_extends_trans(
                    spec_diff(spec_get_val(lf, rf[i].0), rf[i].1, child, opts, lm, rm)[k].path,
                    child,
                    path,
                );
            }
        }
        lemma_obj_right_extends(lf, rf, path, opts, lm, rm, i + 1);
    }
}

proof fn lemma_arr_items_extends(
    la: Seq<SpecValue>,
    ra: Seq<SpecValue>,
    path: Seq<char>,
    opts: SpecOptions,
    lm: Seq<(Seq<char>, usize)>,
    rm: Seq<(Seq<char>, usize)>,
    i: int,
)
    ensures
        forall|k: int|
            0 <= k < spec_arr_items(la, ra, path, opts, lm, rm, i).len() ==> addr_extends(
                (#[trigger] spec_arr_items(la, ra, path, opts, lm, rm, i)[k]).path,
                path,
            ),
    decreases height_arr(la), 1int, min_len(la.len() as int, ra.len() as int) - i,
{
    if 0 <= i < min_len(la.len() as int, ra.len() as int) {
        let child = spec_index_child(path, i as nat);
        lemma_index_child_extends(path, i as nat);
        lemma_height_arr_elem(la, i);
        lemma_diff_extends(la[i], ra[i], child, opts, lm, rm);
        assert forall|k: int|
            0 <= k < spec_diff(la[i], ra[i], child, opts, lm, rm).len() implies addr_extends(
            (#[trigger] spec_diff(la[i], ra[i], child, opts, lm, rm)[k]).path,
            path,
        ) by {
            lemma_extends_trans(spec_diff(la[i], ra[i], child, opts, lm, rm)[k].path, child, path);
        }
        lemma_arr_items_extends(la, ra, path, opts, lm, rm, i + 1);
    }
}

proof fn lemma_arr_removed_extends(
    la: Seq<SpecValue>,
    path: Seq<char>,
    lm: Seq<(Seq<char>, usize)>,
    rm: Seq<(Seq<char>, usize)>,
    i: int,
)
    ensures
        forall|k: int|
            0 <= k < spec_arr_removed(la, path, lm, rm, i).len() ==> addr_extends(
                (#[trigger] spec_arr_removed(la, path, lm, rm, i)[k]).path,
                path,
            ),
    decreases la.len() - i,
{
    if 0 <= i < la.len() {
        lemma_index_child_extends(path, i as nat);
        lemma_arr_removed_extends(la, path, lm, rm, i + 1);
    }
}

proof fn lemma_arr_added_extends(
    ra: Seq<SpecValue>,
    path: Seq<char>,
    lm: Seq<(Seq<char>, usize)>,
    rm: Seq<(Seq<char>, usize)>,
    i: int,
)
    ensures
        forall|k: int|
            0 <= k < spec_arr_added(ra, path, lm, rm, i).len() ==> addr_extends(
                (#[trigger] spec_arr_added(ra, path, lm, rm, i)[k]).path,
                path,
            ),
    decreases ra.len() - i,
{
    if 0 <= i < ra.len() {
        lemma_index_child_extends(path, i as nat);
        lemma_arr_added_extends(ra, path, lm, rm, i + 1);
    }
}

proof fn lemma_unordered_walk_extends(
    la: Seq<SpecValue>,
    ra: Seq<SpecValue>,
    matched: Seq<Option<int>>,
    path: Seq<char>,
    opts: SpecOptions,
    lm: Seq<(Seq<char>, usize)>,
    rm: Seq<(Seq<char>, usize)>,
    i: int,
)
    ensures
        forall|k: int|
            0 <= k < spec_unordered_walk(la, ra, matched, path, opts, lm, rm, i).len()
                ==> addr_extends(
                (#[trigger] spec_unordered_walk(la, ra, matched, path, opts, lm, rm, i)[k]).path,
                path,
            ),
    decreases height_arr(la), 1int, la.len() - i,
{
    if 0 <= i < la.len() {
        let child = spec_index_child(path, i as nat);
        lemma_index_child_extends(path, i as nat);
        match matched[i] {
            Some(j) => {
                if la[i] != ra[j] {
                    lemma_height_arr_elem(la, i);
                    lemma_diff_extends(la[i], ra[j], child, opts, lm, rm);
                    assert forall|k: int|
                        0 <= k < spec_diff(la[i], ra[j], child, opts, lm, rm).len()
                            implies addr_extends(
                        (#[trigger] spec_diff(la[i], ra[j], child, opts, lm, rm)[k]).path,
                        path,
                    ) by {
                        lemma_extends_trans(
                            spec_diff(la[i], ra[j], child, opts, lm, rm)[k].path,
                            child,
                            path,
                        );
                    }
                }
            },
            None => {},
        }
        lemma_unordered_walk_extends(la, ra, matched, path, opts, lm, rm, i + 1);
    }
}

/// Every match the greedy matcher records is a real right index.
proof fn lemma_matched_in_range(la: Seq<SpecValue>, ra: Seq<SpecValue>, n: int)
    ensures
        spec_matched(la, ra, n).len() == if n >= 0 {
            n
        } else {
            0
        },
        forall|k: int|
            0 <= k < spec_matched(la, ra, n).len() ==> ((#[trigger] spec_matched(la, ra, n)[k])
                matches Some(j) ==> 0 <= j < ra.len()),
    decreases n,
{
    if n > 0 {
        lemma_matched_in_range(la, ra, n - 1);
    }
}

proof fn lemma_obj_removed_silent(
    lf: Seq<(Seq<char>, SpecValue)>,
    rf: Seq<(Seq<char>, SpecValue)>,
    path: Seq<char>,
    opts: SpecOptions,
    lm: Seq<(Seq<char>, usize)>,
    rm: Seq<(Seq<char>, usize)>,
    q: Seq<char>,
    i: int,
)
    requires
        clean_fields(lf),
        addr_extends(q, path),
        q != path,
    ensures
        forall|k: int|
            0 <= k < spec_obj_removed(lf, rf, path, opts, lm, rm, i).len() ==> !(addr_extends(
                (#[trigger] spec_obj_removed(lf, rf, path, opts, lm, rm, i)[k]).path,
                q,
            ) && spec_obj_removed(lf, rf, path, opts, lm, rm, i)[k].path != q),
    decreases lf.len() - i,
{
    if 0 <= i < lf.len() {
        lemma_clean_fields_elem(lf, i);
        lemma_key_entry_safe(q, path, lf[i].0);
        lemma_obj_removed_silent(lf, rf, path, opts, lm, rm, q, i + 1);
    }
}

proof fn lemma_obj_right_silent(
    lf: Seq<(Seq<char>, SpecValue)>,
    rf: Seq<(Seq<char>, SpecValue)>,
    path: Seq<char>,
    opts: SpecOptions,
    lm: Seq<(Seq<char>, usize)>,
    rm: Seq<(Seq<char>, usize)>,
    q: Seq<char>,
    i: int,
)
    requires
        clean_fields(lf),
        clean_fields(rf),
        spec_ignored(opts, q),
        addr_extends(q, path),
        q != path,
    ensures
        forall|k: int|
            0 <= k < spec_obj_right(lf, rf, path, opts, lm, rm, i).len() ==> !(addr_extends(
                (#[trigger] spec_obj_right(lf, rf, path, opts, lm, rm, i)[k]).path,
                q,
            ) && spec_obj_right(lf, rf, path, opts, lm, rm, i)[k].path != q),
    decreases height_obj(lf), 1int, rf.len() - i,
{
    if 0 <= i < rf.len() {
        let child = spec_key_child(path, rf[i].0);
        lemma_clean_fields_elem(rf, i);
        lemma_key_entry_safe(q, path, rf[i].0);
        if !spec_ignored(opts, child) && spec_has_key(lf, rf[i].0) {
            let gv = spec_get_val(lf, rf[i].0);
            crate::value::lemma_get_val_height(lf, rf[i].0);
            lemma_clean_get_val(lf, rf[i].0);
            if addr_extends(q, child) {
                law_ignored_subtree_silent(gv, rf[i].1, child, opts, lm, rm, q);
            } else {
                lemma_diff_extends(gv, rf[i].1, child, opts, lm, rm);
                assert forall|k: int|
                    0 <= k < spec_diff(gv, rf[i].1, child, opts, lm, rm).len() implies !(
                addr_extends((#[trigger] spec_diff(gv, rf[i].1, child, opts, lm, rm)[k]).path, q)
                    && spec_diff(gv, rf[i].1, child, opts, lm, rm)[k].path != q) by {
                    lemma_rec_entry_safe_key(
                        q,
                        path,
                        rf[i].0,
                        spec_diff(gv, rf[i].1, child, opts, lm, rm)[k].path,
                    );
                }
            }
        }
        lemma_obj_right_silent(lf, rf, path, opts, lm, rm, q, i + 1);
    }
}

proof fn lemma_arr_items_silent(
    la: Seq<SpecValue>,
    ra: Seq<SpecValue>,
    path: Seq<char>,
    opts: SpecOptions,
    lm: Seq<(Seq<char>, usize)>,
    rm: Seq<(Seq<char>, usize)>,
    q: Seq<char>,
    i: int,
)
    requires
        clean_items(la),
        clean_items(ra),
        spec_ignored(opts, q),
        addr_extends(q, path),
        q != path,
    ensures
        forall|k: int|
            0 <= k < spec_arr_items(la, ra, path, opts, lm, rm, i).len() ==> !(addr_extends(
                (#[trigger] spec_arr_items(la, ra, path, opts, lm, rm, i)[k]).path,
                q,
            ) && spec_arr_items(la, ra, path, opts, lm, rm, i)[k].path != q),
    decreases height_arr(la), 1int, min_len(la.len() as int, ra.len() as int) - i,
{
    if 0 <= i < min_len(la.len() as int, ra.len() as int) {
        let child = spec_index_child(path, i as nat);
        lemma_height_arr_elem(la, i);
        lemma_clean_items_elem(la, i);
        lemma_clean_items_elem(ra, i);
        if addr_extends(q, child) {
            law_ignored_subtree_silent(la[i], ra[i], child, opts, lm, rm, q);
        } else {
            lemma_diff_extends(la[i], ra[i], child, opts, lm, rm);
            assert forall|k: int|
                0 <= k < spec_diff(la[i], ra[i], child, opts, lm, rm).len() implies !(addr_extends(
                (#[trigger] spec_diff(la[i], ra[i], child, opts, lm, rm)[k]).path,
                q,
            ) && spec_diff(la[i], ra[i], child, opts, lm, rm)[k].path != q) by {
                lemma_rec_entry_safe_index(
                    q,
                    path,
                    i as nat,
                    spec_diff(la[i], ra[i], child, opts, lm, rm)[k].path,
                );
            }
        }
        lemma_arr_items_silent(la, ra, path, opts, lm, rm, q, i + 1);
    }
}

proof fn lemma_arr_removed_silent(
    la: Seq<SpecValue>,
    path: Seq<char>,
    lm: Seq<(Seq<char>, usize)>,
    rm: Seq<(Seq<char>, usize)>,
    q: Seq<char>,
    i: int,
)
    requires
        addr_extends(q, path),
        q != path,
    ensures
        forall|k: int|
            0 <= k < spec_arr_removed(la, path, lm, rm, i).len() ==> !(addr_extends(
                (#[trigger] spec_arr_removed(la, path, lm, rm, i)[k]).path,
                q,
            ) && spec_arr_removed(la, path, lm, rm, i)[k].path != q),
    decreases la.len() - i,
{
    if 0 <= i < la.len() {
        lemma_index_entry_safe(q, path, i as nat);
        lemma_arr_removed_silent(la, path, lm, rm, q, i + 1);
    }
}

proof fn lemma_arr_added_silent(
    ra: Seq<SpecValue>,
    path: Seq<char>,
    lm: Seq<(Seq<char>, usize)>,
    rm: Seq<(Seq<char>, usize)>,
    q: Seq<char>,
    i: int,
)
    requires
        addr_extends(q, path),
        q != path,
    ensures
        forall|k: int|
            0 <= k < spec_arr_added(ra, path, lm, rm, i).len() ==> !(addr_extends(
                (#[trigger] spec_arr_added(ra, path, lm, rm, i)[k]).path,
                q,
            ) && spec_arr_added(ra, path, lm, rm, i)[k].path != q),
    decreases ra.len() - i,
{
    if 0 <= i < ra.len() {
        lemma_index_entry_safe(q, path, i as nat);
        lemma_arr_added_silent(ra, path, lm, rm, q, i + 1);
    }
}

proof fn lemma_unordered_walk_silent(
    la: Seq<SpecValue>,
    ra: Seq<SpecValue>,
    matched: Seq<Option<int>>,
    path: Seq<char>,
    opts: SpecOptions,
    lm: Seq<(Seq<char>, usize)>,
    rm: Seq<(Seq<char>, usize)>,
    q: Seq<char>,
    i: int,
)
    requires
        clean_items(la),
        clean_items(ra),
        spec_ignored(opts, q),
        addr_extends(q, path),
        q != path,
        matched.len() == la.len(),
        forall|k: int|
            0 <= k < matched.len() ==> ((#[trigger] matched[k]) matches Some(j) ==> 0 <= j
                < ra.len()),
    ensures
        forall|k: int|
            0 <= k < spec_unordered_walk(la, ra, matched, path, opts, lm, rm, i).len() ==> !(
            addr_extends(
                (#[trigger] spec_unordered_walk(la, ra, matched, path, opts, lm, rm, i)[k]).path,
                q,
            ) && spec_unordered_walk(la, ra, matched, path, opts, lm, rm, i)[k].path != q),
    decreases height_arr(la), 1int, la.len() - i,
{
    if 0 <= i < la.len() {
        let child = spec_index_child(path, i as nat);
        lemma_index_entry_safe(q, path, i as nat);
        if i < matched.len() {
            match matched[i] {
                Some(j) => {
                    if la[i] != ra[j] {
                        lemma_height_arr_elem(la, i);
                        lemma_clean_items_elem(la, i);
                        lemma_clean_items_elem(ra, j);
                        if addr_extends(q, child) {
                            law_ignored_subtree_silent(la[i], ra[j], child, opts, lm, rm, q);
                        } else {
                            lemma_diff_extends(la[i], ra[j], child, opts, lm, rm);
                            assert forall|k: int|
                                0 <= k < spec_diff(la[i], ra[j], child, opts, lm, rm).len()
                                    implies !(addr_extends(
                                (#[trigger] spec_diff(la[i], ra[j], child, opts, lm, rm)[k]).path,
                                q,
                            ) && spec_diff(la[i], ra[j], child, opts, lm, rm)[k].path != q) by {
                                lemma_rec_entry_safe_index(
                                    q,
                                    path,
                                    i as nat,
                                    spec_diff(la[i], ra[j], child, opts, lm, rm)[k].path,
                                );
                            }
                        }
                    }
                },
                None => {},
            }
        }
        lemma_unordered_walk_silent(la, ra, matched, path, opts, lm, rm, q, i + 1);
    }
}

proof fn lemma_unordered_added_silent(
    ra: Seq<SpecValue>,
    matched: Seq<Option<int>>,
    path: Seq<char>,
    lm: Seq<(Seq<char>, usize)>,
    rm: Seq<(Seq<char>, usize)>,
    q: Seq<char>,
    j: int,
)
    requires
        addr_extends(q, path),
        q != path,
    ensures
        forall|k: int|
            0 <= k < spec_unordered_added(ra, matched, path, lm, rm, j).len() ==> !(addr_extends(
                (#[trigger] spec_unordered_added(ra, matched, path, lm, rm, j)[k]).path,
                q,
            ) && spec_unordered_added(ra, matched, path, lm, rm, j)[k].path != q),
    decreases ra.len() - j,
{
    if 0 <= j < ra.len() {
        lemma_index_entry_safe(q, path, j as nat);
        lemma_unordered_added_silent(ra, matched, path, lm, rm, q, j + 1);
    }
}

/// Ignore short-circuit, second half: when every key of both trees is
/// clean (free of `.` and `[`), a walk at or under an ignored address `q`
/// never emits an entry strictly below `q`.  Together with the cut law
/// this says the ignored subtree contributes exactly its one entry.
pub proof fn law_ignored_subtree_silent(
    l: SpecValue,
    r: SpecValue,
    path: Seq<char>,
    opts: SpecOptions,
    lm: Seq<(Seq<char>, usize)>,
    rm: Seq<(Seq<char>, usize)>,
    q: Seq<char>,
)
    requires
        clean_keys(l),
        clean_keys(r),
        spec_ignored(opts, q),
        addr_extends(q, path),
    ensures
        forall|k: int|
            0 <= k < spec_diff(l, r, path, opts, lm, rm).len() ==> !(addr_extends(
                (#[trigger] spec_diff(l, r, path, opts, lm, rm)[k]).path,
                q,
            ) && spec_diff(l, r, path, opts, lm, rm)[k].path != q),
    decreases sv_height(l), 0int, 0int,
{
    if spec_ignored(opts, path) {
        assert forall|k: int|
            0 <= k < spec_diff(l, r, path, opts, lm, rm).len() implies !(addr_extends(
            (#[trigger] spec_diff(l, r, path, opts, lm, rm)[k]).path,
            q,
        ) && spec_diff(l, r, path, opts, lm, rm)[k].path != q) by {
            if addr_extends(path, q) && path != q {
                lemma_extends_antisym(path, q);
            }
        }
    } else {
        assert(q != path);
        if addr_extends(path, q) {
            lemma_extends_antisym(path, q);
        }
        if l is Obj && r is Obj {
            lemma_obj_removed_silent(l->Obj_0, r->Obj_0, path, opts, lm, rm, q, 0);
            lemma_obj_right_silent(l->Obj_0, r->Obj_0, path, opts, lm, rm, q, 0);
        } else if l is Arr && r is Arr {
            let la = l->Arr_0;
            let ra = r->Arr_0;
            if spec_unordered(opts, path) {
                if la != ra && opts.show_nested {
                    let ms = spec_matched(la, ra, la.len() as int);
                    lemma_matched_in_range(la, ra, la.len() as int);
                    lemma_unordered_walk_silent(la, ra, ms, path, opts, lm, rm, q, 0);
                    lemma_unordered_added_silent(ra, ms, path, lm, rm, q, 0);
                }
            } else if opts.identify {
                lemma_arr_items_silent(la, ra, path, opts, lm, rm, q, 0);
                lemma_arr_removed_silent(
                    la,
                    path,
                    lm,
                    rm,
                    q,
                    min_len(la.len() as int, ra.len() as int),
                );
                lemma_arr_added_silent(
                    ra,
                    path,
                    lm,
                    rm,
                    q,
                    min_len(la.len() as int, ra.len() as int),
                );
            }
        }
    }
}

proof fn lemma_unordered_added_extends(
    ra: Seq<SpecValue>,
    matched: Seq<Option<int>>,
    path: Seq<char>,
    lm: Seq<(Seq<char>, usize)>,
    rm: Seq<(Seq<char>, usize)>,
    j: int,
)
    ensures
        forall|k: int|
            0 <= k < spec_unordered_added(ra, matched, path, lm, rm, j).len() ==> addr_extends(
                (#[trigger] spec_unordered_added(ra, matched, path, lm, rm, j)[k]).path,
                path,
            ),
    decreases ra.len() - j,
{
    if 0 <= j < ra.len() {
        lemma_index_child_extends(path, j as nat);
        lemma_unordered_added_extends(ra, matched, path, lm, rm, j + 1);
    }
}

} // verus!
