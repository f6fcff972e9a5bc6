//! The comparison engine: a recursive lock-step walk over two document
//! trees that emits one entry per reportable difference.
//!
//! The walk is specified by the `spec_diff` family below, which the
//! executable engine mirrors exactly.  At each address the engine first
//! consults the ignore patterns (a hard short-circuit), then dispatches on
//! the joint shape of the two values: objects are compared key by key,
//! arrays either index by index or under the order-insensitive rule, and
//! everything else by deep equality.

use vstd::prelude::*;
use vstd::multiset::Multiset;
use vstd::string::StringExecFns;
use crate::diff::DiffEntry;
use crate::diff::DiffResult;
use crate::diff::DiffType;
use crate::diff::SpecEntry;
use crate::diff::entries_view;
use crate::error::JsonDiffError;
use crate::linemap::LineMap;
use crate::linemap::spec_find_line;
use crate::path::JsonPath;
use crate::path::SpecPath;
use crate::linemap::find_line_for_path;
use crate::strutil::index_child;
use crate::strutil::key_child;
use crate::strutil::spec_index_child;
use crate::strutil::spec_key_child;
use crate::value::JsonValue;
use crate::value::SpecValue;
use crate::value::fields_deep;
use crate::value::height_arr;
use crate::value::height_obj;
use crate::value::items_deep;
use crate::value::lemma_get_val_height;
use crate::value::lemma_height_arr_elem;
use crate::value::lemma_height_obj_elem;
use crate::value::obj_index;
use crate::value::spec_get_val;
use crate::value::spec_has_key;
use crate::value::sv_height;

verus! {

/// Mathematical model of the comparison options.
#[verifier::ext_equal]
pub struct SpecOptions {
    pub ignore: Seq<SpecPath>,
    pub unordered: Seq<SpecPath>,
    pub show_nested: bool,
    pub identify: bool,
}

/// Options for JSON comparison.
#[derive(Debug, Clone)]
pub struct CompareOptions {
    /// Paths to ignore during comparison.
    pub ignore_paths: Vec<JsonPath>,
    /// Paths to arrays that should be compared without considering order.
    pub unordered_arrays: Vec<JsonPath>,
    /// Whether to show nested differences in unordered arrays.
    pub show_nested_differences: bool,
    /// Whether to identify specific different items in arrays rather than
    /// marking whole arrays as different.
    pub identify_array_item_changes: bool,
}

impl View for CompareOptions {
    type V = SpecOptions;

    open spec fn view(&self) -> SpecOptions {
        SpecOptions {
            ignore: Seq::new(self.ignore_paths@.len(), |i: int| self.ignore_paths@[i]@),
            unordered: Seq::new(self.unordered_arrays@.len(), |i: int| self.unordered_arrays@[i]@),
            show_nested: self.show_nested_differences,
            identify: self.identify_array_item_changes,
        }
    }
}

impl CompareOptions {
    /// Every configured pattern is well formed: its regex, if any, compiles.
    pub open spec fn wf(self) -> bool {
        &&& forall|i: int| 0 <= i < self@.ignore.len() ==> (#[trigger] self@.ignore[i]).wf()
        &&& forall|i: int| 0 <= i < self@.unordered.len() ==> (#[trigger] self@.unordered[i]).wf()
    }
}

impl Default for CompareOptions {
    /// No patterns, nested differences off, per-item array changes on.
    fn default() -> (r: Self)
        ensures
            r@ == (SpecOptions {
                ignore: Seq::<SpecPath>::empty(),
                unordered: Seq::<SpecPath>::empty(),
                show_nested: false,
                identify: true,
            }),
            r.wf(),
    {
        let r = CompareOptions {
            ignore_paths: Vec::new(),
            unordered_arrays: Vec::new(),
            show_nested_differences: false,
            identify_array_item_changes: true,
        };
        proof {
            assert(r@ =~= (SpecOptions {
                ignore: Seq::<SpecPath>::empty(),
                unordered: Seq::<SpecPath>::empty(),
                show_nested: false,
                identify: true,
            }));
        }
        r
    }
}

/// Whether some ignore pattern matches the address.
pub open spec fn spec_ignored(opts: SpecOptions, addr: Seq<char>) -> bool {
    exists|i: int| 0 <= i < opts.ignore.len() && (#[trigger] opts.ignore[i]).spec_matches(addr)
}

/// Whether some unordered-array pattern matches the address.
pub open spec fn spec_unordered(opts: SpecOptions, addr: Seq<char>) -> bool {
    exists|i: int| 0 <= i < opts.unordered.len() && (#[trigger] opts.unordered[i]).spec_matches(addr)
}

/// One entry, with its line numbers resolved from the two tables.
pub open spec fn mk_entry(
    dt: DiffType,
    path: Seq<char>,
    old: Option<SpecValue>,
    new: Option<SpecValue>,
    lm: Seq<(Seq<char>, usize)>,
    rm: Seq<(Seq<char>, usize)>,
) -> SpecEntry {
    SpecEntry {
        diff_type: dt,
        path: path,
        old_value: old,
        new_value: new,
        left_line: spec_find_line(lm, path),
        right_line: spec_find_line(rm, path),
    }
}

/// The entries that the walk emits at `path` for the value pair `(l, r)`.
pub open spec fn spec_diff(
    l: SpecValue,
    r: SpecValue,
    path: Seq<char>,
    opts: SpecOptions,
    lm: Seq<(Seq<char>, usize)>,
    rm: Seq<(Seq<char>, usize)>,
) -> Seq<SpecEntry>
    decreases sv_height(l), 0int, 0int,
{
    if spec_ignored(opts, path) {
        seq![mk_entry(DiffType::Ignored, path, None, None, lm, rm)]
    } else if l is Obj && r is Obj {
        spec_obj_removed(l->Obj_0, r->Obj_0, path, opts, lm, rm, 0) + spec_obj_right(
            l->Obj_0,
            r->Obj_0,
            path,
            opts,
            lm,
            rm,
            0,
        )
    } else if l is Arr && r is Arr {
        if spec_unordered(opts, path) {
            spec_arr_unordered(l->Arr_0, r->Arr_0, path, opts, lm, rm)
        } else if opts.identify {
            spec_arr_ordered(l->Arr_0, r->Arr_0, path, opts, lm, rm)
        } else if l == r {
            Seq::<SpecEntry>::empty()
        } else {
            seq![mk_entry(DiffType::Modified, path, Some(l), Some(r), lm, rm)]
        }
    } else if l == r {
        Seq::<SpecEntry>::empty()
    } else {
        seq![mk_entry(DiffType::Modified, path, Some(l), Some(r), lm, rm)]
    }
}

/// The entries for left-object keys that are absent on the right, from
/// key index `i` on, in the left key order.
pub open spec fn spec_obj_removed(
    lf: Seq<(Seq<char>, SpecValue)>,
    rf: Seq<(Seq<char>, SpecValue)>,
    path: Seq<char>,
    opts: SpecOptions,
    lm: Seq<(Seq<char>, usize)>,
    rm: Seq<(Seq<char>, usize)>,
    i: int,
) -> Seq<SpecEntry>
    decreases lf.len() - i,
{
    if i < 0 || i >= lf.len() {
        Seq::<SpecEntry>::empty()
    } else {
        let head = if spec_has_key(rf, lf[i].0) {
            Seq::<SpecEntry>::empty()
        } else {
            let child = spec_key_child(path, lf[i].0);
            if spec_ignored(opts, child) {
                seq![mk_entry(DiffType::Ignored, child, None, None, lm, rm)]
            } else {
                seq![mk_entry(DiffType::Removed, child, Some(lf[i].1), None, lm, rm)]
            }
        };
        head + spec_obj_removed(lf, rf, path, opts, lm, rm, i + 1)
    }
}

/// The entries for right-object keys from key index `i` on, in the right
/// key order: added keys produce one entry, common keys recurse.
pub open spec fn spec_obj_right(
    lf: Seq<(Seq<char>, SpecValue)>,
    rf: Seq<(Seq<char>, SpecValue)>,
    path: Seq<char>,
    opts: SpecOptions,
    lm: Seq<(Seq<char>, usize)>,
    rm: Seq<(Seq<char>, usize)>,
    i: int,
) -> Seq<SpecEntry>
    decreases height_obj(lf), 1int, rf.len() - i,
    via spec_obj_right_dec
{
    if i < 0 || i >= rf.len() {
        Seq::<SpecEntry>::empty()
    } else {
        let child = spec_key_child(path, rf[i].0);
        let head = if spec_ignored(opts, child) {
            seq![mk_entry(DiffType::Ignored, child, None, None, lm, rm)]
        } else if !spec_has_key(lf, rf[i].0) {
            seq![mk_entry(DiffType::Added, child, None, Some(rf[i].1), lm, rm)]
        } else {
            spec_diff(spec_get_val(lf, rf[i].0), rf[i].1, child, opts, lm, rm)
        };
        head + spec_obj_right(lf, rf, path, opts, lm, rm, i + 1)
    }
}

#[via_fn]
proof fn spec_obj_right_dec(
    lf: Seq<(Seq<char>, SpecValue)>,
    rf: Seq<(Seq<char>, SpecValue)>,
    path: Seq<char>,
    opts: SpecOptions,
    lm: Seq<(Seq<char>, usize)>,
    rm: Seq<(Seq<char>, usize)>,
    i: int,
) {
    if 0 <= i < rf.len() {
        lemma_get_val_height(lf, rf[i].0);
    }
}

/// The smaller of two lengths.
pub open spec fn min_len(a: int, b: int) -> int {
    if a <= b {
        a
    } else {
        b
    }
}

/// Index-by-index recursion over the shared prefix of two arrays.
pub open spec fn spec_arr_items(
    la: Seq<SpecValue>,
    ra: Seq<SpecValue>,
    path: Seq<char>,
    opts: SpecOptions,
    lm: Seq<(Seq<char>, usize)>,
    rm: Seq<(Seq<char>, usize)>,
    i: int,
) -> Seq<SpecEntry>
    decreases height_arr(la), 1int, min_len(la.len() as int, ra.len() as int) - i,
    via spec_arr_items_dec
{
    if i < 0 || i >= min_len(la.len() as int, ra.len() as int) {
        Seq::<SpecEntry>::empty()
    } else {
        spec_diff(la[i], ra[i], spec_index_child(path, i as nat), opts, lm, rm)
            + spec_arr_items(la, ra, path, opts, lm, rm, i + 1)
    }
}

#[via_fn]
proof fn spec_arr_items_dec(
    la: Seq<SpecValue>,
    ra: Seq<SpecValue>,
    path: Seq<char>,
    opts: SpecOptions,
    lm: Seq<(Seq<char>, usize)>,
    rm: Seq<(Seq<char>, usize)>,
    i: int,
) {
    if 0 <= i < min_len(la.len() as int, ra.len() as int) {
        lemma_height_arr_elem(la, i);
    }
}

/// One `Removed` entry for each surplus left index, from `i` on.
pub open spec fn spec_arr_removed(
    la: Seq<SpecValue>,
    path: Seq<char>,
    lm: Seq<(Seq<char>, usize)>,
    rm: Seq<(Seq<char>, usize)>,
    i: int,
) -> Seq<SpecEntry>
    decreases la.len() - i,
{
    if i < 0 || i >= la.len() {
        Seq::<SpecEntry>::empty()
    } else {
        seq![mk_entry(
            DiffType::Removed,
            spec_index_child(path, i as nat),
            Some(la[i]),
            None,
            lm,
            rm,
        )] + spec_arr_removed(la, path, lm, rm, i + 1)
    }
}

/// One `Added` entry for each surplus right index, from `i` on.
pub open spec fn spec_arr_added(
    ra: Seq<SpecValue>,
    path: Seq<char>,
    lm: Seq<(Seq<char>, usize)>,
    rm: Seq<(Seq<char>, usize)>,
    i: int,
) -> Seq<SpecEntry>
    decreases ra.len() - i,
{
    if i < 0 || i >= ra.len() {
        Seq::<SpecEntry>::empty()
    } else {
        seq![mk_entry(
            DiffType::Added,
            spec_index_child(path, i as nat),
            None,
            Some(ra[i]),
            lm,
            rm,
        )] + spec_arr_added(ra, path, lm, rm, i + 1)
    }
}

/// Ordered array comparison with per-item granularity: the shared prefix
/// is compared index by index, surplus indices are removals or additions.
pub open spec fn spec_arr_ordered(
    la: Seq<SpecValue>,
    ra: Seq<SpecValue>,
    path: Seq<char>,
    opts: SpecOptions,
    lm: Seq<(Seq<char>, usize)>,
    rm: Seq<(Seq<char>, usize)>,
) -> Seq<SpecEntry>
    decreases height_arr(la), 2int, 0int,
{
    let m = min_len(la.len() as int, ra.len() as int);
    spec_arr_items(la, ra, path, opts, lm, rm, 0) + spec_arr_removed(la, path, lm, rm, m)
        + spec_arr_added(ra, path, lm, rm, m)
}

/// Whether the greedy matcher accepts a right element for a left element:
/// both are objects carrying equal `id` fields, or the elements are deeply
/// equal.
pub open spec fn spec_pair_matches(lv: SpecValue, rv: SpecValue) -> bool {
    ||| {
        &&& lv is Obj
        &&& rv is Obj
        &&& spec_has_key(lv->Obj_0, "id"@)
        &&& spec_has_key(rv->Obj_0, "id"@)
        &&& spec_get_val(lv->Obj_0, "id"@) == spec_get_val(rv->Obj_0, "id"@)
    }
    ||| lv == rv
}

/// Whether right index `j` is available and acceptable for the left
/// element `lv`, given the matches `used` made so far.
pub open spec fn spec_match_cond(
    lv: SpecValue,
    ra: Seq<SpecValue>,
    used: Seq<Option<int>>,
    j: int,
) -> bool {
    0 <= j < ra.len() && !used.contains(Some(j)) && spec_pair_matches(lv, ra[j])
}

/// The first acceptable right index for `lv`, if any: greedy,
/// first-match-wins.
pub open spec fn spec_match_one(lv: SpecValue, ra: Seq<SpecValue>, used: Seq<Option<int>>) -> Option<
    int,
> {
    if exists|j: int|
        spec_match_cond(lv, ra, used, j) && (forall|j2: int|
            0 <= j2 < j ==> !spec_match_cond(lv, ra, used, j2)) {
        Some(
            choose|j: int|
                spec_match_cond(lv, ra, used, j) && (forall|j2: int|
                    0 <= j2 < j ==> !spec_match_cond(lv, ra, used, j2)),
        )
    } else {
        None
    }
}

/// The greedy matching of the first `n` left elements against the right
/// array, in order.
pub open spec fn spec_matched(la: Seq<SpecValue>, ra: Seq<SpecValue>, n: int) -> Seq<Option<int>>
    decreases n,
{
    if n <= 0 {
        Seq::<Option<int>>::empty()
    } else {
        let prev = spec_matched(la, ra, n - 1);
        prev.push(spec_match_one(la[n - 1], ra, prev))
    }
}

/// The nested walk over matched pairs: a matched, unequal pair recurses at
/// the left element's index; an unmatched left element is a removal.
pub open spec fn spec_unordered_walk(
    la: Seq<SpecValue>,
    ra: Seq<SpecValue>,
    matched: Seq<Option<int>>,
    path: Seq<char>,
    opts: SpecOptions,
    lm: Seq<(Seq<char>, usize)>,
    rm: Seq<(Seq<char>, usize)>,
    i: int,
) -> Seq<SpecEntry>
    decreases height_arr(la), 1int, la.len() - i,
    via spec_unordered_walk_dec
{
    if i < 0 || i >= la.len() {
        Seq::<SpecEntry>::empty()
    } else {
        let head = match matched[i] {
            Some(j) => if la[i] == ra[j] {
                Seq::<SpecEntry>::empty()
            } else {
                spec_diff(la[i], ra[j], spec_index_child(path, i as nat), opts, lm, rm)
            },
            None => seq![mk_entry(
                DiffType::Removed,
                spec_index_child(path, i as nat),
                Some(la[i]),
                None,
                lm,
                rm,
            )],
        };
        head + spec_unordered_walk(la, ra, matched, path, opts, lm, rm, i + 1)
    }
}

#[via_fn]
proof fn spec_unordered_walk_dec(
    la: Seq<SpecValue>,
    ra: Seq<SpecValue>,
    matched: Seq<Option<int>>,
    path: Seq<char>,
    opts: SpecOptions,
    lm: Seq<(Seq<char>, usize)>,
    rm: Seq<(Seq<char>, usize)>,
    i: int,
) {
    if 0 <= i < la.len() {
        lemma_height_arr_elem(la, i);
    }
}

/// One `Added` entry for each right element never matched, at its own
/// index.
pub open spec fn spec_unordered_added(
    ra: Seq<SpecValue>,
    matched: Seq<Option<int>>,
    path: Seq<char>,
    lm: Seq<(Seq<char>, usize)>,
    rm: Seq<(Seq<char>, usize)>,
    j: int,
) -> Seq<SpecEntry>
    decreases ra.len() - j,
{
    if j < 0 || j >= ra.len() {
        Seq::<SpecEntry>::empty()
    } else {
        let head = if matched.contains(Some(j)) {
            Seq::<SpecEntry>::empty()
        } else {
            seq![mk_entry(
                DiffType::Added,
                spec_index_child(path, j as nat),
                None,
                Some(ra[j]),
                lm,
                rm,
            )]
        };
        head + spec_unordered_added(ra, matched, path, lm, rm, j + 1)
    }
}

/// Whether some pattern in the list matches the address.
fn any_matches(paths: &Vec<JsonPath>, addr: &str) -> (r: bool)
    requires
        forall|i: int| 0 <= i < paths@.len() ==> (#[trigger] paths@[i]).wf(),
    ensures
        r == exists|i: int|
            0 <= i < paths@.len() && (#[trigger] paths@[i]@).spec_matches(addr@),
{
    let n = paths.len();
    let mut i: usize = 0;
    while i < n
        invariant
            i <= n,
            n == paths@.len(),
            forall|k: int| 0 <= k < i ==> !(#[trigger] paths@[k]@).spec_matches(addr@),
        decreases n - i,
    {
        if paths[i].matches(addr) {
            return true;
        }
        i = i + 1;
    }
    false
}

/// Whether the address is suppressed by an ignore pattern.
fn is_ignored(options: &CompareOptions, addr: &str) -> (r: bool)
    requires
        options.wf(),
    ensures
        r == spec_ignored(options@, addr@),
{
    proof {
        assert forall|i: int| 0 <= i < options.ignore_paths@.len() implies (
        #[trigger] options.ignore_paths@[i]).wf() by {
            assert(options@.ignore[i] == options.ignore_paths@[i]@);
        }
    }
    let r = any_matches(&options.ignore_paths, addr);
    proof {
        if r {
            let i = choose|i: int|
                0 <= i < options.ignore_paths@.len() && (
                #[trigger] options.ignore_paths@[i]@).spec_matches(addr@);
            assert((#[trigger] options@.ignore[i]).spec_matches(addr@));
        } else {
            assert forall|i: int| 0 <= i < options@.ignore.len() implies !(
            #[trigger] options@.ignore[i]).spec_matches(addr@) by {
                assert(options@.ignore[i] == options.ignore_paths@[i]@);
            }
        }
    }
    r
}

/// Whether the address is under an unordered-array rule.
fn is_unordered(options: &CompareOptions, addr: &str) -> (r: bool)
    requires
        options.wf(),
    ensures
        r == spec_unordered(options@, addr@),
{
    proof {
        assert forall|i: int| 0 <= i < options.unordered_arrays@.len() implies (
        #[trigger] options.unordered_arrays@[i]).wf() by {
            assert(options@.unordered[i] == options.unordered_arrays@[i]@);
        }
    }
    let r = any_matches(&options.unordered_arrays, addr);
    proof {
        if r {
            let i = choose|i: int|
                0 <= i < options.unordered_arrays@.len() && (
                #[trigger] options.unordered_arrays@[i]@).spec_matches(addr@);
            assert((#[trigger] options@.unordered[i]).spec_matches(addr@));
        } else {
            assert forall|i: int| 0 <= i < options@.unordered.len() implies !(
            #[trigger] options@.unordered[i]).spec_matches(addr@) by {
                assert(options@.unordered[i] == options.unordered_arrays@[i]@);
            }
        }
    }
    r
}

/// Builds one entry at an address, with both line numbers resolved.
fn mk_diff_entry(
    dt: DiffType,
    path: &str,
    old: Option<JsonValue>,
    new: Option<JsonValue>,
    lm: &LineMap,
    rm: &LineMap,
) -> (r: DiffEntry)
    ensures
        r@ == mk_entry(
            dt,
            path@,
            crate::value::opt_deep(old),
            crate::value::opt_deep(new),
            lm@,
            rm@,
        ),
{
    let left_line = find_line_for_path(path, lm);
    let right_line = find_line_for_path(path, rm);
    let r = DiffEntry {
        diff_type: dt,
        path: String::from_str(path),
        old_value: old,
        new_value: new,
        left_line,
        right_line,
    };
    proof {
        assert(r@ =~= mk_entry(
            dt,
            path@,
            crate::value::opt_deep(r.old_value),
            crate::value::opt_deep(r.new_value),
            lm@,
            rm@,
        ));
    }
    r
}

/// Element-wise equality of two arrays.
fn arrays_eq(a: &Vec<JsonValue>, b: &Vec<JsonValue>) -> (r: bool)
    ensures
        r == (items_deep(a@) == items_deep(b@)),
{
    let n = a.len();
    if n != b.len() {
        proof {
            assert(items_deep(a@).len() != items_deep(b@).len());
        }
        return false;
    }
    let mut i: usize = 0;
    while i < n
        invariant
            i <= n,
            n == a@.len() == b@.len(),
            forall|k: int| 0 <= k < i ==> #[trigger] a@[k].deep() == b@[k].deep(),
        decreases n - i,
    {
        if !a[i].eq(&b[i]) {
            proof {
                assert(items_deep(a@)[i as int] != items_deep(b@)[i as int]);
            }
            return false;
        }
        i = i + 1;
    }
    proof {
        assert forall|k: int| 0 <= k < items_deep(a@).len() implies items_deep(a@)[k]
            == items_deep(b@)[k] by {
            assert(a@[k].deep() == b@[k].deep());
        }
        assert(items_deep(a@) =~= items_deep(b@));
    }
    true
}

/// Whether the greedy matcher accepts `rv` for `lv`.
fn pair_matches(lv: &JsonValue, rv: &JsonValue) -> (r: bool)
    ensures
        r == spec_pair_matches(lv@, rv@),
{
    match (lv, rv) {
        (JsonValue::Obj(lf), JsonValue::Obj(rg)) => {
            match (obj_index(lf, "id"), obj_index(rg, "id")) {
                (Some(a), Some(b)) => {
                    if lf[a].1.eq(&rg[b].1) {
                        proof {
                            assert(spec_pair_matches(lv@, rv@));
                        }
                        true
                    } else {
                        proof {
                            assert(spec_get_val(lv@->Obj_0, "id"@) != spec_get_val(
                                rv@->Obj_0,
                                "id"@,
                            ));
                        }
                        lv.eq(rv)
                    }
                },
                _ => lv.eq(rv),
            }
        },
        _ => lv.eq(rv),
    }
}

/// The matches made so far, as the specification sees them.
pub open spec fn matched_view(v: Seq<Option<usize>>) -> Seq<Option<int>> {
    Seq::new(
        v.len(),
        |i: int|
            match v[i] {
                Some(u) => Some(u as int),
                None => None,
            },
    )
}

/// Whether right index `j` was already taken by an earlier match.
fn matched_contains(v: &Vec<Option<usize>>, j: usize) -> (r: bool)
    ensures
        r == matched_view(v@).contains(Some(j as int)),
{
    let n = v.len();
    let mut i: usize = 0;
    while i < n
        invariant
            i <= n,
            n == v@.len(),
            forall|k: int| 0 <= k < i ==> matched_view(v@)[k] != Some(j as int),
        decreases n - i,
    {
        match v[i] {
            Some(x) => {
                if x == j {
                    proof {
                        assert(matched_view(v@)[i as int] == Some(j as int));
                    }
                    return true;
                }
            },
            None => {},
        }
        i = i + 1;
    }
    proof {
        assert(!matched_view(v@).contains(Some(j as int)));
    }
    false
}

/// The first available right element the matcher accepts for `lv`, if any.
fn match_one(lv: &JsonValue, right: &Vec<JsonValue>, matched: &Vec<Option<usize>>) -> (r: Option<
    usize,
>)
    ensures
        match r {
            Some(j) => j < right@.len() && spec_match_one(
                lv@,
                items_deep(right@),
                matched_view(matched@),
            ) == Some(j as int),
            None => spec_match_one(lv@, items_deep(right@), matched_view(matched@)) is None,
        },
{
    let ghost ra = items_deep(right@);
    let ghost used = matched_view(matched@);
    let n = right.len();
    let mut j: usize = 0;
    while j < n
        invariant
            j <= n,
            n == right@.len(),
            forall|k: int| 0 <= k < j ==> !spec_match_cond(lv@, ra, used, k),
        decreases n - j,
    {
        if !matched_contains(matched, j) {
            if pair_matches(lv, &right[j]) {
                proof {
                    assert(ra[j as int] == right@[j as int].deep());
                    assert(spec_match_cond(lv@, ra, used, j as int));
                    let w = choose|w: int|
                        spec_match_cond(lv@, ra, used, w) && (forall|j2: int|
                            0 <= j2 < w ==> !spec_match_cond(lv@, ra, used, j2));
                    assert(spec_match_one(lv@, ra, used) == Some(w));
                    if w < j as int {
                        assert(!spec_match_cond(lv@, ra, used, w));
                    }
                    if w > j as int {
                        assert(!spec_match_cond(lv@, ra, used, j as int));
                    }
                }
                return Some(j);
            }
        }
        proof {
            assert(!spec_match_cond(lv@, ra, used, j as int));
        }
        j = j + 1;
    }
    proof {
        assert forall|k: int| !spec_match_cond(lv@, ra, used, k) by {
            if 0 <= k < ra.len() {
                assert(!spec_match_cond(lv@, ra, used, k));
            }
        }
    }
    None
}

/// Unordered array comparison: equal sequences emit nothing; anything else
/// emits one `ArrayReordered` entry, plus the nested walk when configured.
pub open spec fn spec_arr_unordered(
    la: Seq<SpecValue>,
    ra: Seq<SpecValue>,
    path: Seq<char>,
    opts: SpecOptions,
    lm: Seq<(Seq<char>, usize)>,
    rm: Seq<(Seq<char>, usize)>,
) -> Seq<SpecEntry>
    decreases height_arr(la), 2int, 0int,
{
    if la == ra {
        Seq::<SpecEntry>::empty()
    } else {
        let head = seq![mk_entry(DiffType::ArrayReordered, path, None, None, lm, rm)];
        if opts.show_nested {
            let matched = spec_matched(la, ra, la.len() as int);
            head + spec_unordered_walk(la, ra, matched, path, opts, lm, rm, 0)
                + spec_unordered_added(ra, matched, path, lm, rm, 0)
        } else {
            head
        }
    }
}

/// Compares two values at an address, appending the entries the walk
/// emits there.  Total: the result is always `Ok`.
pub fn compare_values_with_lines(
    left: &JsonValue,
    right: &JsonValue,
    path: &str,
    entries: &mut Vec<DiffEntry>,
    options: &CompareOptions,
    left_line_map: &LineMap,
    right_line_map: &LineMap,
) -> (res: Result<(), JsonDiffError>)
    requires
        options.wf(),
    ensures
        res is Ok,
        entries_view(final(entries)@) == entries_view(old(entries)@) + spec_diff(
            left@,
            right@,
            path@,
            options@,
            left_line_map@,
            right_line_map@,
        ),
    decreases sv_height(left@), 0int, 0int,
{
    let ghost dspec = spec_diff(left@, right@, path@, options@, left_line_map@, right_line_map@);
    if is_ignored(options, path) {
        let ghost pre = entries@;
        let e = mk_diff_entry(DiffType::Ignored, path, None, None, left_line_map, right_line_map);
        entries.push(e);
        proof {
            crate::diff::lemma_entries_view_push(pre, e);
            assert(seq![e@] =~= dspec);
            assert(entries_view(entries@) =~= entries_view(pre) + dspec);
        }
        return Ok(());
    }
    match (left, right) {
        (JsonValue::Obj(lf), JsonValue::Obj(rf)) => {
            match compare_objects_with_lines(
                lf,
                rf,
                path,
                entries,
                options,
                left_line_map,
                right_line_map,
            ) {
                Ok(()) => {
                    proof {
                        assert(left@->Obj_0 == fields_deep(lf@));
                        assert(right@->Obj_0 == fields_deep(rf@));
                        assert(entries_view(entries@) =~= entries_view(old(entries)@) + dspec);
                    }
                    Ok(())
                },
                Err(e) => Err(e),
            }
        },
        (JsonValue::Arr(la), JsonValue::Arr(ra)) => {
            let unordered = is_unordered(options, path);
            match compare_arrays_with_lines(
                la,
                ra,
                path,
                entries,
                options,
                unordered,
                left_line_map,
                right_line_map,
            ) {
                Ok(()) => {
                    proof {
                        assert(left@->Arr_0 == items_deep(la@));
                        assert(right@->Arr_0 == items_deep(ra@));
                        assert(entries_view(entries@) =~= entries_view(old(entries)@) + dspec);
                    }
                    Ok(())
                },
                Err(e) => Err(e),
            }
        },
        _ => {
            if left.eq(right) {
                proof {
                    assert(dspec =~= Seq::<SpecEntry>::empty());
                    assert(entries_view(entries@) =~= entries_view(old(entries)@) + dspec);
                }
                Ok(())
            } else {
                let ghost pre = entries@;
                let e = mk_diff_entry(
                    DiffType::Modified,
                    path,
                    Some(left.clone()),
                    Some(right.clone()),
                    left_line_map,
                    right_line_map,
                );
                entries.push(e);
                proof {
                    crate::diff::lemma_entries_view_push(pre, e);
                    assert(seq![e@] =~= dspec);
                    assert(entries_view(entries@) =~= entries_view(pre) + dspec);
                }
                Ok(())
            }
        },
    }
}

/// Compares two objects key by key: left-only keys first, then the right
/// keys in order, recursing on common keys.
fn compare_objects_with_lines(
    left: &Vec<(String, JsonValue)>,
    right: &Vec<(String, JsonValue)>,
    path: &str,
    entries: &mut Vec<DiffEntry>,
    options: &CompareOptions,
    left_line_map: &LineMap,
    right_line_map: &LineMap,
) -> (res: Result<(), JsonDiffError>)
    requires
        options.wf(),
    ensures
        res is Ok,
        entries_view(final(entries)@) == entries_view(old(entries)@) + spec_obj_removed(
            fields_deep(left@),
            fields_deep(right@),
            path@,
            options@,
            left_line_map@,
            right_line_map@,
            0,
        ) + spec_obj_right(
            fields_deep(left@),
            fields_deep(right@),
            path@,
            options@,
            left_line_map@,
            right_line_map@,
            0,
        ),
    decreases height_obj(fields_deep(left@)), 1int, 0int,
{
    let ghost lf = fields_deep(left@);
    let ghost rf = fields_deep(right@);
    let ghost opts = options@;
    let ghost lmv = left_line_map@;
    let ghost rmv = right_line_map@;
    let ghost base = entries_view(entries@);

    // Keys that exist on the left but not on the right.
    let n = left.len();
    let mut i: usize = 0;
    while i < n
        invariant
            i <= n,
            n == left@.len(),
            base + spec_obj_removed(lf, rf, path@, opts, lmv, rmv, 0) == entries_view(entries@)
                + spec_obj_removed(lf, rf, path@, opts, lmv, rmv, i as int),
        decreases n - i,
    {
        let ghost suf = spec_obj_removed(lf, rf, path@, opts, lmv, rmv, i as int);
        let ghost suf1 = spec_obj_removed(lf, rf, path@, opts, lmv, rmv, i + 1);
        proof {
            assert(lf[i as int] == (left@[i as int].0@, left@[i as int].1.deep()));
        }
        match obj_index(right, left[i].0.as_str()) {
            Some(_) => {
                proof {
                    assert(spec_has_key(rf, lf[i as int].0));
                    assert(suf =~= suf1);
                }
            },
            None => {
                proof {
                    assert(!spec_has_key(rf, lf[i as int].0));
                }
                let child = key_child(path, left[i].0.as_str());
                let ghost pre = entries@;
                if is_ignored(options, child.as_str()) {
                    let e = mk_diff_entry(
                        DiffType::Ignored,
                        child.as_str(),
                        None,
                        None,
                        left_line_map,
                        right_line_map,
                    );
                    entries.push(e);
                    proof {
                        crate::diff::lemma_entries_view_push(pre, e);
                        assert(suf =~= seq![e@] + suf1);
                        assert(entries_view(pre) + (seq![e@] + suf1) =~= (entries_view(pre)
                            + seq![e@]) + suf1);
                    }
                } else {
                    let e = mk_diff_entry(
                        DiffType::Removed,
                        child.as_str(),
                        Some(left[i].1.clone()),
                        None,
                        left_line_map,
                        right_line_map,
                    );
                    entries.push(e);
                    proof {
                        crate::diff::lemma_entries_view_push(pre, e);
                        assert(suf =~= seq![e@] + suf1);
                        assert(entries_view(pre) + (seq![e@] + suf1) =~= (entries_view(pre)
                            + seq![e@]) + suf1);
                    }
                }
            },
        }
        i = i + 1;
    }
    proof {
        assert(spec_obj_removed(lf, rf, path@, opts, lmv, rmv, n as int) =~= Seq::<
            SpecEntry,
        >::empty());
        assert(entries_view(entries@) + Seq::<SpecEntry>::empty() =~= entries_view(entries@));
    }

    // Right keys: absent on the left is an addition, common keys recurse.
    let ghost base2 = entries_view(entries@);
    let m = right.len();
    let mut j: usize = 0;
    while j < m
        invariant
            j <= m,
            m == right@.len(),
            base2 == base + spec_obj_removed(lf, rf, path@, opts, lmv, rmv, 0),
            base2 + spec_obj_right(lf, rf, path@, opts, lmv, rmv, 0) == entries_view(entries@)
                + spec_obj_right(lf, rf, path@, opts, lmv, rmv, j as int),
        decreases m - j,
    {
        let ghost suf = spec_obj_right(lf, rf, path@, opts, lmv, rmv, j as int);
        let ghost suf1 = spec_obj_right(lf, rf, path@, opts, lmv, rmv, j + 1);
        proof {
            assert(rf[j as int] == (right@[j as int].0@, right@[j as int].1.deep()));
        }
        let child = key_child(path, right[j].0.as_str());
        let ghost pre = entries@;
        if is_ignored(options, child.as_str()) {
            let e = mk_diff_entry(
                DiffType::Ignored,
                child.as_str(),
                None,
                None,
                left_line_map,
                right_line_map,
            );
            entries.push(e);
            proof {
                crate::diff::lemma_entries_view_push(pre, e);
                assert(suf =~= seq![e@] + suf1);
                assert(entries_view(pre) + (seq![e@] + suf1) =~= (entries_view(pre) + seq![e@])
                    + suf1);
            }
        } else {
            match obj_index(left, right[j].0.as_str()) {
                None => {
                    proof {
                        assert(!spec_has_key(lf, rf[j as int].0));
                    }
                    let e = mk_diff_entry(
                        DiffType::Added,
                        child.as_str(),
                        None,
                        Some(right[j].1.clone()),
                        left_line_map,
                        right_line_map,
                    );
                    entries.push(e);
                    proof {
                        crate::diff::lemma_entries_view_push(pre, e);
                        assert(suf =~= seq![e@] + suf1);
                        assert(entries_view(pre) + (seq![e@] + suf1) =~= (entries_view(pre)
                            + seq![e@]) + suf1);
                    }
                },
                Some(li) => {
                    proof {
                        assert(spec_has_key(lf, rf[j as int].0));
                        assert(spec_get_val(lf, rf[j as int].0) == left@[li as int].1.deep());
                        lemma_height_obj_elem(lf, li as int);
                        assert(lf[li as int].1 == left@[li as int].1.deep());
                    }
                    match compare_values_with_lines(
                        &left[li].1,
                        &right[j].1,
                        child.as_str(),
                        entries,
                        options,
                        left_line_map,
                        right_line_map,
                    ) {
                        Ok(()) => {
                            proof {
                                let head = spec_diff(
                                    left@[li as int].1@,
                                    right@[j as int].1@,
                                    child@,
                                    opts,
                                    lmv,
                                    rmv,
                                );
                                assert(suf =~= head + suf1);
                                assert(entries_view(pre) + (head + suf1) =~= (entries_view(pre)
                                    + head) + suf1);
                            }
                        },
                        Err(e) => {
                            return Err(e);
                        },
                    }
                },
            }
        }
        j = j + 1;
    }
    proof {
        assert(spec_obj_right(lf, rf, path@, opts, lmv, rmv, m as int) =~= Seq::<
            SpecEntry,
        >::empty());
        assert(entries_view(entries@) + Seq::<SpecEntry>::empty() =~= entries_view(entries@));
        assert(entries_view(entries@) =~= entries_view(old(entries)@) + spec_obj_removed(
            lf,
            rf,
            path@,
            opts,
            lmv,
            rmv,
            0,
        ) + spec_obj_right(lf, rf, path@, opts, lmv, rmv, 0));
    }
    Ok(())
}

/// Compares two arrays: under an unordered rule by the coarse reorder
/// heuristic, otherwise index by index or as one unit.
#[verifier::rlimit(100)]
fn compare_arrays_with_lines(
    left: &Vec<JsonValue>,
    right: &Vec<JsonValue>,
    path: &str,
    entries: &mut Vec<DiffEntry>,
    options: &CompareOptions,
    unordered: bool,
    left_line_map: &LineMap,
    right_line_map: &LineMap,
) -> (res: Result<(), JsonDiffError>)
    requires
        options.wf(),
    ensures
        res is Ok,
        entries_view(final(entries)@) == entries_view(old(entries)@) + (if unordered {
            spec_arr_unordered(
                items_deep(left@),
                items_deep(right@),
                path@,
                options@,
                left_line_map@,
                right_line_map@,
            )
        } else if options@.identify {
            spec_arr_ordered(
                items_deep(left@),
                items_deep(right@),
                path@,
                options@,
                left_line_map@,
                right_line_map@,
            )
        } else if items_deep(left@) == items_deep(right@) {
            Seq::<SpecEntry>::empty()
        } else {
            seq![mk_entry(
                DiffType::Modified,
                path@,
                Some(SpecValue::Arr(items_deep(left@))),
                Some(SpecValue::Arr(items_deep(right@))),
                left_line_map@,
                right_line_map@,
            )]
        }),
    decreases height_arr(items_deep(left@)), 2int, 0int,
{
    let ghost la = items_deep(left@);
    let ghost ra = items_deep(right@);
    let ghost opts = options@;
    let ghost lmv = left_line_map@;
    let ghost rmv = right_line_map@;
    let ghost base = entries_view(entries@);

    if unordered {
        if !arrays_eq(left, right) {
            // Any sequence inequality under an unordered rule is reported
            // as one reorder at this address.
            let ghost pre0 = entries@;
            let e = mk_diff_entry(
                DiffType::ArrayReordered,
                path,
                None,
                None,
                left_line_map,
                right_line_map,
            );
            entries.push(e);
            proof {
                crate::diff::lemma_entries_view_push(pre0, e);
            }
            if options.show_nested_differences {
                // Greedy element correlation: first acceptable right
                // element wins, in left order.
                let nl = left.len();
                let mut matched: Vec<Option<usize>> = Vec::new();
                let mut i: usize = 0;
                while i < nl
                    invariant
                        i <= nl,
                        nl == left@.len(),
                        matched@.len() == i,
                        matched_view(matched@) == spec_matched(la, ra, i as int),
                        forall|k: int|
                            0 <= k < i ==> ((#[trigger] matched@[k]) matches Some(j) ==> j
                                < right@.len()),
                    decreases nl - i,
                {
                    let ghost mprev = matched_view(matched@);
                    let m = match_one(&left[i], right, &matched);
                    matched.push(m);
                    proof {
                        assert(la[i as int] == left@[i as int].deep());
                        assert(matched_view(matched@) =~= mprev.push(
                            match m {
                                Some(u) => Some(u as int),
                                None => None,
                            },
                        ));
                        assert(matched_view(matched@) =~= spec_matched(la, ra, i + 1));
                    }
                    i = i + 1;
                }
                let ghost ms = spec_matched(la, ra, nl as int);

                // Walk the matched pairs in left order.
                let ghost base1 = entries_view(entries@);
                let mut i: usize = 0;
                while i < nl
                    invariant
                        i <= nl,
                        nl == left@.len(),
                        matched@.len() == nl,
                        matched_view(matched@) == ms,
                        forall|k: int|
                            0 <= k < nl ==> ((#[trigger] matched@[k]) matches Some(j) ==> j
                                < right@.len()),
                        base1 + spec_unordered_walk(la, ra, ms, path@, opts, lmv, rmv, 0)
                            == entries_view(entries@) + spec_unordered_walk(
                            la,
                            ra,
                            ms,
                            path@,
                            opts,
                            lmv,
                            rmv,
                            i as int,
                        ),
                    decreases nl - i,
                {
                    let ghost suf = spec_unordered_walk(la, ra, ms, path@, opts, lmv, rmv, i as int);
                    let ghost suf1 = spec_unordered_walk(la, ra, ms, path@, opts, lmv, rmv, i + 1);
                    proof {
                        assert(la[i as int] == left@[i as int].deep());
                        assert(ms[i as int] == matched_view(matched@)[i as int]);
                    }
                    match matched[i] {
                        Some(j) => {
                            proof {
                                assert(ra[j as int] == right@[j as int].deep());
                            }
                            if !left[i].eq(&right[j]) {
                                proof {
                                    lemma_height_arr_elem(la, i as int);
                                }
                                let child = index_child(path, i);
                                let ghost pre = entries@;
                                match compare_values_with_lines(
                                    &left[i],
                                    &right[j],
                                    child.as_str(),
                                    entries,
                                    options,
                                    left_line_map,
                                    right_line_map,
                                ) {
                                    Ok(()) => {
                                        proof {
                                            let head = spec_diff(
                                                la[i as int],
                                                ra[j as int],
                                                spec_index_child(path@, i as nat),
                                                opts,
                                                lmv,
                                                rmv,
                                            );
                                            assert(suf =~= head + suf1);
                                            assert(entries_view(pre) + (head + suf1) =~= (
                                            entries_view(pre) + head) + suf1);
                                        }
                                    },
                                    Err(e) => {
                                        return Err(e);
                                    },
                                }
                            } else {
                                proof {
                                    assert(suf =~= suf1);
                                }
                            }
                        },
                        None => {
                            let child = index_child(path, i);
                            let ghost pre = entries@;
                            let e = mk_diff_entry(
                                DiffType::Removed,
                                child.as_str(),
                                Some(left[i].clone()),
                                None,
                                left_line_map,
                                right_line_map,
                            );
                            entries.push(e);
                            proof {
                                crate::diff::lemma_entries_view_push(pre, e);
                                assert(suf =~= seq![e@] + suf1);
                                assert(entries_view(pre) + (seq![e@] + suf1) =~= (entries_view(pre)
                                    + seq![e@]) + suf1);
                            }
                        },
                    }
                    i = i + 1;
                }
                proof {
                    assert(spec_unordered_walk(la, ra, ms, path@, opts, lmv, rmv, nl as int) =~= Seq::<
                        SpecEntry,
                    >::empty());
                    assert(entries_view(entries@) + Seq::<SpecEntry>::empty() =~= entries_view(
                        entries@,
                    ));
                }

                // Right elements that were never matched are additions.
                let ghost base2 = entries_view(entries@);
                let nr = right.len();
                let mut j: usize = 0;
                while j < nr
                    invariant
                        j <= nr,
                        nr == right@.len(),
                        base2 + spec_unordered_added(ra, ms, path@, lmv, rmv, 0) == entries_view(
                            entries@,
                        ) + spec_unordered_added(ra, ms, path@, lmv, rmv, j as int),
                        matched@.len() == left@.len(),
                        matched_view(matched@) == ms,
                    decreases nr - j,
                {
                    let ghost suf = spec_unordered_added(ra, ms, path@, lmv, rmv, j as int);
                    let ghost suf1 = spec_unordered_added(ra, ms, path@, lmv, rmv, j + 1);
                    proof {
                        assert(ra[j as int] == right@[j as int].deep());
                    }
                    if !matched_contains(&matched, j) {
                        let child = index_child(path, j);
                        let ghost pre = entries@;
                        let e = mk_diff_entry(
                            DiffType::Added,
                            child.as_str(),
                            None,
                            Some(right[j].clone()),
                            left_line_map,
                            right_line_map,
                        );
                        entries.push(e);
                        proof {
                            crate::diff::lemma_entries_view_push(pre, e);
                            assert(suf =~= seq![e@] + suf1);
                            assert(entries_view(pre) + (seq![e@] + suf1) =~= (entries_view(pre)
                                + seq![e@]) + suf1);
                        }
                    } else {
                        proof {
                            assert(suf =~= suf1);
                        }
                    }
                    j = j + 1;
                }
                proof {
                    assert(spec_unordered_added(ra, ms, path@, lmv, rmv, nr as int) =~= Seq::<
                        SpecEntry,
                    >::empty());
                    assert(entries_view(entries@) + Seq::<SpecEntry>::empty() =~= entries_view(
                        entries@,
                    ));
                    assert(entries_view(entries@) =~= base + spec_arr_unordered(
                        la,
                        ra,
                        path@,
                        opts,
                        lmv,
                        rmv,
                    ));
                }
            } else {
                proof {
                    assert(seq![e@] =~= spec_arr_unordered(la, ra, path@, opts, lmv, rmv));
                    assert(entries_view(entries@) =~= base + spec_arr_unordered(
                        la,
                        ra,
                        path@,
                        opts,
                        lmv,
                        rmv,
                    ));
                }
            }
        } else {
            proof {
                assert(spec_arr_unordered(la, ra, path@, opts, lmv, rmv) =~= Seq::<
                    SpecEntry,
                >::empty());
                assert(entries_view(entries@) =~= base + spec_arr_unordered(
                    la,
                    ra,
                    path@,
                    opts,
                    lmv,
                    rmv,
                ));
            }
        }
    } else if options.identify_array_item_changes {
        // Shared prefix, index by index.
        let la_len = left.len();
        let ra_len = right.len();
        let min_n = if la_len <= ra_len {
            la_len
        } else {
            ra_len
        };
        proof {
            assert(min_n as int == min_len(la.len() as int, ra.len() as int));
        }
        let mut i: usize = 0;
        while i < min_n
            invariant
                i <= min_n,
                min_n as int == min_len(la.len() as int, ra.len() as int),
                la_len == left@.len(),
                ra_len == right@.len(),
                base + spec_arr_items(la, ra, path@, opts, lmv, rmv, 0) == entries_view(entries@)
                    + spec_arr_items(la, ra, path@, opts, lmv, rmv, i as int),
            decreases min_n - i,
        {
            let ghost suf = spec_arr_items(la, ra, path@, opts, lmv, rmv, i as int);
            let ghost suf1 = spec_arr_items(la, ra, path@, opts, lmv, rmv, i + 1);
            proof {
                assert(la[i as int] == left@[i as int].deep());
                assert(ra[i as int] == right@[i as int].deep());
                lemma_height_arr_elem(la, i as int);
            }
            let child = index_child(path, i);
            let ghost pre = entries@;
            match compare_values_with_lines(
                &left[i],
                &right[i],
                child.as_str(),
                entries,
                options,
                left_line_map,
                right_line_map,
            ) {
                Ok(()) => {
                    proof {
                        let head = spec_diff(
                            la[i as int],
                            ra[i as int],
                            spec_index_child(path@, i as nat),
                            opts,
                            lmv,
                            rmv,
                        );
                        assert(suf =~= head + suf1);
                        assert(entries_view(pre) + (head + suf1) =~= (entries_view(pre) + head)
                            + suf1);
                    }
                },
                Err(e) => {
                    return Err(e);
                },
            }
            i = i + 1;
        }
        proof {
            assert(spec_arr_items(la, ra, path@, opts, lmv, rmv, min_n as int) =~= Seq::<
                SpecEntry,
            >::empty());
            assert(entries_view(entries@) + Seq::<SpecEntry>::empty() =~= entries_view(entries@));
        }

        // Surplus left elements.
        let ghost base1 = entries_view(entries@);
        let mut i: usize = min_n;
        while i < la_len
            invariant
                min_n <= i <= la_len,
                la_len == left@.len(),
                base1 + spec_arr_removed(la, path@, lmv, rmv, min_n as int) == entries_view(
                    entries@,
                ) + spec_arr_removed(la, path@, lmv, rmv, i as int),
            decreases la_len - i,
        {
            let ghost suf = spec_arr_removed(la, path@, lmv, rmv, i as int);
            let ghost suf1 = spec_arr_removed(la, path@, lmv, rmv, i + 1);
            proof {
                assert(la[i as int] == left@[i as int].deep());
            }
            let child = index_child(path, i);
            let ghost pre = entries@;
            let e = mk_diff_entry(
                DiffType::Removed,
                child.as_str(),
                Some(left[i].clone()),
                None,
                left_line_map,
                right_line_map,
            );
            entries.push(e);
            proof {
                crate::diff::lemma_entries_view_push(pre, e);
                assert(suf =~= seq![e@] + suf1);
                assert(entries_view(pre) + (seq![e@] + suf1) =~= (entries_view(pre) + seq![e@])
                    + suf1);
            }
            i = i + 1;
        }
        proof {
            assert(spec_arr_removed(la, path@, lmv, rmv, la_len as int) =~= Seq::<
                SpecEntry,
            >::empty());
            assert(entries_view(entries@) + Seq::<SpecEntry>::empty() =~= entries_view(entries@));
        }

        // Surplus right elements.
        let ghost base2 = entries_view(entries@);
        let mut i: usize = min_n;
        while i < ra_len
            invariant
                min_n <= i <= ra_len,
                ra_len == right@.len(),
                base2 + spec_arr_added(ra, path@, lmv, rmv, min_n as int) == entries_view(entries@)
                    + spec_arr_added(ra, path@, lmv, rmv, i as int),
            decreases ra_len - i,
        {
            let ghost suf = spec_arr_added(ra, path@, lmv, rmv, i as int);
            let ghost suf1 = spec_arr_added(ra, path@, lmv, rmv, i + 1);
            proof {
                assert(ra[i as int] == right@[i as int].deep());
            }
            let child = index_child(path, i);
            let ghost pre = entries@;
            let e = mk_diff_entry(
                DiffType::Added,
                child.as_str(),
                None,
                Some(right[i].clone()),
                left_line_map,
                right_line_map,
            );
            entries.push(e);
            proof {
                crate::diff::lemma_entries_view_push(pre, e);
                assert(suf =~= seq![e@] + suf1);
                assert(entries_view(pre) + (seq![e@] + suf1) =~= (entries_view(pre) + seq![e@])
                    + suf1);
            }
            i = i + 1;
        }
        proof {
            assert(spec_arr_added(ra, path@, lmv, rmv, ra_len as int) =~= Seq::<
                SpecEntry,
            >::empty());
            assert(entries_view(entries@) + Seq::<SpecEntry>::empty() =~= entries_view(entries@));
            assert(entries_view(entries@) =~= base + spec_arr_ordered(
                la,
                ra,
                path@,
                opts,
                lmv,
                rmv,
            ));
        }
    } else {
        // The whole array is one unit: one entry if it changed at all.
        if !arrays_eq(left, right) {
            let ghost pre = entries@;
            let e = mk_diff_entry(
                DiffType::Modified,
                path,
                Some(JsonValue::Arr(clone_items(left))),
                Some(JsonValue::Arr(clone_items(right))),
                left_line_map,
                right_line_map,
            );
            entries.push(e);
            proof {
                crate::diff::lemma_entries_view_push(pre, e);
                assert(seq![e@] =~= seq![mk_entry(
                    DiffType::Modified,
                    path@,
                    Some(SpecValue::Arr(la)),
                    Some(SpecValue::Arr(ra)),
                    lmv,
                    rmv,
                )]);
            }
        }
    }
    Ok(())
}

/// The sort key of an entry: its left line, else its right line, else a
/// sentinel larger than any real line number.
pub open spec fn spec_entry_key(e: SpecEntry) -> int {
    match (e.left_line, e.right_line) {
        (Some(l), _) => l as int,
        (None, Some(r)) => r as int,
        (None, None) => usize::MAX as int,
    }
}

/// Insertion into an already sorted sequence, after every entry whose key
/// is not larger, so that equal keys keep their original relative order.
pub open spec fn spec_insert_sorted(s: Seq<SpecEntry>, e: SpecEntry) -> Seq<SpecEntry>
    decreases s.len(),
{
    if s.len() == 0 {
        seq![e]
    } else if spec_entry_key(s.last()) <= spec_entry_key(e) {
        s.push(e)
    } else {
        spec_insert_sorted(s.drop_last(), e).push(s.last())
    }
}

/// The stable sort of a sequence of entries by their keys: each entry in
/// turn is inserted behind its equals.
pub open spec fn spec_sort(s: Seq<SpecEntry>) -> Seq<SpecEntry>
    decreases s.len(),
{
    if s.len() == 0 {
        Seq::<SpecEntry>::empty()
    } else {
        spec_insert_sorted(spec_sort(s.drop_last()), s.last())
    }
}

/// Keys ascend along a sequence of entries.
pub open spec fn entries_sorted(s: Seq<SpecEntry>) -> bool {
    forall|i: int, j: int|
        0 <= i <= j < s.len() ==> spec_entry_key(#[trigger] s[i]) <= spec_entry_key(#[trigger] s[j])
}

proof fn lemma_insert_sorted_props(s: Seq<SpecEntry>, e: SpecEntry)
    ensures
        spec_insert_sorted(s, e).to_multiset() == s.to_multiset().insert(e),
        entries_sorted(s) ==> entries_sorted(spec_insert_sorted(s, e)),
        forall|k: int|
            0 <= k < spec_insert_sorted(s, e).len() ==> (#[trigger] spec_insert_sorted(s, e)[k])
                == e || s.contains(spec_insert_sorted(s, e)[k]),
    decreases s.len(),
{
    broadcast use vstd::seq_lib::group_to_multiset_ensures;
    broadcast use vstd::multiset::group_multiset_axioms;

    if s.len() == 0 {
        assert(seq![e] =~= Seq::<SpecEntry>::empty().push(e));
        assert(Seq::<SpecEntry>::empty().to_multiset() =~= Multiset::<SpecEntry>::empty());
        assert(spec_insert_sorted(s, e).to_multiset() =~= s.to_multiset().insert(e));
    } else if spec_entry_key(s.last()) <= spec_entry_key(e) {
        assert(spec_insert_sorted(s, e) == s.push(e));
        if entries_sorted(s) {
            assert forall|i: int, j: int|
                0 <= i <= j < s.push(e).len() implies spec_entry_key(#[trigger] s.push(e)[i])
                <= spec_entry_key(#[trigger] s.push(e)[j]) by {
                if j < s.len() {
                    assert(s.push(e)[i] == s[i] && s.push(e)[j] == s[j]);
                } else if i < s.len() {
                    assert(s.push(e)[i] == s[i]);
                    assert(spec_entry_key(s[i]) <= spec_entry_key(s.last()));
                }
            }
        }
    } else {
        lemma_insert_sorted_props(s.drop_last(), e);
        let inner = spec_insert_sorted(s.drop_last(), e);
        assert(s =~= s.drop_last().push(s.last()));
        assert(s.to_multiset() =~= s.drop_last().to_multiset().insert(s.last()));
        assert(inner.push(s.last()).to_multiset() =~= inner.to_multiset().insert(s.last()));
        assert(inner.push(s.last()).to_multiset() =~= s.to_multiset().insert(e));
        assert forall|k: int|
            0 <= k < inner.push(s.last()).len() implies (#[trigger] inner.push(s.last())[k]) == e
            || s.contains(inner.push(s.last())[k]) by {
            if k < inner.len() {
                assert(inner.push(s.last())[k] == inner[k]);
                if inner[k] != e {
                    let w = choose|w: int| 0 <= w < s.drop_last().len() && s.drop_last()[w]
                        == inner[k];
                    assert(s[w] == inner[k]);
                }
            } else {
                assert(inner.push(s.last())[k] == s.last());
                assert(s[s.len() - 1] == s.last());
            }
        }
        if entries_sorted(s) {
            assert forall|i: int, j: int|
                0 <= i <= j < s.drop_last().len() implies spec_entry_key(
                #[trigger] s.drop_last()[i],
            ) <= spec_entry_key(#[trigger] s.drop_last()[j]) by {
                assert(s.drop_last()[i] == s[i] && s.drop_last()[j] == s[j]);
            }
            assert(entries_sorted(inner));
            assert forall|i: int, j: int|
                0 <= i <= j < inner.push(s.last()).len() implies spec_entry_key(
                #[trigger] inner.push(s.last())[i],
            ) <= spec_entry_key(#[trigger] inner.push(s.last())[j]) by {
                if j < inner.len() {
                    assert(inner.push(s.last())[i] == inner[i]);
                    assert(inner.push(s.last())[j] == inner[j]);
                } else if i < inner.len() {
                    assert(inner.push(s.last())[i] == inner[i]);
                    if inner[i] == e {
                    } else {
                        let w = choose|w: int| 0 <= w < s.drop_last().len() && s.drop_last()[w]
                            == inner[i];
                        assert(s[w] == inner[i]);
                        assert(spec_entry_key(s[w]) <= spec_entry_key(s.last()));
                    }
                }
            }
        }
    }
}

/// The sorter's law: the sorted sequence has ascending keys and is a
/// permutation of its input.  Together with `sort_entries_by_line_number`'s
/// contract this pins the executable sorter down: the output is the
/// stable insertion of every entry in input order.
pub proof fn lemma_sort_sorted_permutes(s: Seq<SpecEntry>)
    ensures
        entries_sorted(spec_sort(s)),
        spec_sort(s).to_multiset() == s.to_multiset(),
    decreases s.len(),
{
    broadcast use vstd::seq_lib::group_to_multiset_ensures;
    broadcast use vstd::multiset::group_multiset_axioms;

    if s.len() == 0 {
    } else {
        lemma_sort_sorted_permutes(s.drop_last());
        lemma_insert_sorted_props(spec_sort(s.drop_last()), s.last());
        assert(s =~= s.drop_last().push(s.last()));
        assert(s.to_multiset() =~= s.drop_last().to_multiset().insert(s.last()));
    }
}

/// Inserting at the position the scan found is what `spec_insert_sorted`
/// denotes.
proof fn lemma_insert_at(s: Seq<SpecEntry>, e: SpecEntry, p: int)
    requires
        0 <= p <= s.len(),
        forall|i: int| p <= i < s.len() ==> spec_entry_key(#[trigger] s[i]) > spec_entry_key(e),
        p > 0 ==> spec_entry_key(s[p - 1]) <= spec_entry_key(e),
    ensures
        spec_insert_sorted(s, e) == s.take(p) + seq![e] + s.skip(p),
    decreases s.len(),
{
    if s.len() == 0 {
        assert(spec_insert_sorted(s, e) =~= s.take(p) + seq![e] + s.skip(p));
    } else if spec_entry_key(s.last()) <= spec_entry_key(e) {
        assert(p == s.len());
        assert(spec_insert_sorted(s, e) =~= s.take(p) + seq![e] + s.skip(p));
    } else {
        assert(p < s.len());
        lemma_insert_at(s.drop_last(), e, p);
        assert(spec_insert_sorted(s, e) =~= s.take(p) + seq![e] + s.skip(p));
    }
}

/// The sort key of an entry.
fn entry_key(e: &DiffEntry) -> (r: usize)
    ensures
        r as int == spec_entry_key(e@),
{
    match (e.left_line, e.right_line) {
        (Some(l), _) => l,
        (None, Some(r)) => r,
        (None, None) => usize::MAX,
    }
}

/// Sort diff entries by line number (based on the left file's lines,
/// falling back to the right file's).  Entries without line numbers are
/// placed at the end; entries with equal keys keep their relative order.
pub fn sort_entries_by_line_number(entries: &mut Vec<DiffEntry>)
    ensures
        entries_view(final(entries)@) == spec_sort(entries_view(old(entries)@)),
{
    let ghost input = entries_view(entries@);
    let n = entries.len();
    let mut out: Vec<DiffEntry> = Vec::new();
    let mut k: usize = 0;
    while k < n
        invariant
            k <= n,
            n == entries@.len(),
            *entries == *old(entries),
            entries_view(out@) == spec_sort(input.take(k as int)),
        decreases n - k,
    {
        let e = entries[k].clone();
        let key = entry_key(&e);
        let mut p = out.len();
        while p > 0
            invariant
                p <= out@.len(),
                forall|i: int|
                    p <= i < out@.len() ==> spec_entry_key(
                        #[trigger] entries_view(out@)[i],
                    ) > key as int,
            decreases p,
        {
            if entry_key(&out[p - 1]) <= key {
                break;
            }
            proof {
                assert(entries_view(out@)[p - 1] == out@[p - 1]@);
            }
            p = p - 1;
        }
        proof {
            if p > 0 {
                assert(entries_view(out@)[p - 1] == out@[p - 1]@);
            }
            lemma_insert_at(entries_view(out@), e@, p as int);
        }
        let ghost pre = out@;
        out.insert(p, e);
        proof {
            assert(entries_view(out@) =~= entries_view(pre).take(p as int) + seq![e@]
                + entries_view(pre).skip(p as int));
            assert(input.take(k + 1).drop_last() =~= input.take(k as int));
            assert(input.take(k + 1).last() == input[k as int]);
            assert(input[k as int] == e@);
            assert(entries_view(out@) == spec_sort(input.take(k + 1)));
        }
        k = k + 1;
    }
    proof {
        assert(input.take(n as int) =~= input);
    }
    *entries = out;
}

/// Relies on `chrono::Utc::now` and `chrono::DateTime::to_rfc3339`: the
/// moment of the call, rendered as an RFC 3339 timestamp.  The result
/// depends on the clock, so nothing is claimed beyond nonemptiness.
#[verifier::external_body]
fn now_rfc3339() -> (r: String)
    ensures
        r@.len() > 0,
{
    chrono::Utc::now().to_rfc3339()
}

/// Compare two JSON values with line number information.  Total for
/// well-formed options: the result is always `Ok`, and its entries are the
/// walk's entries in stable line order.
pub fn compare_json_with_lines(
    left: &JsonValue,
    right: &JsonValue,
    options: &CompareOptions,
    left_line_map: &LineMap,
    right_line_map: &LineMap,
) -> (r: Result<DiffResult, JsonDiffError>)
    requires
        options.wf(),
    ensures
        r matches Ok(d) && d.left_file is None && d.right_file is None && entries_view(d.entries@)
            == spec_sort(
            spec_diff(left@, right@, "$"@, options@, left_line_map@, right_line_map@),
        ),
{
    let mut entries: Vec<DiffEntry> = Vec::new();
    let ghost dspec = spec_diff(left@, right@, "$"@, options@, left_line_map@, right_line_map@);
    match compare_values_with_lines(
        left,
        right,
        "$",
        &mut entries,
        options,
        left_line_map,
        right_line_map,
    ) {
        Ok(()) => {},
        Err(e) => {
            return Err(e);
        },
    }
    proof {
        assert(entries_view(entries@) =~= dspec);
    }
    sort_entries_by_line_number(&mut entries);
    let timestamp = now_rfc3339();
    Ok(DiffResult { left_file: None, right_file: None, timestamp, entries })
}

/// Compare two JSON values and generate a diff result, without any line
/// information.
pub fn compare_json(
    left: &JsonValue,
    right: &JsonValue,
    options: &CompareOptions,
) -> (r: Result<DiffResult, JsonDiffError>)
    requires
        options.wf(),
    ensures
        r matches Ok(d) && d.left_file is None && d.right_file is None && entries_view(d.entries@)
            == spec_sort(
            spec_diff(
                left@,
                right@,
                "$"@,
                options@,
                Seq::<(Seq<char>, usize)>::empty(),
                Seq::<(Seq<char>, usize)>::empty(),
            ),
        ),
{
    let empty_map = LineMap::new();
    compare_json_with_lines(left, right, options, &empty_map, &empty_map)
}

/// A copy of an array's elements.
fn clone_items(items: &Vec<JsonValue>) -> (r: Vec<JsonValue>)
    ensures
        items_deep(r@) == items_deep(items@),
{
    let n = items.len();
    let mut out: Vec<JsonValue> = Vec::new();
    let mut i: usize = 0;
    while i < n
        invariant
            i <= n,
            n == items@.len(),
            out@.len() == i,
            forall|k: int| 0 <= k < i ==> #[trigger] out@[k].deep() == items@[k].deep(),
        decreases n - i,
    {
        out.push(items[i].clone());
        i = i + 1;
    }
    proof {
        assert forall|k: int| 0 <= k < items_deep(out@).len() implies items_deep(out@)[k]
            == items_deep(items@)[k] by {
            assert(out@[k].deep() == items@[k].deep());
        }
        assert(items_deep(out@) =~= items_deep(items@));
    }
    out
}

} // verus!
