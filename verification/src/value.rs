//! The document tree that the comparison engine walks.
//!
//! A document is held as a plain recursive value.  Numbers are kept as their
//! literal text, so that a document round-trips without any numeric
//! re-interpretation; two numbers are equal exactly when their literals are.
//! Object fields keep their source order, which is the order the engine
//! iterates them in.

use vstd::prelude::*;

verus! {

/// Mathematical model of a document tree, used by every contract.
#[verifier::ext_equal]
pub enum SpecValue {
    Null,
    Bool(bool),
    Num(Seq<char>),
    Str(Seq<char>),
    Arr(Seq<SpecValue>),
    Obj(Seq<(Seq<char>, SpecValue)>),
}

/// A parsed JSON document tree.
#[derive(Debug)]
pub enum JsonValue {
    Null,
    Bool(bool),
    Num(String),
    Str(String),
    Arr(Vec<JsonValue>),
    Obj(Vec<(String, JsonValue)>),
}

/// The mathematical values of a sequence of trees.
pub open spec fn items_deep(items: Seq<JsonValue>) -> Seq<SpecValue>
    decreases items,
{
    Seq::new(
        items.len(),
        |i: int|
            if 0 <= i < items.len() {
                items[i].deep()
            } else {
                SpecValue::Null
            },
    )
}

/// The mathematical values of a sequence of object fields.
pub open spec fn fields_deep(fields: Seq<(String, JsonValue)>) -> Seq<(Seq<char>, SpecValue)>
    decreases fields,
{
    Seq::new(
        fields.len(),
        |i: int|
            if 0 <= i < fields.len() {
                (fields[i].0@, fields[i].1.deep())
            } else {
                (Seq::<char>::empty(), SpecValue::Null)
            },
    )
}

impl JsonValue {
    /// The mathematical value of this tree.
    pub open spec fn deep(self) -> SpecValue
        decreases self,
    {
        match self {
            JsonValue::Null => SpecValue::Null,
            JsonValue::Bool(b) => SpecValue::Bool(b),
            JsonValue::Num(s) => SpecValue::Num(s@),
            JsonValue::Str(s) => SpecValue::Str(s@),
            JsonValue::Arr(items) => SpecValue::Arr(items_deep(items@)),
            JsonValue::Obj(fields) => SpecValue::Obj(fields_deep(fields@)),
        }
    }
}

impl View for JsonValue {
    type V = SpecValue;

    open spec fn view(&self) -> SpecValue {
        self.deep()
    }
}

impl JsonValue {
    /// The string payload, when this is a string value.
    pub fn as_str(&self) -> (r: Option<&str>)
        ensures
            match *self {
                JsonValue::Str(ref s) => r matches Some(t) && t@ == s@,
                _ => r is None,
            },
    {
        match self {
            JsonValue::Str(s) => Some(s.as_str()),
            _ => None,
        }
    }
}

impl Clone for JsonValue {
    /// A clone denotes the same mathematical value as the original.
    fn clone(&self) -> (r: Self)
        ensures
            r@ == self@,
        decreases self,
    {
        match self {
            JsonValue::Null => JsonValue::Null,
            JsonValue::Bool(b) => JsonValue::Bool(*b),
            JsonValue::Num(s) => JsonValue::Num(s.clone()),
            JsonValue::Str(s) => JsonValue::Str(s.clone()),
            JsonValue::Arr(items) => {
                let mut out: Vec<JsonValue> = Vec::new();
                let n = items.len();
                let mut i: usize = 0;
                while i < n
                    invariant
                        i <= n,
                        out@.len() == i,
                        forall|j: int| 0 <= j < i ==> #[trigger] out@[j].deep() == items@[j].deep(),
                    decreases n - i,
                {
                    out.push(items[i].clone());
                    i = i + 1;
                }
                let r = JsonValue::Arr(out);
                proof {
                    let s1 = r.deep()->Arr_0;
                    let s2 = self.deep()->Arr_0;
                    assert(s1.len() == s2.len());
                    assert forall|k: int| 0 <= k < s1.len() implies s1[k] == s2[k] by {
                        assert(out@[k].deep() == items@[k].deep());
                    }
                    assert(s1 =~= s2);
                    assert(r.deep() =~= self.deep());
                }
                r
            },
            JsonValue::Obj(fields) => {
                let mut out: Vec<(String, JsonValue)> = Vec::new();
                let n = fields.len();
                let mut i: usize = 0;
                while i < n
                    invariant
                        i <= n,
                        out@.len() == i,
                        forall|j: int| 0 <= j < i ==> out@[j].0@ == fields@[j].0@
                            && #[trigger] out@[j].1.deep() == fields@[j].1.deep(),
                    decreases n - i,
                {
                    let key = fields[i].0.clone();
                    let val = fields[i].1.clone();
                    out.push((key, val));
                    i = i + 1;
                }
                let r = JsonValue::Obj(out);
                proof {
                    let s1 = r.deep()->Obj_0;
                    let s2 = self.deep()->Obj_0;
                    assert(s1.len() == s2.len());
                    assert forall|k: int| 0 <= k < s1.len() implies s1[k] == s2[k] by {
                        assert(out@[k].1.deep() == fields@[k].1.deep());
                        assert(s1[k] == (out@[k].0@, out@[k].1.deep()));
                        assert(s2[k] == (fields@[k].0@, fields@[k].1.deep()));
                    }
                    assert(s1 =~= s2);
                    assert(r.deep() =~= self.deep());
                }
                r
            },
        }
    }
}

impl PartialEq for JsonValue {
    /// Two trees compare equal exactly when they denote the same value.
    fn eq(&self, other: &Self) -> (r: bool)
        ensures
            r == (self@ == other@),
        decreases self,
    {
        match (self, other) {
            (JsonValue::Null, JsonValue::Null) => true,
            (JsonValue::Bool(a), JsonValue::Bool(b)) => *a == *b,
            (JsonValue::Num(a), JsonValue::Num(b)) => *a == *b,
            (JsonValue::Str(a), JsonValue::Str(b)) => *a == *b,
            (JsonValue::Arr(xs), JsonValue::Arr(ys)) => {
                if xs.len() != ys.len() {
                    proof {
                        assert(self.deep()->Arr_0.len() == xs@.len());
                        assert(other.deep()->Arr_0.len() == ys@.len());
                    }
                    return false;
                }
                let n = xs.len();
                let mut i: usize = 0;
                while i < n
                    invariant
                        i <= n,
                        forall|j: int| 0 <= j < i ==> #[trigger] xs@[j].deep() == ys@[j].deep(),
                    decreases n - i,
                {
                    if !xs[i].eq(&ys[i]) {
                        proof {
                            assert(self.deep()->Arr_0[i as int] == xs@[i as int].deep());
                            assert(other.deep()->Arr_0[i as int] == ys@[i as int].deep());
                        }
                        return false;
                    }
                    i = i + 1;
                }
                proof {
                    let s1 = self.deep()->Arr_0;
                    let s2 = other.deep()->Arr_0;
                    assert(s1.len() == s2.len());
                    assert forall|k: int| 0 <= k < s1.len() implies s1[k] == s2[k] by {
                        assert(xs@[k].deep() == ys@[k].deep());
                    }
                    assert(s1 =~= s2);
                    assert(self.deep() =~= other.deep());
                }
                true
            },
            (JsonValue::Obj(xs), JsonValue::Obj(ys)) => {
                if xs.len() != ys.len() {
                    proof {
                        assert(self.deep()->Obj_0.len() == xs@.len());
                        assert(other.deep()->Obj_0.len() == ys@.len());
                    }
                    return false;
                }
                let n = xs.len();
                let mut i: usize = 0;
                while i < n
                    invariant
                        i <= n,
                        forall|j: int| 0 <= j < i ==> xs@[j].0@ == ys@[j].0@
                            && #[trigger] xs@[j].1.deep() == ys@[j].1.deep(),
                    decreases n - i,
                {
                    if !(xs[i].0.eq(&ys[i].0) && xs[i].1.eq(&ys[i].1)) {
                        proof {
                            assert(self.deep()->Obj_0[i as int]
                                == (xs@[i as int].0@, xs@[i as int].1.deep()));
                            assert(other.deep()->Obj_0[i as int]
                                == (ys@[i as int].0@, ys@[i as int].1.deep()));
                        }
                        return false;
                    }
                    i = i + 1;
                }
                proof {
                    let s1 = self.deep()->Obj_0;
                    let s2 = other.deep()->Obj_0;
                    assert(s1.len() == s2.len());
                    assert forall|k: int| 0 <= k < s1.len() implies s1[k] == s2[k] by {
                        assert(xs@[k].1.deep() == ys@[k].1.deep());
                        assert(s1[k] == (xs@[k].0@, xs@[k].1.deep()));
                        assert(s2[k] == (ys@[k].0@, ys@[k].1.deep()));
                    }
                    assert(s1 =~= s2);
                    assert(self.deep() =~= other.deep());
                }
                true
            },
            _ => false,
        }
    }
}

impl Eq for JsonValue {

}

impl vstd::std_specs::cmp::PartialEqSpecImpl for JsonValue {
    open spec fn obeys_eq_spec() -> bool {
        true
    }

    open spec fn eq_spec(&self, other: &JsonValue) -> bool {
        self@ == other@
    }
}

/// Whether an object field list has pairwise distinct keys.
pub open spec fn distinct_keys(fields: Seq<(Seq<char>, SpecValue)>) -> bool {
    forall|i: int, j: int|
        0 <= i < j < fields.len() ==> (#[trigger] fields[i]).0 != (#[trigger] fields[j]).0
}

/// A well-formed tree: every object, at any depth, has distinct keys.
pub open spec fn wf_value(v: SpecValue) -> bool
    decreases v,
{
    match v {
        SpecValue::Arr(items) => wf_items(items),
        SpecValue::Obj(fields) => distinct_keys(fields) && wf_fields(fields),
        _ => true,
    }
}

pub open spec fn wf_items(items: Seq<SpecValue>) -> bool
    decreases items,
{
    if items.len() == 0 {
        true
    } else {
        wf_value(items[0]) && wf_items(items.drop_first())
    }
}

pub open spec fn wf_fields(fields: Seq<(Seq<char>, SpecValue)>) -> bool
    decreases fields,
{
    if fields.len() == 0 {
        true
    } else {
        wf_value(fields[0].1) && wf_fields(fields.drop_first())
    }
}

pub proof fn lemma_wf_items_elem(items: Seq<SpecValue>, i: int)
    requires
        wf_items(items),
        0 <= i < items.len(),
    ensures
        wf_value(items[i]),
    decreases items.len(),
{
    if i > 0 {
        lemma_wf_items_elem(items.drop_first(), i - 1);
        assert(items.drop_first()[i - 1] == items[i]);
    }
}

pub proof fn lemma_wf_fields_elem(fields: Seq<(Seq<char>, SpecValue)>, i: int)
    requires
        wf_fields(fields),
        0 <= i < fields.len(),
    ensures
        wf_value(fields[i].1),
    decreases fields.len(),
{
    if i > 0 {
        lemma_wf_fields_elem(fields.drop_first(), i - 1);
        assert(fields.drop_first()[i - 1] == fields[i]);
    }
}

/// A tree with no arrays anywhere: scalars and objects only.
pub open spec fn obj_only(v: SpecValue) -> bool
    decreases v,
{
    match v {
        SpecValue::Arr(_) => false,
        SpecValue::Obj(fields) => obj_only_fields(fields),
        _ => true,
    }
}

pub open spec fn obj_only_fields(fields: Seq<(Seq<char>, SpecValue)>) -> bool
    decreases fields,
{
    if fields.len() == 0 {
        true
    } else {
        obj_only(fields[0].1) && obj_only_fields(fields.drop_first())
    }
}

pub proof fn lemma_obj_only_get_val(fields: Seq<(Seq<char>, SpecValue)>, key: Seq<char>)
    requires
        obj_only_fields(fields),
    ensures
        obj_only(spec_get_val(fields, key)),
    decreases fields.len(),
{
    if fields.len() == 0 {
    } else if fields[0].0 == key {
    } else {
        lemma_obj_only_get_val(fields.drop_first(), key);
    }
}

pub proof fn lemma_wf_get_val(fields: Seq<(Seq<char>, SpecValue)>, key: Seq<char>)
    requires
        wf_fields(fields),
    ensures
        wf_value(spec_get_val(fields, key)),
    decreases fields.len(),
{
    if fields.len() == 0 {
    } else if fields[0].0 == key {
    } else {
        lemma_wf_get_val(fields.drop_first(), key);
    }
}

/// Dropping the first field does not change what other keys look up to.
pub proof fn lemma_get_val_drop_first(fields: Seq<(Seq<char>, SpecValue)>, key: Seq<char>)
    requires
        fields.len() > 0,
        fields[0].0 != key,
    ensures
        spec_get_val(fields.drop_first(), key) == spec_get_val(fields, key),
        spec_has_key(fields.drop_first(), key) == spec_has_key(fields, key),
{
    if spec_has_key(fields, key) {
        let w = choose|w: int| 0 <= w < fields.len() && fields[w].0 == key;
        assert(fields.drop_first()[w - 1] == fields[w]);
    }
    if spec_has_key(fields.drop_first(), key) {
        let w = choose|w: int| 0 <= w < fields.drop_first().len() && fields.drop_first()[w].0
            == key;
        assert(fields.drop_first()[w] == fields[w + 1]);
    }
}

/// Removing one field does not change what other keys look up to.
pub proof fn lemma_get_val_remove(fields: Seq<(Seq<char>, SpecValue)>, j: int, key: Seq<char>)
    requires
        0 <= j < fields.len(),
        fields[j].0 != key,
    ensures
        spec_get_val(fields.remove(j), key) == spec_get_val(fields, key),
        spec_has_key(fields.remove(j), key) == spec_has_key(fields, key),
    decreases j,
{
    if spec_has_key(fields, key) {
        let w = choose|w: int| 0 <= w < fields.len() && fields[w].0 == key;
        if w < j {
            assert(fields.remove(j)[w] == fields[w]);
        } else {
            assert(fields.remove(j)[w - 1] == fields[w]);
        }
    }
    if spec_has_key(fields.remove(j), key) {
        let w = choose|w: int| 0 <= w < fields.remove(j).len() && fields.remove(j)[w].0 == key;
        if w < j {
            assert(fields.remove(j)[w] == fields[w]);
        } else {
            assert(fields.remove(j)[w] == fields[w + 1]);
        }
    }
    if j == 0 {
        assert(fields.remove(0) =~= fields.drop_first());
        lemma_get_val_drop_first(fields, key);
    } else {
        if fields[0].0 == key {
            assert(fields.remove(j)[0] == fields[0]);
        } else {
            assert(fields.remove(j)[0] == fields[0]);
            assert(fields.remove(j).drop_first() =~= fields.drop_first().remove(j - 1));
            lemma_get_val_remove(fields.drop_first(), j - 1, key);
            lemma_get_val_drop_first(fields, key);
            lemma_get_val_drop_first(fields.remove(j), key);
        }
    }
}

/// A key that cannot be confused with address punctuation: it contains
/// neither `.` nor `[`.
pub open spec fn clean_key(k: Seq<char>) -> bool {
    forall|i: int| 0 <= i < k.len() ==> (#[trigger] k[i]) != '.' && k[i] != '['
}

/// A tree all of whose object keys, at any depth, are clean.  Under such
/// keys every address of the tree has an unambiguous segmentation.
pub open spec fn clean_keys(v: SpecValue) -> bool
    decreases v,
{
    match v {
        SpecValue::Arr(items) => clean_items(items),
        SpecValue::Obj(fields) => clean_fields(fields),
        _ => true,
    }
}

pub open spec fn clean_items(items: Seq<SpecValue>) -> bool
    decreases items,
{
    if items.len() == 0 {
        true
    } else {
        clean_keys(items[0]) && clean_items(items.drop_first())
    }
}

pub open spec fn clean_fields(fields: Seq<(Seq<char>, SpecValue)>) -> bool
    decreases fields,
{
    if fields.len() == 0 {
        true
    } else {
        clean_key(fields[0].0) && clean_keys(fields[0].1) && clean_fields(fields.drop_first())
    }
}

pub proof fn lemma_clean_items_elem(items: Seq<SpecValue>, i: int)
    requires
        clean_items(items),
        0 <= i < items.len(),
    ensures
        clean_keys(items[i]),
    decreases items.len(),
{
    if i > 0 {
        lemma_clean_items_elem(items.drop_first(), i - 1);
        assert(items.drop_first()[i - 1] == items[i]);
    }
}

pub proof fn lemma_clean_fields_elem(fields: Seq<(Seq<char>, SpecValue)>, i: int)
    requires
        clean_fields(fields),
        0 <= i < fields.len(),
    ensures
        clean_key(fields[i].0),
        clean_keys(fields[i].1),
    decreases fields.len(),
{
    if i > 0 {
        lemma_clean_fields_elem(fields.drop_first(), i - 1);
        assert(fields.drop_first()[i - 1] == fields[i]);
    }
}

pub proof fn lemma_clean_get_val(fields: Seq<(Seq<char>, SpecValue)>, key: Seq<char>)
    requires
        clean_fields(fields),
    ensures
        clean_keys(spec_get_val(fields, key)),
    decreases fields.len(),
{
    if fields.len() == 0 {
    } else if fields[0].0 == key {
    } else {
        lemma_clean_get_val(fields.drop_first(), key);
    }
}

/// The mathematical value of an optional tree.
pub open spec fn opt_deep(o: Option<JsonValue>) -> Option<SpecValue> {
    match o {
        Some(v) => Some(v.deep()),
        None => None,
    }
}

/// The nesting height of a value; the measure that bounds the recursion of
/// the comparison engine.
pub open spec fn sv_height(v: SpecValue) -> nat
    decreases v,
{
    match v {
        SpecValue::Arr(items) => 1 + height_arr(items),
        SpecValue::Obj(fields) => 1 + height_obj(fields),
        _ => 0,
    }
}

/// The largest height among array elements.
pub open spec fn height_arr(items: Seq<SpecValue>) -> nat
    decreases items,
{
    if items.len() == 0 {
        0
    } else {
        let h0 = sv_height(items[0]);
        let hr = height_arr(items.drop_first());
        if h0 >= hr {
            h0
        } else {
            hr
        }
    }
}

/// The largest height among object field values.
pub open spec fn height_obj(fields: Seq<(Seq<char>, SpecValue)>) -> nat
    decreases fields,
{
    if fields.len() == 0 {
        0
    } else {
        let h0 = sv_height(fields[0].1);
        let hr = height_obj(fields.drop_first());
        if h0 >= hr {
            h0
        } else {
            hr
        }
    }
}

pub proof fn lemma_height_arr_elem(items: Seq<SpecValue>, i: int)
    requires
        0 <= i < items.len(),
    ensures
        sv_height(items[i]) <= height_arr(items),
    decreases items.len(),
{
    if i == 0 {
    } else {
        lemma_height_arr_elem(items.drop_first(), i - 1);
        assert(items.drop_first()[i - 1] == items[i]);
    }
}

pub proof fn lemma_height_obj_elem(fields: Seq<(Seq<char>, SpecValue)>, i: int)
    requires
        0 <= i < fields.len(),
    ensures
        sv_height(fields[i].1) <= height_obj(fields),
    decreases fields.len(),
{
    if i == 0 {
    } else {
        lemma_height_obj_elem(fields.drop_first(), i - 1);
        assert(fields.drop_first()[i - 1] == fields[i]);
    }
}

/// Whether an object field list holds the key.
pub open spec fn spec_has_key(fields: Seq<(Seq<char>, SpecValue)>, key: Seq<char>) -> bool {
    exists|i: int| 0 <= i < fields.len() && fields[i].0 == key
}

/// The value of the first field with the key.
pub open spec fn spec_get_val(fields: Seq<(Seq<char>, SpecValue)>, key: Seq<char>) -> SpecValue
    decreases fields.len(),
{
    if fields.len() == 0 {
        SpecValue::Null
    } else if fields[0].0 == key {
        fields[0].1
    } else {
        spec_get_val(fields.drop_first(), key)
    }
}

pub proof fn lemma_get_val_height(fields: Seq<(Seq<char>, SpecValue)>, key: Seq<char>)
    ensures
        sv_height(spec_get_val(fields, key)) <= height_obj(fields),
    decreases fields.len(),
{
    if fields.len() == 0 {
    } else if fields[0].0 == key {
    } else {
        lemma_get_val_height(fields.drop_first(), key);
    }
}

/// The index of the first field with the key, if any.
pub fn obj_index(fields: &Vec<(String, JsonValue)>, key: &str) -> (r: Option<usize>)
    ensures
        match r {
            Some(i) => 0 <= i < fields@.len() && fields@[i as int].0@ == key@ && spec_get_val(
                fields_deep(fields@),
                key@,
            ) == fields@[i as int].1.deep() && spec_has_key(fields_deep(fields@), key@),
            None => !spec_has_key(fields_deep(fields@), key@),
        },
{
    let n = fields.len();
    let mut i: usize = 0;
    while i < n
        invariant
            i <= n,
            n == fields@.len(),
            forall|k: int| 0 <= k < i ==> fields@[k].0@ != key@,
        decreases n - i,
    {
        if crate::strutil::str_eq(fields[i].0.as_str(), key) {
            proof {
                lemma_get_val_first(fields_deep(fields@), key@, i as int);
            }
            return Some(i);
        }
        i = i + 1;
    }
    proof {
        assert forall|k: int| 0 <= k < fields_deep(fields@).len() implies fields_deep(fields@)[k].0
            != key@ by {
            assert(fields_deep(fields@)[k].0 == fields@[k].0@);
        }
    }
    None
}

/// The first match determines the looked-up value.
pub proof fn lemma_get_val_first(fields: Seq<(Seq<char>, SpecValue)>, key: Seq<char>, i: int)
    requires
        0 <= i < fields.len(),
        fields[i].0 == key,
        forall|k: int| 0 <= k < i ==> fields[k].0 != key,
    ensures
        spec_has_key(fields, key),
        spec_get_val(fields, key) == fields[i].1,
    decreases i,
{
    if i == 0 {
    } else {
        lemma_get_val_first(fields.drop_first(), key, i - 1);
        assert(fields.drop_first()[i - 1] == fields[i]);
    }
}

} // verus!
