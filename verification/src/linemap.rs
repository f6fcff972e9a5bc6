//! The line correlator's address-to-line table, and the lookup chain that
//! resolves an address to a source line.
//!
//! The table is an association list keyed by address strings, filled once
//! per document in traversal order; every key is inserted at most once per
//! build, so a plain first-match lookup is exact.  Resolution tries the
//! exact address, then walks up the address by stripping trailing `.`
//! segments, then falls back to the bare field name, and gives up with
//! `None`.  The result is advisory positional metadata only.

use vstd::prelude::*;
use vstd::string::StrSliceExecFns;
use crate::value::JsonValue;
use crate::value::SpecValue;
use vstd::string::StringExecFns;
use crate::strutil::spec_ends_with;
use crate::strutil::spec_find;
use crate::strutil::spec_rfind;
use crate::strutil::str_ends_with;
use crate::strutil::str_eq;
use crate::strutil::str_find;
use crate::strutil::str_prefix;
use crate::strutil::str_rfind;

verus! {

/// The first entry for `key`, if the table holds one.
pub open spec fn lm_get(m: Seq<(Seq<char>, usize)>, key: Seq<char>) -> Option<usize> {
    if exists|i: int|
        0 <= i < m.len() && m[i].0 == key && (forall|k: int| 0 <= k < i ==> m[k].0 != key) {
        let i = choose|i: int|
            0 <= i < m.len() && m[i].0 == key && (forall|k: int| 0 <= k < i ==> m[k].0 != key);
        Some(m[i].1)
    } else {
        None
    }
}

/// The table after an insert: the first entry for the key is replaced, or
/// a new entry is appended.
pub open spec fn lm_insert(m: Seq<(Seq<char>, usize)>, key: Seq<char>, line: usize) -> Seq<
    (Seq<char>, usize),
> {
    if exists|i: int|
        0 <= i < m.len() && m[i].0 == key && (forall|k: int| 0 <= k < i ==> m[k].0 != key) {
        let i = choose|i: int|
            0 <= i < m.len() && m[i].0 == key && (forall|k: int| 0 <= k < i ==> m[k].0 != key);
        m.update(i, (key, line))
    } else {
        m.push((key, line))
    }
}

/// A mapping from addresses to source line numbers.
#[derive(Debug)]
pub struct LineMap {
    entries: Vec<(String, usize)>,
}

impl View for LineMap {
    type V = Seq<(Seq<char>, usize)>;

    closed spec fn view(&self) -> Seq<(Seq<char>, usize)> {
        Seq::new(self.entries@.len(), |i: int| (self.entries@[i].0@, self.entries@[i].1))
    }
}

impl LineMap {
    /// An empty table.
    pub fn new() -> (r: Self)
        ensures
            r@ == Seq::<(Seq<char>, usize)>::empty(),
    {
        let r = LineMap { entries: Vec::new() };
        proof {
            assert(r@ =~= Seq::<(Seq<char>, usize)>::empty());
        }
        r
    }

    /// Records a line for an address, replacing any earlier record.
    pub fn insert(&mut self, key: String, line: usize)
        ensures
            final(self)@ == lm_insert(old(self)@, key@, line),
    {
        let ghost m = self@;
        let n = self.entries.len();
        let mut i: usize = 0;
        while i < n
            invariant
                i <= n,
                n == self.entries@.len(),
                *self == *old(self),
                forall|k: int| 0 <= k < i ==> m[k].0 != key@,
            decreases n - i,
        {
            if str_eq(self.entries[i].0.as_str(), key.as_str()) {
                proof {
                    assert(m[i as int].0 == key@);
                }
                self.entries.set(i, (key, line));
                proof {
                    assert(self@ =~= lm_insert(m, key@, line));
                }
                return;
            }
            i = i + 1;
        }
        self.entries.push((key, line));
        proof {
            assert(self@ =~= lm_insert(m, key@, line));
        }
    }

    /// Looks an address up, exactly.
    pub fn get(&self, key: &str) -> (r: Option<usize>)
        ensures
            r == lm_get(self@, key@),
    {
        let n = self.entries.len();
        let mut i: usize = 0;
        while i < n
            invariant
                i <= n,
                n == self.entries@.len(),
                forall|k: int| 0 <= k < i ==> self@[k].0 != key@,
            decreases n - i,
        {
            if str_eq(self.entries[i].0.as_str(), key) {
                proof {
                    assert(self@[i as int].0 == key@);
                }
                return Some(self.entries[i].1);
            }
            i = i + 1;
        }
        None
    }
}

/// The parent-walk fallback: strip the last `.` segment and look the
/// shorter address up, repeatedly.
pub open spec fn spec_parent_walk(m: Seq<(Seq<char>, usize)>, cur: Seq<char>) -> Option<usize>
    decreases cur.len(),
{
    match spec_rfind(cur, '.') {
        None => None,
        Some(j) => {
            let parent = cur.take(j);
            if 0 <= j < cur.len() {
                match lm_get(m, parent) {
                    Some(l) => Some(l),
                    None => spec_parent_walk(m, parent),
                }
            } else {
                None
            }
        },
    }
}

/// The bare field name of an address: the part after the last `.`, cut at
/// the first `[`.
pub open spec fn spec_clean_field(path: Seq<char>) -> Seq<char> {
    let field = match spec_rfind(path, '.') {
        Some(j) => path.skip(j + 1),
        None => path,
    };
    match spec_find(field, '[') {
        Some(k) => field.take(k),
        None => field,
    }
}

/// Whether a recorded address counts as a hit for a bare field name.
pub open spec fn spec_field_hit(key: Seq<char>, clean: Seq<char>) -> bool {
    spec_ends_with(key, seq!['.'] + clean) || key == seq!['$', '.'] + clean
}

/// The field-name fallback: the first recorded address that ends in the
/// bare field name.
pub open spec fn spec_field_fallback(m: Seq<(Seq<char>, usize)>, path: Seq<char>) -> Option<
    usize,
> {
    let clean = spec_clean_field(path);
    if exists|i: int|
        0 <= i < m.len() && spec_field_hit(m[i].0, clean) && (forall|k: int|
            0 <= k < i ==> !spec_field_hit(m[k].0, clean)) {
        let i = choose|i: int|
            0 <= i < m.len() && spec_field_hit(m[i].0, clean) && (forall|k: int|
                0 <= k < i ==> !spec_field_hit(m[k].0, clean));
        Some(m[i].1)
    } else {
        None
    }
}

/// The whole lookup chain: exact hit, then parent walk, then field-name
/// fallback.
pub open spec fn spec_find_line(m: Seq<(Seq<char>, usize)>, path: Seq<char>) -> Option<usize> {
    match lm_get(m, path) {
        Some(l) => Some(l),
        None => match spec_parent_walk(m, path) {
            Some(l) => Some(l),
            None => spec_field_fallback(m, path),
        },
    }
}

/// Find the line number recorded for an address, with fallback strategies.
pub fn find_line_for_path(path: &str, line_map: &LineMap) -> (r: Option<usize>)
    ensures
        r == spec_find_line(line_map@, path@),
{
    // Try exact match first.
    if let Some(line) = line_map.get(path) {
        return Some(line);
    }

    // Walk up the address, stripping one trailing segment at a time.
    let mut cur = String::from_str(path);
    #[verifier::loop_isolation(true)]
    loop
        invariant
            lm_get(line_map@, path@) is None,
            spec_parent_walk(line_map@, cur@) == spec_parent_walk(line_map@, path@),
        ensures
            spec_parent_walk(line_map@, path@) is None,
        decreases cur@.len(),
    {
        match str_rfind(cur.as_str(), '.') {
            None => {
                break;
            },
            Some(j) => {
                let parent = str_prefix(cur.as_str(), j);
                if let Some(line) = line_map.get(parent.as_str()) {
                    return Some(line);
                }
                cur = parent;
            },
        }
    }

    // Fall back to the bare field name.
    let path_len = path.unicode_len();
    let field = match str_rfind(path, '.') {
        Some(j) => path.substring_char(j + 1, path_len),
        None => path,
    };
    proof {
        assert(match spec_rfind(path@, '.') {
            Some(j) => field@ =~= path@.skip(j + 1),
            None => field@ == path@,
        });
    }
    let clean = match str_find(field, '[') {
        Some(k) => field.substring_char(0, k),
        None => field,
    };
    proof {
        assert(clean@ =~= spec_clean_field(path@));
    }

    let mut dot_clean = String::from_str(".");
    dot_clean.append(clean);
    let mut dollar_clean = String::from_str("$.");
    dollar_clean.append(clean);
    proof {
        reveal_strlit(".");
        reveal_strlit("$.");
        assert(dot_clean@ =~= seq!['.'] + spec_clean_field(path@));
        assert(dollar_clean@ =~= seq!['$', '.'] + spec_clean_field(path@));
    }

    let entries = line_map.entries_ref();
    let n = entries.len();
    let mut i: usize = 0;
    while i < n
        invariant
            i <= n,
            n == line_map@.len(),
            forall|k: int| 0 <= k < i ==> !spec_field_hit(line_map@[k].0, spec_clean_field(path@)),
        decreases n - i,
    {
        let key = &entries[i].0;
        if str_ends_with(key.as_str(), dot_clean.as_str())
            || str_eq(key.as_str(), dollar_clean.as_str()) {
            proof {
                assert(spec_field_hit(line_map@[i as int].0, spec_clean_field(path@)));
            }
            return Some(entries[i].1);
        }
        i = i + 1;
    }
    None
}

/// A line with a trailing carriage return loses it, as when text is split
/// at CRLF line endings.
pub open spec fn spec_strip_cr(l: Seq<char>) -> Seq<char> {
    if l.len() > 0 && l[l.len() - 1] == '\r' {
        l.drop_last()
    } else {
        l
    }
}

/// The lines of a text: split at each newline, with a carriage return
/// before the newline dropped, and no empty line after a final newline.
pub open spec fn spec_lines(s: Seq<char>) -> Seq<Seq<char>>
    decreases s.len(),
{
    if s.len() == 0 {
        Seq::<Seq<char>>::empty()
    } else {
        match spec_find(s, '\n') {
            None => seq![s],
            Some(j) => {
                if 0 <= j < s.len() {
                    seq![spec_strip_cr(s.take(j))] + spec_lines(s.skip(j + 1))
                } else {
                    seq![s]
                }
            },
        }
    }
}

/// The character sequences of a vector of lines.
pub open spec fn lines_deep(v: Seq<Vec<char>>) -> Seq<Seq<char>> {
    Seq::new(v.len(), |i: int| v[i]@)
}

/// Splits a text into its lines.
#[verifier::rlimit(60)]
fn split_lines(chars: &Vec<char>) -> (r: Vec<Vec<char>>)
    ensures
        lines_deep(r@) == spec_lines(chars@),
{
    let n = chars.len();
    let mut out: Vec<Vec<char>> = Vec::new();
    let mut start: usize = 0;
    proof {
        assert(chars@.skip(0) =~= chars@);
        assert(lines_deep(out@) + spec_lines(chars@) =~= spec_lines(chars@));
    }
    while start < n
        invariant
            start <= n,
            n == chars@.len(),
            spec_lines(chars@) == lines_deep(out@) + spec_lines(chars@.skip(start as int)),
        decreases n - start,
    {
        let ghost rest = chars@.skip(start as int);
        let mut j = start;
        while j < n
            invariant
                start <= j <= n,
                forall|t: int| start <= t < j ==> chars@[t] != '\n',
            decreases n - j,
        {
            if chars[j] == '\n' {
                break;
            }
            j = j + 1;
        }
        let ghost pre = out@;
        if j < n {
            // A newline at j ends the line.
            proof {
                assert(rest[j - start] == '\n');
                assert(forall|t: int| 0 <= t < j - start ==> rest[t] != '\n');
                assert(spec_find(rest, '\n') == Some(j - start));
            }
            let mut line: Vec<char> = Vec::new();
            let mut t = start;
            while t < j
                invariant
                    start <= t <= j,
                    j <= n == chars@.len(),
                    line@ =~= chars@.subrange(start as int, t as int),
                decreases j - t,
            {
                line.push(chars[t]);
                t = t + 1;
            }
            if line.len() > 0 && line[line.len() - 1] == '\r' {
                line.pop();
            }
            proof {
                assert(rest.take(j - start) =~= chars@.subrange(start as int, j as int));
                assert(line@ =~= spec_strip_cr(rest.take(j - start)));
                assert(rest.skip(j - start + 1) =~= chars@.skip(j + 1));
                assert(lines_deep(pre.push(line)) =~= lines_deep(pre) + seq![line@]);
                assert(spec_lines(rest) == seq![line@] + spec_lines(chars@.skip(j + 1)));
                assert(lines_deep(pre) + (seq![line@] + spec_lines(chars@.skip(j + 1))) =~= (
                lines_deep(pre) + seq![line@]) + spec_lines(chars@.skip(j + 1)));
            }
            out.push(line);
            start = j + 1;
        } else {
            // No further newline: the rest is the final line, kept as is.
            proof {
                assert(forall|t: int| 0 <= t < rest.len() ==> rest[t] != '\n');
                assert(spec_find(rest, '\n') is None);
            }
            let mut line: Vec<char> = Vec::new();
            let mut t = start;
            while t < n
                invariant
                    start <= t <= n,
                    n == chars@.len(),
                    line@ =~= chars@.subrange(start as int, t as int),
                decreases n - t,
            {
                line.push(chars[t]);
                t = t + 1;
            }
            proof {
                assert(line@ =~= rest);
                assert(spec_lines(rest) == seq![line@]);
                assert(lines_deep(pre.push(line)) =~= lines_deep(pre) + seq![line@]);
                assert(chars@.skip(n as int) =~= Seq::<char>::empty());
                assert(lines_deep(pre) + (seq![line@] + spec_lines(Seq::<char>::empty())) =~= (
                lines_deep(pre) + seq![line@]) + spec_lines(Seq::<char>::empty()));
            }
            out.push(line);
            start = n;
        }
    }
    proof {
        assert(chars@.skip(n as int) =~= Seq::<char>::empty());
        assert(lines_deep(out@) + spec_lines(Seq::<char>::empty()) =~= lines_deep(out@));
    }
    out
}

/// The first position where `pat` occurs in `line`, if any.
pub open spec fn spec_find_sub(line: Seq<char>, pat: Seq<char>) -> Option<int> {
    if exists|st: int|
        0 <= st && st + pat.len() <= line.len() && #[trigger] line.subrange(st, st + pat.len())
            == pat && (forall|s2: int|
            0 <= s2 < st ==> !(s2 + pat.len() <= line.len() && #[trigger] line.subrange(
                s2,
                s2 + pat.len(),
            ) == pat)) {
        Some(
            choose|st: int|
                0 <= st && st + pat.len() <= line.len() && #[trigger] line.subrange(
                    st,
                    st + pat.len(),
                ) == pat && (forall|s2: int|
                    0 <= s2 < st ==> !(s2 + pat.len() <= line.len() && #[trigger] line.subrange(
                        s2,
                        s2 + pat.len(),
                    ) == pat)),
        )
    } else {
        None
    }
}

/// Whether, after skipping whitespace, the text starts with a colon.
pub open spec fn spec_colon_after(rest: Seq<char>) -> bool
    decreases rest.len(),
{
    if rest.len() == 0 {
        false
    } else if crate::strutil::char_is_whitespace(rest[0]) {
        spec_colon_after(rest.drop_first())
    } else {
        rest[0] == ':'
    }
}

/// Whether a line defines the field: its first occurrence of the quoted
/// name is followed, after optional whitespace, by a colon.
pub open spec fn spec_line_has_field(line: Seq<char>, name: Seq<char>) -> bool {
    let pat = seq!['"'] + name + seq!['"'];
    match spec_find_sub(line, pat) {
        None => false,
        Some(st) => spec_colon_after(line.skip(st + pat.len() as int)),
    }
}

/// The 1-based number of the first line that defines the field, if any.
pub open spec fn spec_field_line(content: Seq<char>, name: Seq<char>) -> Option<usize> {
    let lines = spec_lines(content);
    if exists|i: int|
        0 <= i < lines.len() && spec_line_has_field(lines[i], name) && (forall|k: int|
            0 <= k < i ==> !spec_line_has_field(lines[k], name)) {
        let i = choose|i: int|
            0 <= i < lines.len() && spec_line_has_field(lines[i], name) && (forall|k: int|
                0 <= k < i ==> !spec_line_has_field(lines[k], name));
        Some((i + 1) as usize)
    } else {
        None
    }
}

/// Whether `line` matches `pat` at position `st`.
fn matches_at(line: &Vec<char>, pat: &Vec<char>, st: usize) -> (r: bool)
    requires
        st + pat@.len() <= line@.len(),
    ensures
        r == (line@.subrange(st as int, st + pat@.len()) == pat@),
{
    let nn = line.len();
    let m = pat.len();
    let mut t: usize = 0;
    while t < m
        invariant
            t <= m,
            m == pat@.len(),
            nn == line@.len(),
            st + m <= nn,
            forall|u: int| 0 <= u < t ==> line@[st + u] == pat@[u],
        decreases m - t,
    {
        if line[st + t] != pat[t] {
            proof {
                assert(line@.subrange(st as int, st + pat@.len())[t as int] != pat@[t as int]);
            }
            return false;
        }
        t = t + 1;
    }
    proof {
        assert(line@.subrange(st as int, st + pat@.len()) =~= pat@);
    }
    true
}

/// Whether the line defines the field named by `name`.
fn line_has_field(line: &Vec<char>, name: &Vec<char>) -> (r: bool)
    ensures
        r == spec_line_has_field(line@, name@),
{
    let mut pat: Vec<char> = Vec::new();
    pat.push('"');
    let mut t: usize = 0;
    while t < name.len()
        invariant
            t <= name@.len(),
            pat@ =~= seq!['"'] + name@.subrange(0, t as int),
        decreases name@.len() - t,
    {
        pat.push(name[t]);
        t = t + 1;
    }
    pat.push('"');
    proof {
        assert(pat@ =~= seq!['"'] + name@ + seq!['"']);
    }

    let n = line.len();
    let m = pat.len();
    if m > n {
        proof {
            assert(spec_find_sub(line@, pat@) is None);
        }
        return false;
    }
    let mut st: usize = 0;
    while st <= n - m
        invariant
            0 <= st <= n - m + 1,
            m == pat@.len(),
            n == line@.len(),
            m <= n,
            forall|s2: int|
                0 <= s2 < st ==> !(s2 + pat@.len() <= line@.len() && #[trigger] line@.subrange(
                    s2,
                    s2 + pat@.len(),
                ) == pat@),
        decreases n - m - st + 1,
    {
        if matches_at(line, &pat, st) {
            // First occurrence found: check for a colon after it.
            proof {
                let w = choose|w: int|
                    0 <= w && w + pat@.len() <= line@.len() && #[trigger] line@.subrange(
                        w,
                        w + pat@.len(),
                    ) == pat@ && (forall|s2: int|
                        0 <= s2 < w ==> !(s2 + pat@.len() <= line@.len() && #[trigger] line@.subrange(
                            s2,
                            s2 + pat@.len(),
                        ) == pat@));
                assert(spec_find_sub(line@, pat@) == Some(w));
                assert(w == st as int);
            }
            let after = st + m;
            let mut k = after;
            while k < n
                invariant
                    after <= k <= n,
                    n == line@.len(),
                    spec_colon_after(line@.skip(k as int)) == spec_colon_after(
                        line@.skip(after as int),
                    ),
                decreases n - k,
            {
                let c = line[k];
                if c.is_whitespace() {
                    proof {
                        assert(line@.skip(k as int)[0] == line@[k as int]);
                        assert(line@.skip(k as int).drop_first() =~= line@.skip(k + 1));
                    }
                    k = k + 1;
                } else {
                    proof {
                        assert(line@.skip(k as int)[0] == line@[k as int]);
                    }
                    return c == ':';
                }
            }
            proof {
                assert(line@.skip(n as int) =~= Seq::<char>::empty());
            }
            return false;
        }
        st = st + 1;
    }
    proof {
        assert forall|s2: int|
            !(0 <= s2 && s2 + pat@.len() <= line@.len() && #[trigger] line@.subrange(
                s2,
                s2 + pat@.len(),
            ) == pat@ && (forall|s3: int|
                0 <= s3 < s2 ==> !(s3 + pat@.len() <= line@.len() && #[trigger] line@.subrange(
                    s3,
                    s3 + pat@.len(),
                ) == pat@))) by {
            if 0 <= s2 && s2 + pat@.len() <= line@.len() {
                assert(!(s2 + pat@.len() <= line@.len() && line@.subrange(s2, s2 + pat@.len())
                    == pat@));
            }
        }
        assert(spec_find_sub(line@, pat@) is None);
    }
    false
}

/// Find the 1-based line number where a field is defined: the first line
/// whose first occurrence of the quoted name is followed by a colon.
pub fn find_field_line_number(content: &str, field_name: &str) -> (r: Option<usize>)
    ensures
        r == spec_field_line(content@, field_name@),
{
    let chars = crate::strutil::to_chars(content);
    let name = crate::strutil::to_chars(field_name);
    let lines = split_lines(&chars);
    let n = lines.len();
    let mut i: usize = 0;
    while i < n
        invariant
            i <= n,
            n == lines@.len(),
            lines_deep(lines@) == spec_lines(content@),
            name@ == field_name@,
            forall|k: int|
                0 <= k < i ==> !spec_line_has_field(#[trigger] spec_lines(content@)[k], field_name@),
        decreases n - i,
    {
        if line_has_field(&lines[i], &name) {
            proof {
                let ls = spec_lines(content@);
                assert(ls[i as int] == lines@[i as int]@);
                let w = choose|w: int|
                    0 <= w < ls.len() && spec_line_has_field(ls[w], field_name@) && (forall|k: int|
                        0 <= k < w ==> !spec_line_has_field(ls[k], field_name@));
                assert(spec_line_has_field(ls[i as int], field_name@));
                assert(spec_field_line(content@, field_name@) == Some(((w + 1) as usize)));
                assert(w == i as int);
            }
            return Some(i + 1);
        }
        proof {
            assert(spec_lines(content@)[i as int] == lines@[i as int]@);
        }
        i = i + 1;
    }
    proof {
        assert(spec_field_line(content@, field_name@) is None);
    }
    None
}

/// The table after recording one subtree: each object field's first
/// defining line is recorded at the field's address, array elements
/// inherit their parent's line, and nested values are walked in order.
pub open spec fn spec_build_map(
    v: SpecValue,
    path: Seq<char>,
    content: Seq<char>,
    m: Seq<(Seq<char>, usize)>,
) -> Seq<(Seq<char>, usize)>
    decreases crate::value::sv_height(v), 0int, 0int,
{
    match v {
        SpecValue::Obj(fields) => spec_build_fields(fields, path, content, m, 0),
        SpecValue::Arr(items) => spec_build_items(items, path, content, m, 0),
        _ => m,
    }
}

pub open spec fn spec_build_fields(
    fields: Seq<(Seq<char>, SpecValue)>,
    path: Seq<char>,
    content: Seq<char>,
    m: Seq<(Seq<char>, usize)>,
    i: int,
) -> Seq<(Seq<char>, usize)>
    decreases crate::value::height_obj(fields), 1int, fields.len() - i,
    via spec_build_fields_dec
{
    if i < 0 || i >= fields.len() {
        m
    } else {
        let child = crate::strutil::spec_key_child(path, fields[i].0);
        let m1 = match spec_field_line(content, fields[i].0) {
            Some(ln) => lm_insert(m, child, ln),
            None => m,
        };
        let m2 = spec_build_map(fields[i].1, child, content, m1);
        spec_build_fields(fields, path, content, m2, i + 1)
    }
}

#[via_fn]
proof fn spec_build_fields_dec(
    fields: Seq<(Seq<char>, SpecValue)>,
    path: Seq<char>,
    content: Seq<char>,
    m: Seq<(Seq<char>, usize)>,
    i: int,
) {
    if 0 <= i < fields.len() {
        crate::value::lemma_height_obj_elem(fields, i);
    }
}

pub open spec fn spec_build_items(
    items: Seq<SpecValue>,
    path: Seq<char>,
    content: Seq<char>,
    m: Seq<(Seq<char>, usize)>,
    i: int,
) -> Seq<(Seq<char>, usize)>
    decreases crate::value::height_arr(items), 1int, items.len() - i,
    via spec_build_items_dec
{
    if i < 0 || i >= items.len() {
        m
    } else {
        let child = crate::strutil::spec_index_child(path, i as nat);
        let m1 = match lm_get(m, path) {
            Some(pl) => lm_insert(m, child, pl),
            None => m,
        };
        let m2 = spec_build_map(items[i], child, content, m1);
        spec_build_items(items, path, content, m2, i + 1)
    }
}

#[via_fn]
proof fn spec_build_items_dec(
    items: Seq<SpecValue>,
    path: Seq<char>,
    content: Seq<char>,
    m: Seq<(Seq<char>, usize)>,
    i: int,
) {
    if 0 <= i < items.len() {
        crate::value::lemma_height_arr_elem(items, i);
    }
}

/// Recursively record the lines of a subtree's addresses.
pub fn build_path_line_mapping(
    value: &JsonValue,
    current_path: &str,
    content: &str,
    line_map: &mut LineMap,
)
    ensures
        final(line_map)@ == spec_build_map(value@, current_path@, content@, old(line_map)@),
    decreases crate::value::sv_height(value@), 0int, 0int,
{
    match value {
        JsonValue::Obj(fields) => {
            let ghost fsv = crate::value::fields_deep(fields@);
            let ghost m0 = line_map@;
            let n = fields.len();
            let mut i: usize = 0;
            while i < n
                invariant
                    i <= n,
                    n == fields@.len(),
                    spec_build_fields(fsv, current_path@, content@, m0, 0) == spec_build_fields(
                        fsv,
                        current_path@,
                        content@,
                        line_map@,
                        i as int,
                    ),
                decreases n - i,
            {
                proof {
                    assert(fsv[i as int] == (fields@[i as int].0@, fields@[i as int].1.deep()));
                }
                let ghost m_i = line_map@;
                let child = crate::strutil::key_child(current_path, fields[i].0.as_str());
                match find_field_line_number(content, fields[i].0.as_str()) {
                    Some(ln) => {
                        let key_copy = child.clone();
                        line_map.insert(key_copy, ln);
                    },
                    None => {},
                }
                proof {
                    crate::value::lemma_height_obj_elem(fsv, i as int);
                }
                build_path_line_mapping(&fields[i].1, child.as_str(), content, line_map);
                i = i + 1;
            }
        },
        JsonValue::Arr(items) => {
            let ghost isv = crate::value::items_deep(items@);
            let ghost m0 = line_map@;
            let n = items.len();
            let mut i: usize = 0;
            while i < n
                invariant
                    i <= n,
                    n == items@.len(),
                    spec_build_items(isv, current_path@, content@, m0, 0) == spec_build_items(
                        isv,
                        current_path@,
                        content@,
                        line_map@,
                        i as int,
                    ),
                decreases n - i,
            {
                proof {
                    assert(isv[i as int] == items@[i as int].deep());
                }
                let ghost m_i = line_map@;
                let child = crate::strutil::index_child(current_path, i);
                match line_map.get(current_path) {
                    Some(parent_line) => {
                        let key_copy = child.clone();
                        line_map.insert(key_copy, parent_line);
                    },
                    None => {},
                }
                proof {
                    crate::value::lemma_height_arr_elem(isv, i as int);
                }
                build_path_line_mapping(&items[i], child.as_str(), content, line_map);
                i = i + 1;
            }
        },
        _ => {},
    }
}

/// Build a mapping from addresses to line numbers for one document.
pub fn build_line_number_map(content: &str, json: &JsonValue) -> (r: LineMap)
    ensures
        r@ == spec_build_map(json@, "$"@, content@, Seq::<(Seq<char>, usize)>::empty()),
{
    let mut line_map = LineMap::new();
    build_path_line_mapping(json, "$", content, &mut line_map);
    line_map
}

impl LineMap {
    /// The recorded entries, in insertion order.
    pub fn entries_ref(&self) -> (r: &Vec<(String, usize)>)
        ensures
            r@.len() == self@.len(),
            forall|i: int| 0 <= i < r@.len() ==> r@[i].0@ == self@[i].0 && r@[i].1 == self@[i].1,
    {
        &self.entries
    }
}

} // verus!
