//! Small verified string helpers shared by the path builder, the path
//! matcher and the line correlator.
//!
//! Addresses are plain strings, so the engine needs character-level
//! equality, suffix tests, searches and decimal rendering, each specified
//! over the `Seq<char>` view of the string involved.

use vstd::prelude::*;
use vstd::string::StrSliceExecFns;
use vstd::string::StringExecFns;

verus! {

/// Character-for-character equality of two string slices.
pub fn str_eq(a: &str, b: &str) -> (r: bool)
    ensures
        r == (a@ == b@),
{
    let na = a.unicode_len();
    let nb = b.unicode_len();
    if na != nb {
        return false;
    }
    let mut i: usize = 0;
    while i < na
        invariant
            i <= na,
            na == a@.len(),
            nb == b@.len(),
            na == nb,
            forall|j: int| 0 <= j < i ==> a@[j] == b@[j],
        decreases na - i,
    {
        if a.get_char(i) != b.get_char(i) {
            return false;
        }
        i = i + 1;
    }
    proof {
        assert(a@ =~= b@);
    }
    true
}

/// The characters of a string, collected into a vector.
pub fn to_chars(s: &str) -> (r: Vec<char>)
    ensures
        r@ == s@,
{
    let n = s.unicode_len();
    let mut out: Vec<char> = Vec::new();
    let mut i: usize = 0;
    while i < n
        invariant
            i <= n,
            n == s@.len(),
            out@ =~= s@.subrange(0, i as int),
        decreases n - i,
    {
        out.push(s.get_char(i));
        i = i + 1;
    }
    proof {
        assert(out@ =~= s@);
    }
    out
}

/// Whether `s` ends with the suffix `t`.
pub open spec fn spec_ends_with(s: Seq<char>, t: Seq<char>) -> bool {
    t.len() <= s.len() && s.subrange(s.len() - t.len(), s.len() as int) == t
}

pub fn str_ends_with(s: &str, t: &str) -> (r: bool)
    ensures
        r == spec_ends_with(s@, t@),
{
    let ns = s.unicode_len();
    let nt = t.unicode_len();
    if nt > ns {
        return false;
    }
    let base = ns - nt;
    let mut i: usize = 0;
    while i < nt
        invariant
            i <= nt,
            ns == s@.len(),
            nt == t@.len(),
            base == ns - nt,
            forall|j: int| 0 <= j < i ==> s@[base + j] == t@[j],
        decreases nt - i,
    {
        if s.get_char(base + i) != t.get_char(i) {
            proof {
                assert(s@.subrange(s@.len() - t@.len(), s@.len() as int)[i as int] != t@[i as int]);
            }
            return false;
        }
        i = i + 1;
    }
    proof {
        assert(s@.subrange(s@.len() - t@.len(), s@.len() as int) =~= t@);
    }
    true
}

/// The digit character for a value below ten.
pub open spec fn spec_digit(d: nat) -> char {
    if d == 0 {
        '0'
    } else if d == 1 {
        '1'
    } else if d == 2 {
        '2'
    } else if d == 3 {
        '3'
    } else if d == 4 {
        '4'
    } else if d == 5 {
        '5'
    } else if d == 6 {
        '6'
    } else if d == 7 {
        '7'
    } else if d == 8 {
        '8'
    } else {
        '9'
    }
}

/// The decimal rendering of a number, most significant digit first.
pub open spec fn spec_usize_str(n: nat) -> Seq<char>
    decreases n,
{
    if n < 10 {
        seq![spec_digit(n)]
    } else {
        spec_usize_str(n / 10).push(spec_digit(n % 10))
    }
}

/// Decimal renderings consist of digit characters only.
pub proof fn lemma_usize_str_digits(n: nat)
    ensures
        forall|k: int|
            0 <= k < spec_usize_str(n).len() ==> (#[trigger] spec_usize_str(n)[k]) != '.' && spec_usize_str(n)[k] != '[',
    decreases n,
{
    if n < 10 {
        assert(spec_usize_str(n)[0] == spec_digit(n));
    } else {
        lemma_usize_str_digits(n / 10);
        assert forall|k: int| 0 <= k < spec_usize_str(n).len() implies (
        #[trigger] spec_usize_str(n)[k]) != '.' && spec_usize_str(n)[k] != '[' by {
            if k < spec_usize_str(n / 10).len() {
                assert(spec_usize_str(n)[k] == spec_usize_str(n / 10)[k]);
            } else {
                assert(spec_usize_str(n)[k] == spec_digit(n % 10));
            }
        }
    }
}

fn digit_str(d: usize) -> (r: &'static str)
    requires
        d < 10,
    ensures
        r@ == seq![spec_digit(d as nat)],
{
    proof {
        reveal_strlit("0");
        reveal_strlit("1");
        reveal_strlit("2");
        reveal_strlit("3");
        reveal_strlit("4");
        reveal_strlit("5");
        reveal_strlit("6");
        reveal_strlit("7");
        reveal_strlit("8");
        reveal_strlit("9");
    }
    let r = match d {
        0 => "0",
        1 => "1",
        2 => "2",
        3 => "3",
        4 => "4",
        5 => "5",
        6 => "6",
        7 => "7",
        8 => "8",
        _ => "9",
    };
    proof {
        assert(r@ =~= seq![spec_digit(d as nat)]);
    }
    r
}

/// Renders a number in decimal.
pub fn usize_to_string(n: usize) -> (r: String)
    ensures
        r@ == spec_usize_str(n as nat),
    decreases n,
{
    if n < 10 {
        String::from_str(digit_str(n))
    } else {
        let mut s = usize_to_string(n / 10);
        s.append(digit_str(n % 10));
        proof {
            assert(s@ =~= spec_usize_str(n as nat));
        }
        s
    }
}

/// Whether a character has the Unicode `White_Space` property, as
/// `char::is_whitespace` decides it.  The verdict depends on the character
/// alone.
pub uninterp spec fn char_is_whitespace(c: char) -> bool;

/// Relies on `char::is_whitespace` of std: the Unicode `White_Space`
/// property of the character.
pub assume_specification[ char::is_whitespace ](c: char) -> (r: bool)
    ensures
        r == char_is_whitespace(c),
;

/// Whether a character is numeric, as `char::is_numeric` decides it: the
/// Unicode numeric property of the character alone.
pub uninterp spec fn char_is_numeric(c: char) -> bool;

/// Relies on `char::is_numeric` of std: the Unicode numeric property of
/// the character.
pub assume_specification[ char::is_numeric ](c: char) -> (r: bool)
    ensures
        r == char_is_numeric(c),
;

/// Relies on `String::push` of std: appends one character to the string.
pub assume_specification[ String::push ](s: &mut String, c: char)
    ensures
        final(s)@ == old(s)@.push(c),
;

/// The characters of a vector, collected into a string.
pub fn string_of_chars(v: &Vec<char>) -> (r: String)
    ensures
        r@ == v@,
{
    let n = v.len();
    let mut out = String::new();
    let mut i: usize = 0;
    while i < n
        invariant
            i <= n,
            n == v@.len(),
            out@ =~= v@.subrange(0, i as int),
        decreases n - i,
    {
        out.push(v[i]);
        i = i + 1;
    }
    proof {
        assert(out@ =~= v@);
    }
    out
}

/// The address of an object field: the parent address, a dot, the key.
pub open spec fn spec_key_child(path: Seq<char>, key: Seq<char>) -> Seq<char> {
    path + seq!['.'] + key
}

/// The address of an array element: the parent address and the bracketed index.
pub open spec fn spec_index_child(path: Seq<char>, i: nat) -> Seq<char> {
    path + seq!['['] + spec_usize_str(i) + seq![']']
}

pub fn key_child(path: &str, key: &str) -> (r: String)
    ensures
        r@ == spec_key_child(path@, key@),
{
    let mut s = String::from_str(path);
    s.append(".");
    s.append(key);
    proof {
        reveal_strlit(".");
        assert(s@ =~= spec_key_child(path@, key@));
    }
    s
}

pub fn index_child(path: &str, i: usize) -> (r: String)
    ensures
        r@ == spec_index_child(path@, i as nat),
{
    let mut s = String::from_str(path);
    s.append("[");
    let digits = usize_to_string(i);
    s.append(digits.as_str());
    s.append("]");
    proof {
        reveal_strlit("[");
        reveal_strlit("]");
        assert(s@ =~= spec_index_child(path@, i as nat));
    }
    s
}

/// The position of the first occurrence of `c` in `s`, if any.
pub open spec fn spec_find(s: Seq<char>, c: char) -> Option<int> {
    if exists|j: int| 0 <= j < s.len() && s[j] == c && (forall|k: int| 0 <= k < j ==> s[k] != c) {
        Some(
            choose|j: int|
                0 <= j < s.len() && s[j] == c && (forall|k: int| 0 <= k < j ==> s[k] != c),
        )
    } else {
        None
    }
}

pub fn str_find(s: &str, c: char) -> (r: Option<usize>)
    ensures
        match r {
            Some(i) => 0 <= i < s@.len() && spec_find(s@, c) == Some(i as int),
            None => spec_find(s@, c) is None,
        },
{
    let n = s.unicode_len();
    let mut i: usize = 0;
    while i < n
        invariant
            i <= n,
            n == s@.len(),
            forall|k: int| 0 <= k < i ==> s@[k] != c,
        decreases n - i,
    {
        if s.get_char(i) == c {
            return Some(i);
        }
        i = i + 1;
    }
    proof {
        assert(spec_find(s@, c) is None);
    }
    None
}

/// The position of the last occurrence of `c` in `s`, if any.
pub open spec fn spec_rfind(s: Seq<char>, c: char) -> Option<int> {
    if exists|j: int|
        0 <= j < s.len() && s[j] == c && (forall|k: int| j < k < s.len() ==> s[k] != c) {
        Some(
            choose|j: int|
                0 <= j < s.len() && s[j] == c && (forall|k: int| j < k < s.len() ==> s[k] != c),
        )
    } else {
        None
    }
}

pub fn str_rfind(s: &str, c: char) -> (r: Option<usize>)
    ensures
        match r {
            Some(i) => 0 <= i < s@.len() && spec_rfind(s@, c) == Some(i as int),
            None => spec_rfind(s@, c) is None,
        },
{
    let n = s.unicode_len();
    let mut i: usize = n;
    while i > 0
        invariant
            i <= n,
            n == s@.len(),
            forall|k: int| i <= k < n ==> s@[k] != c,
        decreases i,
    {
        if s.get_char(i - 1) == c {
            return Some(i - 1);
        }
        i = i - 1;
    }
    proof {
        assert(spec_rfind(s@, c) is None);
    }
    None
}

/// The first `n` characters of `s`, as an owned string.
pub fn str_prefix(s: &str, n: usize) -> (r: String)
    requires
        n <= s@.len(),
    ensures
        r@ == s@.subrange(0, n as int),
{
    let sub = s.substring_char(0, n);
    String::from_str(sub)
}

} // verus!
