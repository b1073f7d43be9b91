//! Character-level helpers on strings: conversions between `&str`, `String`
//! and `Vec<char>`, prefix/suffix/substring tests, trimming and decimal
//! integer parsing and printing.
use vstd::prelude::*;

verus! {

/// Whether `p` is a prefix of `s`.
pub open spec fn is_prefix(p: Seq<char>, s: Seq<char>) -> bool {
    p.len() <= s.len() && s.subrange(0, p.len() as int) == p
}

/// Whether `p` is a suffix of `s`.
pub open spec fn is_suffix(p: Seq<char>, s: Seq<char>) -> bool {
    p.len() <= s.len() && s.subrange(s.len() - p.len(), s.len() as int) == p
}

/// Whether `needle` occurs in `s` at position `i`.
pub open spec fn occurs_at(needle: Seq<char>, s: Seq<char>, i: int) -> bool {
    0 <= i && i + needle.len() <= s.len() && s.subrange(i, i + needle.len()) == needle
}

/// Whether `needle` occurs somewhere in `s` (the empty needle occurs everywhere).
pub open spec fn contains_seq(s: Seq<char>, needle: Seq<char>) -> bool {
    exists|i: int| occurs_at(needle, s, i)
}

/// The characters of a string slice, in order.
pub fn str_chars(s: &str) -> (r: Vec<char>)
    ensures
        r@ == s@,
{
    let mut out: Vec<char> = Vec::new();
    let n = s.unicode_len();
    let mut i: usize = 0;
    while i < n
        invariant
            n == s@.len(),
            i <= n,
            out@ == s@.subrange(0, i as int),
        decreases n - i,
    {
        let c = s.get_char(i);
        out.push(c);
        i = i + 1;
        assert(out@ =~= s@.subrange(0, i as int));
    }
    assert(out@ =~= s@);
    out
}

/// Builds a `String` holding exactly the given characters.
#[verifier::external_body]
pub(crate) fn string_from_chars(v: &[char]) -> (r: String)
    ensures
        r@ == v@,
{
    v.iter().collect()
}

/// A `String` copy of a string slice.
pub fn to_owned_string(s: &str) -> (r: String)
    ensures
        r@ == s@,
{
    let v = str_chars(s);
    string_from_chars(v.as_slice())
}

/// The characters of `s` from position `start` (inclusive) to `end` (exclusive).
pub fn sub_chars(s: &Vec<char>, start: usize, end: usize) -> (r: Vec<char>)
    requires
        start <= end <= s.len(),
    ensures
        r@ == s@.subrange(start as int, end as int),
{
    let mut out: Vec<char> = Vec::new();
    let mut i = start;
    while i < end
        invariant
            start <= i <= end,
            end <= s.len(),
            out@ == s@.subrange(start as int, i as int),
        decreases end - i,
    {
        out.push(s[i]);
        i = i + 1;
        assert(out@ =~= s@.subrange(start as int, i as int));
    }
    out
}

/// Whether the character sequences `a` and `b` are equal.
pub fn chars_eq(a: &[char], b: &[char]) -> (r: bool)
    ensures
        r == (a@ == b@),
{
    if a.len() != b.len() {
        return false;
    }
    let mut i: usize = 0;
    while i < a.len()
        invariant
            a.len() == b.len(),
            i <= a.len(),
            forall|j: int| 0 <= j < i ==> a@[j] == b@[j],
        decreases a.len() - i,
    {
        if a[i] != b[i] {
            return false;
        }
        i = i + 1;
    }
    assert(a@ =~= b@);
    true
}

/// Whether `needle` occurs in `s` starting at position `at`.
pub fn occurs_at_exec(s: &[char], needle: &[char], at: usize) -> (r: bool)
    ensures
        r == occurs_at(needle@, s@, at as int),
{
    if at > s.len() || needle.len() > s.len() - at {
        return false;
    }
    let mut i: usize = 0;
    while i < needle.len()
        invariant
            at + needle.len() <= s.len(),
            i <= needle.len(),
            forall|j: int| 0 <= j < i ==> s@[at + j] == needle@[j],
        decreases needle.len() - i,
    {
        if s[at + i] != needle[i] {
            assert(s@.subrange(at as int, at + needle.len())[i as int] != needle@[i as int]);
            return false;
        }
        i = i + 1;
    }
    assert(s@.subrange(at as int, at + needle.len()) =~= needle@);
    true
}

/// Whether `p` is a prefix of `s`.
pub fn starts_with_chars(s: &[char], p: &[char]) -> (r: bool)
    ensures
        r == is_prefix(p@, s@),
{
    occurs_at_exec(s, p, 0)
}

/// Whether `p` is a suffix of `s`.
pub fn ends_with_chars(s: &[char], p: &[char]) -> (r: bool)
    ensures
        r == is_suffix(p@, s@),
{
    if p.len() > s.len() {
        return false;
    }
    occurs_at_exec(s, p, s.len() - p.len())
}

/// Whether `needle` occurs anywhere in `s`.
pub fn contains_chars(s: &[char], needle: &[char]) -> (r: bool)
    ensures
        r == contains_seq(s@, needle@),
{
    if needle.len() > s.len() {
        assert forall|i: int| !occurs_at(needle@, s@, i) by {}
        return false;
    }
    let last = s.len() - needle.len();
    let mut i: usize = 0;
    loop
        invariant
            needle.len() <= s.len(),
            last == s.len() - needle.len(),
            i <= last,
            forall|j: int| 0 <= j < i ==> !occurs_at(needle@, s@, j),
        ensures
            forall|j: int| 0 <= j <= last ==> !occurs_at(needle@, s@, j),
        decreases last - i,
    {
        if occurs_at_exec(s, needle, i) {
            return true;
        }
        if i == last {
            break;
        }
        i = i + 1;
    }
    assert forall|j: int| !occurs_at(needle@, s@, j) by {
        if 0 <= j && j <= last {
        }
    }
    false
}

/// Whether a string slice holds exactly the given characters.
pub fn str_is(s: &str, lit: &str) -> (r: bool)
    ensures
        r == (s@ == lit@),
{
    let a = str_chars(s);
    let b = str_chars(lit);
    chars_eq(a.as_slice(), b.as_slice())
}


/// The decimal digit character for `d` (0 to 9).
pub open spec fn digit_char(d: nat) -> char {
    if d == 0 { '0' } else if d == 1 { '1' } else if d == 2 { '2' } else if d == 3 { '3' }
    else if d == 4 { '4' } else if d == 5 { '5' } else if d == 6 { '6' } else if d == 7 { '7' }
    else if d == 8 { '8' } else { '9' }
}

/// The lowercase hexadecimal digit for `d` (0 to 15).
pub open spec fn hex_char(d: nat) -> char {
    if d < 10 {
        digit_char(d)
    } else if d == 10 {
        'a'
    } else if d == 11 {
        'b'
    } else if d == 12 {
        'c'
    } else if d == 13 {
        'd'
    } else if d == 14 {
        'e'
    } else {
        'f'
    }
}

/// The decimal notation of a natural number, without leading zeros.
pub open spec fn nat_text(n: nat) -> Seq<char>
    decreases n,
{
    if n < 10 {
        seq![digit_char(n)]
    } else {
        nat_text(n / 10).push(digit_char(n % 10))
    }
}

/// The decimal notation of an integer, with a leading '-' when negative.
pub open spec fn int_text(i: int) -> Seq<char> {
    if i < 0 {
        seq!['-'] + nat_text((-i) as nat)
    } else {
        nat_text(i as nat)
    }
}

fn digit_to_char(d: u128) -> (c: char)
    requires
        d < 10,
    ensures
        c == digit_char(d as nat),
{
    if d == 0 { '0' } else if d == 1 { '1' } else if d == 2 { '2' } else if d == 3 { '3' }
    else if d == 4 { '4' } else if d == 5 { '5' } else if d == 6 { '6' } else if d == 7 { '7' }
    else if d == 8 { '8' } else { '9' }
}

/// The decimal digits of `n`.
pub fn u128_digits(n: u128) -> (r: Vec<char>)
    ensures
        r@ == nat_text(n as nat),
    decreases n,
{
    if n < 10 {
        let mut v: Vec<char> = Vec::new();
        v.push(digit_to_char(n));
        assert(v@ =~= seq![digit_char(n as nat)]);
        v
    } else {
        let mut v = u128_digits(n / 10);
        v.push(digit_to_char(n % 10));
        v
    }
}

/// The decimal notation of an unsigned integer, as `to_string` writes it.
pub fn usize_to_string(n: usize) -> (r: String)
    ensures
        r@ == nat_text(n as nat),
{
    let v = u128_digits(n as u128);
    string_from_chars(v.as_slice())
}

/// The decimal notation of an unsigned integer, as `to_string` writes it.
pub fn u64_to_string(n: u64) -> (r: String)
    ensures
        r@ == nat_text(n as nat),
{
    let v = u128_digits(n as u128);
    string_from_chars(v.as_slice())
}

/// The decimal notation of a signed integer, as `to_string` writes it.
pub fn i64_to_string(i: i64) -> (r: String)
    ensures
        r@ == int_text(i as int),
{
    if i < 0 {
        let mag: u128 = (0i128 - (i as i128)) as u128;
        let d = u128_digits(mag);
        let mut v: Vec<char> = Vec::new();
        v.push('-');
        let mut k: usize = 0;
        while k < d.len()
            invariant
                k <= d.len(),
                v@ == seq!['-'] + d@.subrange(0, k as int),
            decreases d.len() - k,
        {
            v.push(d[k]);
            k = k + 1;
            assert(v@ =~= seq!['-'] + d@.subrange(0, k as int));
        }
        assert(d@.subrange(0, d.len() as int) =~= d@);
        string_from_chars(v.as_slice())
    } else {
        let v = u128_digits(i as u128);
        string_from_chars(v.as_slice())
    }
}

/// Appends `tail` to `s`.
pub fn push_str(s: &mut String, tail: &str)
    ensures
        final(s)@ == old(s)@ + tail@,
{
    s.append(tail);
}

/// The concatenation of two strings.
pub fn concat2(a: &str, b: &str) -> (r: String)
    ensures
        r@ == a@ + b@,
{
    let mut s = to_owned_string(a);
    s.append(b);
    s
}

/// The concatenation of three strings.
pub fn concat3(a: &str, b: &str, c: &str) -> (r: String)
    ensures
        r@ == a@ + b@ + c@,
{
    let mut s = to_owned_string(a);
    s.append(b);
    s.append(c);
    s
}

/// `s` with every leading occurrence of `c` removed.
pub open spec fn strip_leading(s: Seq<char>, c: char) -> Seq<char>
    decreases s.len(),
{
    if s.len() > 0 && s[0] == c {
        strip_leading(s.drop_first(), c)
    } else {
        s
    }
}

/// Removes every leading occurrence of `c` (as `str::trim_start_matches`).
pub fn trim_start_char(s: &str, c: char) -> (r: String)
    ensures
        r@ == strip_leading(s@, c),
{
    let cs = str_chars(s);
    let mut i: usize = 0;
    assert(cs@.subrange(0, cs.len() as int) =~= cs@);
    while i < cs.len() && cs[i] == c
        invariant
            i <= cs.len(),
            cs@ == s@,
            strip_leading(s@, c) == strip_leading(cs@.subrange(i as int, cs.len() as int), c),
        decreases cs.len() - i,
    {
        proof {
            let t = cs@.subrange(i as int, cs.len() as int);
            assert(t.drop_first() =~= cs@.subrange(i + 1, cs.len() as int));
        }
        i = i + 1;
    }
    let rest = sub_chars(&cs, i, cs.len());
    string_from_chars(rest.as_slice())
}


/// Whether `c` is white space in the Unicode sense (the `White_Space`
/// property, as `char::is_whitespace` and `str::trim` use it).
pub open spec fn is_ws(c: char) -> bool {
    ('\u{9}' <= c && c <= '\u{d}') || c == ' ' || c == '\u{85}' || c == '\u{a0}' || c == '\u{1680}'
        || ('\u{2000}' <= c && c <= '\u{200a}') || c == '\u{2028}' || c == '\u{2029}'
        || c == '\u{202f}' || c == '\u{205f}' || c == '\u{3000}'
}

/// Unicode white space (as `char::is_whitespace`).
pub fn is_ws_char(c: char) -> (r: bool)
    ensures
        r == is_ws(c),
{
    ('\u{9}' <= c && c <= '\u{d}') || c == ' ' || c == '\u{85}' || c == '\u{a0}' || c == '\u{1680}'
        || ('\u{2000}' <= c && c <= '\u{200a}') || c == '\u{2028}' || c == '\u{2029}'
        || c == '\u{202f}' || c == '\u{205f}' || c == '\u{3000}'
}

/// Whether `s[k]` is the first character of `s` that is not white space
/// (`k == s.len()` when there is none).
pub open spec fn is_ws_lead(s: Seq<char>, k: int) -> bool {
    0 <= k <= s.len() && (forall|j: int| 0 <= j < k ==> is_ws(#[trigger] s[j])) && (k < s.len() ==> !is_ws(s[k]))
}

/// Whether `s[k - 1]` is the last character of `s` that is not white space
/// (`k == 0` when there is none).
pub open spec fn is_ws_trail(s: Seq<char>, k: int) -> bool {
    0 <= k <= s.len() && (forall|j: int| k <= j < s.len() ==> is_ws(#[trigger] s[j])) && (k > 0 ==> !is_ws(s[k - 1]))
}

/// `s` without leading white space (as `str::trim_start`).
pub open spec fn trim_start(s: Seq<char>) -> Seq<char> {
    s.subrange(choose|k: int| is_ws_lead(s, k), s.len() as int)
}

/// `s` without trailing white space (as `str::trim_end`).
pub open spec fn trim_end(s: Seq<char>) -> Seq<char> {
    s.subrange(0, choose|k: int| is_ws_trail(s, k))
}

/// `s` without leading and trailing white space (as `str::trim`).
pub open spec fn trim(s: Seq<char>) -> Seq<char> {
    trim_end(trim_start(s))
}

/// Whether `s[k]` is the first character of `s` other than `c`.
pub open spec fn is_char_lead(s: Seq<char>, c: char, k: int) -> bool {
    0 <= k <= s.len() && (forall|j: int| 0 <= j < k ==> #[trigger] s[j] == c) && (k < s.len() ==> s[k] != c)
}

/// Whether `s[k - 1]` is the last character of `s` other than `c`.
pub open spec fn is_char_trail(s: Seq<char>, c: char, k: int) -> bool {
    0 <= k <= s.len() && (forall|j: int| k <= j < s.len() ==> #[trigger] s[j] == c) && (k > 0 ==> s[k - 1] != c)
}

/// `s` without leading copies of `c` (as `str::trim_start_matches(c)`).
pub open spec fn trim_start_c(s: Seq<char>, c: char) -> Seq<char> {
    s.subrange(choose|k: int| is_char_lead(s, c, k), s.len() as int)
}

/// `s` without trailing copies of `c` (as `str::trim_end_matches(c)`).
pub open spec fn trim_end_c(s: Seq<char>, c: char) -> Seq<char> {
    s.subrange(0, choose|k: int| is_char_trail(s, c, k))
}

/// `s` without leading and trailing copies of `c` (as `str::trim_matches(c)`).
pub open spec fn trim_c(s: Seq<char>, c: char) -> Seq<char> {
    trim_end_c(trim_start_c(s, c), c)
}

/// `s` without white space at both ends.
pub fn trim_chars(s: &[char]) -> (r: Vec<char>)
    ensures
        r@ == trim(s@),
{
    let mut a: usize = 0;
    while a < s.len() && is_ws_char(s[a])
        invariant
            a <= s.len(),
            forall|j: int| 0 <= j < a ==> is_ws(#[trigger] s@[j]),
        decreases s.len() - a,
    {
        a = a + 1;
    }
    assert(is_ws_lead(s@, a as int));
    proof {
        let k = choose|k: int| is_ws_lead(s@, k);
        assert(k == a) by {
            if k < a { assert(is_ws(s@[k])); }
            if k > a { assert(is_ws(s@[a as int])); }
        }
    }
    let ghost t = s@.subrange(a as int, s.len() as int);
    let mut b: usize = s.len();
    while b > a && is_ws_char(s[b - 1])
        invariant
            a <= b <= s.len(),
            t == s@.subrange(a as int, s.len() as int),
            forall|j: int| b <= j < s.len() ==> is_ws(#[trigger] s@[j]),
        decreases b,
    {
        b = b - 1;
    }
    proof {
        let kb = (b - a) as int;
        assert forall|j: int| kb <= j < t.len() implies is_ws(#[trigger] t[j]) by {
            assert(t[j] == s@[j + a]);
        }
        assert(is_ws_trail(t, kb));
        let k = choose|k: int| is_ws_trail(t, k);
        assert(k == kb) by {
            if k < kb { assert(t[kb - 1] == s@[b - 1]); assert(is_ws(t[kb - 1])); }
            if k > kb { assert(is_ws(t[k - 1])); }
        }
        assert(trim(s@) =~= s@.subrange(a as int, b as int));
    }
    sub_slice(s, a, b)
}

/// The characters of `s` from `start` (inclusive) to `end` (exclusive).
pub fn sub_slice(s: &[char], start: usize, end: usize) -> (r: Vec<char>)
    requires
        start <= end <= s.len(),
    ensures
        r@ == s@.subrange(start as int, end as int),
{
    let mut out: Vec<char> = Vec::new();
    let mut i = start;
    while i < end
        invariant
            start <= i <= end,
            end <= s.len(),
            out@ == s@.subrange(start as int, i as int),
        decreases end - i,
    {
        out.push(s[i]);
        i = i + 1;
        assert(out@ =~= s@.subrange(start as int, i as int));
    }
    out
}

/// `s` without leading copies of `c`.
pub fn trim_start_c_chars(s: &[char], c: char) -> (r: Vec<char>)
    ensures
        r@ == trim_start_c(s@, c),
{
    let mut a: usize = 0;
    while a < s.len() && s[a] == c
        invariant
            a <= s.len(),
            forall|j: int| 0 <= j < a ==> #[trigger] s@[j] == c,
        decreases s.len() - a,
    {
        a = a + 1;
    }
    assert(is_char_lead(s@, c, a as int));
    proof {
        let k = choose|k: int| is_char_lead(s@, c, k);
        assert(k == a) by {
            if k < a { assert(s@[k] == c); }
            if k > a { assert(s@[a as int] == c); }
        }
    }
    sub_slice(s, a, s.len())
}

/// `s` without trailing copies of `c`.
pub fn trim_end_c_chars(s: &[char], c: char) -> (r: Vec<char>)
    ensures
        r@ == trim_end_c(s@, c),
{
    let mut b: usize = s.len();
    while b > 0 && s[b - 1] == c
        invariant
            b <= s.len(),
            forall|j: int| b <= j < s.len() ==> #[trigger] s@[j] == c,
        decreases b,
    {
        b = b - 1;
    }
    assert(is_char_trail(s@, c, b as int));
    proof {
        let k = choose|k: int| is_char_trail(s@, c, k);
        assert(k == b) by {
            if k < b { assert(s@[b - 1] == c); }
            if k > b { assert(s@[k - 1] == c); }
        }
    }
    sub_slice(s, 0, b)
}

/// `s` without copies of `c` at both ends.
pub fn trim_c_chars(s: &[char], c: char) -> (r: Vec<char>)
    ensures
        r@ == trim_c(s@, c),
{
    let t = trim_start_c_chars(s, c);
    trim_end_c_chars(t.as_slice(), c)
}

/// Whether `i` is the first position of `c` in `s`.
pub open spec fn is_first_char(s: Seq<char>, c: char, i: int) -> bool {
    0 <= i < s.len() && s[i] == c && forall|j: int| 0 <= j < i ==> #[trigger] s[j] != c
}

/// The first position of `c` in `s`, if any (as `str::find(c)`).
pub open spec fn find_char(s: Seq<char>, c: char) -> Option<int> {
    if exists|i: int| 0 <= i < s.len() && s[i] == c {
        Some(choose|i: int| is_first_char(s, c, i))
    } else {
        None
    }
}

/// When `c` occurs in `s`, `find_char` gives its first position.
pub proof fn lemma_find_char(s: Seq<char>, c: char)
    ensures
        find_char(s, c) matches Some(i) ==> is_first_char(s, c, i),
{
    if exists|i: int| 0 <= i < s.len() && s[i] == c {
        let k = choose|i: int| 0 <= i < s.len() && s[i] == c;
        lemma_first_char_exists(s, c, k);
    }
}

proof fn lemma_first_char_exists(s: Seq<char>, c: char, k: int)
    requires
        0 <= k < s.len(),
        s[k] == c,
    ensures
        exists|i: int| is_first_char(s, c, i),
    decreases k,
{
    if exists|j: int| 0 <= j < k && s[j] == c {
        let j = choose|j: int| 0 <= j < k && s[j] == c;
        lemma_first_char_exists(s, c, j);
    } else {
        assert(is_first_char(s, c, k));
    }
}

/// The first position of `c` in `s`, if any.
pub fn find_char_exec(s: &[char], c: char) -> (r: Option<usize>)
    ensures
        r matches Some(i) ==> find_char(s@, c) == Some(i as int) && is_first_char(s@, c, i as int),
        r is None ==> find_char(s@, c) is None,
{
    let mut i: usize = 0;
    while i < s.len()
        invariant
            i <= s.len(),
            forall|j: int| 0 <= j < i ==> #[trigger] s@[j] != c,
        decreases s.len() - i,
    {
        if s[i] == c {
            proof {
                assert(is_first_char(s@, c, i as int));
                let k = choose|k: int| is_first_char(s@, c, k);
                assert(k == i) by {
                    if k < i { assert(s@[k] != c); }
                    if k > i { assert(s@[i as int] != c); }
                }
            }
            return Some(i);
        }
        i = i + 1;
    }
    None
}

/// Whether `i` is the first position at which `needle` occurs in `s`.
pub open spec fn is_first_occurrence(s: Seq<char>, needle: Seq<char>, i: int) -> bool {
    occurs_at(needle, s, i) && forall|j: int| 0 <= j < i ==> !#[trigger] occurs_at(needle, s, j)
}

/// The first position at which `needle` occurs in `s`, if any (as `str::find`).
pub open spec fn find_seq(s: Seq<char>, needle: Seq<char>) -> Option<int> {
    if exists|i: int| occurs_at(needle, s, i) {
        Some(choose|i: int| is_first_occurrence(s, needle, i))
    } else {
        None
    }
}

/// The first position at which `needle` occurs in `s`, if any.
pub fn find_seq_exec(s: &[char], needle: &[char]) -> (r: Option<usize>)
    ensures
        r matches Some(i) ==> find_seq(s@, needle@) == Some(i as int) && occurs_at(needle@, s@, i as int),
        r is None ==> find_seq(s@, needle@) is None,
{
    if needle.len() > s.len() {
        assert forall|i: int| !occurs_at(needle@, s@, i) by {}
        return None;
    }
    let last = s.len() - needle.len();
    let mut i: usize = 0;
    loop
        invariant
            needle.len() <= s.len(),
            last == s.len() - needle.len(),
            i <= last,
            forall|j: int| 0 <= j < i ==> !#[trigger] occurs_at(needle@, s@, j),
        ensures
            forall|j: int| 0 <= j <= last ==> !#[trigger] occurs_at(needle@, s@, j),
        decreases last - i,
    {
        if occurs_at_exec(s, needle, i) {
            proof {
                assert(is_first_occurrence(s@, needle@, i as int));
                let k = choose|k: int| is_first_occurrence(s@, needle@, k);
                assert(k == i) by {
                    if k < i { assert(!occurs_at(needle@, s@, k)); }
                    if k > i { assert(!occurs_at(needle@, s@, i as int)); }
                }
            }
            return Some(i);
        }
        if i == last {
            break;
        }
        i = i + 1;
    }
    assert forall|j: int| !occurs_at(needle@, s@, j) by {
        if 0 <= j && j <= last {
        }
    }
    None
}

/// The pieces of `s` between the occurrences of the non-empty `sep`, in order
/// (as `str::split(sep)`).
pub open spec fn split_seq(s: Seq<char>, sep: Seq<char>) -> Seq<Seq<char>>
    decreases s.len(),
{
    if sep.len() == 0 {
        seq![s]
    } else {
        match find_seq(s, sep) {
            Some(i) => if 0 <= i && i + sep.len() <= s.len() {
                seq![s.subrange(0, i)] + split_seq(s.subrange(i + sep.len(), s.len() as int), sep)
            } else {
                seq![s]
            },
            None => seq![s],
        }
    }
}

/// The models of a list of character vectors.
pub open spec fn chars_view(v: Seq<Vec<char>>) -> Seq<Seq<char>> {
    v.map_values(|x: Vec<char>| x@)
}

/// Splits `s` at every occurrence of the non-empty `sep`.
pub fn split_seq_exec(s: &[char], sep: &[char]) -> (r: Vec<Vec<char>>)
    requires
        sep.len() > 0,
    ensures
        chars_view(r@) == split_seq(s@, sep@),
        r@.len() >= 1,
    decreases s.len(),
{
    match find_seq_exec(s, sep) {
        Some(i) => {
            let head = sub_slice(s, 0, i);
            let tail = sub_slice(s, i + sep.len(), s.len());
            let mut rest = split_seq_exec(tail.as_slice(), sep);
            let mut out: Vec<Vec<char>> = Vec::new();
            out.push(head);
            let ghost rv = chars_view(rest@);
            out.append(&mut rest);
            proof {
                assert(chars_view(out@) =~= seq![s@.subrange(0, i as int)] + rv);
            }
            out
        },
        None => {
            let mut out: Vec<Vec<char>> = Vec::new();
            out.push(sub_slice(s, 0, s.len()));
            proof {
                assert(s@.subrange(0, s.len() as int) =~= s@);
                assert(chars_view(out@) =~= seq![s@]);
            }
            out
        },
    }
}

/// The test "differs from `c`".
pub open spec fn differs_from(c: char) -> spec_fn(char) -> bool {
    |x: char| x != c
}

/// `s` with every copy of `c` removed.
pub open spec fn remove_char(s: Seq<char>, c: char) -> Seq<char> {
    s.filter(differs_from(c))
}

/// Removes every copy of `c` from `s`.
pub fn remove_char_exec(s: &[char], c: char) -> (r: Vec<char>)
    ensures
        r@ == remove_char(s@, c),
{
    let mut out: Vec<char> = Vec::new();
    let mut i: usize = 0;
    while i < s.len()
        invariant
            i <= s.len(),
            out@ == s@.subrange(0, i as int).filter(differs_from(c)),
        decreases s.len() - i,
    {
        proof {
            reveal(Seq::filter);
            assert(s@.subrange(0, i + 1).drop_last() =~= s@.subrange(0, i as int));
        }
        if s[i] != c {
            out.push(s[i]);
        }
        i = i + 1;
    }
    assert(s@.subrange(0, s.len() as int) =~= s@);
    out
}

/// The value of a string of decimal digits.
pub open spec fn digits_value(s: Seq<char>) -> int
    decreases s.len(),
{
    if s.len() == 0 {
        0
    } else {
        digits_value(s.drop_last()) * 10 + (s.last() as int - '0' as int)
    }
}

/// Whether every character of `s` is an ASCII digit.
pub open spec fn all_digits(s: Seq<char>) -> bool {
    forall|i: int| 0 <= i < s.len() ==> '0' <= #[trigger] s[i] && s[i] <= '9'
}

/// The integer that `str::parse::<i64>` reads from `s`: an optional sign
/// followed by at least one digit, in range.
pub open spec fn spec_parse_i64(s: Seq<char>) -> Option<i64> {
    let signed = s.len() > 0 && (s[0] == '-' || s[0] == '+');
    let neg = s.len() > 0 && s[0] == '-';
    let body = if signed { s.drop_first() } else { s };
    let v = if neg { -digits_value(body) } else { digits_value(body) };
    if body.len() > 0 && all_digits(body) && i64::MIN <= v && v <= i64::MAX {
        Some(v as i64)
    } else {
        None
    }
}

proof fn lemma_digits_nonneg(s: Seq<char>)
    requires
        all_digits(s),
    ensures
        digits_value(s) >= 0,
    decreases s.len(),
{
    if s.len() > 0 {
        assert(all_digits(s.drop_last()));
        lemma_digits_nonneg(s.drop_last());
    }
}

proof fn lemma_digits_mono(s: Seq<char>, k: int)
    requires
        all_digits(s),
        0 <= k <= s.len(),
    ensures
        digits_value(s.subrange(0, k)) <= digits_value(s),
    decreases s.len() - k,
{
    if k < s.len() {
        let t = s.subrange(0, k + 1);
        assert(t.drop_last() =~= s.subrange(0, k));
        assert(all_digits(s.subrange(0, k)));
        lemma_digits_nonneg(s.subrange(0, k));
        lemma_digits_mono(s, k + 1);
    } else {
        assert(s.subrange(0, k) =~= s);
    }
}

/// Reads a signed decimal integer as `str::parse::<i64>` does.
pub fn parse_i64_chars(s: &[char]) -> (r: Option<i64>)
    ensures
        r == spec_parse_i64(s@),
{
    let signed = s.len() > 0 && (s[0] == '-' || s[0] == '+');
    let neg = s.len() > 0 && s[0] == '-';
    let start: usize = if signed { 1 } else { 0 };
    let ghost body = if signed { s@.drop_first() } else { s@ };
    assert(body =~= s@.subrange(start as int, s.len() as int));
    if start >= s.len() {
        return None;
    }
    let mut acc: i128 = 0;
    let mut i: usize = start;
    while i < s.len()
        invariant
            start <= i <= s.len(),
            start < s.len(),
            signed == (s@.len() > 0 && (s@[0] == '-' || s@[0] == '+')),
            neg == (s@.len() > 0 && s@[0] == '-'),
            body == (if signed { s@.drop_first() } else { s@ }),
            body == s@.subrange(start as int, s.len() as int),
            all_digits(s@.subrange(start as int, i as int)),
            acc == digits_value(s@.subrange(start as int, i as int)),
            0 <= acc <= 9223372036854775808,
        decreases s.len() - i,
    {
        let c = s[i];
        if c < '0' || c > '9' {
            proof {
                assert(body[i - start] == c);
                assert(!all_digits(body));
            }
            return None;
        }
        let d: i128 = ((c as u32) - ('0' as u32)) as i128;
        proof {
            let t = s@.subrange(start as int, i + 1);
            assert(t.drop_last() =~= s@.subrange(start as int, i as int));
            assert(t.last() == c);
        }
        acc = acc * 10 + d;
        i = i + 1;
        assert(all_digits(s@.subrange(start as int, i as int)));
        if acc > 9223372036854775808 {
            proof {
                let k = i - start;
                assert(body.subrange(0, k as int) =~= s@.subrange(start as int, i as int));
                if all_digits(body) {
                    lemma_digits_mono(body, k as int);
                }
            }
            return None;
        }
    }
    assert(s@.subrange(start as int, s.len() as int) == body);
    if neg {
        let v: i128 = 0 - acc;
        Some(v as i64)
    } else {
        if acc > 9223372036854775807 {
            return None;
        }
        Some(acc as i64)
    }
}


/// The text that `str::to_uppercase` yields for `s` (full Unicode case mapping).
pub uninterp spec fn spec_to_uppercase(s: Seq<char>) -> Seq<char>;

/// `c` upper-cased if it is an ASCII lower-case letter.
pub open spec fn ascii_upper(c: char) -> char {
    if 'a' <= c && c <= 'z' { ((c as int) - 32) as char } else { c }
}

/// `c` lower-cased if it is an ASCII upper-case letter.
pub open spec fn ascii_lower(c: char) -> char {
    if 'A' <= c && c <= 'Z' { ((c as int) + 32) as char } else { c }
}

/// Whether every character of `s` is ASCII.
pub open spec fn all_ascii(s: Seq<char>) -> bool {
    forall|i: int| 0 <= i < s.len() ==> (#[trigger] s[i] as int) < 128
}

/// Calls `str::to_uppercase`. The contract names the result
/// (`spec_to_uppercase`) and states what the documentation gives for ASCII
/// text: letters a-z become A-Z and every other character stays.
#[verifier::external_body]
pub(crate) fn to_uppercase(s: &str) -> (r: String)
    ensures
        r@ == spec_to_uppercase(s@),
        all_ascii(s@) ==> r@ == s@.map_values(|c: char| ascii_upper(c)),
{
    s.to_uppercase()
}

/// Whether `m` is the mantissa of a decimal floating-point literal: digits
/// with at most one '.', and at least one digit.
pub open spec fn is_mantissa(m: Seq<char>) -> bool {
    match find_char(m, '.') {
        None => m.len() > 0 && all_digits(m),
        Some(d) => m.len() > 1 && all_digits(m.subrange(0, d)) && all_digits(m.subrange(d + 1, m.len() as int)),
    }
}

/// Whether `x` is an exponent's digits with an optional sign.
pub open spec fn is_exponent(x: Seq<char>) -> bool {
    let body = if x.len() > 0 && (x[0] == '+' || x[0] == '-') { x.drop_first() } else { x };
    body.len() > 0 && all_digits(body)
}

/// The position of the exponent marker ('e' or 'E') in `b`, or its length.
pub open spec fn exponent_pos(b: Seq<char>) -> int {
    match (find_char(b, 'e'), find_char(b, 'E')) {
        (Some(i), Some(j)) => if i < j { i } else { j },
        (Some(i), None) => i,
        (None, Some(j)) => j,
        (None, None) => b.len() as int,
    }
}

/// Whether `b` is an unsigned decimal literal with an optional exponent.
pub open spec fn is_decimal(b: Seq<char>) -> bool {
    let e = exponent_pos(b);
    is_mantissa(b.subrange(0, e)) && (e < b.len() ==> is_exponent(b.subrange(e + 1, b.len() as int)))
}

/// Whether `s` is text that `str::parse::<f64>` accepts: an optional sign,
/// then "inf", "infinity" or "nan" in any case, or a decimal literal.
pub open spec fn is_float_literal(s: Seq<char>) -> bool {
    let b = if s.len() > 0 && (s[0] == '+' || s[0] == '-') { s.drop_first() } else { s };
    let l = b.map_values(|c: char| ascii_lower(c));
    l == seq!['i', 'n', 'f'] || l == seq!['i', 'n', 'f', 'i', 'n', 'i', 't', 'y'] || l == seq!['n', 'a', 'n']
        || is_decimal(b)
}

fn all_digits_exec(s: &[char]) -> (r: bool)
    ensures
        r == all_digits(s@),
{
    let mut i: usize = 0;
    while i < s.len()
        invariant
            i <= s.len(),
            forall|j: int| 0 <= j < i ==> '0' <= #[trigger] s@[j] && s@[j] <= '9',
        decreases s.len() - i,
    {
        if s[i] < '0' || s[i] > '9' {
            return false;
        }
        i = i + 1;
    }
    true
}

fn ascii_lower_exec(c: char) -> (r: char)
    ensures
        r == ascii_lower(c),
{
    if 'A' <= c && c <= 'Z' {
        let v: u8 = ((c as u32) + 32) as u8;
        v as char
    } else {
        c
    }
}

fn lower_is(b: &[char], word: &[char]) -> (r: bool)
    ensures
        r == (b@.map_values(|c: char| ascii_lower(c)) == word@),
{
    let ghost l = b@.map_values(|c: char| ascii_lower(c));
    if b.len() != word.len() {
        assert(l.len() != word@.len());
        return false;
    }
    let mut i: usize = 0;
    while i < b.len()
        invariant
            i <= b.len(),
            b.len() == word.len(),
            l == b@.map_values(|c: char| ascii_lower(c)),
            forall|j: int| 0 <= j < i ==> l[j] == word@[j],
        decreases b.len() - i,
    {
        if ascii_lower_exec(b[i]) != word[i] {
            assert(l[i as int] != word@[i as int]);
            return false;
        }
        i = i + 1;
    }
    assert(l =~= word@);
    true
}

/// Whether `s` is text that `str::parse::<f64>` accepts.
pub fn is_float_literal_chars(s: &[char]) -> (r: bool)
    ensures
        r == is_float_literal(s@),
{
    let signed = s.len() > 0 && (s[0] == '+' || s[0] == '-');
    let start: usize = if signed { 1 } else { 0 };
    let b = sub_slice(s, start, s.len());
    assert(b@ =~= (if s@.len() > 0 && (s@[0] == '+' || s@[0] == '-') { s@.drop_first() } else { s@ }));
    let w1: Vec<char> = vec!['i', 'n', 'f'];
    let w2: Vec<char> = vec!['i', 'n', 'f', 'i', 'n', 'i', 't', 'y'];
    let w3: Vec<char> = vec!['n', 'a', 'n'];
    assert(w1@ =~= seq!['i', 'n', 'f']);
    assert(w2@ =~= seq!['i', 'n', 'f', 'i', 'n', 'i', 't', 'y']);
    assert(w3@ =~= seq!['n', 'a', 'n']);
    if lower_is(b.as_slice(), w1.as_slice()) || lower_is(b.as_slice(), w2.as_slice())
        || lower_is(b.as_slice(), w3.as_slice()) {
        return true;
    }
    let e: usize = match (find_char_exec(b.as_slice(), 'e'), find_char_exec(b.as_slice(), 'E')) {
        (Some(i), Some(j)) => if i < j { i } else { j },
        (Some(i), None) => i,
        (None, Some(j)) => j,
        (None, None) => b.len(),
    };
    assert(e == exponent_pos(b@));
    assert(e <= b.len());
    let m = sub_slice(b.as_slice(), 0, e);
    let mant_ok = match find_char_exec(m.as_slice(), '.') {
        None => m.len() > 0 && all_digits_exec(m.as_slice()),
        Some(d) => {
            let a = sub_slice(m.as_slice(), 0, d);
            let c = sub_slice(m.as_slice(), d + 1, m.len());
            m.len() > 1 && all_digits_exec(a.as_slice()) && all_digits_exec(c.as_slice())
        },
    };
    if !mant_ok {
        return false;
    }
    if e < b.len() {
        let x = sub_slice(b.as_slice(), e + 1, b.len());
        let xs = x.len() > 0 && (x[0] == '+' || x[0] == '-');
        let xstart: usize = if xs { 1 } else { 0 };
        let body = sub_slice(x.as_slice(), xstart, x.len());
        assert(body@ =~= (if x@.len() > 0 && (x@[0] == '+' || x@[0] == '-') { x@.drop_first() } else { x@ }));
        body.len() > 0 && all_digits_exec(body.as_slice())
    } else {
        true
    }
}


/// Whether `char::is_alphabetic` holds of `c` (the Unicode `Alphabetic` property).
pub uninterp spec fn spec_is_alphabetic(c: char) -> bool;

/// Whether `char::is_numeric` holds of `c` (the Unicode general categories
/// `Nd`, `Nl` and `No`).
pub uninterp spec fn spec_is_numeric(c: char) -> bool;

/// `char::is_alphanumeric`: alphabetic or numeric.
pub open spec fn spec_is_alphanumeric(c: char) -> bool {
    spec_is_alphabetic(c) || spec_is_numeric(c)
}

/// Calls `char::is_alphabetic`. The contract names the result and states
/// what the documentation gives for ASCII: exactly the letters are alphabetic.
#[verifier::external_body]
pub(crate) fn char_is_alphabetic(c: char) -> (r: bool)
    ensures
        r == spec_is_alphabetic(c),
        (c as int) < 128 ==> r == (('a' <= c && c <= 'z') || ('A' <= c && c <= 'Z')),
{
    c.is_alphabetic()
}

/// Calls `char::is_numeric`. The contract names the result and states what
/// the documentation gives for ASCII: exactly the digits are numeric.
#[verifier::external_body]
pub(crate) fn char_is_numeric(c: char) -> (r: bool)
    ensures
        r == spec_is_numeric(c),
        (c as int) < 128 ==> r == ('0' <= c && c <= '9'),
{
    c.is_numeric()
}

/// `char::is_alphanumeric`: alphabetic or numeric.
pub fn char_is_alphanumeric(c: char) -> (r: bool)
    ensures
        r == spec_is_alphanumeric(c),
{
    char_is_alphabetic(c) || char_is_numeric(c)
}

} // verus!
