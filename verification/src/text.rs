//! Character-level text primitives used by the FAL parser.
//!
//! Every function here works on `Vec<char>` and is specified over `Seq<char>`.
//! Patterns are `&str` literals; the specifications speak of their views, so the
//! proofs never need to know which literal was passed.
use vstd::prelude::*;
use vstd::string::*;
use vstd::utf8::*;

verus! {

// ---------------------------------------------------------------------------
// Character classes
// ---------------------------------------------------------------------------

/// The Unicode `White_Space` property, which `char::is_whitespace`, `str::trim`
/// and `str::split_whitespace` follow.
pub open spec fn is_ws(c: char) -> bool {
    ||| ('\u{9}' <= c && c <= '\u{d}')
    ||| c == ' '
    ||| c == '\u{85}'
    ||| c == '\u{a0}'
    ||| c == '\u{1680}'
    ||| ('\u{2000}' <= c && c <= '\u{200a}')
    ||| c == '\u{2028}'
    ||| c == '\u{2029}'
    ||| c == '\u{202f}'
    ||| c == '\u{205f}'
    ||| c == '\u{3000}'
}

/// Whether `c` is white space in the sense of `char::is_whitespace`.
pub fn is_whitespace(c: char) -> (r: bool)
    ensures
        r == is_ws(c),
{
    ('\u{9}' <= c && c <= '\u{d}') || c == ' ' || c == '\u{85}' || c == '\u{a0}' || c == '\u{1680}'
        || ('\u{2000}' <= c && c <= '\u{200a}') || c == '\u{2028}' || c == '\u{2029}' || c
        == '\u{202f}' || c == '\u{205f}' || c == '\u{3000}'
}

/// What `char::is_numeric` answers for `c` (membership in the Unicode general
/// categories Nd, Nl and No).
pub uninterp spec fn char_is_numeric(c: char) -> bool;

/// Calls `char::is_numeric`. Claimed: the answer is `char_is_numeric(c)`, a fixed
/// function of `c`, and among ASCII characters exactly the digits `0`-`9` are
/// numeric (they are the only ASCII characters in the Unicode number categories).
/// Nothing is said about which other characters are numeric.
#[verifier::external_body]
pub(crate) fn is_numeric(c: char) -> (r: bool)
    ensures
        r == char_is_numeric(c),
        (c as u32) < 128 ==> (r <==> is_digit(c)),
{
    c.is_numeric()
}

/// What `str::to_lowercase` returns for the string whose characters are `s`
/// (Unicode lowercase mapping, including its context-dependent rules).
pub uninterp spec fn lowercase_of(s: Seq<char>) -> Seq<char>;

/// Whether every character of `s` is ASCII.
pub open spec fn is_ascii_text(s: Seq<char>) -> bool {
    forall|i: int| 0 <= i < s.len() ==> (s[i] as u32) < 128
}

/// `c` with `A`-`Z` mapped to `a`-`z`.
pub open spec fn ascii_lower(c: char) -> char {
    if 'A' <= c && c <= 'Z' {
        ((c as u32) + 32) as char
    } else {
        c
    }
}

/// `s` with `A`-`Z` mapped to `a`-`z`.
pub open spec fn ascii_lowercase(s: Seq<char>) -> Seq<char> {
    s.map_values(|c: char| ascii_lower(c))
}

/// Calls `str::to_lowercase` on the string made of the characters of `s` and
/// hands back the characters of its result. Claimed: those characters are
/// `lowercase_of(s@)`, a fixed function of `s@`, and for ASCII text they are the
/// text with `A`-`Z` mapped to `a`-`z` and every other character kept (the Unicode
/// lowercase mapping on ASCII). Nothing is said of the mapping beyond ASCII.
#[verifier::external_body]
pub(crate) fn to_lowercase(s: &Vec<char>) -> (r: Vec<char>)
    ensures
        r@ == lowercase_of(s@),
        is_ascii_text(s@) ==> r@ == ascii_lowercase(s@),
{
    let text: String = s.iter().collect();
    text.to_lowercase().chars().collect()
}

/// Builds a `String` from characters (`FromIterator<&char> for String`).
/// Claimed: the string holds exactly the characters of `s`, in order.
#[verifier::external_body]
pub(crate) fn string_from_chars(s: &Vec<char>) -> (r: String)
    ensures
        r@ == s@,
{
    s.iter().collect()
}

/// The characters of a string slice, in order.
pub fn chars_of(s: &str) -> (r: Vec<char>)
    ensures
        r@ == s@,
{
    let n = s.unicode_len();
    let mut r: Vec<char> = Vec::new();
    let mut i: usize = 0;
    while i < n
        invariant
            n == s@.len(),
            i <= n,
            r@ == s@.subrange(0, i as int),
        decreases n - i,
    {
        let c = s.get_char(i);
        r.push(c);
        i = i + 1;
        assert(r@ =~= s@.subrange(0, i as int));
    }
    assert(r@ =~= s@);
    r
}

/// Whether `c` is numeric: among ASCII characters the digits, otherwise what
/// `char::is_numeric` answers.
pub open spec fn numeric(c: char) -> bool {
    if (c as u32) < 128 {
        is_digit(c)
    } else {
        char_is_numeric(c)
    }
}

/// The classes of characters that the parser strips from the ends of a token.
#[derive(Clone, Copy, PartialEq, Eq, Debug)]
pub enum CharClass {
    /// Unicode white space (`str::trim`).
    Whitespace,
    /// Anything that `char::is_numeric` rejects.
    NonNumeric,
    /// The characters `:`, `"`, `'`, `,` and `;` around workstation names.
    NameDelimiter,
}

pub open spec fn in_class(k: CharClass, c: char) -> bool {
    match k {
        CharClass::Whitespace => is_ws(c),
        CharClass::NonNumeric => !numeric(c),
        CharClass::NameDelimiter => c == ':' || c == '"' || c == '\'' || c == ',' || c == ';',
    }
}

pub fn char_in_class(k: CharClass, c: char) -> (r: bool)
    ensures
        r == in_class(k, c),
{
    match k {
        CharClass::Whitespace => is_whitespace(c),
        CharClass::NonNumeric => !is_numeric(c),
        CharClass::NameDelimiter => c == ':' || c == '"' || c == '\'' || c == ',' || c == ';',
    }
}

// ---------------------------------------------------------------------------
// Stripping (`trim`, `trim_matches`)
// ---------------------------------------------------------------------------

/// `s` without its leading characters of class `k`.
pub open spec fn strip_start(s: Seq<char>, k: CharClass) -> Seq<char>
    decreases s.len(),
{
    if s.len() > 0 && in_class(k, s[0]) {
        strip_start(s.drop_first(), k)
    } else {
        s
    }
}

/// `s` without its trailing characters of class `k`.
pub open spec fn strip_end(s: Seq<char>, k: CharClass) -> Seq<char>
    decreases s.len(),
{
    if s.len() > 0 && in_class(k, s.last()) {
        strip_end(s.drop_last(), k)
    } else {
        s
    }
}

/// `s` without the characters of class `k` at both ends (`trim_matches`).
pub open spec fn strip(s: Seq<char>, k: CharClass) -> Seq<char> {
    strip_end(strip_start(s, k), k)
}

/// `str::trim`.
pub open spec fn trim(s: Seq<char>) -> Seq<char> {
    strip(s, CharClass::Whitespace)
}

pub proof fn lemma_strip_start_is_suffix(s: Seq<char>, k: CharClass)
    ensures
        strip_start(s, k).len() <= s.len(),
        strip_start(s, k) == s.subrange(s.len() - strip_start(s, k).len(), s.len() as int),
    decreases s.len(),
{
    if s.len() > 0 && in_class(k, s[0]) {
        lemma_strip_start_is_suffix(s.drop_first(), k);
        assert(s.drop_first().subrange(
            s.drop_first().len() - strip_start(s, k).len(),
            s.drop_first().len() as int,
        ) =~= s.subrange(s.len() - strip_start(s, k).len(), s.len() as int));
    } else {
        assert(s.subrange(0, s.len() as int) =~= s);
    }
}

pub proof fn lemma_strip_start_head(s: Seq<char>, k: CharClass)
    ensures
        strip_start(s, k).len() > 0 ==> !in_class(k, strip_start(s, k)[0]),
    decreases s.len(),
{
    if s.len() > 0 && in_class(k, s[0]) {
        lemma_strip_start_head(s.drop_first(), k);
    }
}

pub proof fn lemma_strip_end_is_prefix(s: Seq<char>, k: CharClass)
    ensures
        strip_end(s, k).len() <= s.len(),
        strip_end(s, k) == s.subrange(0, strip_end(s, k).len() as int),
    decreases s.len(),
{
    if s.len() > 0 && in_class(k, s.last()) {
        lemma_strip_end_is_prefix(s.drop_last(), k);
        assert(s.drop_last().subrange(0, strip_end(s, k).len() as int) =~= s.subrange(
            0,
            strip_end(s, k).len() as int,
        ));
    } else {
        assert(s.subrange(0, s.len() as int) =~= s);
    }
}

pub proof fn lemma_strip_len(s: Seq<char>, k: CharClass)
    ensures
        strip(s, k).len() <= s.len(),
{
    lemma_strip_start_is_suffix(s, k);
    lemma_strip_end_is_prefix(strip_start(s, k), k);
}

/// A copy of `s[lo..hi]`.
pub fn slice_chars(s: &Vec<char>, lo: usize, hi: usize) -> (r: Vec<char>)
    requires
        lo <= hi <= s.len(),
    ensures
        r@ == s@.subrange(lo as int, hi as int),
{
    let mut r: Vec<char> = Vec::new();
    let mut i = lo;
    while i < hi
        invariant
            lo <= i <= hi <= s.len(),
            r@ == s@.subrange(lo as int, i as int),
        decreases hi - i,
    {
        r.push(s[i]);
        i = i + 1;
        assert(r@ =~= s@.subrange(lo as int, i as int));
    }
    r
}

/// `s` with the characters of class `k` removed from both ends.
pub fn strip_chars(s: &Vec<char>, k: CharClass) -> (r: Vec<char>)
    ensures
        r@ == strip(s@, k),
{
    let n = s.len();
    let mut i: usize = 0;
    assert(s@.subrange(0, n as int) =~= s@);
    while i < n && char_in_class(k, s[i])
        invariant
            n == s@.len(),
            i <= n,
            strip_start(s@, k) == strip_start(s@.subrange(i as int, n as int), k),
        decreases n - i,
    {
        assert(s@.subrange(i as int, n as int).drop_first() =~= s@.subrange(i + 1, n as int));
        i = i + 1;
    }
    let ghost head = s@.subrange(i as int, n as int);
    assert(strip_start(head, k) == head);
    let mut j: usize = n;
    while j > i && char_in_class(k, s[j - 1])
        invariant
            n == s@.len(),
            i <= j <= n,
            head == s@.subrange(i as int, n as int),
            strip_end(head, k) == strip_end(s@.subrange(i as int, j as int), k),
        decreases j,
    {
        assert(s@.subrange(i as int, j as int).drop_last() =~= s@.subrange(i as int, j - 1));
        j = j - 1;
    }
    let r = slice_chars(s, i, j);
    assert(strip_end(r@, k) == r@);
    r
}

/// `str::trim`.
pub fn trim_chars(s: &Vec<char>) -> (r: Vec<char>)
    ensures
        r@ == trim(s@),
{
    strip_chars(s, CharClass::Whitespace)
}

// ---------------------------------------------------------------------------
// Prefixes, equality, search
// ---------------------------------------------------------------------------

pub open spec fn starts_with(s: Seq<char>, p: Seq<char>) -> bool {
    p.len() <= s.len() && s.subrange(0, p.len() as int) == p
}

/// Whether `p` occurs in `s` at index `i`.
pub open spec fn occurs_at(s: Seq<char>, p: Seq<char>, i: int) -> bool {
    0 <= i && i + p.len() <= s.len() && s.subrange(i, i + p.len()) == p
}

/// The first index at or after `i` where `p` occurs in `s`.
pub open spec fn find_from(s: Seq<char>, p: Seq<char>, i: int) -> Option<int>
    decreases s.len() + 1 - i,
{
    if i < 0 || i + p.len() > s.len() {
        None
    } else if occurs_at(s, p, i) {
        Some(i)
    } else {
        find_from(s, p, i + 1)
    }
}

/// `str::find` with a pattern, counted in characters.
pub open spec fn find(s: Seq<char>, p: Seq<char>) -> Option<int> {
    find_from(s, p, 0)
}

pub open spec fn contains(s: Seq<char>, p: Seq<char>) -> bool {
    find(s, p) is Some
}

/// Stripping the start of `a + b`: what stripping `a` leaves, followed by `b`, or
/// when `a` strips away entirely, `b` stripped.
pub proof fn lemma_strip_start_append(a: Seq<char>, b: Seq<char>, k: CharClass)
    ensures
        strip_start(a + b, k) == (if strip_start(a, k).len() == 0 {
            strip_start(b, k)
        } else {
            strip_start(a, k) + b
        }),
    decreases a.len(),
{
    if a.len() == 0 {
        assert(a + b =~= b);
    } else if in_class(k, a[0]) {
        assert((a + b).drop_first() =~= a.drop_first() + b);
        lemma_strip_start_append(a.drop_first(), b, k);
    } else {
        assert((a + b)[0] == a[0]);
    }
}

/// Stripping the end of `a + b`, where `a` ends in a character outside the class,
/// keeps all of `a`.
pub proof fn lemma_strip_end_append(a: Seq<char>, b: Seq<char>, k: CharClass)
    requires
        a.len() > 0,
        !in_class(k, a.last()),
    ensures
        strip_end(a + b, k) == a + strip_end(b, k),
    decreases b.len(),
{
    if b.len() == 0 {
        assert(a + b =~= a);
        assert(a + strip_end(b, k) =~= a);
    } else if in_class(k, b.last()) {
        assert((a + b).drop_last() =~= a + b.drop_last());
        lemma_strip_end_append(a, b.drop_last(), k);
    } else {
        assert((a + b).last() == b.last());
    }
}

/// `find_from` stops at the first occurrence.
pub proof fn lemma_find_from_first(s: Seq<char>, p: Seq<char>, i: int, k: int)
    requires
        0 <= i <= k,
        occurs_at(s, p, k),
        forall|j: int| i <= j < k ==> !#[trigger] occurs_at(s, p, j),
    ensures
        find_from(s, p, i) == Some(k),
    decreases k - i,
{
    if i < k {
        lemma_find_from_first(s, p, i + 1, k);
    }
}

/// Nothing occurs between `i` and what `find_from` finds.
pub proof fn lemma_find_from_before(s: Seq<char>, p: Seq<char>, i: int)
    ensures
        find_from(s, p, i) matches Some(k) ==> forall|j: int| i <= j < k ==> !#[trigger] occurs_at(s, p, j),
    decreases s.len() + 1 - i,
{
    if i < 0 || i + p.len() > s.len() {
    } else if occurs_at(s, p, i) {
    } else {
        lemma_find_from_before(s, p, i + 1);
    }
}

/// `find_from` finds nothing exactly when nothing occurs from `i` on.
pub proof fn lemma_find_from_none(s: Seq<char>, p: Seq<char>, i: int)
    requires
        0 <= i,
    ensures
        find_from(s, p, i) is None <==> forall|j: int| i <= j ==> !#[trigger] occurs_at(s, p, j),
    decreases s.len() + 1 - i,
{
    if i + p.len() > s.len() {
    } else {
        lemma_find_from_none(s, p, i + 1);
        if !occurs_at(s, p, i) {
            assert forall|j: int| i <= j && (forall|m: int| i + 1 <= m ==> !#[trigger] occurs_at(s, p, m))
                implies !#[trigger] occurs_at(s, p, j) by {
                if j > i {
                    assert(!occurs_at(s, p, j));
                }
            }
        }
    }
}

/// The last index at which `c` stands in `s[..i]`.
pub open spec fn rfind_char_before(s: Seq<char>, c: char, i: int) -> Option<int>
    decreases i,
{
    if i <= 0 {
        None
    } else if s[i - 1] == c {
        Some(i - 1)
    } else {
        rfind_char_before(s, c, i - 1)
    }
}

pub proof fn lemma_rfind_bounds(s: Seq<char>, c: char, i: int)
    ensures
        rfind_char_before(s, c, i) matches Some(k) ==> 0 <= k < i && s[k] == c,
    decreases i,
{
    if i > 0 && s[i - 1] != c {
        lemma_rfind_bounds(s, c, i - 1);
    }
}

pub proof fn lemma_find_from_bounds(s: Seq<char>, p: Seq<char>, i: int)
    ensures
        find_from(s, p, i) matches Some(k) ==> i <= k && occurs_at(s, p, k),
    decreases s.len() + 1 - i,
{
    if i < 0 || i + p.len() > s.len() {
    } else if occurs_at(s, p, i) {
    } else {
        lemma_find_from_bounds(s, p, i + 1);
    }
}

pub proof fn lemma_find_bounds(s: Seq<char>, p: Seq<char>)
    ensures
        find(s, p) matches Some(k) ==> 0 <= k && k + p.len() <= s.len() && s.subrange(
            k,
            k + p.len(),
        ) == p,
{
    lemma_find_from_bounds(s, p, 0);
}

/// Whether `s` starts with the characters of `p`.
pub fn starts_with_str(s: &Vec<char>, p: &str) -> (r: bool)
    ensures
        r == starts_with(s@, p@),
{
    let m = p.unicode_len();
    if m > s.len() {
        return false;
    }
    let mut i: usize = 0;
    while i < m
        invariant
            m == p@.len(),
            m <= s@.len(),
            i <= m,
            s@.subrange(0, i as int) == p@.subrange(0, i as int),
        decreases m - i,
    {
        if s[i] != p.get_char(i) {
            assert(s@.subrange(0, m as int)[i as int] != p@[i as int]);
            return false;
        }
        i = i + 1;
        assert(s@.subrange(0, i as int) =~= p@.subrange(0, i as int));
    }
    assert(p@.subrange(0, m as int) =~= p@);
    true
}

/// Whether `s` holds exactly the characters of `p`.
pub fn eq_str(s: &Vec<char>, p: &str) -> (r: bool)
    ensures
        r == (s@ == p@),
{
    let m = p.unicode_len();
    if m != s.len() {
        return false;
    }
    let b = starts_with_str(s, p);
    assert(s@ =~= s@.subrange(0, m as int));
    b
}

/// Whether `s` ends with `p`.
pub open spec fn ends_with(s: Seq<char>, p: Seq<char>) -> bool {
    p.len() <= s.len() && s.subrange(s.len() - p.len(), s.len() as int) == p
}

/// Whether `s` ends with the characters of `p`.
pub fn ends_with_str(s: &Vec<char>, p: &str) -> (r: bool)
    ensures
        r == ends_with(s@, p@),
{
    let m = p.unicode_len();
    if m > s.len() {
        return false;
    }
    let k = s.len() - m;
    let mut j: usize = 0;
    while j < m
        invariant
            m == p@.len(),
            k + m == s.len(),
            j <= m,
            s@.subrange(k as int, k + j) == p@.subrange(0, j as int),
        decreases m - j,
    {
        if s[k + j] != p.get_char(j) {
            assert(s@.subrange(k as int, k + m)[j as int] != p@[j as int]);
            return false;
        }
        j = j + 1;
        assert(s@.subrange(k as int, k + j) =~= p@.subrange(0, j as int));
    }
    assert(p@.subrange(0, m as int) =~= p@);
    true
}

/// Appends the characters of `p` to `out`.
pub fn append_str(out: &mut Vec<char>, p: &str)
    ensures
        final(out)@ == old(out)@ + p@,
{
    let mut cs = chars_of(p);
    out.append(&mut cs);
}

/// Appends the characters of `p` to `out`.
pub fn append_chars(out: &mut Vec<char>, p: &Vec<char>)
    ensures
        final(out)@ == old(out)@ + p@,
{
    let mut i: usize = 0;
    let ghost o = out@;
    while i < p.len()
        invariant
            i <= p@.len(),
            out@ == o + p@.subrange(0, i as int),
        decreases p@.len() - i,
    {
        out.push(p[i]);
        i = i + 1;
        assert(out@ =~= o + p@.subrange(0, i as int));
    }
    assert(p@.subrange(0, i as int) =~= p@);
}

/// The digit character of `d`, for `d` below 10.
pub open spec fn digit_char(d: int) -> char {
    seq!['0', '1', '2', '3', '4', '5', '6', '7', '8', '9'][d]
}

/// The decimal numeral of `n`, without leading zeros.
pub open spec fn decimal(n: nat) -> Seq<char>
    decreases n,
{
    if n < 10 {
        seq![digit_char(n as int)]
    } else {
        decimal(n / 10).push(digit_char((n % 10) as int))
    }
}

/// The digit character of `d`.
fn digit_of(d: u64) -> (c: char)
    requires
        d < 10,
    ensures
        c == digit_char(d as int),
{
    match d {
        0 => '0',
        1 => '1',
        2 => '2',
        3 => '3',
        4 => '4',
        5 => '5',
        6 => '6',
        7 => '7',
        8 => '8',
        _ => '9',
    }
}

/// The decimal numeral of `n`.
pub fn decimal_chars(n: u64) -> (r: Vec<char>)
    ensures
        r@ == decimal(n as nat),
    decreases n,
{
    if n < 10 {
        let mut r: Vec<char> = Vec::new();
        r.push(digit_of(n));
        assert(r@ =~= decimal(n as nat));
        r
    } else {
        let mut r = decimal_chars(n / 10);
        r.push(digit_of(n % 10));
        r
    }
}

/// Whether `p` occurs in `s` at index `i`.
fn occurs_at_exec(s: &Vec<char>, p: &str, m: usize, i: usize) -> (r: bool)
    requires
        m == p@.len(),
        i + m <= s.len(),
    ensures
        r == occurs_at(s@, p@, i as int),
{
    let mut j: usize = 0;
    while j < m
        invariant
            m == p@.len(),
            i + m <= s.len(),
            j <= m,
            s@.subrange(i as int, i + j) == p@.subrange(0, j as int),
        decreases m - j,
    {
        if s[i + j] != p.get_char(j) {
            assert(s@.subrange(i as int, i + m)[j as int] != p@[j as int]);
            return false;
        }
        j = j + 1;
        assert(s@.subrange(i as int, i + j) =~= p@.subrange(0, j as int));
    }
    assert(p@.subrange(0, m as int) =~= p@);
    true
}

/// `str::find`, counted in characters.
pub fn find_str(s: &Vec<char>, p: &str) -> (r: Option<usize>)
    ensures
        r matches Some(k) ==> find(s@, p@) == Some(k as int),
        r is None ==> find(s@, p@) is None,
{
    let m = p.unicode_len();
    let n = s.len();
    if m > n {
        return None;
    }
    let mut i: usize = 0;
    loop
        invariant
            m == p@.len(),
            n == s.len(),
            m <= n,
            i <= n - m,
            find(s@, p@) == find_from(s@, p@, i as int),
        decreases n - m - i,
    {
        if occurs_at_exec(s, p, m, i) {
            return Some(i);
        }
        if i == n - m {
            assert(find_from(s@, p@, i + 1) is None);
            return None;
        }
        i = i + 1;
    }
}

/// Whether `p` occurs somewhere in `s`.
pub fn contains_str(s: &Vec<char>, p: &str) -> (r: bool)
    ensures
        r == contains(s@, p@),
{
    find_str(s, p).is_some()
}

/// `str::rfind` with a character, counted in characters.
pub fn rfind_char(s: &Vec<char>, c: char) -> (r: Option<usize>)
    ensures
        r matches Some(k) ==> rfind_char_before(s@, c, s@.len() as int) == Some(k as int),
        r is None ==> rfind_char_before(s@, c, s@.len() as int) is None,
{
    let mut i = s.len();
    while i > 0
        invariant
            i <= s@.len(),
            rfind_char_before(s@, c, s@.len() as int) == rfind_char_before(s@, c, i as int),
        decreases i,
    {
        if s[i - 1] == c {
            return Some(i - 1);
        }
        i = i - 1;
    }
    None
}

// ---------------------------------------------------------------------------
// Words (`split_whitespace`) and joining
// ---------------------------------------------------------------------------

/// The length of the run of non-white-space characters at the start of `s`.
pub open spec fn word_len(s: Seq<char>) -> nat
    decreases s.len(),
{
    if s.len() == 0 || is_ws(s[0]) {
        0
    } else {
        1 + word_len(s.drop_first())
    }
}

/// `str::split_whitespace`: the maximal runs of non-white-space characters.
pub open spec fn words(s: Seq<char>) -> Seq<Seq<char>>
    decreases s.len(),
{
    let t = strip_start(s, CharClass::Whitespace);
    if t.len() == 0 {
        seq![]
    } else {
        let w = word_len(t);
        proof {
            lemma_strip_start_is_suffix(s, CharClass::Whitespace);
            lemma_strip_start_head(s, CharClass::Whitespace);
            lemma_word_len(t);
        }
        seq![t.subrange(0, w as int)] + words(t.subrange(w as int, t.len() as int))
    }
}

pub proof fn lemma_word_len(s: Seq<char>)
    ensures
        word_len(s) <= s.len(),
        s.len() > 0 && !is_ws(s[0]) ==> word_len(s) > 0,
        forall|i: int| 0 <= i < word_len(s) ==> !is_ws(#[trigger] s[i]),
        word_len(s) < s.len() ==> is_ws(s[word_len(s) as int]),
    decreases s.len(),
{
    if s.len() == 0 || is_ws(s[0]) {
    } else {
        lemma_word_len(s.drop_first());
        assert forall|i: int| 0 <= i < word_len(s) implies !is_ws(#[trigger] s[i]) by {
            if i > 0 {
                assert(s[i] == s.drop_first()[i - 1]);
            }
        }
    }
}

/// The character sequences held by a sequence of character vectors.
pub open spec fn views(r: Seq<Vec<char>>) -> Seq<Seq<char>> {
    r.map_values(|v: Vec<char>| v@)
}

/// `str::split_whitespace`.
pub fn words_of(s: &Vec<char>) -> (r: Vec<Vec<char>>)
    ensures
        views(r@) == words(s@),
{
    let n = s.len();
    let mut r: Vec<Vec<char>> = Vec::new();
    let mut i: usize = 0;
    assert(s@.subrange(0, n as int) =~= s@);
    assert(views(r@) =~= Seq::<Seq<char>>::empty());
    while i < n
        invariant
            n == s@.len(),
            i <= n,
            words(s@) == views(r@) + words(s@.subrange(i as int, n as int)),
        decreases n - i,
    {
        let ghost rest = s@.subrange(i as int, n as int);
        if is_whitespace(s[i]) {
            assert(rest.drop_first() =~= s@.subrange(i + 1, n as int));
            assert(strip_start(rest, CharClass::Whitespace) == strip_start(
                rest.drop_first(),
                CharClass::Whitespace,
            ));
            assert(words(rest) == words(rest.drop_first()));
            i = i + 1;
        } else {
            let mut j = i;
            while j < n && !is_whitespace(s[j])
                invariant
                    n == s@.len(),
                    i <= j <= n,
                    rest == s@.subrange(i as int, n as int),
                    forall|q: int| i <= q < j ==> !is_ws(#[trigger] s@[q]),
                decreases n - j,
            {
                j = j + 1;
            }
            proof {
                lemma_word_len_exact(rest, (j - i) as nat);
                assert(strip_start(rest, CharClass::Whitespace) == rest);
                assert(rest.subrange(0, (j - i) as int) =~= s@.subrange(i as int, j as int));
                assert(rest.subrange((j - i) as int, rest.len() as int) =~= s@.subrange(
                    j as int,
                    n as int,
                ));
            }
            let w = slice_chars(s, i, j);
            let ghost old_r = views(r@);
            r.push(w);
            assert(views(r@) =~= old_r.push(w@));
            assert(seq![w@] + words(s@.subrange(j as int, n as int)) == words(rest));
            assert(views(r@) + words(s@.subrange(j as int, n as int)) =~= old_r + (seq![w@]
                + words(s@.subrange(j as int, n as int))));
            i = j;
        }
    }
    assert(words(s@.subrange(n as int, n as int)) == Seq::<Seq<char>>::empty()) by {
        assert(s@.subrange(n as int, n as int).len() == 0);
    }
    assert(views(r@) + Seq::<Seq<char>>::empty() =~= views(r@));
    r
}

pub proof fn lemma_word_len_exact(s: Seq<char>, w: nat)
    requires
        w <= s.len(),
        forall|q: int| 0 <= q < w ==> !is_ws(#[trigger] s[q]),
        w == s.len() || is_ws(s[w as int]),
    ensures
        word_len(s) == w,
    decreases s.len(),
{
    if s.len() == 0 || is_ws(s[0]) {
        if w > 0 {
            assert(!is_ws(s[0]));
        }
    } else {
        assert forall|q: int| 0 <= q < w - 1 implies !is_ws(#[trigger] s.drop_first()[q]) by {
            assert(s.drop_first()[q] == s[q + 1]);
        }
        if w < s.len() {
            assert(s.drop_first()[w - 1] == s[w as int]);
        }
        lemma_word_len_exact(s.drop_first(), (w - 1) as nat);
    }
}

/// The words of `ws` joined by `sep` (`[&str]::join`).
pub open spec fn join(ws: Seq<Seq<char>>, sep: Seq<char>) -> Seq<char>
    decreases ws.len(),
{
    if ws.len() == 0 {
        seq![]
    } else if ws.len() == 1 {
        ws[0]
    } else {
        join(ws.drop_last(), sep) + sep + ws.last()
    }
}

/// `ws[lo..hi].join(" ")`.
pub fn join_words(ws: &Vec<Vec<char>>, lo: usize, hi: usize) -> (r: Vec<char>)
    requires
        lo <= hi <= ws.len(),
    ensures
        r@ == join(views(ws@).subrange(lo as int, hi as int), seq![' ']),
{
    let mut r: Vec<char> = Vec::new();
    let mut i = lo;
    while i < hi
        invariant
            lo <= i <= hi <= ws.len(),
            r@ == join(views(ws@).subrange(lo as int, i as int), seq![' ']),
        decreases hi - i,
    {
        let ghost prev = views(ws@).subrange(lo as int, i as int);
        let ghost next = views(ws@).subrange(lo as int, i + 1);
        assert(next.drop_last() =~= prev);
        assert(next.last() == ws[i as int]@);
        if i > lo {
            r.push(' ');
        }
        let w = &ws[i];
        let mut j: usize = 0;
        let ghost base = r@;
        while j < w.len()
            invariant
                j <= w.len(),
                r@ == base + w@.subrange(0, j as int),
            decreases w.len() - j,
        {
            r.push(w[j]);
            j = j + 1;
            assert(r@ =~= base + w@.subrange(0, j as int));
        }
        assert(w@.subrange(0, w@.len() as int) =~= w@);
        if i == lo {
            assert(next.len() == 1);
            assert(base =~= Seq::<char>::empty());
            assert(r@ =~= next[0]);
        } else {
            assert(r@ =~= join(prev, seq![' ']) + seq![' '] + next.last());
        }
        i = i + 1;
    }
    r
}

// ---------------------------------------------------------------------------
// Numbers (`str::parse::<usize>`, `str::parse::<i64>`)
// ---------------------------------------------------------------------------

pub open spec fn is_digit(c: char) -> bool {
    '0' <= c && c <= '9'
}

pub open spec fn all_digits(s: Seq<char>) -> bool {
    forall|i: int| 0 <= i < s.len() ==> is_digit(#[trigger] s[i])
}

pub open spec fn digit_value(c: char) -> int {
    (c as u32) - ('0' as u32)
}

/// The value of a string of decimal digits.
pub open spec fn digits_value(s: Seq<char>) -> int
    decreases s.len(),
{
    if s.len() == 0 {
        0
    } else {
        digits_value(s.drop_last()) * 10 + digit_value(s.last())
    }
}

/// The value of `s` when it is a non-empty run of decimal digits no larger than `limit`.
pub open spec fn bounded_digits(s: Seq<char>, limit: int) -> Option<int> {
    if s.len() > 0 && all_digits(s) && digits_value(s) <= limit {
        Some(digits_value(s))
    } else {
        None
    }
}

/// `str::parse::<usize>`: an optional `+`, then decimal digits, without overflow.
pub open spec fn parse_usize(s: Seq<char>) -> Option<usize> {
    let d = if s.len() > 0 && s[0] == '+' {
        s.drop_first()
    } else {
        s
    };
    match bounded_digits(d, usize::MAX as int) {
        Some(v) => Some(v as usize),
        None => None,
    }
}

/// `str::parse::<i64>`: an optional sign, then decimal digits, within `i64`.
pub open spec fn parse_i64(s: Seq<char>) -> Option<i64> {
    if s.len() > 0 && s[0] == '-' {
        match bounded_digits(s.drop_first(), 0x8000_0000_0000_0000) {
            Some(v) => Some((-v) as i64),
            None => None,
        }
    } else {
        let d = if s.len() > 0 && s[0] == '+' {
            s.drop_first()
        } else {
            s
        };
        match bounded_digits(d, i64::MAX as int) {
            Some(v) => Some(v as i64),
            None => None,
        }
    }
}

pub proof fn lemma_digits_value_nonneg(s: Seq<char>)
    requires
        all_digits(s),
    ensures
        digits_value(s) >= 0,
    decreases s.len(),
{
    if s.len() > 0 {
        lemma_digits_value_nonneg(s.drop_last());
    }
}

pub proof fn lemma_digits_prefix_le(s: Seq<char>, j: int)
    requires
        all_digits(s),
        0 <= j <= s.len(),
    ensures
        digits_value(s.subrange(0, j)) <= digits_value(s),
    decreases s.len() - j,
{
    if j == s.len() {
        assert(s.subrange(0, j) =~= s);
    } else {
        let d = s.drop_last();
        assert(all_digits(d));
        assert(d.subrange(0, j) =~= s.subrange(0, j));
        lemma_digits_prefix_le(d, j);
        lemma_digits_value_nonneg(d);
    }
}

/// The value of `s[start..]` when it is a non-empty run of decimal digits no larger
/// than `limit`.
fn digits_from(s: &Vec<char>, start: usize, limit: u128) -> (r: Option<u128>)
    requires
        start <= s.len(),
        limit <= 0x1_0000_0000_0000_0000,
    ensures
        r matches Some(v) ==> bounded_digits(s@.subrange(start as int, s@.len() as int), limit as int)
            == Some(v as int),
        r is None ==> bounded_digits(s@.subrange(start as int, s@.len() as int), limit as int)
            is None,
{
    let n = s.len();
    let ghost d = s@.subrange(start as int, n as int);
    if start == n {
        return None;
    }
    let mut acc: u128 = 0;
    let mut k: usize = start;
    while k < n
        invariant
            start <= k <= n,
            n == s@.len(),
            limit <= 0x1_0000_0000_0000_0000,
            d == s@.subrange(start as int, n as int),
            all_digits(s@.subrange(start as int, k as int)),
            acc as int == digits_value(s@.subrange(start as int, k as int)),
            acc <= limit,
        decreases n - k,
    {
        let c = s[k];
        let ghost pre = s@.subrange(start as int, k as int);
        let ghost next = s@.subrange(start as int, k + 1);
        assert(next.drop_last() =~= pre);
        if !('0' <= c && c <= '9') {
            assert(!is_digit(d[k - start]));
            return None;
        }
        let dv = (c as u32 - '0' as u32) as u128;
        acc = acc * 10 + dv;
        assert(all_digits(next));
        if acc > limit {
            proof {
                if all_digits(d) {
                    assert(d.subrange(0, k + 1 - start) =~= next);
                    lemma_digits_prefix_le(d, k + 1 - start);
                }
            }
            return None;
        }
        k = k + 1;
    }
    assert(s@.subrange(start as int, k as int) =~= d);
    Some(acc)
}

/// `str::parse::<usize>`.
pub fn parse_usize_chars(s: &Vec<char>) -> (r: Option<usize>)
    ensures
        r == parse_usize(s@),
{
    let start: usize = if s.len() > 0 && s[0] == '+' {
        1
    } else {
        0
    };
    assert(s@.subrange(start as int, s@.len() as int) =~= if s@.len() > 0 && s@[0] == '+' {
        s@.drop_first()
    } else {
        s@
    });
    match digits_from(s, start, usize::MAX as u128) {
        Some(v) => Some(v as usize),
        None => None,
    }
}

/// `str::parse::<i64>`.
pub fn parse_i64_chars(s: &Vec<char>) -> (r: Option<i64>)
    ensures
        r == parse_i64(s@),
{
    if s.len() > 0 && s[0] == '-' {
        assert(s@.subrange(1, s@.len() as int) =~= s@.drop_first());
        match digits_from(s, 1, 0x8000_0000_0000_0000) {
            Some(v) => {
                if v == 0x8000_0000_0000_0000 {
                    Some(i64::MIN)
                } else {
                    let m = v as i64;
                    Some(-m)
                }
            },
            None => None,
        }
    } else {
        let start: usize = if s.len() > 0 && s[0] == '+' {
            1
        } else {
            0
        };
        assert(s@.subrange(start as int, s@.len() as int) =~= if s@.len() > 0 && s@[0] == '+' {
            s@.drop_first()
        } else {
            s@
        });
        match digits_from(s, start, i64::MAX as u128) {
            Some(v) => Some(v as i64),
            None => None,
        }
    }
}

// ---------------------------------------------------------------------------
// Byte positions (UTF-8)
// ---------------------------------------------------------------------------

/// The number of bytes that `c` takes in UTF-8.
pub open spec fn width(c: char) -> int {
    encode_scalar(c as u32).len() as int
}

/// The number of bytes that `s` takes in UTF-8.
pub open spec fn byte_len(s: Seq<char>) -> int
    decreases s.len(),
{
    if s.len() == 0 {
        0
    } else {
        width(s[0]) + byte_len(s.drop_first())
    }
}

/// The character index at which byte offset `b` of the UTF-8 form of `s` begins a
/// character, or `None` when `b` lies inside a character or past the end
/// (where slicing a `str` at `b` panics).
pub open spec fn char_at_byte(s: Seq<char>, b: int) -> Option<int>
    decreases s.len(),
{
    if b == 0 {
        Some(0)
    } else if b < 0 || s.len() == 0 || b < width(s[0]) {
        None
    } else {
        match char_at_byte(s.drop_first(), b - width(s[0])) {
            Some(j) => Some(j + 1),
            None => None,
        }
    }
}

/// The number of bytes that `c` takes in UTF-8 (`char::len_utf8`).
pub fn char_width(c: char) -> (r: u8)
    ensures
        r as int == width(c),
        1 <= r <= 4,
{
    let v = c as u32;
    proof {
        char_is_scalar(c);
    }
    if v <= 0x7f {
        1
    } else if v <= 0x7ff {
        2
    } else if v <= 0xffff {
        3
    } else {
        4
    }
}

pub proof fn lemma_width_bounds(c: char)
    ensures
        1 <= width(c) <= 4,
{
    char_is_scalar(c);
}

pub proof fn lemma_byte_len_single(c: char)
    ensures
        byte_len(seq![c]) == width(c),
{
    assert(seq![c].drop_first() =~= Seq::<char>::empty());
    assert(byte_len(Seq::<char>::empty()) == 0);
}

pub proof fn lemma_byte_len_concat(a: Seq<char>, b: Seq<char>)
    ensures
        byte_len(a + b) == byte_len(a) + byte_len(b),
    decreases a.len(),
{
    if a.len() == 0 {
        assert(a + b =~= b);
    } else {
        assert((a + b).drop_first() =~= a.drop_first() + b);
        lemma_byte_len_concat(a.drop_first(), b);
    }
}

pub proof fn lemma_byte_len_bounds(s: Seq<char>)
    ensures
        s.len() <= byte_len(s) <= 4 * s.len(),
    decreases s.len(),
{
    if s.len() > 0 {
        lemma_byte_len_bounds(s.drop_first());
        lemma_width_bounds(s[0]);
    }
}

/// The number of bytes that `s[..k]` takes in UTF-8.
pub fn byte_len_prefix(s: &Vec<char>, k: usize) -> (r: u128)
    requires
        k <= s.len(),
    ensures
        r as int == byte_len(s@.subrange(0, k as int)),
        r <= 4 * k,
{
    let mut acc: u128 = 0;
    let mut i: usize = 0;
    while i < k
        invariant
            i <= k <= s.len(),
            acc as int == byte_len(s@.subrange(0, i as int)),
            acc <= 4 * i,
        decreases k - i,
    {
        let w = char_width(s[i]);
        proof {
            let pre = s@.subrange(0, i as int);
            assert(s@.subrange(0, i + 1) =~= pre + seq![s@[i as int]]);
            lemma_byte_len_concat(pre, seq![s@[i as int]]);
            lemma_byte_len_single(s@[i as int]);
        }
        acc = acc + w as u128;
        i = i + 1;
    }
    acc
}

/// The character index at which byte offset `b` of `s` begins a character.
pub fn char_at_byte_exec(s: &Vec<char>, b: u128) -> (r: Option<usize>)
    requires
        b < 0x1_0000_0000_0000_0000_0000,
    ensures
        r matches Some(j) ==> char_at_byte(s@, b as int) == Some(j as int),
        r is None ==> char_at_byte(s@, b as int) is None,
{
    let n = s.len();
    let mut acc: u128 = 0;
    let mut i: usize = 0;
    assert(s@.subrange(0, n as int) =~= s@);
    while acc < b && i < n
        invariant
            i <= n == s@.len(),
            acc <= b + 4,
            b < 0x1_0000_0000_0000_0000_0000,
            char_at_byte(s@, b as int) == (match char_at_byte(
                s@.subrange(i as int, n as int),
                b - acc,
            ) {
                Some(j) => Some(j + i),
                None => None,
            }),
        decreases n - i,
    {
        let ghost rest = s@.subrange(i as int, n as int);
        assert(rest.drop_first() =~= s@.subrange(i + 1, n as int));
        assert(rest[0] == s@[i as int]);
        let w = char_width(s[i]);
        acc = acc + w as u128;
        i = i + 1;
        proof {
            if b - acc < 0 {
                assert(char_at_byte(s@.subrange(i as int, n as int), b - acc) is None);
            }
        }
    }
    if acc == b {
        Some(i)
    } else {
        None
    }
}

} // verus!
