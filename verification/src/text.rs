//! Character-level text helpers: ASCII case folding, Unicode whitespace
//! trimming and suffix tests, over the characters of a string.
use vstd::prelude::*;
use vstd::string::StrSliceExecFns;

verus! {

/// ASCII lower case of one character; every other character is kept.
pub open spec fn lower(c: char) -> char {
    if 'A' <= c && c <= 'Z' {
        ((c as u32) + 32) as char
    } else {
        c
    }
}

/// ASCII lower case of every character.
pub open spec fn lower_seq(s: Seq<char>) -> Seq<char> {
    s.map_values(|c: char| lower(c))
}

/// The Unicode `White_Space` property (what `char::is_whitespace` tests).
pub open spec fn is_ws(c: char) -> bool {
    ||| '\u{9}' <= c && c <= '\u{d}'
    ||| c == ' '
    ||| c == '\u{85}'
    ||| c == '\u{a0}'
    ||| c == '\u{1680}'
    ||| '\u{2000}' <= c && c <= '\u{200a}'
    ||| c == '\u{2028}'
    ||| c == '\u{2029}'
    ||| c == '\u{202f}'
    ||| c == '\u{205f}'
    ||| c == '\u{3000}'
}

/// The index of the first non-whitespace character at or after `i`.
pub open spec fn first_non_ws(s: Seq<char>, i: int) -> int
    decreases s.len() - i,
{
    if i < 0 || i >= s.len() {
        s.len() as int
    } else if is_ws(s[i]) {
        first_non_ws(s, i + 1)
    } else {
        i
    }
}

/// One past the last non-whitespace character before `j`, not below `lo`.
pub open spec fn end_non_ws(s: Seq<char>, j: int, lo: int) -> int
    decreases j - lo,
{
    if j <= lo || j > s.len() {
        lo
    } else if is_ws(s[j - 1]) {
        end_non_ws(s, j - 1, lo)
    } else {
        j
    }
}

/// `s` without leading and trailing whitespace (what `str::trim` gives).
pub open spec fn trim(s: Seq<char>) -> Seq<char> {
    let a = first_non_ws(s, 0);
    s.subrange(a, end_non_ws(s, s.len() as int, a))
}

/// `s` ends with `suffix`.
pub open spec fn ends_with(s: Seq<char>, suffix: Seq<char>) -> bool {
    suffix.len() <= s.len() && s.subrange(s.len() - suffix.len(), s.len() as int) == suffix
}

/// `s` starts with `prefix`.
pub open spec fn starts_with(s: Seq<char>, prefix: Seq<char>) -> bool {
    prefix.len() <= s.len() && s.take(prefix.len() as int) == prefix
}

/// The characters of a string (`str::chars`, collected).
#[verifier::external_body]
pub(crate) fn chars_of(s: &str) -> (r: Vec<char>)
    ensures
        r@ == s@,
{
    s.chars().collect()
}

/// A string of the given characters (`String::from_iter`).
#[verifier::external_body]
pub(crate) fn string_of(chars: &[char]) -> (r: String)
    ensures
        r@ == chars@,
{
    String::from_iter(chars.iter())
}

/// ASCII lower case of one character.
pub fn ascii_lower(c: char) -> (r: char)
    ensures
        r == lower(c),
{
    if 'A' <= c && c <= 'Z' {
        let v: u32 = c as u32 + 32;
        assert(v < 0xD800);
        char_from_ascii(v as u8)
    } else {
        c
    }
}

/// The character with an ASCII code.
fn char_from_ascii(b: u8) -> (r: char)
    requires
        b < 128,
    ensures
        r == b as char,
        r as u32 == b as u32,
{
    b as char
}

/// Whether `c` is Unicode whitespace.
pub fn is_whitespace(c: char) -> (r: bool)
    ensures
        r == is_ws(c),
{
    ('\u{9}' <= c && c <= '\u{d}') || c == ' ' || c == '\u{85}' || c == '\u{a0}' || c == '\u{1680}' || ('\u{2000}' <= c
        && c <= '\u{200a}') || c == '\u{2028}' || c == '\u{2029}' || c == '\u{202f}' || c == '\u{205f}' || c
        == '\u{3000}'
}

/// ASCII lower case of every character.
pub fn lower_chars(s: &[char]) -> (r: Vec<char>)
    ensures
        r@ == lower_seq(s@),
{
    let mut r: Vec<char> = Vec::new();
    let mut i: usize = 0;
    while i < s.len()
        invariant
            i <= s@.len(),
            r@ == lower_seq(s@.take(i as int)),
        decreases s@.len() - i,
    {
        r.push(ascii_lower(s[i]));
        i += 1;
        assert(lower_seq(s@.take(i as int)) =~= lower_seq(s@.take(i - 1)).push(lower(s@[i - 1])));
    }
    assert(s@.take(s@.len() as int) =~= s@);
    r
}

/// Trimmed characters: leading and trailing whitespace removed.
pub fn trim_chars(s: &[char]) -> (r: Vec<char>)
    ensures
        r@ == trim(s@),
{
    let n = s.len();
    let mut a: usize = 0;
    while a < n && is_whitespace(s[a])
        invariant
            a <= n,
            n == s@.len(),
            first_non_ws(s@, 0) == first_non_ws(s@, a as int),
        decreases n - a,
    {
        a += 1;
    }
    let mut b: usize = n;
    while b > a && is_whitespace(s[b - 1])
        invariant
            a <= b <= n,
            n == s@.len(),
            a == first_non_ws(s@, 0),
            end_non_ws(s@, n as int, a as int) == end_non_ws(s@, b as int, a as int),
        decreases b - a,
    {
        b -= 1;
    }
    vstd::slice::slice_to_vec(&s[a..b])
}

/// Whether `s` ends with `suffix`, comparing `s` in ASCII lower case.
pub fn ends_with_lower(s: &[char], suffix: &str) -> (r: bool)
    ensures
        r == ends_with(lower_seq(s@), suffix@),
{
    let k = suffix.unicode_len();
    if k > s.len() {
        return false;
    }
    let off = s.len() - k;
    let mut j: usize = 0;
    while j < k
        invariant
            j <= k,
            k == suffix@.len(),
            off + k == s@.len(),
            off + k <= usize::MAX,
            forall|i: int| 0 <= i < j ==> lower(s@[off + i]) == suffix@[i],
        decreases k - j,
    {
        if ascii_lower(s[off + j]) != suffix.get_char(j) {
            assert(lower_seq(s@).subrange(off as int, s@.len() as int)[j as int] != suffix@[j as int]);
            return false;
        }
        j += 1;
    }
    assert(lower_seq(s@).subrange(off as int, s@.len() as int) =~= suffix@);
    true
}

/// Whether the characters `s` are exactly `t`.
pub fn chars_eq(s: &[char], t: &str) -> (r: bool)
    ensures
        r == (s@ == t@),
{
    let k = t.unicode_len();
    if k != s.len() {
        return false;
    }
    let mut j: usize = 0;
    while j < k
        invariant
            j <= k,
            k == t@.len(),
            k == s@.len(),
            forall|i: int| 0 <= i < j ==> s@[i] == t@[i],
        decreases k - j,
    {
        if s[j] != t.get_char(j) {
            return false;
        }
        j += 1;
    }
    assert(s@ =~= t@);
    true
}

/// The Unicode lower case of a string (what `str::to_lowercase` gives).
pub uninterp spec fn unicode_lower(s: Seq<char>) -> Seq<char>;

/// The Unicode lower case of a string (`str::to_lowercase`), a function of the
/// string alone.
#[verifier::external_body]
pub(crate) fn to_lowercase(s: &str) -> (r: String)
    ensures
        r@ == unicode_lower(s@),
{
    s.to_lowercase()
}

/// `a` sorts strictly before `b`: character by character by code point, a
/// proper prefix first (the order of `String`, as UTF-8 keeps code point order).
pub open spec fn char_lt(a: Seq<char>, b: Seq<char>) -> bool
    decreases a.len(),
{
    if a.len() == 0 {
        b.len() > 0
    } else if b.len() == 0 {
        false
    } else if a[0] != b[0] {
        a[0] < b[0]
    } else {
        char_lt(a.drop_first(), b.drop_first())
    }
}

/// Whether `a` sorts strictly before `b`.
pub fn chars_lt(a: &[char], b: &[char]) -> (r: bool)
    ensures
        r == char_lt(a@, b@),
{
    let mut i: usize = 0;
    assert(a@.skip(0) =~= a@);
    assert(b@.skip(0) =~= b@);
    while i < a.len() && i < b.len() && a[i] == b[i]
        invariant
            i <= a@.len(),
            i <= b@.len(),
            char_lt(a@, b@) == char_lt(a@.skip(i as int), b@.skip(i as int)),
        decreases a@.len() - i,
    {
        proof {
            assert(a@.skip(i as int).drop_first() =~= a@.skip(i + 1));
            assert(b@.skip(i as int).drop_first() =~= b@.skip(i + 1));
        }
        i += 1;
    }
    if i == a.len() {
        i < b.len()
    } else if i == b.len() {
        false
    } else {
        a[i] < b[i]
    }
}

/// `s` without trailing `/` characters (what `trim_end_matches('/')` gives).
pub open spec fn trim_slashes(s: Seq<char>) -> Seq<char>
    decreases s.len(),
{
    if s.len() > 0 && s.last() == '/' {
        trim_slashes(s.drop_last())
    } else {
        s
    }
}

/// Characters without trailing `/`.
pub fn trim_slashes_chars(s: &[char]) -> (r: Vec<char>)
    ensures
        r@ == trim_slashes(s@),
{
    let mut n = s.len();
    assert(s@.take(n as int) =~= s@);
    while n > 0 && s[n - 1] == '/'
        invariant
            n <= s@.len(),
            trim_slashes(s@) == trim_slashes(s@.take(n as int)),
        decreases n,
    {
        assert(s@.take(n as int).drop_last() =~= s@.take(n - 1));
        n -= 1;
    }
    vstd::slice::slice_to_vec(&s[0..n])
}

/// No string sorts before itself.
pub proof fn lemma_char_lt_irreflexive(a: Seq<char>)
    ensures
        !char_lt(a, a),
    decreases a.len(),
{
    if a.len() > 0 {
        lemma_char_lt_irreflexive(a.drop_first());
    }
}

/// Of two strings, at most one sorts before the other.
pub proof fn lemma_char_lt_asymmetric(a: Seq<char>, b: Seq<char>)
    requires
        char_lt(a, b),
    ensures
        !char_lt(b, a),
    decreases a.len(),
{
    if a.len() > 0 && b.len() > 0 && a[0] == b[0] {
        lemma_char_lt_asymmetric(a.drop_first(), b.drop_first());
    }
}

/// Sorting before chains.
pub proof fn lemma_char_lt_transitive(a: Seq<char>, b: Seq<char>, c: Seq<char>)
    requires
        char_lt(a, b),
        char_lt(b, c),
    ensures
        char_lt(a, c),
    decreases a.len(),
{
    if a.len() > 0 && b.len() > 0 && c.len() > 0 && a[0] == b[0] && b[0] == c[0] {
        lemma_char_lt_transitive(a.drop_first(), b.drop_first(), c.drop_first());
    }
}

/// Of two different strings, one sorts before the other.
pub proof fn lemma_char_lt_total(a: Seq<char>, b: Seq<char>)
    requires
        a != b,
    ensures
        char_lt(a, b) || char_lt(b, a),
    decreases a.len(),
{
    if a.len() > 0 && b.len() > 0 {
        if a[0] == b[0] {
            if a.drop_first() == b.drop_first() {
                assert(a =~= seq![a[0]] + a.drop_first());
                assert(b =~= seq![b[0]] + b.drop_first());
            }
            lemma_char_lt_total(a.drop_first(), b.drop_first());
        } else {
            assert(a[0] < b[0] || b[0] < a[0]);
        }
    } else if a.len() == 0 && b.len() == 0 {
        assert(a =~= b);
    }
}

} // verus!
