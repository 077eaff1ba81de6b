//! Character-level building blocks shared by the string-processing modules.
use vstd::prelude::*;

verus! {

/// The number of bytes in the UTF-8 encoding of `c`.
pub open spec fn char_utf8_len(c: char) -> nat {
    if (c as u32) < 0x80 {
        1
    } else if (c as u32) < 0x800 {
        2
    } else if (c as u32) < 0x10000 {
        3
    } else {
        4
    }
}

/// The number of bytes in the UTF-8 encoding of `s` (what `str::len` reports).
pub open spec fn utf8_len(s: Seq<char>) -> nat
    decreases s.len(),
{
    if s.len() == 0 {
        0
    } else {
        utf8_len(s.drop_last()) + char_utf8_len(s.last())
    }
}

/// The characters of `s`, in order.
pub fn chars_of(s: &str) -> (v: Vec<char>)
    ensures
        v@ == s@,
{
    let mut v: Vec<char> = Vec::new();
    for c in it: s.chars()
        invariant
            v@ == it.seq().take(it.index() as int),
            it.seq() == s@,
    {
        v.push(c);
    }
    v
}

} // verus!

verus! {

/// Appends `c` to `s` (`String::push`).
#[verifier::external_body]
pub(crate) fn push_char(s: &mut String, c: char)
    ensures
        final(s)@ == old(s)@.push(c),
{
    s.push(c);
}

/// A `String` holding exactly the characters `v[lo..hi]`.
pub fn string_of_range(v: &[char], lo: usize, hi: usize) -> (res: String)
    requires
        lo <= hi <= v@.len(),
    ensures
        res@ == v@.subrange(lo as int, hi as int),
{
    let mut res = String::new();
    let mut i = lo;
    while i < hi
        invariant
            lo <= i <= hi <= v@.len(),
            res@ == v@.subrange(lo as int, i as int),
        decreases hi - i,
    {
        push_char(&mut res, v[i]);
        assert(v@.subrange(lo as int, i + 1) == v@.subrange(lo as int, i as int).push(v@[i as int]));
        i += 1;
    }
    res
}

/// A `String` holding exactly the characters of `v`.
pub fn string_of(v: &[char]) -> (res: String)
    ensures
        res@ == v@,
{
    let res = string_of_range(v, 0, v.len());
    assert(v@.subrange(0, v@.len() as int) == v@);
    res
}

/// `c` is one of the ASCII digits `0`..=`9`.
pub open spec fn is_ascii_digit(c: char) -> bool {
    '0' <= c && c <= '9'
}

/// `char::is_ascii_digit`.
pub fn ascii_digit(c: char) -> (b: bool)
    ensures
        b == is_ascii_digit(c),
{
    '0' <= c && c <= '9'
}

/// `c` is one of the ASCII capitals `A`..=`Z`.
pub open spec fn is_ascii_upper(c: char) -> bool {
    'A' <= c && c <= 'Z'
}

/// `c` is an ASCII letter or digit.
pub open spec fn is_ascii_alnum(c: char) -> bool {
    is_ascii_digit(c) || is_ascii_upper(c) || ('a' <= c && c <= 'z')
}

/// `c` has the Unicode `White_Space` property (PropList.txt): U+0009..=U+000D, U+0020,
/// U+0085, U+00A0, U+1680, U+2000..=U+200A, U+2028, U+2029, U+202F, U+205F and U+3000.
pub open spec fn unicode_whitespace(c: char) -> bool {
    ||| ('\u{9}' <= c && c <= '\u{d}')
    ||| c == ' '
    ||| c == '\u{85}'
    ||| c == '\u{a0}'
    ||| c == '\u{1680}'
    ||| ('\u{2000}' <= c && c <= '\u{200a}')
    ||| c == '\u{2028}'
    ||| c == '\u{2029}'
    ||| c == '\u{202f}'
    ||| c == '\u{205f}'
    ||| c == '\u{3000}'
}

/// What `char::is_alphanumeric` answers for `c` (Unicode `Alphabetic` or `Numeric`).
pub uninterp spec fn unicode_alphanumeric(c: char) -> bool;

/// What `str::to_lowercase` returns for a string with characters `s`.
pub uninterp spec fn unicode_lowercase(s: Seq<char>) -> Seq<char>;

/// Whether `c` is whitespace as `char::is_whitespace` defines it: the Unicode
/// `White_Space` property.
pub(crate) fn is_whitespace(c: char) -> (b: bool)
    ensures
        b == unicode_whitespace(c),
{
    ('\u{9}' <= c && c <= '\u{d}')
        || c == ' '
        || c == '\u{85}'
        || c == '\u{a0}'
        || c == '\u{1680}'
        || ('\u{2000}' <= c && c <= '\u{200a}')
        || c == '\u{2028}'
        || c == '\u{2029}'
        || c == '\u{202f}'
        || c == '\u{205f}'
        || c == '\u{3000}'
}

/// `char::is_alphanumeric`. The contract names the answer, and states that ASCII
/// letters and digits are alphanumeric and other ASCII characters are not.
#[verifier::external_body]
pub(crate) fn is_alphanumeric(c: char) -> (b: bool)
    ensures
        b == unicode_alphanumeric(c),
        (c as u32) < 0x80 ==> (b <==> is_ascii_alnum(c)),
{
    c.is_alphanumeric()
}

/// Every character of `s` is ASCII.
pub open spec fn all_ascii(s: Seq<char>) -> bool {
    forall|i: int| 0 <= i < s.len() ==> (#[trigger] s[i] as u32) < 0x80
}

/// The ASCII lowercase of `c`: `A`..=`Z` become `a`..=`z`, every other character stays.
pub open spec fn ascii_lower(c: char) -> char {
    if 'A' <= c && c <= 'Z' {
        ((c as u32) + 32) as char
    } else {
        c
    }
}

/// `str::to_lowercase`: the result is named; the contract states that lowercasing an
/// empty string gives the empty string, and that a string of ASCII characters is
/// lowercased character by character, `A`..=`Z` to `a`..=`z` and the rest unchanged (the
/// Unicode lowercase mapping of the ASCII characters).
#[verifier::external_body]
pub(crate) fn to_lowercase(s: &str) -> (res: String)
    ensures
        res@ == unicode_lowercase(s@),
        s@.len() == 0 ==> res@.len() == 0,
        all_ascii(s@) ==> res@ == s@.map_values(|c: char| ascii_lower(c)),
{
    s.to_lowercase()
}

} // verus!

verus! {

/// `a` and `b` hold the same characters.
pub fn chars_eq(a: &[char], b: &[char]) -> (res: bool)
    ensures
        res == (a@ == b@),
{
    if a.len() != b.len() {
        return false;
    }
    let mut i: usize = 0;
    while i < a.len()
        invariant
            i <= a@.len() == b@.len(),
            forall|k: int| 0 <= k < i ==> a@[k] == b@[k],
        decreases a@.len() - i,
    {
        if a[i] != b[i] {
            return false;
        }
        i += 1;
    }
    assert(a@ =~= b@);
    true
}

/// The UTF-8 length of `c` (`char::len_utf8`).
pub fn char_len_utf8(c: char) -> (n: usize)
    ensures
        n == char_utf8_len(c),
{
    let u = c as u32;
    if u < 0x80 {
        1
    } else if u < 0x800 {
        2
    } else if u < 0x10000 {
        3
    } else {
        4
    }
}

/// Byte lengths of prefixes grow with the prefix.
pub proof fn lemma_utf8_len_take(s: Seq<char>, i: int, j: int)
    requires
        0 <= i <= j <= s.len(),
    ensures
        utf8_len(s.take(i)) <= utf8_len(s.take(j)),
    decreases j - i,
{
    if i < j {
        lemma_utf8_len_take(s, i, j - 1);
        assert(s.take(j).drop_last() == s.take(j - 1));
    }
}

/// The byte offset of character index `k` of `v`.
pub fn byte_offset(v: &[char], k: usize) -> (res: usize)
    requires
        k <= v@.len(),
        utf8_len(v@) <= usize::MAX,
    ensures
        res == utf8_len(v@.take(k as int)),
{
    let mut total: usize = 0;
    let mut i: usize = 0;
    while i < k
        invariant
            i <= k <= v@.len(),
            utf8_len(v@) <= usize::MAX,
            total == utf8_len(v@.take(i as int)),
        decreases k - i,
    {
        proof {
            lemma_utf8_len_take(v@, i + 1, v@.len() as int);
            assert(v@.take(v@.len() as int) == v@);
            assert(v@.take(i + 1).drop_last() == v@.take(i as int));
        }
        total = total + char_len_utf8(v[i]);
        i += 1;
    }
    total
}


/// Byte lengths of prefixes grow strictly with the prefix.
pub proof fn lemma_utf8_len_strict(s: Seq<char>, i: int, j: int)
    requires
        0 <= i < j <= s.len(),
    ensures
        utf8_len(s.take(i)) < utf8_len(s.take(j)),
    decreases j - i,
{
    assert(s.take(j).drop_last() == s.take(j - 1));
    if i < j - 1 {
        lemma_utf8_len_strict(s, i, j - 1);
    }
}

/// The first `n` bytes of `t` are whole characters.
pub open spec fn bytes_boundary(t: Seq<char>, n: int) -> bool {
    exists|k: int| 0 <= k <= t.len() && utf8_len(#[trigger] t.take(k)) == n
}

/// The characters making up the first `n` bytes of `t` (where that is a boundary).
pub open spec fn prefix_of_bytes(t: Seq<char>, n: int) -> Seq<char> {
    t.take(choose|k: int| 0 <= k <= t.len() && utf8_len(#[trigger] t.take(k)) == n)
}

/// `None` when `t` has at most `limit` bytes, otherwise the number of characters in its
/// first `limit` bytes.
pub fn cut_at(t: &[char], limit: usize) -> (res: Option<usize>)
    requires
        utf8_len(t@) <= limit || bytes_boundary(t@, limit as int),
    ensures
        res is None <==> utf8_len(t@) <= limit,
        res matches Some(k) ==> k <= t@.len() && t@.take(k as int) == prefix_of_bytes(t@, limit as int),
{
    let mut i: usize = 0;
    let mut total: usize = 0;
    while i < t.len() && char_len_utf8(t[i]) <= limit - total
        invariant
            i <= t@.len(),
            total == utf8_len(t@.take(i as int)),
            total <= limit,
        decreases t@.len() - i,
    {
        assert(t@.take(i + 1).drop_last() == t@.take(i as int));
        total = total + char_len_utf8(t[i]);
        i += 1;
    }
    if i == t.len() {
        assert(t@.take(i as int) == t@);
        return None;
    }
    assert(t@.take(i + 1).drop_last() == t@.take(i as int));
    proof {
        lemma_utf8_len_take(t@, i + 1, t@.len() as int);
        assert(t@.take(t@.len() as int) == t@);
        let k = choose|k: int| 0 <= k <= t@.len() && utf8_len(#[trigger] t@.take(k)) == limit;
        if k < i {
            lemma_utf8_len_strict(t@, k, i as int);
        } else if k > i {
            if k > i + 1 {
                lemma_utf8_len_strict(t@, i + 1, k);
            }
        }
        assert(k == i);
    }
    Some(i)
}

/// The number of bytes of `v` (`str::len` of its string).
pub fn utf8_length(v: &[char]) -> (res: usize)
    requires
        utf8_len(v@) <= usize::MAX,
    ensures
        res == utf8_len(v@),
{
    let r = byte_offset(v, v.len());
    assert(v@.take(v@.len() as int) == v@);
    r
}

/// The decimal digit for `d < 10`.
pub open spec fn digit_char(d: nat) -> char {
    if d == 0 { '0' } else if d == 1 { '1' } else if d == 2 { '2' } else if d == 3 { '3' }
    else if d == 4 { '4' } else if d == 5 { '5' } else if d == 6 { '6' } else if d == 7 { '7' }
    else if d == 8 { '8' } else { '9' }
}

/// The decimal representation of `n`.
pub open spec fn decimal(n: nat) -> Seq<char>
    decreases n,
{
    if n < 10 {
        seq![digit_char(n)]
    } else {
        decimal(n / 10) + seq![digit_char(n % 10)]
    }
}

/// The decimal digit for `d`.
fn digit(d: u64) -> (c: char)
    requires
        d < 10,
    ensures
        c == digit_char(d as nat),
{
    if d == 0 { '0' } else if d == 1 { '1' } else if d == 2 { '2' } else if d == 3 { '3' }
    else if d == 4 { '4' } else if d == 5 { '5' } else if d == 6 { '6' } else if d == 7 { '7' }
    else if d == 8 { '8' } else { '9' }
}

/// The decimal representation of `n` (what `{}` formats).
pub fn decimal_chars(n: u64) -> (res: Vec<char>)
    ensures
        res@ == decimal(n as nat),
    decreases n,
{
    if n < 10 {
        let v = vec![digit(n)];
        assert(v@ =~= seq![digit_char(n as nat)]);
        v
    } else {
        let mut v = decimal_chars(n / 10);
        v.push(digit(n % 10));
        v
    }
}

/// A character takes at most four bytes.
pub proof fn lemma_utf8_len_bound(s: Seq<char>)
    ensures
        utf8_len(s) <= 4 * s.len(),
    decreases s.len(),
{
    if s.len() > 0 {
        lemma_utf8_len_bound(s.drop_last());
    }
}

/// The byte length of `v`, or `None` where it does not fit in a `usize`.
pub fn checked_utf8_length(v: &[char]) -> (res: Option<usize>)
    ensures
        res matches Some(n) ==> n == utf8_len(v@),
        res is None ==> utf8_len(v@) > usize::MAX,
{
    let mut total: usize = 0;
    let mut i: usize = 0;
    while i < v.len()
        invariant
            i <= v@.len(),
            total == utf8_len(v@.take(i as int)),
        decreases v@.len() - i,
    {
        assert(v@.take(i + 1).drop_last() == v@.take(i as int));
        match total.checked_add(crate::text::char_len_utf8(v[i])) {
            Some(t) => {
                total = t;
            },
            None => {
                proof {
                    lemma_utf8_len_take(v@, i + 1, v@.len() as int);
                    assert(v@.take(v@.len() as int) == v@);
                }
                return None;
            },
        }
        i += 1;
    }
    assert(v@.take(v@.len() as int) == v@);
    Some(total)
}

/// The bytes of two strings put together are the bytes of each.
pub proof fn lemma_utf8_len_concat(a: Seq<char>, b: Seq<char>)
    ensures
        utf8_len(a + b) == utf8_len(a) + utf8_len(b),
    decreases b.len(),
{
    if b.len() == 0 {
        assert(a + b =~= a);
    } else {
        lemma_utf8_len_concat(a, b.drop_last());
        assert((a + b).drop_last() =~= a + b.drop_last());
    }
}

} // verus!
