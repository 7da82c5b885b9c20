//! Text helpers: hexadecimal numbers and white space, as the standard library
//! reads them, and the characters of a string.

use vstd::prelude::*;
use vstd::string::StringSliceAdditionalSpecFns;
use vstd::string::StrSliceExecFns;
use vstd::string::StringExecFns;
use vstd::std_specs::iter::IteratorSpec;

verus! {

/// The value of one ASCII hexadecimal digit (`0-9`, `a-f`, `A-F`), if `b` is one.
pub open spec fn hex_digit_value(b: u8) -> Option<int> {
    if 48 <= b <= 57 {
        Some(b - 48)
    } else if 97 <= b <= 102 {
        Some(b - 87)
    } else if 65 <= b <= 70 {
        Some(b - 55)
    } else {
        None
    }
}

/// The number that a run of hexadecimal digits denotes, most significant digit first;
/// `None` if some byte is not a hexadecimal digit.
pub open spec fn hex_digits_value(d: Seq<u8>) -> Option<int>
    decreases d.len(),
{
    if d.len() == 0 {
        Some(0)
    } else {
        match (hex_digits_value(d.drop_last()), hex_digit_value(d.last())) {
            (Some(v), Some(x)) => Some(v * 16 + x),
            _ => None,
        }
    }
}

/// What `u8::from_str_radix(s, 16)` gives for a string whose UTF-8 bytes are `s`:
/// an optional leading `+`, then at least one hexadecimal digit, and a value that
/// fits in a `u8`.
pub open spec fn radix16_u8(s: Seq<u8>) -> Option<u8> {
    if s.len() == 0 {
        None
    } else if s.len() == 1 && (s[0] == 43u8 || s[0] == 45u8) {
        None
    } else {
        let digits = if s[0] == 43u8 { s.drop_first() } else { s };
        match hex_digits_value(digits) {
            Some(v) => if v <= 255 { Some(v as u8) } else { None },
            None => None,
        }
    }
}

/// Calls `u8::from_str_radix`. Its contract claims, for radix 16, that the call
/// succeeds exactly when the bytes of `s` are an optional `+` followed by one or
/// more hexadecimal digits whose value fits in a `u8`, and then returns that value.
#[verifier::external_body]
pub(crate) fn u8_from_str_radix(s: &str, radix: u32) -> (r: Option<u8>)
    requires
        radix == 16,
    ensures
        r == radix16_u8(s.spec_bytes()),
{
    u8::from_str_radix(s, radix).ok()
}

/// A single byte reads as a value below 16, whatever it is.
pub proof fn lemma_radix16_one_byte(s: Seq<u8>)
    requires
        s.len() == 1,
    ensures
        radix16_u8(s) matches Some(v) ==> v < 16,
{
    reveal_with_fuel(hex_digits_value, 2);
    assert(s.drop_last().len() == 0);
}


// ---------------------------------------------------------------------------
// White space
// ---------------------------------------------------------------------------

/// Whether a character has the Unicode `White_Space` property, which is what
/// `char::is_whitespace` decides: U+0009 to U+000D, U+0020, U+0085, U+00A0,
/// U+1680, U+2000 to U+200A, U+2028, U+2029, U+202F, U+205F and U+3000.
pub open spec fn is_white_space(c: char) -> bool {
    ||| '\u{9}' <= c <= '\u{d}'
    ||| c == ' '
    ||| c == '\u{85}'
    ||| c == '\u{a0}'
    ||| c == '\u{1680}'
    ||| '\u{2000}' <= c <= '\u{200a}'
    ||| c == '\u{2028}'
    ||| c == '\u{2029}'
    ||| c == '\u{202f}'
    ||| c == '\u{205f}'
    ||| c == '\u{3000}'
}

/// Whether a character has the Unicode `White_Space` property.
pub fn char_is_white_space(c: char) -> (b: bool)
    ensures
        b == is_white_space(c),
{
    ('\u{9}' <= c && c <= '\u{d}') || c == ' ' || c == '\u{85}' || c == '\u{a0}' || c == '\u{1680}'
        || ('\u{2000}' <= c && c <= '\u{200a}') || c == '\u{2028}' || c == '\u{2029}' || c == '\u{202f}'
        || c == '\u{205f}' || c == '\u{3000}'
}

/// The characters of a string, in order.
pub fn chars_of(s: &str) -> (v: Vec<char>)
    ensures
        v@ == s@,
{
    broadcast use vstd::string::group_string_axioms;

    let mut v: Vec<char> = Vec::new();
    let mut it = s.chars();
    loop
        invariant
            v@ + it.remaining() == s@,
            it.decrease() is Some,
        ensures
            v@ == s@,
        decreases it.decrease()->0,
    {
        match it.next() {
            Some(c) => {
                v.push(c);
            },
            None => {
                assert(v@ =~= v@ + it.remaining());
                break;
            },
        }
    }
    v
}

/// `s` without the white space at its start.
pub open spec fn trim_start(s: Seq<char>) -> Seq<char>
    decreases s.len(),
{
    if s.len() > 0 && is_white_space(s[0]) {
        trim_start(s.drop_first())
    } else {
        s
    }
}

/// `s` without the white space at its end.
pub open spec fn trim_end(s: Seq<char>) -> Seq<char>
    decreases s.len(),
{
    if s.len() > 0 && is_white_space(s.last()) {
        trim_end(s.drop_last())
    } else {
        s
    }
}

/// `s` without the white space at either end, as `str::trim` gives it.
pub open spec fn trimmed(s: Seq<char>) -> Seq<char> {
    trim_end(trim_start(s))
}

proof fn lemma_trim_start_skip(s: Seq<char>, i: int)
    requires
        0 <= i <= s.len(),
        forall|k: int| 0 <= k < i ==> is_white_space(#[trigger] s[k]),
    ensures
        trim_start(s) == trim_start(s.skip(i)),
    decreases i,
{
    if i > 0 {
        assert(s.skip(1) =~= s.drop_first());
        lemma_trim_start_skip(s.drop_first(), i - 1);
        assert(s.drop_first().skip(i - 1) =~= s.skip(i));
    } else {
        assert(s.skip(0) =~= s);
    }
}

proof fn lemma_trim_end_take(s: Seq<char>, j: int)
    requires
        0 <= j <= s.len(),
        forall|k: int| j <= k < s.len() ==> is_white_space(#[trigger] s[k]),
    ensures
        trim_end(s) == trim_end(s.take(j)),
    decreases s.len() - j,
{
    if j < s.len() {
        assert(s.take(s.len() - 1) =~= s.drop_last());
        lemma_trim_end_take(s.drop_last(), j);
        assert(s.drop_last().take(j) =~= s.take(j));
    } else {
        assert(s.take(j) =~= s);
    }
}

/// `s` without the white space at either end.
pub fn trim(s: &str) -> (t: String)
    ensures
        t@ == trimmed(s@),
{
    let cs = chars_of(s);
    let n = cs.len();
    let mut i: usize = 0;
    while i < n && char_is_white_space(cs[i])
        invariant
            cs@ == s@,
            n == cs.len(),
            i <= n,
            forall|k: int| 0 <= k < i ==> is_white_space(#[trigger] cs@[k]),
        decreases n - i,
    {
        i = i + 1;
    }
    proof {
        lemma_trim_start_skip(s@, i as int);
    }
    let ghost rest = s@.skip(i as int);
    assert(i < n ==> !is_white_space(rest[0]));
    assert(trim_start(rest) == rest);
    let mut j: usize = n;
    while j > i && char_is_white_space(cs[j - 1])
        invariant
            cs@ == s@,
            n == cs.len(),
            i <= j <= n,
            rest == s@.skip(i as int),
            forall|k: int| j - i <= k < rest.len() ==> is_white_space(#[trigger] rest[k]),
        decreases j,
    {
        j = j - 1;
    }
    proof {
        lemma_trim_end_take(rest, j - i);
        let kept = rest.take(j - i);
        if kept.len() > 0 {
            assert(kept.last() == cs@[j - 1]);
        }
        assert(kept =~= s@.subrange(i as int, j as int));
    }
    String::from_str(s.substring_char(i, j))
}

// ---------------------------------------------------------------------------
// Words
// ---------------------------------------------------------------------------

/// The end of the word that starts at `i`: the first white space at or after `i`,
/// or the end of `s`.
pub open spec fn word_end(s: Seq<char>, i: int) -> int
    decreases s.len() - i,
{
    if i < 0 || i >= s.len() || is_white_space(s[i]) {
        i
    } else {
        word_end(s, i + 1)
    }
}

pub proof fn lemma_word_end(s: Seq<char>, i: int)
    requires
        0 <= i <= s.len(),
    ensures
        i <= word_end(s, i) <= s.len(),
        forall|k: int| i <= k < word_end(s, i) ==> !is_white_space(#[trigger] s[k]),
        word_end(s, i) < s.len() ==> is_white_space(s[word_end(s, i)]),
    decreases s.len() - i,
{
    if i < s.len() && !is_white_space(s[i]) {
        lemma_word_end(s, i + 1);
    }
}

/// The words of `s` from position `i` on: its maximal runs of characters that are
/// not white space, in order, as `str::split_whitespace` gives them.
pub open spec fn words_from(s: Seq<char>, i: int) -> Seq<Seq<char>>
    decreases s.len() - i,
{
    if i < 0 || i >= s.len() {
        Seq::empty()
    } else if is_white_space(s[i]) {
        words_from(s, i + 1)
    } else {
        proof {
            lemma_word_end(s, i);
        }
        seq![s.subrange(i, word_end(s, i))] + words_from(s, word_end(s, i))
    }
}

/// The words of `s`.
pub open spec fn words(s: Seq<char>) -> Seq<Seq<char>> {
    words_from(s, 0)
}

fn chars_equal(a: &Vec<char>, from: usize, to: usize, w: &Vec<char>) -> (eq: bool)
    requires
        from <= to <= a.len(),
    ensures
        eq == (a@.subrange(from as int, to as int) == w@),
{
    if to - from != w.len() {
        return false;
    }
    let mut k: usize = 0;
    while k < w.len()
        invariant
            from <= to <= a.len(),
            to - from == w.len(),
            k <= w.len(),
            forall|m: int| 0 <= m < k ==> a@[from + m] == w@[m],
        decreases w.len() - k,
    {
        if a[from + k] != w[k] {
            assert(a@.subrange(from as int, to as int)[k as int] != w@[k as int]);
            return false;
        }
        k = k + 1;
    }
    assert(a@.subrange(from as int, to as int) =~= w@);
    true
}

/// Whether `w` is one of the words of `s`.
pub fn has_word(s: &str, w: &str) -> (found: bool)
    ensures
        found == words(s@).contains(w@),
{
    let cs = chars_of(s);
    let ws = chars_of(w);
    let n = cs.len();
    let mut i: usize = 0;
    while i < n
        invariant
            cs@ == s@,
            ws@ == w@,
            n == cs.len(),
            i <= n,
            words(s@).contains(w@) == words_from(s@, i as int).contains(w@),
        decreases n - i,
    {
        if char_is_white_space(cs[i]) {
            i = i + 1;
        } else {
            let mut j = i;
            while j < n && !char_is_white_space(cs[j])
                invariant
                    cs@ == s@,
                    n == cs.len(),
                    i <= j <= n,
                    word_end(s@, i as int) == word_end(s@, j as int),
                decreases n - j,
            {
                j = j + 1;
            }
            proof {
                lemma_word_end(s@, i as int);
                let word = s@.subrange(i as int, j as int);
                let rest = words_from(s@, j as int);
                assert(words_from(s@, i as int) =~= seq![word] + rest);
                assert((seq![word] + rest).contains(w@) == (word == w@ || rest.contains(w@))) by {
                    if (seq![word] + rest).contains(w@) {
                        let k = choose|k: int| 0 <= k < (seq![word] + rest).len() && (seq![word] + rest)[k] == w@;
                        if k > 0 {
                            assert(rest[k - 1] == w@);
                        }
                    }
                    if rest.contains(w@) {
                        let k = choose|k: int| 0 <= k < rest.len() && rest[k] == w@;
                        assert((seq![word] + rest)[k + 1] == w@);
                    }
                    if word == w@ {
                        assert((seq![word] + rest)[0] == w@);
                    }
                }
            }
            if chars_equal(&cs, i, j, &ws) {
                return true;
            }
            i = j;
        }
    }
    false
}


/// Whether two strings hold the same characters.
pub fn str_eq(a: &str, b: &str) -> (eq: bool)
    ensures
        eq == (a@ == b@),
{
    let x = a.to_owned();
    let y = b.to_owned();
    x == y
}

} // verus!
