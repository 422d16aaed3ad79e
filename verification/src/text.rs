//! Character-level text processing: whitespace tokenization and token
//! normalization (stripping non-alphanumeric edges, lowercasing).
//!
//! Tokenization and normalization are ASCII-oriented: whitespace means the
//! ASCII blank characters and a word character is an ASCII letter or digit.

use vstd::prelude::*;
use vstd::string::*;

verus! {

/// Whether `c` separates tokens: the ASCII blank characters.
pub open spec fn is_space_char(c: char) -> bool {
    c == ' ' || c == '\t' || c == '\r' || c == '\n'
}

/// Whether `c` is a word character: an ASCII letter or digit.
pub open spec fn is_word_char(c: char) -> bool {
    (48 <= c as u32 && c as u32 <= 57)  // '0'..='9'
    || (65 <= c as u32 && c as u32 <= 90)  // 'A'..='Z'
    || (97 <= c as u32 && c as u32 <= 122)  // 'a'..='z'
}

/// `c` mapped to lower case, for ASCII letters; other characters unchanged.
pub open spec fn lower_char(c: char) -> char {
    if 65 <= c as u32 && c as u32 <= 90 {
        ((c as u8) + 32) as char
    } else {
        c
    }
}

/// Index just past the token that starts at `i`: the first position at or
/// after `i` holding a space character, or the end of `s`.
pub open spec fn token_end(s: Seq<char>, i: int) -> int
    decreases s.len() - i,
{
    if i < 0 || i >= s.len() || is_space_char(s[i]) {
        i
    } else {
        token_end(s, i + 1)
    }
}

pub proof fn lemma_token_end_bounds(s: Seq<char>, i: int)
    requires
        0 <= i <= s.len(),
    ensures
        i <= token_end(s, i) <= s.len(),
        i < s.len() && !is_space_char(s[i]) ==> i + 1 <= token_end(s, i),
    decreases s.len() - i,
{
    if i < s.len() && !is_space_char(s[i]) {
        lemma_token_end_bounds(s, i + 1);
    }
}

/// The whitespace-separated tokens of `s`, from position `i` on, in order.
pub open spec fn split_ws_from(s: Seq<char>, i: int) -> Seq<Seq<char>>
    decreases s.len() - i,
        when 0 <= i
        via split_ws_from_decreases
{
    if i < 0 || i >= s.len() {
        Seq::empty()
    } else if is_space_char(s[i]) {
        split_ws_from(s, i + 1)
    } else {
        seq![s.subrange(i, token_end(s, i))] + split_ws_from(s, token_end(s, i))
    }
}

#[via_fn]
proof fn split_ws_from_decreases(s: Seq<char>, i: int) {
    if 0 <= i < s.len() && !is_space_char(s[i]) {
        lemma_token_end_bounds(s, i);
    }
}

/// The whitespace-separated tokens of `s`.
pub open spec fn split_ws(s: Seq<char>) -> Seq<Seq<char>> {
    split_ws_from(s, 0)
}

/// `t` with its leading non-word characters removed.
pub open spec fn strip_leading(t: Seq<char>) -> Seq<char>
    decreases t.len(),
{
    if t.len() == 0 {
        t
    } else if is_word_char(t[0]) {
        t
    } else {
        strip_leading(t.subrange(1, t.len() as int))
    }
}

/// `t` with its trailing non-word characters removed.
pub open spec fn strip_trailing(t: Seq<char>) -> Seq<char>
    decreases t.len(),
{
    if t.len() == 0 {
        t
    } else if is_word_char(t[t.len() - 1]) {
        t
    } else {
        strip_trailing(t.drop_last())
    }
}

/// A token normalized for keyword counting: non-word characters stripped from
/// both ends, then lowercased.
pub open spec fn normalize(t: Seq<char>) -> Seq<char> {
    strip_trailing(strip_leading(t)).map_values(|c: char| lower_char(c))
}

proof fn lemma_strip_leading_at(t: Seq<char>, a: int)
    requires
        0 <= a <= t.len(),
        forall|k: int| 0 <= k < a ==> !is_word_char(t[k]),
        a < t.len() ==> is_word_char(t[a]),
    ensures
        strip_leading(t) =~= t.subrange(a, t.len() as int),
    decreases a,
{
    if a == 0 {
        if t.len() == 0 {
            assert(strip_leading(t) =~= t.subrange(0, t.len() as int));
        } else {
            assert(strip_leading(t) =~= t.subrange(0, t.len() as int));
        }
    } else {
        let u = t.subrange(1, t.len() as int);
        assert(forall|k: int| 0 <= k < a - 1 ==> !is_word_char(u[k]));
        lemma_strip_leading_at(u, a - 1);
        assert(u.subrange(a - 1, u.len() as int) =~= t.subrange(a, t.len() as int));
    }
}

proof fn lemma_strip_trailing_at(t: Seq<char>, b: int)
    requires
        0 <= b <= t.len(),
        forall|k: int| b <= k < t.len() ==> !is_word_char(t[k]),
        b > 0 ==> is_word_char(t[b - 1]),
    ensures
        strip_trailing(t) =~= t.subrange(0, b),
    decreases t.len(),
{
    if b == t.len() {
        if t.len() == 0 {
            assert(strip_trailing(t) =~= t.subrange(0, b));
        } else {
            assert(strip_trailing(t) =~= t.subrange(0, b));
        }
    } else {
        let u = t.drop_last();
        assert(u =~= t.subrange(0, t.len() - 1));
        lemma_strip_trailing_at(u, b);
        assert(u.subrange(0, b) =~= t.subrange(0, b));
    }
}

/// Whether `c` is a word character (ASCII letter or digit).
pub fn is_word_char_exec(c: char) -> (r: bool)
    ensures
        r == is_word_char(c),
{
    let u = c as u32;
    (48 <= u && u <= 57) || (65 <= u && u <= 90) || (97 <= u && u <= 122)
}

/// Whether `c` separates tokens.
pub fn is_space_char_exec(c: char) -> (r: bool)
    ensures
        r == is_space_char(c),
{
    c == ' ' || c == '\t' || c == '\r' || c == '\n'
}

/// `c` lowercased, for ASCII letters.
pub fn lower_char_exec(c: char) -> (r: char)
    ensures
        r == lower_char(c),
{
    let u = c as u32;
    if 65 <= u && u <= 90 {
        ((c as u8) + 32) as char
    } else {
        c
    }
}

/// The characters of `s`, in order, as a vector.
pub fn str_to_chars(s: &str) -> (v: Vec<char>)
    ensures
        v@ == s@,
{
    let n = s.unicode_len();
    let mut v: Vec<char> = Vec::new();
    let mut i: usize = 0;
    while i < n
        invariant
            n == s@.len(),
            0 <= i <= n,
            v@ == s@.take(i as int),
        decreases n - i,
    {
        v.push(s.get_char(i));
        i = i + 1;
        assert(v@ =~= s@.take(i as int));
    }
    assert(v@ =~= s@);
    v
}

/// Builds the string of exactly the given characters, in order.
///
/// Relies on `String`'s `FromIterator<char>` impl (through `Iterator::collect`),
/// which concatenates the characters of the iterator in iteration order.
#[verifier::external_body]
pub(crate) fn chars_to_string(v: &Vec<char>) -> (r: String)
    ensures
        r@ == v@,
{
    v.iter().collect()
}

/// Whether the characters of `v` from `from` to `to` spell exactly `s`.
pub fn chars_eq_str(v: &Vec<char>, from: usize, to: usize, s: &str) -> (r: bool)
    requires
        from <= to <= v@.len(),
    ensures
        r == (v@.subrange(from as int, to as int) == s@),
{
    let n = s.unicode_len();
    if to - from != n {
        assert(v@.subrange(from as int, to as int).len() != s@.len());
        return false;
    }
    let mut i: usize = 0;
    while i < n
        invariant
            from <= to <= v@.len(),
            to - from == n == s@.len(),
            0 <= i <= n,
            forall|k: int| 0 <= k < i ==> v@.subrange(from as int, to as int)[k] == s@[k],
        decreases n - i,
    {
        if v[from + i] != s.get_char(i) {
            assert(v@.subrange(from as int, to as int)[i as int] != s@[i as int]);
            return false;
        }
        i = i + 1;
    }
    assert(v@.subrange(from as int, to as int) =~= s@);
    true
}

/// The whitespace-separated tokens of `s`, each as a character vector.
pub fn tokenize(s: &Vec<char>) -> (toks: Vec<Vec<char>>)
    ensures
        toks.deep_view() == split_ws(s@),
{
    let n = s.len();
    let mut toks: Vec<Vec<char>> = Vec::new();
    let mut i: usize = 0;
    while i < n
        invariant
            n == s@.len(),
            0 <= i <= n,
            toks.deep_view() + split_ws_from(s@, i as int) == split_ws(s@),
        decreases n - i,
    {
        if is_space_char_exec(s[i]) {
            i = i + 1;
        } else {
            // scan to the end of the token starting at i
            let mut j: usize = i;
            while j < n && !is_space_char_exec(s[j])
                invariant
                    n == s@.len(),
                    i <= j <= n,
                    token_end(s@, i as int) == token_end(s@, j as int),
                decreases n - j,
            {
                j = j + 1;
            }
            assert(token_end(s@, j as int) == j);
            // copy the token
            let mut tok: Vec<char> = Vec::new();
            let mut k: usize = i;
            while k < j
                invariant
                    i <= k <= j <= n,
                    n == s@.len(),
                    tok@ == s@.subrange(i as int, k as int),
                decreases j - k,
            {
                tok.push(s[k]);
                k = k + 1;
                assert(tok@ =~= s@.subrange(i as int, k as int));
            }
            let ghost old_toks = toks.deep_view();
            toks.push(tok);
            proof {
                assert(toks.deep_view() =~~= old_toks.push(tok@));
                assert(old_toks.push(tok@) =~= old_toks + seq![s@.subrange(i as int, j as int)]);
                lemma_token_end_bounds(s@, i as int);
            }
            i = j;
        }
    }
    assert(toks.deep_view() =~= toks.deep_view() + split_ws_from(s@, i as int));
    toks
}

/// `t` normalized: non-word characters stripped from both ends, lowercased.
pub fn normalize_token(t: &Vec<char>) -> (r: Vec<char>)
    ensures
        r@ == normalize(t@),
{
    let n = t.len();
    // first word character
    let mut a: usize = 0;
    while a < n && !is_word_char_exec(t[a])
        invariant
            n == t@.len(),
            0 <= a <= n,
            forall|k: int| 0 <= k < a ==> !is_word_char(t@[k]),
        decreases n - a,
    {
        a = a + 1;
    }
    if a == n {
        // no word character at all: the normalized token is empty
        proof {
            lemma_strip_leading_at(t@, n as int);
            assert(strip_leading(t@) =~= Seq::<char>::empty());
            assert(strip_trailing(Seq::<char>::empty()) =~= Seq::<char>::empty());
            assert(normalize(t@) =~= Seq::<char>::empty());
        }
        let r: Vec<char> = Vec::new();
        return r;
    }
    // last word character
    let mut b: usize = n;
    while b > a && !is_word_char_exec(t[b - 1])
        invariant
            n == t@.len(),
            a <= b <= n,
            a < n,
            is_word_char(t@[a as int]),
            forall|k: int| b <= k < n ==> !is_word_char(t@[k]),
        decreases b,
    {
        b = b - 1;
    }
    // b > a here, since t[a] is a word character
    assert(is_word_char(t@[b - 1]));
    let ghost stripped = t@.subrange(a as int, b as int);
    proof {
        lemma_strip_leading_at(t@, a as int);
        let u = t@.subrange(a as int, t@.len() as int);
        lemma_strip_trailing_at(u, b - a as int);
        assert(u.subrange(0, b - a as int) =~= stripped);
    }
    let mut r: Vec<char> = Vec::new();
    let mut k: usize = a;
    while k < b
        invariant
            a <= k <= b <= n,
            n == t@.len(),
            r@ == t@.subrange(a as int, k as int).map_values(|c: char| lower_char(c)),
        decreases b - k,
    {
        r.push(lower_char_exec(t[k]));
        k = k + 1;
        assert(r@ =~= t@.subrange(a as int, k as int).map_values(|c: char| lower_char(c)));
    }
    proof {
        assert(r@ =~= normalize(t@));
    }
    r
}

} // verus!
