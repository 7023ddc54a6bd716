//! Text handling: whitespace tokenization, normalization of words (case
//! folding, folding accented vowels to their base letter, dropping
//! punctuation and non-printable characters) and lexicographic order on
//! normalized words.

use vstd::prelude::*;

verus! {

/// Every character of the sequence is ASCII.
pub open spec fn is_ascii_seq(s: Seq<char>) -> bool {
    forall|i: int| 0 <= i < s.len() ==> (s[i] as u32) < 128
}

/// `p` is a prefix of `k`.
pub open spec fn is_prefix(p: Seq<char>, k: Seq<char>) -> bool {
    p.len() <= k.len() && p == k.subrange(0, p.len() as int)
}

/// The Unicode white-space characters, as used to split documents and
/// queries into words.
pub open spec fn is_ws(c: char) -> bool {
    c == ' ' || c == '\t' || c == '\n' || c == '\r' || c == '\u{b}' || c == '\u{c}'
        || c == '\u{85}' || c == '\u{a0}' || c == '\u{1680}'
        || ('\u{2000}' <= c && c <= '\u{200a}')
        || c == '\u{2028}' || c == '\u{2029}' || c == '\u{202f}' || c == '\u{205f}'
        || c == '\u{3000}'
}

fn is_ws_exec(c: char) -> (r: bool)
    ensures
        r == is_ws(c),
{
    c == ' ' || c == '\t' || c == '\n' || c == '\r' || c == '\u{b}' || c == '\u{c}'
        || c == '\u{85}' || c == '\u{a0}' || c == '\u{1680}'
        || ('\u{2000}' <= c && c <= '\u{200a}')
        || c == '\u{2028}' || c == '\u{2029}' || c == '\u{202f}' || c == '\u{205f}'
        || c == '\u{3000}'
}

/// ASCII upper-case letters fold to lower case; all else is unchanged.
pub open spec fn fold_case(c: char) -> char {
    if 'A' <= c && c <= 'Z' {
        ((c as u8) + 32) as char
    } else {
        c
    }
}

/// What one character of a word normalizes to: `None` when it is dropped.
pub open spec fn norm_char(c: char) -> Option<char> {
    let l = fold_case(c);
    if l == '\u{e1}' || l == '\u{e2}' || l == '\u{e0}' || l == '\u{e4}' {
        Some('a')
    } else if l == '\u{e9}' || l == '\u{ea}' || l == '\u{e8}' || l == '\u{eb}' {
        Some('e')
    } else if l == '\u{ed}' || l == '\u{ee}' || l == '\u{ec}' || l == '\u{ef}' {
        Some('i')
    } else if l == '\u{f3}' || l == '\u{f4}' || l == '\u{f2}' || l == '\u{f6}' {
        Some('o')
    } else if l == '\u{fa}' || l == '\u{fb}' || l == '\u{f9}' || l == '\u{fc}' {
        Some('u')
    } else {
        let u = l as u32;
        if (33 <= u && u <= 47) || (58 <= u && u <= 64) || (91 <= u && u <= 96) || (123 <= u
            && u <= 126) {
            // ASCII punctuation
            None
        } else if !(33 <= u && u <= 126) {
            // not an ASCII graphic character
            None
        } else {
            Some(l)
        }
    }
}

fn norm_char_exec(c: char) -> (r: Option<char>)
    ensures
        r == norm_char(c),
{
    let l: char = if 'A' <= c && c <= 'Z' {
        ((c as u8) + 32) as char
    } else {
        c
    };
    if l == '\u{e1}' || l == '\u{e2}' || l == '\u{e0}' || l == '\u{e4}' {
        Some('a')
    } else if l == '\u{e9}' || l == '\u{ea}' || l == '\u{e8}' || l == '\u{eb}' {
        Some('e')
    } else if l == '\u{ed}' || l == '\u{ee}' || l == '\u{ec}' || l == '\u{ef}' {
        Some('i')
    } else if l == '\u{f3}' || l == '\u{f4}' || l == '\u{f2}' || l == '\u{f6}' {
        Some('o')
    } else if l == '\u{fa}' || l == '\u{fb}' || l == '\u{f9}' || l == '\u{fc}' {
        Some('u')
    } else {
        let u = l as u32;
        if (33 <= u && u <= 47) || (58 <= u && u <= 64) || (91 <= u && u <= 96) || (123 <= u
            && u <= 126) {
            None
        } else if !(33 <= u && u <= 126) {
            None
        } else {
            Some(l)
        }
    }
}

/// What the suffix of `s` starting at `i` normalizes to.
pub open spec fn norm_from(s: Seq<char>, i: int) -> Seq<char>
    decreases s.len() - i,
{
    if i < 0 || i >= s.len() {
        Seq::empty()
    } else {
        (match norm_char(s[i]) {
            Some(c) => seq![c],
            None => Seq::empty(),
        }) + norm_from(s, i + 1)
    }
}

/// What a whole word normalizes to.
pub open spec fn norm_seq(s: Seq<char>) -> Seq<char> {
    norm_from(s, 0)
}

/// Every character of a normalized word is an ASCII letter or digit.
pub proof fn lemma_norm_from_ascii(s: Seq<char>, i: int)
    ensures
        is_ascii_seq(norm_from(s, i)),
    decreases s.len() - i,
{
    if i < 0 || i >= s.len() {
    } else {
        lemma_norm_from_ascii(s, i + 1);
        let pre = (match norm_char(s[i]) {
            Some(c) => seq![c],
            None => Seq::<char>::empty(),
        });
        assert forall|k: int| 0 <= k < norm_from(s, i).len() implies (norm_from(s, i)[k]
            as u32) < 128 by {
            if k >= pre.len() {
                assert(norm_from(s, i)[k] == norm_from(s, i + 1)[k - pre.len()]);
            }
        }
    }
}

/// Relies on String::push: appends one character to the string.
#[verifier::external_body]
fn push_char(s: &mut String, c: char)
    ensures
        final(s)@ == old(s)@.push(c),
{
    s.push(c);
}

/// Folds case and accents out of a word and drops punctuation and
/// non-printable characters.
pub fn normalize(s: &str) -> (r: String)
    ensures
        r@ == norm_seq(s@),
{
    let n = s.unicode_len();
    let mut out = String::new();
    let mut i: usize = 0;
    while i < n
        invariant
            n == s@.len(),
            i <= n,
            norm_seq(s@) == out@ + norm_from(s@, i as int),
        decreases n - i,
    {
        match norm_char_exec(s.get_char(i)) {
            Some(c) => {
                push_char(&mut out, c);
            },
            None => {},
        }
        proof {
            assert(norm_seq(s@) =~= out@ + norm_from(s@, i + 1));
        }
        i = i + 1;
    }
    proof {
        assert(norm_seq(s@) =~= out@);
    }
    out
}

/// The length of the run of non-white-space characters starting at `i`.
pub open spec fn run_from(s: Seq<char>, i: int) -> int
    decreases s.len() - i,
{
    if i < 0 || i >= s.len() || is_ws(s[i]) {
        0
    } else {
        1 + run_from(s, i + 1)
    }
}

pub proof fn lemma_run_from_le(s: Seq<char>, i: int)
    requires
        0 <= i <= s.len(),
    ensures
        0 <= run_from(s, i),
        i + run_from(s, i) <= s.len(),
        i + run_from(s, i) == s.len() || is_ws(s[i + run_from(s, i)]),
        forall|k: int| i <= k < i + run_from(s, i) ==> !is_ws(s[k]),
    decreases s.len() - i,
{
    if i >= s.len() || is_ws(s[i]) {
    } else {
        lemma_run_from_le(s, i + 1);
    }
}

/// The words of `s` from position `i` on: maximal runs of non-white-space
/// characters, in order.
pub open spec fn tokens_from(s: Seq<char>, i: int) -> Seq<Seq<char>>
    decreases s.len() - i,
    via tokens_from_dec
{
    if i < 0 || i >= s.len() {
        Seq::empty()
    } else if is_ws(s[i]) {
        tokens_from(s, i + 1)
    } else {
        seq![s.subrange(i, i + run_from(s, i))] + tokens_from(s, i + run_from(s, i))
    }
}

#[via_fn]
proof fn tokens_from_dec(s: Seq<char>, i: int) {
    if 0 <= i < s.len() && !is_ws(s[i]) {
        lemma_run_from_le(s, i);
        assert(run_from(s, i) >= 1);
    }
}

/// The words of `s`, in order.
pub open spec fn tokens(s: Seq<char>) -> Seq<Seq<char>> {
    tokens_from(s, 0)
}

/// The words of `q` from position `ti` on whose normalization is
/// non-empty, in order, as written.
pub open spec fn surviving_from(q: Seq<char>, ti: int) -> Seq<Seq<char>>
    decreases tokens(q).len() - ti,
{
    if ti < 0 || ti >= tokens(q).len() {
        Seq::empty()
    } else if norm_seq(tokens(q)[ti]).len() == 0 {
        surviving_from(q, ti + 1)
    } else {
        seq![tokens(q)[ti]] + surviving_from(q, ti + 1)
    }
}

/// The query words that survive normalization, in order, as written.
pub open spec fn surviving(q: Seq<char>) -> Seq<Seq<char>> {
    surviving_from(q, 0)
}

/// Splits a string into its white-space-separated words.
pub fn split_words(s: &str) -> (r: Vec<String>)
    ensures
        r@.len() == tokens(s@).len(),
        forall|k: int| 0 <= k < r@.len() ==> r@[k]@ == tokens(s@)[k],
{
    let n = s.unicode_len();
    let mut out: Vec<String> = Vec::new();
    let mut i: usize = 0;
    while i < n
        invariant
            n == s@.len(),
            i <= n,
            tokens(s@) == out@.map_values(|t: String| t@) + tokens_from(s@, i as int),
        decreases n - i,
    {
        if is_ws_exec(s.get_char(i)) {
            proof {
                assert(tokens(s@) =~= out@.map_values(|t: String| t@) + tokens_from(
                    s@,
                    i + 1,
                ));
            }
            i = i + 1;
        } else {
            let start = i;
            i = i + 1;
            while i < n && !is_ws_exec(s.get_char(i))
                invariant
                    n == s@.len(),
                    start < i <= n,
                    forall|k: int| start <= k < i ==> !is_ws(s@[k]),
                decreases n - i,
            {
                i = i + 1;
            }
            let word = s.substring_char(start, i);
            let owned = word.to_owned();
            proof {
                lemma_run_from_characterize(s@, start as int, i as int);
                assert(tokens_from(s@, start as int) =~= seq![s@.subrange(start as int, i as int)]
                    + tokens_from(s@, i as int));
            }
            out.push(owned);
            proof {
                assert(tokens(s@) =~= out@.map_values(|t: String| t@) + tokens_from(
                    s@,
                    i as int,
                ));
            }
        }
    }
    proof {
        assert(tokens(s@) =~= out@.map_values(|t: String| t@));
    }
    out
}

/// A maximal non-white-space run from `a` to `b` has exactly length `b - a`.
proof fn lemma_run_from_characterize(s: Seq<char>, a: int, b: int)
    requires
        0 <= a < b <= s.len(),
        forall|k: int| a <= k < b ==> !is_ws(s[k]),
        b == s.len() || is_ws(s[b]),
    ensures
        run_from(s, a) == b - a,
    decreases b - a,
{
    if a + 1 == b {
        assert(run_from(s, b) == 0);
    } else {
        lemma_run_from_characterize(s, a + 1, b);
    }
}

/// Strict lexicographic order on the suffixes of two character sequences
/// starting at `i`, by code point.
pub open spec fn lex_lt_from(a: Seq<char>, b: Seq<char>, i: int) -> bool
    decreases a.len() - i,
{
    if i >= a.len() {
        i < b.len()
    } else if i >= b.len() {
        false
    } else if a[i] != b[i] {
        (a[i] as u32) < (b[i] as u32)
    } else {
        lex_lt_from(a, b, i + 1)
    }
}

/// Strict lexicographic order on character sequences, by code point. On
/// ASCII words this is exactly the byte order of their UTF-8 encodings.
pub open spec fn lex_lt(a: Seq<char>, b: Seq<char>) -> bool {
    lex_lt_from(a, b, 0)
}

proof fn lemma_lex_from_connected(a: Seq<char>, b: Seq<char>, i: int)
    requires
        0 <= i <= a.len(),
        0 <= i <= b.len(),
        !lex_lt_from(a, b, i),
        !lex_lt_from(b, a, i),
    ensures
        a.len() == b.len(),
        forall|k: int| i <= k < a.len() ==> a[k] == b[k],
    decreases a.len() - i,
{
    if i >= a.len() || i >= b.len() {
    } else if a[i] != b[i] {
        vstd::utf8::char_u32_cast(a[i], a[i] as u32);
        vstd::utf8::char_u32_cast(b[i], b[i] as u32);
        assert((a[i] as u32) != (b[i] as u32));
        assert(false);
    } else {
        lemma_lex_from_connected(a, b, i + 1);
        assert forall|k: int| i <= k < a.len() implies a[k] == b[k] by {
            if k > i {
                assert(a[k] == b[k]);
            }
        }
    }
}

/// Two sequences neither of which is lexicographically below the other are
/// equal.
pub proof fn lemma_lex_connected(a: Seq<char>, b: Seq<char>)
    requires
        !lex_lt(a, b),
        !lex_lt(b, a),
    ensures
        a == b,
{
    lemma_lex_from_connected(a, b, 0);
    assert(a =~= b);
}

proof fn lemma_lex_from_irrefl(a: Seq<char>, i: int)
    ensures
        !lex_lt_from(a, a, i),
    decreases a.len() - i,
{
    if i >= a.len() {
    } else {
        lemma_lex_from_irrefl(a, i + 1);
    }
}

/// Nothing is lexicographically below itself.
pub proof fn lemma_lex_irrefl(a: Seq<char>)
    ensures
        !lex_lt(a, a),
{
    lemma_lex_from_irrefl(a, 0);
}

proof fn lemma_lex_from_trans(a: Seq<char>, b: Seq<char>, c: Seq<char>, i: int)
    requires
        0 <= i,
        lex_lt_from(a, b, i),
        lex_lt_from(b, c, i),
    ensures
        lex_lt_from(a, c, i),
    decreases a.len() - i,
{
    if i >= a.len() {
    } else if i >= b.len() {
    } else if i >= c.len() {
    } else if a[i] != b[i] {
        vstd::utf8::char_u32_cast(a[i], a[i] as u32);
        vstd::utf8::char_u32_cast(c[i], c[i] as u32);
        vstd::utf8::char_u32_cast(b[i], b[i] as u32);
    } else if b[i] != c[i] {
        vstd::utf8::char_u32_cast(a[i], a[i] as u32);
        vstd::utf8::char_u32_cast(c[i], c[i] as u32);
        vstd::utf8::char_u32_cast(b[i], b[i] as u32);
    } else {
        lemma_lex_from_trans(a, b, c, i + 1);
    }
}

/// Lexicographic order is transitive.
pub proof fn lemma_lex_trans(a: Seq<char>, b: Seq<char>, c: Seq<char>)
    requires
        lex_lt(a, b),
        lex_lt(b, c),
    ensures
        lex_lt(a, c),
{
    lemma_lex_from_trans(a, b, c, 0);
}

/// Compares two words character by character.
pub fn str_eq(a: &str, b: &str) -> (r: bool)
    ensures
        r == (a@ == b@),
{
    let na = a.unicode_len();
    let nb = b.unicode_len();
    if na != nb {
        return false;
    }
    let mut i: usize = 0;
    while i < na
        invariant
            na == a@.len(),
            na == b@.len(),
            i <= na,
            forall|k: int| 0 <= k < i ==> a@[k] == b@[k],
        decreases na - i,
    {
        if a.get_char(i) != b.get_char(i) {
            return false;
        }
        i = i + 1;
    }
    proof {
        assert(a@ =~= b@);
    }
    true
}

/// Compares two words lexicographically by code point.
pub fn str_lt(a: &str, b: &str) -> (r: bool)
    ensures
        r == lex_lt(a@, b@),
{
    let na = a.unicode_len();
    let nb = b.unicode_len();
    let mut i: usize = 0;
    loop
        invariant
            na == a@.len(),
            nb == b@.len(),
            i <= na,
            i <= nb,
            lex_lt(a@, b@) == lex_lt_from(a@, b@, i as int),
        decreases na - i,
    {
        if i >= na {
            return i < nb;
        }
        if i >= nb {
            return false;
        }
        let ca = a.get_char(i);
        let cb = b.get_char(i);
        if ca != cb {
            return (ca as u32) < (cb as u32);
        }
        i = i + 1;
    }
}

} // verus!
