//! The king signal: the trimmed content of the king file at one read.
//!
//! The raw file content is trimmed of surrounding whitespace; the result is a
//! valid king designation exactly when it is a single non-empty line.

use vstd::prelude::*;

verus! {

/// The characters that trimming removes: the Unicode white-space characters,
/// as `char::is_whitespace` classifies them.
pub open spec fn is_space_spec(c: char) -> bool {
    c == ' ' || ('\u{09}' <= c && c <= '\u{0d}') || c == '\u{85}' || c == '\u{a0}'
        || c == '\u{1680}' || ('\u{2000}' <= c && c <= '\u{200a}') || c == '\u{2028}'
        || c == '\u{2029}' || c == '\u{202f}' || c == '\u{205f}' || c == '\u{3000}'
}

pub fn is_space(c: char) -> (r: bool)
    ensures
        r == is_space_spec(c),
{
    c == ' ' || ('\u{09}' <= c && c <= '\u{0d}') || c == '\u{85}' || c == '\u{a0}'
        || c == '\u{1680}' || ('\u{2000}' <= c && c <= '\u{200a}') || c == '\u{2028}'
        || c == '\u{2029}' || c == '\u{202f}' || c == '\u{205f}' || c == '\u{3000}'
}

/// The sequence with its leading white space removed.
pub open spec fn trim_front_spec(s: Seq<char>) -> Seq<char>
    decreases s.len(),
{
    if s.len() > 0 && is_space_spec(s[0]) {
        trim_front_spec(s.drop_first())
    } else {
        s
    }
}

/// The sequence with its trailing white space removed.
pub open spec fn trim_back_spec(s: Seq<char>) -> Seq<char>
    decreases s.len(),
{
    if s.len() > 0 && is_space_spec(s[s.len() - 1]) {
        trim_back_spec(s.drop_last())
    } else {
        s
    }
}

/// The sequence with white space removed from both ends, as `str::trim`
/// leaves it.
pub open spec fn trim_spec(s: Seq<char>) -> Seq<char> {
    trim_back_spec(trim_front_spec(s))
}

proof fn lemma_trim_front_skip(s: Seq<char>, a: int)
    requires
        0 <= a <= s.len(),
        forall|i: int| 0 <= i < a ==> is_space_spec(s[i]),
    ensures
        trim_front_spec(s) == trim_front_spec(s.subrange(a, s.len() as int)),
    decreases a,
{
    if a == 0 {
        assert(s.subrange(0, s.len() as int) =~= s);
    } else {
        assert(is_space_spec(s[0]));
        lemma_trim_front_skip(s.drop_first(), a - 1);
        assert(s.drop_first().subrange(a - 1, s.drop_first().len() as int) =~= s.subrange(
            a,
            s.len() as int,
        ));
    }
}

proof fn lemma_trim_back_skip(s: Seq<char>, b: int)
    requires
        0 <= b <= s.len(),
        forall|i: int| b <= i < s.len() ==> is_space_spec(s[i]),
    ensures
        trim_back_spec(s) == trim_back_spec(s.subrange(0, b)),
    decreases s.len() - b,
{
    if b == s.len() {
        assert(s.subrange(0, s.len() as int) =~= s);
    } else {
        assert(is_space_spec(s[s.len() - 1]));
        lemma_trim_back_skip(s.drop_last(), b);
        assert(s.drop_last().subrange(0, b) =~= s.subrange(0, b));
    }
}

/// Removes the surrounding white space of `s`, as `str::trim` does.
pub fn trim_str(s: &str) -> (r: String)
    ensures
        r@ == trim_spec(s@),
{
    let n = s.unicode_len();
    let mut a: usize = 0;
    while a < n && is_space(s.get_char(a))
        invariant
            0 <= a <= n,
            n == s@.len(),
            forall|i: int| 0 <= i < a ==> is_space_spec(s@[i]),
        decreases n - a,
    {
        a = a + 1;
    }
    let mut b: usize = n;
    while b > a && is_space(s.get_char(b - 1))
        invariant
            a <= b <= n,
            n == s@.len(),
            forall|i: int| b <= i < n ==> is_space_spec(s@[i]),
        decreases b,
    {
        b = b - 1;
    }
    let sub = s.substring_char(a, b);
    let r = String::from_str(sub);
    proof {
        lemma_trim_front_skip(s@, a as int);
        let t = s@.subrange(a as int, n as int);
        if a == n {
            assert(t =~= Seq::<char>::empty());
            assert(trim_spec(s@) =~= r@);
        } else {
            assert(!is_space_spec(s@[a as int]));
            assert(trim_front_spec(t) == t);
            lemma_trim_back_skip(t, b - a);
            assert(t.subrange(0, b - a) =~= s@.subrange(a as int, b as int));
            if b == a {
                assert(trim_spec(s@) =~= r@);
            } else {
                assert(!is_space_spec(t[b - a - 1]));
                assert(trim_back_spec(t.subrange(0, b - a)) == t.subrange(0, b - a));
                assert(trim_spec(s@) =~= r@);
            }
        }
    }
    r
}

/// A trimmed king signal is valid exactly when it is one non-empty line:
/// non-empty and free of line breaks.
pub open spec fn valid_king_spec(s: Seq<char>) -> bool {
    s.len() > 0 && forall|i: int| 0 <= i < s.len() ==> s[i] != '\n'
}

/// Whether the already-trimmed signal `s` designates a king.
pub fn valid_king(s: &str) -> (r: bool)
    ensures
        r == valid_king_spec(s@),
{
    let n = s.unicode_len();
    if n == 0 {
        return false;
    }
    let mut i: usize = 0;
    while i < n
        invariant
            0 <= i <= n,
            n == s@.len(),
            forall|j: int| 0 <= j < i ==> s@[j] != '\n',
        decreases n - i,
    {
        if s.get_char(i) == '\n' {
            return false;
        }
        i = i + 1;
    }
    true
}

} // verus!
