//! The persisted snapshot: the scoreboard as a flat JSON object from
//! participant name to score, e.g. `{"alice":10}`.
//!
//! The writer emits the entries in scoreboard order, each name between
//! double quotes with a backslash escape before a quote or a backslash, each
//! score as a run of decimal digits.  The reader accepts exactly that shape:
//! an object of string-to-number pairs without surrounding white space,
//! whose names are pairwise distinct and whose scores sum within the score
//! range; anything else is rejected as structurally invalid.

use vstd::prelude::*;
use crate::score::{entries_view, keys_unique, total_of};
use crate::score::{lemma_total_prefix_le, lemma_total_prefix_step};
use crate::score::Scoreboard;
use crate::text::str_eq;

verus! {

/// How one character of a name is written: a quote or a backslash gets a
/// backslash before it, every other character stands as itself.
pub open spec fn enc_char(c: char) -> Seq<char> {
    if c == '"' || c == '\\' {
        seq!['\\', c]
    } else {
        seq![c]
    }
}

/// How a name is written between its quotes.
pub open spec fn enc_str(s: Seq<char>) -> Seq<char>
    decreases s.len(),
{
    if s.len() == 0 {
        Seq::empty()
    } else {
        enc_char(s[0]) + enc_str(s.drop_first())
    }
}

/// The decimal digit `d` as a character; `d` is between 0 and 9.
pub open spec fn digit_char(d: int) -> char {
    if d == 0 { '0' }
    else if d == 1 { '1' }
    else if d == 2 { '2' }
    else if d == 3 { '3' }
    else if d == 4 { '4' }
    else if d == 5 { '5' }
    else if d == 6 { '6' }
    else if d == 7 { '7' }
    else if d == 8 { '8' }
    else { '9' }
}

/// The decimal digits of a non-negative number, most significant first.
pub open spec fn dec_digits(n: int) -> Seq<char>
    decreases n,
{
    if n < 10 {
        seq![digit_char(n)]
    } else {
        dec_digits(n / 10).push(digit_char(n % 10))
    }
}

/// How one entry is written: `"name":score`.
pub open spec fn enc_entry(e: (Seq<char>, u32)) -> Seq<char> {
    seq!['"'] + enc_str(e.0) + seq!['"', ':'] + dec_digits(e.1 as int)
}

/// How the entries are written, separated by commas.
pub open spec fn enc_entries(m: Seq<(Seq<char>, u32)>) -> Seq<char>
    decreases m.len(),
{
    if m.len() == 0 {
        Seq::empty()
    } else if m.len() == 1 {
        enc_entry(m[0])
    } else {
        enc_entry(m[0]) + seq![','] + enc_entries(m.drop_first())
    }
}

/// The whole snapshot: the entries between braces.
pub open spec fn encode_spec(m: Seq<(Seq<char>, u32)>) -> Seq<char> {
    seq!['{'] + enc_entries(m) + seq!['}']
}

/// Relies on `String::push`: appends the given character to the end of the
/// string.
#[verifier::external_body]
fn push_char(s: &mut String, c: char)
    ensures
        final(s)@ == old(s)@.push(c),
{
    s.push(c);
}

proof fn lemma_enc_str_snoc(s: Seq<char>, c: char)
    ensures
        enc_str(s.push(c)) == enc_str(s) + enc_char(c),
    decreases s.len(),
{
    if s.len() == 0 {
        assert(s.push(c).drop_first() =~= s);
        assert(s.push(c)[0] == c);
        assert(enc_str(s.push(c)) =~= enc_str(s) + enc_char(c));
    } else {
        assert(s.push(c).drop_first() =~= s.drop_first().push(c));
        lemma_enc_str_snoc(s.drop_first(), c);
        assert(enc_str(s.push(c)) =~= enc_str(s) + enc_char(c));
    }
}

proof fn lemma_enc_entries_snoc(m: Seq<(Seq<char>, u32)>, e: (Seq<char>, u32))
    ensures
        m.len() == 0 ==> enc_entries(m.push(e)) == enc_entry(e),
        m.len() > 0 ==> enc_entries(m.push(e)) == enc_entries(m) + seq![','] + enc_entry(e),
    decreases m.len(),
{
    let mp = m.push(e);
    if m.len() == 0 {
        assert(mp.len() == 1);
        assert(mp[0] == e);
    } else {
        assert(mp[0] == m[0]);
        assert(mp.drop_first() =~= m.drop_first().push(e));
        lemma_enc_entries_snoc(m.drop_first(), e);
        if m.len() == 1 {
            assert(m.drop_first().len() == 0);
            assert(enc_entries(mp) =~= enc_entries(m) + seq![','] + enc_entry(e));
        } else {
            assert(enc_entries(mp) =~= enc_entries(m) + seq![','] + enc_entry(e));
        }
    }
}

/// Appends the escaped form of `t` to `out`.
fn push_escaped(out: &mut String, t: &str)
    ensures
        final(out)@ == old(out)@ + enc_str(t@),
{
    let n = t.unicode_len();
    let mut i: usize = 0;
    proof {
        assert(t@.subrange(0, 0) =~= Seq::<char>::empty());
        assert(out@ + enc_str(t@.subrange(0, 0)) =~= out@);
    }
    while i < n
        invariant
            0 <= i <= n,
            n == t@.len(),
            out@ == old(out)@ + enc_str(t@.subrange(0, i as int)),
        decreases n - i,
    {
        let c = t.get_char(i);
        let ghost pre = t@.subrange(0, i as int);
        if c == '"' || c == '\\' {
            push_char(out, '\\');
            push_char(out, c);
        } else {
            push_char(out, c);
        }
        proof {
            assert(t@.subrange(0, i + 1) =~= pre.push(c));
            lemma_enc_str_snoc(pre, c);
            assert(out@ =~= old(out)@ + enc_str(t@.subrange(0, i + 1)));
        }
        i = i + 1;
    }
    proof {
        assert(t@.subrange(0, n as int) =~= t@);
    }
}

/// Appends the decimal digits of `v` to `out`.
fn push_number(out: &mut String, v: u32)
    ensures
        final(out)@ == old(out)@ + dec_digits(v as int),
    decreases v,
{
    if v >= 10 {
        push_number(out, v / 10);
    }
    let d = v % 10;
    let c: char = if d == 0 { '0' }
    else if d == 1 { '1' }
    else if d == 2 { '2' }
    else if d == 3 { '3' }
    else if d == 4 { '4' }
    else if d == 5 { '5' }
    else if d == 6 { '6' }
    else if d == 7 { '7' }
    else if d == 8 { '8' }
    else { '9' };
    push_char(out, c);
    proof {
        if v < 10 {
            assert(old(out)@.push(c) =~= old(out)@ + dec_digits(v as int));
        } else {
            assert(out@ =~= old(out)@ + dec_digits(v as int));
        }
    }
}

/// Writes the scoreboard as its snapshot text.
pub fn encode(sb: &Scoreboard) -> (r: String)
    ensures
        r@ == encode_spec(sb@),
{
    let mut out = String::new();
    push_char(&mut out, '{');
    let k = sb.len();
    let mut i: usize = 0;
    proof {
        assert(out@ =~= seq!['{'] + enc_entries(sb@.subrange(0, 0)));
        assert(sb@.subrange(0, 0) =~= Seq::<(Seq<char>, u32)>::empty());
    }
    while i < k
        invariant
            0 <= i <= k,
            k == sb@.len(),
            out@ == seq!['{'] + enc_entries(sb@.subrange(0, i as int)),
        decreases k - i,
    {
        if i > 0 {
            push_char(&mut out, ',');
        }
        let e = sb.entry_at(i);
        push_char(&mut out, '"');
        push_escaped(&mut out, e.0.as_str());
        push_char(&mut out, '"');
        push_char(&mut out, ':');
        push_number(&mut out, e.1);
        proof {
            let pre = sb@.subrange(0, i as int);
            let me = sb@[i as int];
            assert(sb@.subrange(0, i + 1) =~= pre.push(me));
            lemma_enc_entries_snoc(pre, me);
            assert(enc_entry(me) =~= seq!['"'] + enc_str(me.0) + seq!['"', ':'] + dec_digits(
                me.1 as int,
            ));
            if i == 0 {
                assert(out@ =~= seq!['{'] + enc_entries(sb@.subrange(0, i + 1)));
            } else {
                assert(out@ =~= seq!['{'] + enc_entries(sb@.subrange(0, i + 1)));
            }
        }
        i = i + 1;
    }
    push_char(&mut out, '}');
    proof {
        assert(sb@.subrange(0, k as int) =~= sb@);
        assert(out@ =~= encode_spec(sb@));
    }
    out
}

/// Whether `c` is a decimal digit.
pub open spec fn is_digit(c: char) -> bool {
    48 <= c as u32 <= 57
}

/// The value of a digit character.
pub open spec fn digit_val(c: char) -> int {
    c as u32 - 48
}

/// The first position at or after `i` that is out of range or no digit.
pub open spec fn digit_run_end(s: Seq<char>, i: int) -> int
    decreases s.len() - i,
{
    if i < 0 || i >= s.len() || !is_digit(s[i]) {
        i
    } else {
        digit_run_end(s, i + 1)
    }
}

/// The number a run of digits denotes.
pub open spec fn val_of_digits(d: Seq<char>) -> int
    decreases d.len(),
{
    if d.len() == 0 {
        0
    } else {
        val_of_digits(d.drop_last()) * 10 + digit_val(d.last())
    }
}

/// Reads a name from position `i`, just after its opening quote, up to its
/// closing quote: a backslash must be followed by a quote or a backslash and
/// stands for that character; every other character stands for itself.
/// Yields the name and the position after the closing quote.
pub open spec fn parse_string_body(s: Seq<char>, i: int) -> Option<(Seq<char>, int)>
    decreases s.len() - i,
{
    if i < 0 || i >= s.len() {
        None
    } else if s[i] == '"' {
        Some((Seq::empty(), i + 1))
    } else if s[i] == '\\' {
        if i + 1 < s.len() && (s[i + 1] == '"' || s[i + 1] == '\\') {
            match parse_string_body(s, i + 2) {
                None => None,
                Some((t, j)) => Some((seq![s[i + 1]] + t, j)),
            }
        } else {
            None
        }
    } else {
        match parse_string_body(s, i + 1) {
            None => None,
            Some((t, j)) => Some((seq![s[i]] + t, j)),
        }
    }
}

/// Reads a score from position `i`: a non-empty run of digits whose value
/// fits the score type.  Yields the value and the position after the run.
pub open spec fn parse_number(s: Seq<char>, i: int) -> Option<(u32, int)> {
    let j = digit_run_end(s, i);
    if i < j && 0 <= val_of_digits(s.subrange(i, j)) <= u32::MAX {
        Some((val_of_digits(s.subrange(i, j)) as u32, j))
    } else {
        None
    }
}

/// Reads one `"name":score` pair from position `i`.
pub open spec fn parse_entry(s: Seq<char>, i: int) -> Option<((Seq<char>, u32), int)> {
    if 0 <= i < s.len() && s[i] == '"' {
        match parse_string_body(s, i + 1) {
            None => None,
            Some((k, j)) => if j < s.len() && s[j] == ':' {
                match parse_number(s, j + 1) {
                    None => None,
                    Some((v, p)) => Some(((k, v), p)),
                }
            } else {
                None
            },
        }
    } else {
        None
    }
}

/// Reads entries separated by commas from position `i`, as many as the
/// commas reach.  Yields them and the position of the first unread
/// character.
pub open spec fn parse_entries(s: Seq<char>, i: int) -> Option<(Seq<(Seq<char>, u32)>, int)>
    decreases s.len() - i,
{
    match parse_entry(s, i) {
        None => None,
        Some((e, j)) => if j < s.len() && s[j] == ',' {
            if i < j + 1 {
                match parse_entries(s, j + 1) {
                    None => None,
                    Some((es, p)) => Some((seq![e] + es, p)),
                }
            } else {
                None
            }
        } else {
            Some((seq![e], j))
        },
    }
}

/// The snapshots the reader accepts: `{}`, or entries between braces with
/// nothing around them, pairwise distinct names, and a total within the
/// score range.
pub open spec fn parse_spec(s: Seq<char>) -> Option<Seq<(Seq<char>, u32)>> {
    if s.len() < 2 || s[0] != '{' {
        None
    } else if s.len() == 2 && s[1] == '}' {
        Some(Seq::empty())
    } else {
        match parse_entries(s, 1) {
            None => None,
            Some((es, j)) => if j == s.len() - 1 && s[j] == '}' && keys_unique(es) && total_of(es)
                <= u32::MAX {
                Some(es)
            } else {
                None
            },
        }
    }
}

proof fn lemma_psb_progress(s: Seq<char>, i: int)
    requires
        parse_string_body(s, i) is Some,
    ensures
        i < parse_string_body(s, i)->Some_0.1 <= s.len(),
    decreases s.len() - i,
{
    if 0 <= i < s.len() && s[i] != '"' {
        if s[i] == '\\' {
            lemma_psb_progress(s, i + 2);
        } else {
            lemma_psb_progress(s, i + 1);
        }
    }
}

proof fn lemma_digit_run(s: Seq<char>, i: int)
    requires
        0 <= i <= s.len(),
    ensures
        i <= digit_run_end(s, i) <= s.len(),
        forall|m: int| i <= m < digit_run_end(s, i) ==> is_digit(s[m]),
        digit_run_end(s, i) < s.len() ==> !is_digit(s[digit_run_end(s, i)]),
        i < s.len() && is_digit(s[i]) ==> digit_run_end(s, i) > i,
    decreases s.len() - i,
{
    if i < s.len() && is_digit(s[i]) {
        lemma_digit_run(s, i + 1);
    }
}

proof fn lemma_val_nonneg(d: Seq<char>)
    requires
        forall|m: int| 0 <= m < d.len() ==> is_digit(d[m]),
    ensures
        val_of_digits(d) >= 0,
    decreases d.len(),
{
    if d.len() > 0 {
        lemma_val_nonneg(d.drop_last());
    }
}

/// Reading further digits never shrinks the value.
proof fn lemma_val_mono(s: Seq<char>, a: int, b: int, c: int)
    requires
        0 <= a <= b <= c <= s.len(),
        forall|m: int| a <= m < c ==> is_digit(s[m]),
    ensures
        val_of_digits(s.subrange(a, b)) <= val_of_digits(s.subrange(a, c)),
    decreases c - b,
{
    if b < c {
        assert(s.subrange(a, b + 1).drop_last() =~= s.subrange(a, b));
        assert(s.subrange(a, b + 1).last() == s[b]);
        lemma_val_nonneg(s.subrange(a, b));
        lemma_val_mono(s, a, b + 1, c);
    }
}

fn is_digit_c(c: char) -> (r: bool)
    ensures
        r == is_digit(c),
{
    let u = c as u32;
    48 <= u && u <= 57
}

fn parse_number_at(s: &str, i: usize, n: usize) -> (r: Option<(u32, usize)>)
    requires
        n == s@.len(),
        i <= n,
    ensures
        r matches Some(vj) ==> parse_number(s@, i as int) == Some((vj.0, vj.1 as int)) && i < vj.1
            <= n,
        r is None ==> parse_number(s@, i as int) is None,
{
    proof {
        lemma_digit_run(s@, i as int);
    }
    if i >= n || !is_digit_c(s.get_char(i)) {
        return None;
    }
    let mut q: usize = i;
    let mut val: u32 = 0;
    proof {
        assert(s@.subrange(i as int, i as int) =~= Seq::<char>::empty());
    }
    while q < n && is_digit_c(s.get_char(q))
        invariant
            i <= q <= n,
            n == s@.len(),
            digit_run_end(s@, i as int) == digit_run_end(s@, q as int),
            forall|m: int| i <= m < q ==> is_digit(s@[m]),
            val == val_of_digits(s@.subrange(i as int, q as int)),
        decreases n - q,
    {
        let c = s.get_char(q);
        let d = (c as u32) - 48;
        proof {
            assert(s@.subrange(i as int, q + 1).drop_last() =~= s@.subrange(i as int, q as int));
            assert(s@.subrange(i as int, q + 1).last() == s@[q as int]);
            lemma_digit_run(s@, q as int);
        }
        if val > (u32::MAX - d) / 10 {
            proof {
                let e = digit_run_end(s@, i as int);
                assert(val_of_digits(s@.subrange(i as int, q + 1)) == val * 10 + d);
                assert(val * 10 + d > u32::MAX) by {
                    let m = (u32::MAX - d) as int;
                    assert(m == (m / 10) * 10 + m % 10);
                    assert(m % 10 <= 9);
                };
                assert(digit_run_end(s@, q as int) == digit_run_end(s@, q + 1));
                lemma_digit_run(s@, q + 1);
                lemma_val_mono(s@, i as int, q + 1, e);
            }
            return None;
        }
        val = val * 10 + d;
        q = q + 1;
    }
    proof {
        let e = digit_run_end(s@, i as int);
        assert(digit_run_end(s@, q as int) == q);
        assert(e == q);
    }
    Some((val, q))
}

fn parse_entry_at(s: &str, i: usize, n: usize) -> (r: Option<(String, u32, usize)>)
    requires
        n == s@.len(),
        i <= n,
    ensures
        r matches Some(kvj) ==> parse_entry(s@, i as int) == Some(((kvj.0@, kvj.1), kvj.2 as int))
            && i < kvj.2 <= n,
        r is None ==> parse_entry(s@, i as int) is None,
{
    if i >= n {
        return None;
    }
    if s.get_char(i) != '"' {
        return None;
    }
    let mut k = String::new();
    let mut p: usize = i + 1;
    proof {
        assert(k@ =~= Seq::<char>::empty());
    }
    loop
        invariant_except_break
            parse_string_body(s@, i + 1) is Some <==> parse_string_body(s@, p as int) is Some,
            parse_string_body(s@, p as int) matches Some(tj) ==> parse_string_body(s@, i + 1)
                == Some((k@ + tj.0, tj.1)),
        invariant
            i + 1 <= p <= n,
            n == s@.len(),
        ensures
            parse_string_body(s@, i + 1) == Some((k@, p as int)),
        decreases n - p,
    {
        if p >= n {
            return None;
        }
        let c = s.get_char(p);
        if c == '"' {
            proof {
                assert(parse_string_body(s@, p as int) == Some((Seq::<char>::empty(), p + 1)));
                assert(k@ + Seq::<char>::empty() =~= k@);
            }
            p = p + 1;
            break;
        }
        if c == '\\' {
            if p + 1 < n {
                let c2 = s.get_char(p + 1);
                if c2 == '"' || c2 == '\\' {
                    let ghost kpre = k@;
                    push_char(&mut k, c2);
                    proof {
                        let o = parse_string_body(s@, p + 2);
                        if o is Some {
                            let tj = o->Some_0;
                            assert(parse_string_body(s@, p as int) == Some((
                                seq![s@[p + 1]] + tj.0,
                                tj.1,
                            )));
                            assert(kpre + (seq![c2] + tj.0) =~= k@ + tj.0);
                        }
                    }
                    p = p + 2;
                } else {
                    return None;
                }
            } else {
                return None;
            }
        } else {
            let ghost kpre = k@;
            push_char(&mut k, c);
            proof {
                let o = parse_string_body(s@, p + 1);
                if o is Some {
                    let tj = o->Some_0;
                    assert(parse_string_body(s@, p as int) == Some((seq![s@[p as int]] + tj.0, tj.1)));
                    assert(kpre + (seq![c] + tj.0) =~= k@ + tj.0);
                }
            }
            p = p + 1;
        }
    }
    // p is now the position after the closing quote.
    if p >= n {
        return None;
    }
    if s.get_char(p) != ':' {
        return None;
    }
    match parse_number_at(s, p + 1, n) {
        None => None,
        Some((v, j)) => Some((k, v, j)),
    }
}

fn check_unique(entries: &Vec<(String, u32)>) -> (r: bool)
    ensures
        r == keys_unique(entries_view(entries@)),
{
    let ghost ev = entries_view(entries@);
    let n = entries.len();
    let mut i: usize = 0;
    while i < n
        invariant
            0 <= i <= n,
            n == entries@.len(),
            ev == entries_view(entries@),
            forall|a: int, b: int| 0 <= a < b < i ==> ev[a].0 != ev[b].0,
        decreases n - i,
    {
        let mut a: usize = 0;
        while a < i
            invariant
                0 <= a <= i < n,
                n == entries@.len(),
                ev == entries_view(entries@),
                forall|b: int| 0 <= b < a ==> ev[b].0 != ev[i as int].0,
            decreases i - a,
        {
            if str_eq(entries[a].0.as_str(), entries[i].0.as_str()) {
                proof {
                    assert(ev[a as int].0 == ev[i as int].0);
                }
                return false;
            }
            a = a + 1;
        }
        i = i + 1;
    }
    true
}

fn check_total(entries: &Vec<(String, u32)>) -> (r: bool)
    ensures
        r == (total_of(entries_view(entries@)) <= u32::MAX),
{
    let ghost ev = entries_view(entries@);
    let n = entries.len();
    let mut t: u32 = 0;
    let mut i: usize = 0;
    proof {
        assert(ev.subrange(0, 0) =~= Seq::<(Seq<char>, u32)>::empty());
    }
    while i < n
        invariant
            0 <= i <= n,
            n == entries@.len(),
            ev == entries_view(entries@),
            t == total_of(ev.subrange(0, i as int)),
        decreases n - i,
    {
        let v = entries[i].1;
        proof {
            lemma_total_prefix_step(ev, i as int);
        }
        if v > u32::MAX - t {
            proof {
                lemma_total_prefix_le(ev, i + 1);
            }
            return false;
        }
        t = t + v;
        i = i + 1;
    }
    proof {
        assert(ev.subrange(0, n as int) =~= ev);
    }
    true
}

proof fn lemma_dec_digits_props(n: int)
    requires
        n >= 0,
    ensures
        dec_digits(n).len() >= 1,
        forall|m: int| 0 <= m < dec_digits(n).len() ==> is_digit(#[trigger] dec_digits(n)[m]),
        val_of_digits(dec_digits(n)) == n,
    decreases n,
{
    if n < 10 {
        assert(dec_digits(n) =~= seq![digit_char(n)]);
        assert(is_digit(digit_char(n)));
        assert(dec_digits(n).drop_last() =~= Seq::<char>::empty());
        assert(val_of_digits(Seq::<char>::empty()) == 0);
        assert(dec_digits(n).last() == digit_char(n));
        assert(val_of_digits(dec_digits(n)) == digit_val(digit_char(n)));
    } else {
        lemma_dec_digits_props(n / 10);
        let d = dec_digits(n);
        assert(d == dec_digits(n / 10).push(digit_char(n % 10)));
        assert(d.drop_last() =~= dec_digits(n / 10));
        assert(d.last() == digit_char(n % 10));
        assert(is_digit(digit_char(n % 10)));
        assert(digit_val(digit_char(n % 10)) == n % 10);
        assert(val_of_digits(d) == (n / 10) * 10 + n % 10);
    }
}

proof fn lemma_digit_run_exact(s: Seq<char>, i: int, e: int)
    requires
        0 <= i <= e <= s.len(),
        forall|m: int| i <= m < e ==> is_digit(s[m]),
        e == s.len() || !is_digit(s[e]),
    ensures
        digit_run_end(s, i) == e,
    decreases e - i,
{
    if i < e {
        lemma_digit_run_exact(s, i + 1, e);
    }
}

proof fn lemma_psb_of_enc(s: Seq<char>, i: int, k: Seq<char>)
    requires
        0 <= i,
        i + enc_str(k).len() + 1 <= s.len(),
        s.subrange(i, i + enc_str(k).len()) == enc_str(k),
        s[i + enc_str(k).len()] == '"',
    ensures
        parse_string_body(s, i) == Some((k, i + enc_str(k).len() + 1)),
    decreases k.len(),
{
    let L = enc_str(k).len();
    if k.len() == 0 {
        assert(L == 0);
        assert(s[i] == '"');
    } else {
        let c = k[0];
        let k2 = k.drop_first();
        let ec = enc_char(c);
        let L2 = enc_str(k2).len();
        assert(enc_str(k) == ec + enc_str(k2));
        assert(forall|m: int| 0 <= m < L ==> #[trigger] s.subrange(i, i + L)[m] == s[i + m]);
        if c == '"' || c == '\\' {
            assert(L == 2 + L2);
            assert(s[i] == enc_str(k)[0]);
            assert(enc_str(k)[0] == '\\');
            assert(s[i + 1] == enc_str(k)[1]);
            assert(enc_str(k)[1] == c);
            assert(s.subrange(i + 2, i + 2 + L2) =~= enc_str(k2)) by {
                assert(forall|m: int| 0 <= m < L2 ==> #[trigger] s.subrange(i + 2, i + 2 + L2)[m] == s[i + 2
                    + m]);
                assert(forall|m: int| 0 <= m < L2 ==> enc_str(k)[2 + m] == enc_str(k2)[m]);
            }
            assert(s[i + 2 + L2] == '"');
            lemma_psb_of_enc(s, i + 2, k2);
            assert(seq![s[i + 1]] + k2 =~= k);
        } else {
            assert(L == 1 + L2);
            assert(s[i] == enc_str(k)[0]);
            assert(enc_str(k)[0] == c);
            assert(c != '"' && c != '\\');
            assert(s.subrange(i + 1, i + 1 + L2) =~= enc_str(k2)) by {
                assert(forall|m: int| 0 <= m < L2 ==> #[trigger] s.subrange(i + 1, i + 1 + L2)[m] == s[i + 1
                    + m]);
                assert(forall|m: int| 0 <= m < L2 ==> enc_str(k)[1 + m] == enc_str(k2)[m]);
            }
            assert(s[i + 1 + L2] == '"');
            lemma_psb_of_enc(s, i + 1, k2);
            assert(seq![s[i]] + k2 =~= k);
        }
    }
}

proof fn lemma_parse_number_of(s: Seq<char>, i: int, v: u32)
    requires
        0 <= i,
        i + dec_digits(v as int).len() <= s.len(),
        s.subrange(i, i + dec_digits(v as int).len()) == dec_digits(v as int),
        i + dec_digits(v as int).len() == s.len() || !is_digit(s[i + dec_digits(v as int).len()]),
    ensures
        parse_number(s, i) == Some((v, i + dec_digits(v as int).len())),
{
    let d = dec_digits(v as int);
    let L = d.len();
    lemma_dec_digits_props(v as int);
    assert(forall|m: int| 0 <= m < L ==> #[trigger] s.subrange(i, i + L)[m] == s[i + m]);
    assert forall|m: int| i <= m < i + L implies is_digit(s[m]) by {
        assert(s.subrange(i, i + L)[m - i] == s[m]);
        assert(is_digit(d[m - i]));
    }
    lemma_digit_run_exact(s, i, i + L);
    assert(val_of_digits(s.subrange(i, i + L)) == v);
}

proof fn lemma_parse_entry_of(s: Seq<char>, i: int, e: (Seq<char>, u32))
    requires
        0 <= i,
        i + enc_entry(e).len() < s.len(),
        s.subrange(i, i + enc_entry(e).len()) == enc_entry(e),
        !is_digit(s[i + enc_entry(e).len()]),
    ensures
        parse_entry(s, i) == Some((e, i + enc_entry(e).len())),
        i < i + enc_entry(e).len(),
{
    let ee = enc_entry(e);
    let L = ee.len() as int;
    let ls = enc_str(e.0).len() as int;
    let d = dec_digits(e.1 as int);
    let ld = d.len() as int;
    lemma_dec_digits_props(e.1 as int);
    assert(L == 3 + ls + ld);
    assert(forall|m: int| 0 <= m < L ==> #[trigger] s.subrange(i, i + L)[m] == s[i + m]);
    assert(ee[0] == '"');
    assert(s[i] == '"');
    assert(s.subrange(i + 1, i + 1 + ls) =~= enc_str(e.0)) by {
        assert(forall|m: int| 0 <= m < ls ==> #[trigger] s.subrange(i + 1, i + 1 + ls)[m] == s[i + 1 + m]);
        assert(forall|m: int| 0 <= m < ls ==> ee[1 + m] == enc_str(e.0)[m]);
    }
    assert(ee[1 + ls] == '"');
    assert(s[i + 1 + ls] == '"');
    lemma_psb_of_enc(s, i + 1, e.0);
    assert(parse_string_body(s, i + 1) == Some((e.0, i + 2 + ls)));
    assert(ee[2 + ls] == ':');
    assert(s[i + 2 + ls] == ':');
    assert(s.subrange(i + 3 + ls, i + 3 + ls + ld) =~= d) by {
        assert(forall|m: int| 0 <= m < ld ==> #[trigger] s.subrange(i + 3 + ls, i + 3 + ls + ld)[m] == s[i + 3
            + ls + m]);
        assert(forall|m: int| 0 <= m < ld ==> ee[3 + ls + m] == d[m]);
    }
    lemma_parse_number_of(s, i + 3 + ls, e.1);
    assert(parse_number(s, i + 3 + ls) == Some((e.1, i + L)));
}

proof fn lemma_parse_entries_of(s: Seq<char>, i: int, m: Seq<(Seq<char>, u32)>)
    requires
        m.len() >= 1,
        0 <= i <= s.len(),
        s.skip(i) == enc_entries(m) + seq!['}'],
    ensures
        parse_entries(s, i) == Some((m, s.len() - 1)),
        s.len() - 1 == i + enc_entries(m).len(),
    decreases m.len(),
{
    let ee = enc_entries(m);
    let e = m[0];
    let le = enc_entry(e).len() as int;
    lemma_dec_digits_props(e.1 as int);
    assert(s.skip(i).len() == s.len() - i);
    assert(forall|n: int| 0 <= n < s.skip(i).len() ==> #[trigger] s.skip(i)[n] == s[i + n]);
    if m.len() == 1 {
        assert(ee == enc_entry(e));
        assert(s.len() - i == le + 1);
        assert(s.subrange(i, i + le) =~= enc_entry(e)) by {
            assert(forall|n: int| 0 <= n < le ==> #[trigger] s.subrange(i, i + le)[n] == s[i + n]);
            assert(forall|n: int| 0 <= n < le ==> (ee + seq!['}'])[n] == enc_entry(e)[n]);
        }
        assert(s[i + le] == (ee + seq!['}'])[le]);
        assert(s[i + le] == '}');
        assert(!is_digit('}'));
        lemma_parse_entry_of(s, i, e);
        assert(seq![e] =~= m);
    } else {
        let m2 = m.drop_first();
        let ee2 = enc_entries(m2);
        assert(ee == enc_entry(e) + seq![','] + ee2);
        assert(s.subrange(i, i + le) =~= enc_entry(e)) by {
            assert(forall|n: int| 0 <= n < le ==> #[trigger] s.subrange(i, i + le)[n] == s[i + n]);
            assert(forall|n: int| 0 <= n < le ==> (ee + seq!['}'])[n] == enc_entry(e)[n]);
        }
        assert(s[i + le] == (ee + seq!['}'])[le]);
        assert(s[i + le] == ',');
        assert(!is_digit(','));
        lemma_parse_entry_of(s, i, e);
        let j = i + le;
        assert(s.skip(j + 1) =~= ee2 + seq!['}']) by {
            assert(forall|n: int| 0 <= n < s.skip(j + 1).len() ==> #[trigger] s.skip(j + 1)[n]
                == s[j + 1 + n]);
            assert(forall|n: int| 0 <= n < ee2.len() + 1 ==> (ee + seq!['}'])[le + 1 + n] == (ee2
                + seq!['}'])[n]);
        }
        lemma_parse_entries_of(s, j + 1, m2);
        assert(seq![e] + m2 =~= m);
    }
}

/// The round trip of the snapshot: a well-formed scoreboard written by the
/// encoder is read back by the reader, entry for entry and in the same
/// order.
pub proof fn lemma_snapshot_round_trip(m: Seq<(Seq<char>, u32)>)
    requires
        keys_unique(m),
        total_of(m) <= u32::MAX,
    ensures
        parse_spec(encode_spec(m)) == Some(m),
{
    let s = encode_spec(m);
    let ee = enc_entries(m);
    assert(s.len() == 2 + ee.len());
    assert(forall|n: int| 0 <= n < ee.len() ==> s[1 + n] == ee[n]);
    assert(s[0] == '{');
    assert(s[s.len() - 1] == '}');
    if m.len() == 0 {
        assert(ee.len() == 0);
        assert(s.len() == 2);
        assert(s[1] == '}');
        assert(m =~= Seq::<(Seq<char>, u32)>::empty());
    } else {
        lemma_dec_digits_props(m[0].1 as int);
        assert(ee.len() >= 1) by {
            if m.len() == 1 {
                assert(ee == enc_entry(m[0]));
            } else {
                assert(ee == enc_entry(m[0]) + seq![','] + enc_entries(m.drop_first()));
            }
            assert(enc_entry(m[0]).len() >= 4);
        }
        assert(s.len() > 2);
        assert(s.skip(1) =~= ee + seq!['}']) by {
            assert(forall|n: int| 0 <= n < s.skip(1).len() ==> #[trigger] s.skip(1)[n] == s[1 + n]);
        }
        lemma_parse_entries_of(s, 1, m);
        assert(parse_entries(s, 1) == Some((m, s.len() - 1)));
    }
}

/// Reads a snapshot back into a scoreboard; `None` on anything the format
/// does not cover.
pub fn parse(s: &str) -> (r: Option<Scoreboard>)
    ensures
        r matches Some(sb) ==> parse_spec(s@) == Some(sb@) && sb.wf(),
        r is None ==> parse_spec(s@) is None,
{
    let n = s.unicode_len();
    if n < 2 {
        return None;
    }
    if s.get_char(0) != '{' {
        return None;
    }
    if n == 2 {
        if s.get_char(1) == '}' {
            let sb = Scoreboard::new();
            proof {
                assert(total_of(sb@) == 0);
                assert(parse_spec(s@) == Some(sb@));
            }
            return Some(sb);
        }
    }
    let mut entries: Vec<(String, u32)> = Vec::new();
    let mut i: usize = 1;
    proof {
        assert(entries_view(entries@) =~= Seq::<(Seq<char>, u32)>::empty());
        let o = parse_entries(s@, 1);
        if o is Some {
            let esp = o->Some_0;
            assert(entries_view(entries@) + esp.0 =~= esp.0);
        }
    }
    loop
        invariant
            1 <= i <= n,
            n == s@.len(),
            s@[0] == '{',
            !(n == 2 && s@[1] == '}'),
            parse_entries(s@, 1) is Some <==> parse_entries(s@, i as int) is Some,
            parse_entries(s@, i as int) matches Some(esp) ==> parse_entries(s@, 1) == Some((
                entries_view(entries@) + esp.0,
                esp.1,
            )),
        decreases n - i,
    {
        match parse_entry_at(s, i, n) {
            None => {
                return None;
            },
            Some((k, v, j)) => {
                let ghost e = (k@, v);
                let ghost ev0 = entries_view(entries@);
                let is_comma = j < n && s.get_char(j) == ',';
                entries.push((k, v));
                proof {
                    assert(entries_view(entries@) =~= ev0.push(e));
                }
                if is_comma {
                    proof {
                        let o = parse_entries(s@, j + 1);
                        if o is Some {
                            let esp = o->Some_0;
                            assert(parse_entries(s@, i as int) == Some((seq![e] + esp.0, esp.1)));
                            assert(ev0 + (seq![e] + esp.0) =~= entries_view(entries@) + esp.0);
                        }
                    }
                    i = j + 1;
                } else {
                    proof {
                        assert(parse_entries(s@, i as int) == Some((seq![e], j as int)));
                        assert(ev0 + seq![e] =~= entries_view(entries@));
                        assert(parse_entries(s@, 1) == Some((entries_view(entries@), j as int)));
                    }
                    if j >= n {
                        return None;
                    }
                    if j + 1 != n {
                        return None;
                    }
                    if s.get_char(j) != '}' {
                        return None;
                    }
                    if !check_unique(&entries) {
                        return None;
                    }
                    if !check_total(&entries) {
                        return None;
                    }
                    let ghost ev = entries_view(entries@);
                    let sb = Scoreboard::from_entries(entries);
                    proof {
                        assert(parse_spec(s@) == Some(ev));
                        assert(sb@ == ev);
                    }
                    return Some(sb);
                }
            },
        }
    }
}

} // verus!
