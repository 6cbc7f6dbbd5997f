//! The minimal request protocol: one request line per connection, split into
//! whitespace-separated tokens, answered with a bare status line and a body.
//!
//! A request line of other than three tokens is bad; a method other than
//! `GET` is refused; the `/data` path serves the data file's content and any
//! other path serves the trimmed king signal.

use vstd::prelude::*;
use crate::king::{is_space_spec, trim_spec, trim_str};
use crate::king::is_space;
use crate::text::str_eq;

verus! {

/// The position just past the word starting at `i`: the first index at or
/// after `i` that is out of range or white space.
pub open spec fn word_end(s: Seq<char>, i: int) -> int
    decreases s.len() - i,
{
    if i < 0 || i >= s.len() || is_space_spec(s[i]) {
        i
    } else {
        word_end(s, i + 1)
    }
}

proof fn lemma_word_end(s: Seq<char>, i: int)
    requires
        0 <= i <= s.len(),
    ensures
        i <= word_end(s, i) <= s.len(),
        forall|m: int| i <= m < word_end(s, i) ==> !is_space_spec(s[m]),
        word_end(s, i) < s.len() ==> is_space_spec(s[word_end(s, i)]),
        i < s.len() && !is_space_spec(s[i]) ==> word_end(s, i) > i,
    decreases s.len() - i,
{
    if i < s.len() && !is_space_spec(s[i]) {
        lemma_word_end(s, i + 1);
    }
}

/// The words of `s` from position `i` on: maximal runs of non-white-space
/// characters.
pub open spec fn split_ws(s: Seq<char>, i: int) -> Seq<Seq<char>>
    decreases s.len() - i,
{
    if i < 0 || i >= s.len() {
        Seq::empty()
    } else if is_space_spec(s[i]) {
        split_ws(s, i + 1)
    } else {
        let j = word_end(s, i);
        if i < j <= s.len() {
            seq![s.subrange(i, j)] + split_ws(s, j)
        } else {
            Seq::empty()
        }
    }
}

/// The whitespace-separated words of a line, as `str::split_whitespace`
/// yields them.
pub open spec fn words_spec(s: Seq<char>) -> Seq<Seq<char>> {
    split_ws(s, 0)
}

/// Splits a line into its whitespace-separated words.
pub fn line_to_words(line: &str) -> (r: Vec<String>)
    ensures
        r.deep_view() == words_spec(line@),
{
    let n = line.unicode_len();
    let mut words: Vec<String> = Vec::new();
    let mut i: usize = 0;
    proof {
        assert(words.deep_view() =~= Seq::<Seq<char>>::empty());
        assert(words.deep_view() + split_ws(line@, 0) =~= split_ws(line@, 0));
    }
    while i < n
        invariant
            0 <= i <= n,
            n == line@.len(),
            words.deep_view() + split_ws(line@, i as int) =~= words_spec(line@),
        decreases n - i,
    {
        if is_space(line.get_char(i)) {
            i = i + 1;
        } else {
            proof {
                lemma_word_end(line@, i as int);
            }
            let start = i;
            let mut j = i;
            while j < n && !is_space(line.get_char(j))
                invariant
                    start <= j <= n,
                    n == line@.len(),
                    word_end(line@, start as int) == word_end(line@, j as int),
                decreases n - j,
            {
                j = j + 1;
            }
            proof {
                assert(word_end(line@, j as int) == j);
                lemma_word_end(line@, start as int);
            }
            let word = String::from_str(line.substring_char(start, j));
            let ghost before = words.deep_view();
            words.push(word);
            proof {
                assert(words.deep_view() =~= before.push(word@));
                assert(words.deep_view() + split_ws(line@, j as int) =~= words_spec(line@));
            }
            i = j;
        }
    }
    proof {
        assert(words.deep_view() =~= words_spec(line@));
    }
    words
}

/// The response to a request line that does not hold exactly three tokens.
pub open spec fn response_bad_request() -> Seq<char> {
    "HTTP/1.1 400 BAD REQUEST\r\n\r\n"@
}

/// The response to a request whose method is not `GET`.
pub open spec fn response_nope() -> Seq<char> {
    "HTTP/1.1 420 NOPE\r\n\r\n"@
}

/// The status line that precedes every successful response body.
pub open spec fn response_ok_prefix() -> Seq<char> {
    "HTTP/1.1 200 OK\r\n\r\n"@
}

/// Answers one request.  `request_line` is the first line the client sent,
/// `data` the current content of the data file (empty when absent), and
/// `king_raw` the raw content of the king file (empty when absent).
///
/// A line of other than three whitespace-separated tokens gets the bad
/// request status; a method other than `GET` gets the refusal status; the
/// path `/data` gets the data file content as body; any other path gets the
/// trimmed king signal as body.
pub fn handle(request_line: &str, data: &str, king_raw: &str) -> (resp: String)
    ensures
        ({
            let ws = words_spec(request_line@);
            &&& ws.len() != 3 ==> resp@ == response_bad_request()
            &&& ws.len() == 3 && ws[0] != "GET"@ ==> resp@ == response_nope()
            &&& ws.len() == 3 && ws[0] == "GET"@ && ws[1] == "/data"@ ==> resp@
                == response_ok_prefix() + data@
            &&& ws.len() == 3 && ws[0] == "GET"@ && ws[1] != "/data"@ ==> resp@
                == response_ok_prefix() + trim_spec(king_raw@)
        }),
{
    let words = line_to_words(request_line);
    proof {
        assert(forall|k: int| 0 <= k < words@.len() ==> words.deep_view()[k] == words@[k]@);
    }
    if words.len() != 3 {
        return String::from_str("HTTP/1.1 400 BAD REQUEST\r\n\r\n");
    }
    if !str_eq(words[0].as_str(), "GET") {
        return String::from_str("HTTP/1.1 420 NOPE\r\n\r\n");
    }
    let mut resp = String::from_str("HTTP/1.1 200 OK\r\n\r\n");
    if str_eq(words[1].as_str(), "/data") {
        resp.append(data);
    } else {
        let king = trim_str(king_raw);
        resp.append(king.as_str());
    }
    resp
}

} // verus!
