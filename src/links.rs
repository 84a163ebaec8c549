use crate::task::{encode, Task};
use crate::text::is_ws;
use vstd::prelude::*;

verus! {

/// An `http://` or `https://` followed by non-whitespace.
pub open spec fn url_pattern() -> Seq<char> {
    "http://\\S+|https://\\S+"@
}

/// How many characters at the start of `s` are not whitespace.
pub open spec fn run_len(s: Seq<char>) -> nat
    decreases s.len(),
{
    if s.len() == 0 || is_ws(s[0]) {
        0
    } else {
        1 + run_len(s.drop_first())
    }
}

/// The length of the address that begins at position `i` of `s`: a scheme
/// prefix, then the longest run of non-whitespace, at least one character;
/// zero where none begins there.
pub open spec fn url_len_at(s: Seq<char>, i: int) -> nat {
    let http = seq!['h', 't', 't', 'p', ':', '/', '/'];
    let https = seq!['h', 't', 't', 'p', 's', ':', '/', '/'];
    if i + 7 <= s.len() && s.subrange(i, i + 7) == http && run_len(s.skip(i + 7)) > 0 {
        7 + run_len(s.skip(i + 7))
    } else if i + 8 <= s.len() && s.subrange(i, i + 8) == https && run_len(s.skip(i + 8)) > 0 {
        8 + run_len(s.skip(i + 8))
    } else {
        0
    }
}

/// The addresses in `s` from position `i` on: each found at the leftmost
/// position where one begins, the search going on after its end.
pub open spec fn urls_from(s: Seq<char>, i: int) -> Seq<Seq<char>>
    decreases s.len() - i,
    via urls_from_decreases
{
    if i < 0 || i >= s.len() {
        seq![]
    } else if url_len_at(s, i) > 0 {
        seq![s.subrange(i, i + url_len_at(s, i))] + urls_from(s, i + url_len_at(s, i))
    } else {
        urls_from(s, i + 1)
    }
}

proof fn lemma_run_len(s: Seq<char>)
    ensures
        run_len(s) <= s.len(),
    decreases s.len(),
{
    if s.len() > 0 && !is_ws(s[0]) {
        lemma_run_len(s.drop_first());
    }
}

#[via_fn]
proof fn urls_from_decreases(s: Seq<char>, i: int) {
    if 0 <= i < s.len() && url_len_at(s, i) > 0 {
        if i + 7 <= s.len() {
            lemma_run_len(s.skip(i + 7));
        }
        if i + 8 <= s.len() {
            lemma_run_len(s.skip(i + 8));
        }
    }
}

/// The web addresses in a text, in order.
pub open spec fn urls_in(text: Seq<char>) -> Seq<Seq<char>> {
    urls_from(text, 0)
}

/// Relies on `regex::Regex::new`, which compiles this pattern without error,
/// and `regex::Regex::find_iter`: successive non-overlapping leftmost-first
/// matches. `\S` is any character without the Unicode `White_Space` property,
/// and `\S+` takes as many as it can.
#[verifier::external_body]
fn find_all(pattern: &str, text: &str) -> (r: Vec<String>)
    requires
        pattern@ == url_pattern(),
    ensures
        r.deep_view() == urls_in(text@),
{
    let re = regex::Regex::new(pattern).unwrap();
    re.find_iter(text).map(|m| m.as_str().to_string()).collect()
}

/// The web addresses written in a task's line.
pub fn task_urls(t: &Task) -> (r: Vec<String>)
    ensures
        r.deep_view() == urls_in(encode(t@)),
{
    let line = t.to_line();
    find_all("http://\\S+|https://\\S+", line.as_str())
}

} // verus!
