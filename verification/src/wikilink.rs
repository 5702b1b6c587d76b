use vstd::prelude::*;

use crate::text::{chars_of, space, trim_end, trim_start};

verus! {

/// `s[i..]` begins with `[[`.
pub open spec fn opens_at(s: Seq<char>, i: int) -> bool {
    0 <= i && i + 1 < s.len() && s[i] == '[' && s[i + 1] == '['
}

/// `s[i..]` begins with `]]`.
pub open spec fn closes_at(s: Seq<char>, i: int) -> bool {
    0 <= i && i + 1 < s.len() && s[i] == ']' && s[i + 1] == ']'
}

/// The first position at or after `from` where `[[` begins.
pub open spec fn first_open(s: Seq<char>, from: int) -> Option<int>
    decreases s.len() - from,
{
    if from < 0 || from + 1 >= s.len() {
        None
    } else if opens_at(s, from) {
        Some(from)
    } else {
        first_open(s, from + 1)
    }
}

/// The first position at or after `from` where `]]` begins.
pub open spec fn first_close(s: Seq<char>, from: int) -> Option<int>
    decreases s.len() - from,
{
    if from < 0 || from + 1 >= s.len() {
        None
    } else if closes_at(s, from) {
        Some(from)
    } else {
        first_close(s, from + 1)
    }
}

/// The position of the first `|` in `s`, or its length.
pub open spec fn pipe_or_end(s: Seq<char>, from: int) -> int
    decreases s.len() - from,
{
    if from < 0 || from >= s.len() {
        s.len() as int
    } else if s[from] == '|' {
        from
    } else {
        pipe_or_end(s, from + 1)
    }
}

/// The id of the wikilink `[[<id> | <title>]]` or `[[<id>]]` of `line`
/// whose span, from the first `[` to the last `]`, holds the position
/// `idx`, scanning the links from `from`: the text before the first `|`,
/// without surrounding white space. `None` when no link holds `idx`, or a
/// link is left open before one does.
pub open spec fn wikilink_from(line: Seq<char>, idx: int, from: int) -> Option<(int, int)>
    decreases line.len() - from,
{
    match first_open(line, from) {
        None => None,
        Some(open) => match first_close(line, open + 2) {
            None => None,
            Some(close) => if open <= idx && idx < close + 2 {
                let inner = line.subrange(open + 2, close);
                let end = pipe_or_end(inner, 0);
                let a = trim_start(inner, 0, end);
                let b = trim_end(inner, a, end);
                Some((open + 2 + a, open + 2 + b))
            } else if from < close + 2 && close + 2 <= line.len() {
                wikilink_from(line, idx, close + 2)
            } else {
                None
            },
        },
    }
}

/// The id of the wikilink of `line` that holds the position `idx`, as a
/// range of character positions in `line`.
pub open spec fn wikilink_at(line: Seq<char>, idx: int) -> Option<(int, int)> {
    wikilink_from(line, idx, 0)
}

/// Where `first_open` and `first_close` find something, it lies at or after
/// where they started and holds the pair they look for.
proof fn lemma_first_bounds(s: Seq<char>, from: int)
    ensures
        first_open(s, from) matches Some(i) ==> from <= i && opens_at(s, i),
        first_close(s, from) matches Some(i) ==> from <= i && closes_at(s, i),
    decreases s.len() - from,
{
    if !(from < 0 || from + 1 >= s.len()) {
        lemma_first_bounds(s, from + 1);
    }
}

/// The first position at or after `from` where `[[` begins.
fn find_open(s: &Vec<char>, from: usize) -> (r: Option<usize>)
    ensures
        match r {
            Some(i) => first_open(s@, from as int) == Some(i as int),
            None => first_open(s@, from as int) is None,
        },
    decreases s@.len() - from,
{
    if from >= s.len() || from + 1 >= s.len() {
        None
    } else if s[from] == '[' && s[from + 1] == '[' {
        Some(from)
    } else {
        find_open(s, from + 1)
    }
}

/// The first position at or after `from` where `]]` begins.
fn find_close(s: &Vec<char>, from: usize) -> (r: Option<usize>)
    ensures
        match r {
            Some(i) => first_close(s@, from as int) == Some(i as int),
            None => first_close(s@, from as int) is None,
        },
    decreases s@.len() - from,
{
    if from >= s.len() || from + 1 >= s.len() {
        None
    } else if s[from] == ']' && s[from + 1] == ']' {
        Some(from)
    } else {
        find_close(s, from + 1)
    }
}

/// The id part of the link whose inside is `s[from..to]`: the text before
/// the first `|`, without surrounding white space, as a range of `s`.
fn id_range(s: &Vec<char>, from: usize, to: usize) -> (r: (usize, usize))
    requires
        from <= to <= s@.len(),
    ensures
        from <= r.0 <= r.1 <= to,
        ({
            let inner = s@.subrange(from as int, to as int);
            let end = pipe_or_end(inner, 0);
            let a = trim_start(inner, 0, end);
            let b = trim_end(inner, a, end);
            r.0 == from + a && r.1 == from + b
        }),
{
    let ghost inner = s@.subrange(from as int, to as int);
    let mut end = from;
    while end < to && s[end] != '|'
        invariant
            from <= end <= to,
            to <= s@.len(),
            inner == s@.subrange(from as int, to as int),
            pipe_or_end(inner, 0) == pipe_or_end(inner, end - from),
        decreases to - end,
    {
        assert(inner[end - from] == s@[end as int]);
        end = end + 1;
    }
    assert(pipe_or_end(inner, 0) == end - from);
    let mut a = from;
    while a < end && space(s[a])
        invariant
            from <= a <= end,
            end <= to <= s@.len(),
            inner == s@.subrange(from as int, to as int),
            trim_start(inner, 0, end - from) == trim_start(inner, a - from, end - from),
        decreases end - a,
    {
        assert(inner[a - from] == s@[a as int]);
        a = a + 1;
    }
    let mut b = end;
    while b > a && space(s[b - 1])
        invariant
            from <= a <= b <= end,
            end <= to <= s@.len(),
            inner == s@.subrange(from as int, to as int),
            trim_start(inner, 0, end - from) == a - from,
            trim_end(inner, a - from, end - from) == trim_end(inner, a - from, b - from),
        decreases b,
    {
        assert(inner[b - 1 - from] == s@[b - 1]);
        b = b - 1;
    }
    (a, b)
}

/// Returns the `<id>` of a `[[<id> | <title>]]` or `[[<id>]]` wikilink when
/// the cursor, at character position `char_idx` of `line`, falls anywhere
/// inside the `[[ ... ]]` span; the id is the text before the first `|`,
/// without surrounding white space.
pub fn extract_wikilink_id_at(line: &str, char_idx: usize) -> (r: Option<&str>)
    ensures
        match wikilink_at(line@, char_idx as int) {
            Some((a, b)) => r matches Some(id) && id@ == line@.subrange(a, b),
            None => r is None,
        },
{
    let chars = chars_of(line);
    let n = chars.len();
    let mut search_start: usize = 0;
    loop
        invariant
            chars@ == line@,
            n == chars@.len(),
            search_start <= n + 2,
            wikilink_at(line@, char_idx as int) == wikilink_from(
                line@,
                char_idx as int,
                search_start as int,
            ),
        decreases n + 2 - search_start,
    {
        proof {
            lemma_first_bounds(line@, search_start as int);
        }
        let open = match find_open(&chars, search_start) {
            Some(o) => o,
            None => {
                return None;
            },
        };
        proof {
            lemma_first_bounds(line@, open + 2);
        }
        let close = match find_close(&chars, open + 2) {
            Some(c) => c,
            None => {
                return None;
            },
        };
        if char_idx >= open && char_idx < close + 2 {
            let (a, b) = id_range(&chars, open + 2, close);
            proof {
                let inner = line@.subrange(open + 2, close as int);
                assert(inner == chars@.subrange(open + 2, close as int));
                let end = pipe_or_end(inner, 0);
                let ta = trim_start(inner, 0, end);
                let tb = trim_end(inner, ta, end);
                assert(first_open(line@, search_start as int) == Some(open as int));
                assert(first_close(line@, open + 2) == Some(close as int));
                assert(wikilink_from(line@, char_idx as int, search_start as int) == Some(
                    (open + 2 + ta, open + 2 + tb),
                ));
                assert(a == open + 2 + ta && b == open + 2 + tb);
            }
            return Some(line.substring_char(a, b));
        }
        if search_start >= close + 2 {
            return None;
        }
        search_start = close + 2;
    }
}

} // verus!
