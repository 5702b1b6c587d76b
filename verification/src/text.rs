use vstd::prelude::*;

verus! {

/// Appends `c` to `s`, by `String::push`, which documents that it appends
/// the given `char` to the end of the `String`.
#[verifier::external_body]
pub(crate) fn push_char(s: &mut String, c: char)
    ensures
        final(s)@ == old(s)@.push(c),
{
    s.push(c);
}

/// Whether two strings hold the same characters.
pub fn str_eq(a: &str, b: &str) -> (r: bool)
    ensures
        r == (a@ == b@),
{
    let n = a.unicode_len();
    if n != b.unicode_len() {
        return false;
    }
    let mut i: usize = 0;
    while i < n
        invariant
            n == a@.len(),
            n == b@.len(),
            i <= n,
            forall|k: int| 0 <= k < i ==> a@[k] == b@[k],
        decreases n - i,
    {
        if a.get_char(i) != b.get_char(i) {
            return false;
        }
        i = i + 1;
    }
    assert(a@ =~= b@);
    true
}

/// The characters of `s`, in order.
pub fn chars_of(s: &str) -> (v: Vec<char>)
    ensures
        v@ == s@,
{
    let n = s.unicode_len();
    let mut v: Vec<char> = Vec::new();
    let mut i: usize = 0;
    while i < n
        invariant
            n == s@.len(),
            i <= n,
            v@ == s@.take(i as int),
        decreases n - i,
    {
        v.push(s.get_char(i));
        assert(s@.take(i + 1) =~= s@.take(i as int).push(s@[i as int]));
        i = i + 1;
    }
    assert(s@.take(n as int) =~= s@);
    v
}

/// The `String` made of `chars[from..to]`.
pub fn string_of(chars: &Vec<char>, from: usize, to: usize) -> (s: String)
    requires
        from <= to <= chars@.len(),
    ensures
        s@ == chars@.subrange(from as int, to as int),
{
    let mut s = String::new();
    let mut i: usize = from;
    while i < to
        invariant
            from <= i <= to,
            to <= chars@.len(),
            s@ == chars@.subrange(from as int, i as int),
        decreases to - i,
    {
        push_char(&mut s, chars[i]);
        assert(chars@.subrange(from as int, i + 1) =~= chars@.subrange(from as int, i as int).push(
            chars@[i as int],
        ));
        i = i + 1;
    }
    s
}

/// `c` has the Unicode `White_Space` property, the test that `str::trim`
/// applies.
pub open spec fn is_space(c: char) -> bool {
    ||| '\u{9}' <= c && c <= '\u{d}'
    ||| c == ' '
    ||| c == '\u{85}'
    ||| c == '\u{a0}'
    ||| c == '\u{1680}'
    ||| '\u{2000}' <= c && c <= '\u{200a}'
    ||| c == '\u{2028}'
    ||| c == '\u{2029}'
    ||| c == '\u{202f}'
    ||| c == '\u{205f}'
    ||| c == '\u{3000}'
}

/// Whether `c` has the Unicode `White_Space` property.
pub fn space(c: char) -> (r: bool)
    ensures
        r == is_space(c),
{
    ('\u{9}' <= c && c <= '\u{d}') || c == ' ' || c == '\u{85}' || c == '\u{a0}' || c == '\u{1680}'
        || ('\u{2000}' <= c && c <= '\u{200a}') || c == '\u{2028}' || c == '\u{2029}' || c
        == '\u{202f}' || c == '\u{205f}' || c == '\u{3000}'
}

/// The first position in `s[from..to]` that is not white space, or `to`.
pub open spec fn trim_start(s: Seq<char>, from: int, to: int) -> int
    decreases to - from,
{
    if from >= to {
        to
    } else if is_space(s[from]) {
        trim_start(s, from + 1, to)
    } else {
        from
    }
}

/// One past the last position in `s[from..to]` that is not white space, or
/// `from`.
pub open spec fn trim_end(s: Seq<char>, from: int, to: int) -> int
    decreases to - from,
{
    if from >= to {
        from
    } else if is_space(s[to - 1]) {
        trim_end(s, from, to - 1)
    } else {
        to
    }
}

/// `s` without the white space at its ends, as `str::trim` gives it.
pub open spec fn trimmed(s: Seq<char>) -> Seq<char> {
    let a = trim_start(s, 0, s.len() as int);
    s.subrange(a, trim_end(s, a, s.len() as int))
}

/// `s` without the white space at its ends.
pub fn trim_chars(s: &Vec<char>) -> (r: Vec<char>)
    ensures
        r@ == trimmed(s@),
{
    let n = s.len();
    let mut a: usize = 0;
    while a < n && space(s[a])
        invariant
            a <= n,
            n == s@.len(),
            trim_start(s@, 0, n as int) == trim_start(s@, a as int, n as int),
        decreases n - a,
    {
        a = a + 1;
    }
    let mut b = n;
    while b > a && space(s[b - 1])
        invariant
            a <= b <= n,
            n == s@.len(),
            trim_start(s@, 0, n as int) == a,
            trim_end(s@, a as int, n as int) == trim_end(s@, a as int, b as int),
        decreases b,
    {
        b = b - 1;
    }
    let mut r: Vec<char> = Vec::new();
    let mut i = a;
    while i < b
        invariant
            a <= i <= b,
            b <= n,
            n == s@.len(),
            r@ == s@.subrange(a as int, i as int),
        decreases b - i,
    {
        r.push(s[i]);
        assert(s@.subrange(a as int, i + 1) =~= s@.subrange(a as int, i as int).push(s@[i as int]));
        i = i + 1;
    }
    r
}

/// `t` occurs in `s` as a run of consecutive characters.
pub open spec fn contains_text(s: Seq<char>, t: Seq<char>) -> bool {
    exists|i: int| 0 <= i && i + t.len() <= s.len() && #[trigger] s.subrange(i, i + t.len()) == t
}

/// Whether `t` occurs in `s`.
pub fn text_contains(s: &str, t: &str) -> (r: bool)
    ensures
        r == contains_text(s@, t@),
{
    let a = chars_of(s);
    let b = chars_of(t);
    let n = a.len();
    let m = b.len();
    if m > n {
        proof {
            assert forall|i: int| 0 <= i && i + t@.len() <= s@.len() implies #[trigger] s@.subrange(i, i + t@.len()) != t@ by {}
        }
        return false;
    }
    let mut i: usize = 0;
    while i <= n - m
        invariant
            a@ == s@,
            b@ == t@,
            n == a@.len(),
            m == b@.len(),
            m <= n,
            i <= n - m + 1,
            forall|k: int| 0 <= k < i ==> #[trigger] a@.subrange(k, k + m) != b@,
        decreases n - m + 1 - i,
    {
        let mut j: usize = 0;
        let mut same = true;
        while j < m
            invariant
                a@ == s@,
                b@ == t@,
                n == a@.len(),
                m == b@.len(),
                i + m <= n,
                j <= m,
                same == forall|q: int| 0 <= q < j ==> a@[i + q] == b@[q],
            decreases m - j,
        {
            if a[i + j] != b[j] {
                same = false;
            }
            j = j + 1;
        }
        if same {
            assert(a@.subrange(i as int, i + m) =~= b@);
            return true;
        }
        proof {
            assert(a@.subrange(i as int, i + m) != b@) by {
                let q = choose|q: int| 0 <= q < m && a@[i + q] != b@[q];
                assert(a@.subrange(i as int, i + m)[q] == a@[i + q]);
            }
        }
        i = i + 1;
    }
    proof {
        assert forall|k: int| 0 <= k && k + t@.len() <= s@.len() implies #[trigger] s@.subrange(k, k + t@.len()) != t@ by {
            assert(k < i);
            assert(a@.subrange(k, k + m) != b@);
        }
    }
    false
}

} // verus!
