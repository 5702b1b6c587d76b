use vstd::prelude::*;

use crate::text::{chars_of, str_eq, string_of};

verus! {

/// The modifier keys held with a key.
#[derive(Debug, Clone, Copy, PartialEq, Eq, Structural, Hash)]
pub struct KeyModifiers {
    pub shift: bool,
    pub control: bool,
    pub alt: bool,
}

impl KeyModifiers {
    /// No modifier held.
    pub fn empty() -> (m: KeyModifiers)
        ensures
            m == no_modifiers(),
    {
        KeyModifiers { shift: false, control: false, alt: false }
    }
}

/// No modifier held.
pub open spec fn no_modifiers() -> KeyModifiers {
    KeyModifiers { shift: false, control: false, alt: false }
}

/// A key of the keyboard.
#[derive(Debug, Clone, Copy, PartialEq, Eq, Structural, Hash)]
pub enum KeyCode {
    Esc,
    Enter,
    Left,
    Right,
    Up,
    Down,
    Home,
    End,
    PageUp,
    PageDown,
    BackTab,
    Backspace,
    Delete,
    Insert,
    Tab,
    /// A function key, `F(1)` to `F(12)`.
    F(u8),
    /// A key that types a character.
    Char(char),
}

/// A key pressed with some modifiers.
#[derive(Debug, Clone, Copy, PartialEq, Eq, Structural, Hash)]
pub struct KeyEvent {
    pub code: KeyCode,
    pub modifiers: KeyModifiers,
}

/// `c` in lower case when it is an ASCII capital letter.
pub open spec fn ascii_lower(c: char) -> char {
    if 'A' <= c && c <= 'Z' {
        ((c as u32) + 32) as char
    } else {
        c
    }
}

/// `c` in upper case when it is an ASCII small letter.
pub open spec fn ascii_upper(c: char) -> char {
    if 'a' <= c && c <= 'z' {
        ((c as u32) - 32) as char
    } else {
        c
    }
}

/// `s` with its ASCII capital letters made small.
pub open spec fn lowered(s: Seq<char>) -> Seq<char> {
    s.map_values(|c: char| ascii_lower(c))
}

/// `s` begins with `p`.
pub open spec fn starts_with(s: Seq<char>, p: Seq<char>) -> bool {
    p.len() <= s.len() && s.take(p.len() as int) == p
}

/// The modifier prefixes `ctrl-`, `alt-`, `shift-` read off the front of
/// `s`, in any order and number, added to `m`; what follows them, and the
/// modifiers.
#[verifier::opaque]
pub open spec fn strip_modifiers(s: Seq<char>, m: KeyModifiers) -> (Seq<char>, KeyModifiers)
    decreases s.len(),
{
    if starts_with(s, seq!['c', 't', 'r', 'l', '-']) {
        strip_modifiers(s.skip(5), KeyModifiers { control: true, ..m })
    } else if starts_with(s, seq!['a', 'l', 't', '-']) {
        strip_modifiers(s.skip(4), KeyModifiers { alt: true, ..m })
    } else if starts_with(s, seq!['s', 'h', 'i', 'f', 't', '-']) {
        strip_modifiers(s.skip(6), KeyModifiers { shift: true, ..m })
    } else {
        (s, m)
    }
}

/// The key that a (lower-case) name designates, with the modifiers `m`
/// held; `None` for a name that designates no key.
pub open spec fn key_named(name: Seq<char>, m: KeyModifiers) -> Option<KeyEvent> {
    let code = if name == "esc"@ {
        Some(KeyCode::Esc)
    } else if name == "enter"@ {
        Some(KeyCode::Enter)
    } else if name == "left"@ {
        Some(KeyCode::Left)
    } else if name == "right"@ {
        Some(KeyCode::Right)
    } else if name == "up"@ {
        Some(KeyCode::Up)
    } else if name == "down"@ {
        Some(KeyCode::Down)
    } else if name == "home"@ {
        Some(KeyCode::Home)
    } else if name == "end"@ {
        Some(KeyCode::End)
    } else if name == "pageup"@ {
        Some(KeyCode::PageUp)
    } else if name == "pagedown"@ {
        Some(KeyCode::PageDown)
    } else if name == "backtab"@ {
        Some(KeyCode::BackTab)
    } else if name == "backspace"@ {
        Some(KeyCode::Backspace)
    } else if name == "delete"@ {
        Some(KeyCode::Delete)
    } else if name == "insert"@ {
        Some(KeyCode::Insert)
    } else if name == "f1"@ {
        Some(KeyCode::F(1))
    } else if name == "f2"@ {
        Some(KeyCode::F(2))
    } else if name == "f3"@ {
        Some(KeyCode::F(3))
    } else if name == "f4"@ {
        Some(KeyCode::F(4))
    } else if name == "f5"@ {
        Some(KeyCode::F(5))
    } else if name == "f6"@ {
        Some(KeyCode::F(6))
    } else if name == "f7"@ {
        Some(KeyCode::F(7))
    } else if name == "f8"@ {
        Some(KeyCode::F(8))
    } else if name == "f9"@ {
        Some(KeyCode::F(9))
    } else if name == "f10"@ {
        Some(KeyCode::F(10))
    } else if name == "f11"@ {
        Some(KeyCode::F(11))
    } else if name == "f12"@ {
        Some(KeyCode::F(12))
    } else if name == "space"@ {
        Some(KeyCode::Char(' '))
    } else if name == "hyphen"@ || name == "minuc"@ {
        Some(KeyCode::Char('-'))
    } else if name == "tab"@ {
        Some(KeyCode::Tab)
    } else if name.len() == 1 && (name[0] as u32) < 128 {
        Some(KeyCode::Char(if m.shift { ascii_upper(name[0]) } else { name[0] }))
    } else {
        None
    };
    match code {
        Some(KeyCode::BackTab) => Some(
            KeyEvent { code: KeyCode::BackTab, modifiers: KeyModifiers { shift: true, ..m } },
        ),
        Some(c) => Some(KeyEvent { code: c, modifiers: m }),
        None => None,
    }
}

/// The name by which a key that is not a character key is written, for
/// the keys that have one: `esc` for `Esc`, `pageup` for `PageUp`, `f1` for
/// `F(1)`, and so on.
pub open spec fn key_code_name(c: KeyCode) -> Option<Seq<char>> {
    match c {
        KeyCode::Esc => Some("esc"@),
        KeyCode::Enter => Some("enter"@),
        KeyCode::Left => Some("left"@),
        KeyCode::Right => Some("right"@),
        KeyCode::Up => Some("up"@),
        KeyCode::Down => Some("down"@),
        KeyCode::Home => Some("home"@),
        KeyCode::End => Some("end"@),
        KeyCode::PageUp => Some("pageup"@),
        KeyCode::PageDown => Some("pagedown"@),
        KeyCode::BackTab => Some("backtab"@),
        KeyCode::Backspace => Some("backspace"@),
        KeyCode::Delete => Some("delete"@),
        KeyCode::Insert => Some("insert"@),
        KeyCode::Tab => Some("tab"@),
        KeyCode::F(n) => match n {
            1 => Some("f1"@),
            2 => Some("f2"@),
            3 => Some("f3"@),
            4 => Some("f4"@),
            5 => Some("f5"@),
            6 => Some("f6"@),
            7 => Some("f7"@),
            8 => Some("f8"@),
            9 => Some("f9"@),
            10 => Some("f10"@),
            11 => Some("f11"@),
            12 => Some("f12"@),
            _ => None,
        },
        KeyCode::Char(_) => None,
    }
}

/// One key written as modifiers and a name, in any case: the key, or the
/// message naming what is left once the modifiers are read off.
pub open spec fn key_event_of(raw: Seq<char>) -> Result<KeyEvent, Seq<char>> {
    let (name, m) = strip_modifiers(lowered(raw), no_modifiers());
    match key_named(name, m) {
        Some(e) => Ok(e),
        None => Err("Unable to parse "@ + name),
    }
}

/// The number of times `c` occurs in `s`.
pub open spec fn count_of(s: Seq<char>, c: char) -> nat
    decreases s.len(),
{
    if s.len() == 0 {
        0
    } else {
        count_of(s.drop_last(), c) + if s.last() == c {
            1nat
        } else {
            0nat
        }
    }
}

/// `><` occurs in `s` at position `i`.
pub open spec fn sep_at(s: Seq<char>, i: int) -> bool {
    0 <= i && i + 1 < s.len() && s[i] == '>' && s[i + 1] == '<'
}

/// `><` occurs in `s`.
pub open spec fn has_sep(s: Seq<char>) -> bool {
    exists|i: int| #[trigger] sep_at(s, i)
}

/// A lone key spec without `><` loses one leading `<` and then one leading
/// `>`; a sequence keeps its brackets.
pub open spec fn outer_trim(s: Seq<char>) -> Seq<char> {
    if has_sep(s) {
        s
    } else {
        let a = if s.len() > 0 && s[0] == '<' {
            s.skip(1)
        } else {
            s
        };
        if a.len() > 0 && a[0] == '>' {
            a.skip(1)
        } else {
            a
        }
    }
}

/// The pieces of `s` between the separators `><`, scanning from `i` with
/// the current piece begun at `start`; left to right, a separator not
/// overlapping the one before.
pub open spec fn pieces_from(s: Seq<char>, start: int, i: int) -> Seq<Seq<char>>
    decreases s.len() - i,
{
    if i < 0 || i >= s.len() {
        seq![s.subrange(start, s.len() as int)]
    } else if sep_at(s, i) {
        seq![s.subrange(start, i)] + pieces_from(s, i + 2, i + 2)
    } else {
        pieces_from(s, start, i + 1)
    }
}

/// A piece loses a leading `<`, or else a trailing `>`.
pub open spec fn trim_piece(p: Seq<char>) -> Seq<char> {
    if p.len() > 0 && p[0] == '<' {
        p.skip(1)
    } else if p.len() > 0 && p.last() == '>' {
        p.drop_last()
    } else {
        p
    }
}

/// The keys of the pieces, in order, or the message of the first piece
/// that is not a key.
pub open spec fn keys_of_pieces(ps: Seq<Seq<char>>) -> Result<Seq<KeyEvent>, Seq<char>>
    decreases ps.len(),
{
    if ps.len() == 0 {
        Ok(Seq::empty())
    } else {
        match key_event_of(trim_piece(ps[0])) {
            Err(m) => Err(m),
            Ok(e) => match keys_of_pieces(ps.drop_first()) {
                Ok(rest) => Ok(seq![e] + rest),
                Err(m) => Err(m),
            },
        }
    }
}

/// The keys that a key spec such as `q`, `<Ctrl-C>` or `<g><g>` lists, or
/// the message of why it lists none: brackets that do not pair up, or a
/// piece that is not a key.
pub open spec fn key_sequence_of(raw: Seq<char>) -> Result<Seq<KeyEvent>, Seq<char>> {
    if count_of(raw, '>') != count_of(raw, '<') {
        Err("Unable to parse `"@ + raw + "`"@)
    } else {
        keys_of_pieces(pieces_from(outer_trim(raw), 0, 0))
    }
}

/// The text of each piece.
pub open spec fn texts(v: Seq<Vec<char>>) -> Seq<Seq<char>> {
    v.map_values(|p: Vec<char>| p@)
}

/// `chars[from..to]` as a new vector.
fn sub_vec(chars: &Vec<char>, from: usize, to: usize) -> (v: Vec<char>)
    requires
        from <= to <= chars@.len(),
    ensures
        v@ == chars@.subrange(from as int, to as int),
{
    let mut v: Vec<char> = Vec::new();
    let mut i: usize = from;
    while i < to
        invariant
            from <= i <= to,
            to <= chars@.len(),
            v@ == chars@.subrange(from as int, i as int),
        decreases to - i,
    {
        v.push(chars[i]);
        assert(chars@.subrange(from as int, i + 1) =~= chars@.subrange(from as int, i as int).push(
            chars@[i as int],
        ));
        i = i + 1;
    }
    v
}

/// Whether `word` occurs in `chars` at `p`.
fn matches_at(chars: &Vec<char>, p: usize, word: &Vec<char>) -> (r: bool)
    requires
        p <= chars@.len(),
    ensures
        r == starts_with(chars@.skip(p as int), word@),
{
    let n = chars.len();
    let w = word.len();
    if w > n - p {
        return false;
    }
    let mut k: usize = 0;
    while k < w
        invariant
            n == chars@.len(),
            w == word@.len(),
            p + w <= n,
            k <= w,
            forall|j: int| 0 <= j < k ==> chars@[p + j] == word@[j],
        decreases w - k,
    {
        if chars[p + k] != word[k] {
            assert(chars@.skip(p as int).take(w as int)[k as int] != word@[k as int]);
            return false;
        }
        k = k + 1;
    }
    assert(chars@.skip(p as int).take(w as int) =~= word@);
    true
}

/// The number of times `c` occurs in `chars`.
fn count_char(chars: &Vec<char>, c: char) -> (n: usize)
    ensures
        n == count_of(chars@, c),
{
    let mut n: usize = 0;
    let mut i: usize = 0;
    while i < chars.len()
        invariant
            i <= chars@.len(),
            n == count_of(chars@.take(i as int), c),
            n <= i,
        decreases chars.len() - i,
    {
        assert(chars@.take(i + 1).drop_last() =~= chars@.take(i as int));
        if chars[i] == c {
            n = n + 1;
        }
        i = i + 1;
    }
    assert(chars@.take(chars@.len() as int) =~= chars@);
    n
}

/// Whether `><` occurs in `chars`.
fn find_sep(chars: &Vec<char>) -> (r: bool)
    ensures
        r == has_sep(chars@),
{
    let n = chars.len();
    let mut i: usize = 0;
    while i < n
        invariant
            n == chars@.len(),
            i <= n,
            forall|j: int| 0 <= j < i ==> !sep_at(chars@, j),
        decreases n - i,
    {
        if i + 1 < n && chars[i] == '>' && chars[i + 1] == '<' {
            assert(sep_at(chars@, i as int));
            return true;
        }
        i = i + 1;
    }
    assert forall|j: int| !sep_at(chars@, j) by {
        if 0 <= j < i {
        }
    }
    false
}

/// `chars` with its ASCII capital letters made small.
fn lower_chars(chars: &Vec<char>) -> (v: Vec<char>)
    ensures
        v@ == lowered(chars@),
{
    let mut v: Vec<char> = Vec::new();
    let mut i: usize = 0;
    while i < chars.len()
        invariant
            i <= chars@.len(),
            v@ == lowered(chars@.take(i as int)),
        decreases chars.len() - i,
    {
        let c = chars[i];
        let l = if 'A' <= c && c <= 'Z' {
            ((c as u8) + 32) as char
        } else {
            c
        };
        assert(l == ascii_lower(c)) by {
            if 'A' <= c && c <= 'Z' {
                assert((c as u8) as u32 == c as u32);
            }
        }
        v.push(l);
        assert(lowered(chars@.take(i + 1)) =~= lowered(chars@.take(i as int)).push(l));
        i = i + 1;
    }
    assert(chars@.take(chars@.len() as int) =~= chars@);
    v
}

/// One step of `strip_modifiers`.
proof fn lemma_strip_step(s: Seq<char>, m: KeyModifiers)
    ensures
        starts_with(s, seq!['c', 't', 'r', 'l', '-']) ==> 5 <= s.len() && strip_modifiers(s, m)
            == strip_modifiers(s.skip(5), KeyModifiers { control: true, ..m }),
        !starts_with(s, seq!['c', 't', 'r', 'l', '-']) && starts_with(s, seq!['a', 'l', 't', '-'])
            ==> 4 <= s.len() && strip_modifiers(s, m) == strip_modifiers(
            s.skip(4),
            KeyModifiers { alt: true, ..m },
        ),
        !starts_with(s, seq!['c', 't', 'r', 'l', '-']) && !starts_with(s, seq!['a', 'l', 't', '-'])
            && starts_with(s, seq!['s', 'h', 'i', 'f', 't', '-']) ==> 6 <= s.len()
            && strip_modifiers(s, m) == strip_modifiers(s.skip(6), KeyModifiers { shift: true, ..m }),
        !starts_with(s, seq!['c', 't', 'r', 'l', '-']) && !starts_with(s, seq!['a', 'l', 't', '-'])
            && !starts_with(s, seq!['s', 'h', 'i', 'f', 't', '-']) ==> strip_modifiers(s, m) == (
            s,
            m,
        ),
{
    reveal(strip_modifiers);
}

/// Reads the modifier prefixes off the front of `chars`: the position where
/// the name begins, and the modifiers.
fn extract_modifiers(chars: &Vec<char>) -> (r: (usize, KeyModifiers))
    ensures
        r.0 <= chars@.len(),
        strip_modifiers(chars@, no_modifiers()) == (chars@.skip(r.0 as int), r.1),
{
    let ctrl = vec!['c', 't', 'r', 'l', '-'];
    let alt = vec!['a', 'l', 't', '-'];
    let shift = vec!['s', 'h', 'i', 'f', 't', '-'];
    let n = chars.len();
    let mut p: usize = 0;
    let mut m = KeyModifiers::empty();
    assert(chars@.skip(0) =~= chars@);
    loop
        invariant
            n == chars@.len(),
            p <= chars@.len(),
            ctrl@ == seq!['c', 't', 'r', 'l', '-'],
            alt@ == seq!['a', 'l', 't', '-'],
            shift@ == seq!['s', 'h', 'i', 'f', 't', '-'],
            strip_modifiers(chars@, no_modifiers()) == strip_modifiers(chars@.skip(p as int), m),
        ensures
            p <= chars@.len(),
            strip_modifiers(chars@, no_modifiers()) == (chars@.skip(p as int), m),
        decreases chars@.len() - p,
    {
        let ghost rest = chars@.skip(p as int);
        if matches_at(chars, p, &ctrl) {
            proof {
                lemma_strip_step(rest, m);
                assert(rest.skip(5) =~= chars@.skip(p + 5));
            }
            m = KeyModifiers { control: true, ..m };
            p = p + 5;
        } else if matches_at(chars, p, &alt) {
            proof {
                lemma_strip_step(rest, m);
                assert(rest.skip(4) =~= chars@.skip(p + 4));
            }
            m = KeyModifiers { alt: true, ..m };
            p = p + 4;
        } else if matches_at(chars, p, &shift) {
            proof {
                lemma_strip_step(rest, m);
                assert(rest.skip(6) =~= chars@.skip(p + 6));
            }
            m = KeyModifiers { shift: true, ..m };
            p = p + 6;
        } else {
            proof {
                lemma_strip_step(rest, m);
            }
            break;
        }
    }
    (p, m)
}

/// The key that a (lower-case) name designates with the modifiers `m`.
fn parse_key_code_with_modifiers(name: &str, m: KeyModifiers) -> (r: Option<KeyEvent>)
    ensures
        r == key_named(name@, m),
{
    let code = if str_eq(name, "esc") {
        Some(KeyCode::Esc)
    } else if str_eq(name, "enter") {
        Some(KeyCode::Enter)
    } else if str_eq(name, "left") {
        Some(KeyCode::Left)
    } else if str_eq(name, "right") {
        Some(KeyCode::Right)
    } else if str_eq(name, "up") {
        Some(KeyCode::Up)
    } else if str_eq(name, "down") {
        Some(KeyCode::Down)
    } else if str_eq(name, "home") {
        Some(KeyCode::Home)
    } else if str_eq(name, "end") {
        Some(KeyCode::End)
    } else if str_eq(name, "pageup") {
        Some(KeyCode::PageUp)
    } else if str_eq(name, "pagedown") {
        Some(KeyCode::PageDown)
    } else if str_eq(name, "backtab") {
        Some(KeyCode::BackTab)
    } else if str_eq(name, "backspace") {
        Some(KeyCode::Backspace)
    } else if str_eq(name, "delete") {
        Some(KeyCode::Delete)
    } else if str_eq(name, "insert") {
        Some(KeyCode::Insert)
    } else if str_eq(name, "f1") {
        Some(KeyCode::F(1))
    } else if str_eq(name, "f2") {
        Some(KeyCode::F(2))
    } else if str_eq(name, "f3") {
        Some(KeyCode::F(3))
    } else if str_eq(name, "f4") {
        Some(KeyCode::F(4))
    } else if str_eq(name, "f5") {
        Some(KeyCode::F(5))
    } else if str_eq(name, "f6") {
        Some(KeyCode::F(6))
    } else if str_eq(name, "f7") {
        Some(KeyCode::F(7))
    } else if str_eq(name, "f8") {
        Some(KeyCode::F(8))
    } else if str_eq(name, "f9") {
        Some(KeyCode::F(9))
    } else if str_eq(name, "f10") {
        Some(KeyCode::F(10))
    } else if str_eq(name, "f11") {
        Some(KeyCode::F(11))
    } else if str_eq(name, "f12") {
        Some(KeyCode::F(12))
    } else if str_eq(name, "space") {
        Some(KeyCode::Char(' '))
    } else if str_eq(name, "hyphen") || str_eq(name, "minuc") {
        Some(KeyCode::Char('-'))
    } else if str_eq(name, "tab") {
        Some(KeyCode::Tab)
    } else if name.unicode_len() == 1 && (name.get_char(0) as u32) < 128 {
        let c = name.get_char(0);
        if m.shift && 'a' <= c && c <= 'z' {
            let u = ((c as u8) - 32) as char;
            assert(u == ascii_upper(c)) by {
                assert((c as u8) as u32 == c as u32);
            }
            Some(KeyCode::Char(u))
        } else {
            Some(KeyCode::Char(c))
        }
    } else {
        None
    };
    match code {
        Some(KeyCode::BackTab) => Some(
            KeyEvent { code: KeyCode::BackTab, modifiers: KeyModifiers { shift: true, ..m } },
        ),
        Some(c) => Some(KeyEvent { code: c, modifiers: m }),
        None => None,
    }
}

/// One key written as modifiers and a name, in any case.
fn parse_key_event(raw: &Vec<char>) -> (r: Result<KeyEvent, String>)
    ensures
        match (r, key_event_of(raw@)) {
            (Ok(e), Ok(f)) => e == f,
            (Err(s), Err(t)) => s@ == t,
            _ => false,
        },
{
    let lower = lower_chars(raw);
    let (p, m) = extract_modifiers(&lower);
    let name = string_of(&lower, p, lower.len());
    assert(name@ =~= lowered(raw@).skip(p as int));
    match parse_key_code_with_modifiers(name.as_str(), m) {
        Some(e) => Ok(e),
        None => {
            let mut msg = String::from_str("Unable to parse ");
            msg.append(name.as_str());
            Err(msg)
        },
    }
}

/// Splits `s` at the separators `><`.
fn split_pieces(s: &Vec<char>) -> (ps: Vec<Vec<char>>)
    ensures
        texts(ps@) == pieces_from(s@, 0, 0),
{
    let n = s.len();
    let mut ps: Vec<Vec<char>> = Vec::new();
    let mut start: usize = 0;
    let mut i: usize = 0;
    assert(texts(ps@) =~= Seq::<Seq<char>>::empty());
    assert(Seq::<Seq<char>>::empty() + pieces_from(s@, 0, 0) =~= pieces_from(s@, 0, 0));
    while i < n
        invariant
            n == s@.len(),
            start <= i <= n,
            texts(ps@) + pieces_from(s@, start as int, i as int) == pieces_from(s@, 0, 0),
        decreases n - i,
    {
        if i + 1 < n && s[i] == '>' && s[i + 1] == '<' {
            let piece = sub_vec(s, start, i);
            let ghost before = texts(ps@);
            ps.push(piece);
            assert(texts(ps@) =~= before.push(piece@));
            assert(sep_at(s@, i as int));
            assert(texts(ps@) + pieces_from(s@, i + 2, i + 2) =~= before + pieces_from(
                s@,
                start as int,
                i as int,
            ));
            i = i + 2;
            start = i;
        } else {
            assert(!sep_at(s@, i as int));
            i = i + 1;
        }
    }
    let last = sub_vec(s, start, n);
    let ghost before = texts(ps@);
    ps.push(last);
    assert(texts(ps@) =~= before.push(last@));
    assert(texts(ps@) =~= before + pieces_from(s@, start as int, i as int));
    ps
}

/// The keys that a key spec such as `q`, `<Ctrl-C>` or `<g><g>` lists.
///
/// Fails with a message when the brackets do not pair up or a piece is not
/// a key.
pub fn parse_key_sequence(raw: &str) -> (r: Result<Vec<KeyEvent>, String>)
    ensures
        match (r, key_sequence_of(raw@)) {
            (Ok(v), Ok(keys)) => v@ == keys,
            (Err(s), Err(t)) => s@ == t,
            _ => false,
        },
{
    let chars = chars_of(raw);
    if count_char(&chars, '>') != count_char(&chars, '<') {
        let mut msg = String::from_str("Unable to parse `");
        msg.append(raw);
        msg.append("`");
        return Err(msg);
    }
    let body = if find_sep(&chars) {
        sub_vec(&chars, 0, chars.len())
    } else {
        let n = chars.len();
        let mut from: usize = 0;
        if n > 0 && chars[0] == '<' {
            from = 1;
        }
        let ghost a = chars@.skip(from as int);
        assert(a =~= (if chars@.len() > 0 && chars@[0] == '<' {
            chars@.skip(1)
        } else {
            chars@
        }));
        if from < n && chars[from] == '>' {
            from = from + 1;
            assert(a.skip(1) =~= chars@.skip(from as int));
        }
        assert(chars@.subrange(from as int, n as int) =~= chars@.skip(from as int));
        sub_vec(&chars, from, n)
    };
    assert(body@ =~= outer_trim(chars@));
    let pieces = split_pieces(&body);
    let ghost ps = texts(pieces@);
    assert(key_sequence_of(raw@) == keys_of_pieces(ps));
    let mut events: Vec<KeyEvent> = Vec::new();
    let mut k: usize = 0;
    assert(ps.skip(0) =~= ps);
    assert(keys_of_pieces(ps) == prefixed(events@, keys_of_pieces(ps.skip(0)))) by {
        match keys_of_pieces(ps) {
            Ok(b) => {
                assert(events@ + b =~= b);
            },
            Err(_) => {},
        }
    }
    while k < pieces.len()
        invariant
            ps == texts(pieces@),
            key_sequence_of(raw@) == keys_of_pieces(ps),
            k <= pieces@.len(),
            keys_of_pieces(ps) == prefixed(events@, keys_of_pieces(ps.skip(k as int))),
        decreases pieces.len() - k,
    {
        let piece = &pieces[k];
        let trimmed = if piece.len() > 0 && piece[0] == '<' {
            sub_vec(piece, 1, piece.len())
        } else if piece.len() > 0 && piece[piece.len() - 1] == '>' {
            sub_vec(piece, 0, piece.len() - 1)
        } else {
            sub_vec(piece, 0, piece.len())
        };
        assert(trimmed@ =~= trim_piece(piece@));
        assert(ps.skip(k as int)[0] == piece@);
        assert(ps.skip(k as int).drop_first() =~= ps.skip(k + 1));
        match parse_key_event(&trimmed) {
            Ok(e) => {
                let ghost before = events@;
                events.push(e);
                proof {
                    match keys_of_pieces(ps.skip(k + 1)) {
                        Ok(b) => {
                            assert(before + (seq![e] + b) =~= events@ + b);
                        },
                        Err(_) => {},
                    }
                }
            },
            Err(msg) => {
                assert(keys_of_pieces(ps.skip(k as int)) == Err::<Seq<KeyEvent>, Seq<char>>(msg@));
                return Err(msg);
            },
        }
        k = k + 1;
    }
    assert(ps.skip(k as int) =~= Seq::<Seq<char>>::empty());
    assert(events@ + Seq::<KeyEvent>::empty() =~= events@);
    Ok(events)
}

/// `r` with the keys `a` put in front when it lists keys.
pub open spec fn prefixed(a: Seq<KeyEvent>, r: Result<Seq<KeyEvent>, Seq<char>>) -> Result<
    Seq<KeyEvent>,
    Seq<char>,
> {
    match r {
        Ok(b) => Ok(a + b),
        Err(m) => Err(m),
    }
}

/// Lower-casing twice is lower-casing once.
proof fn lemma_lowered_idempotent(s: Seq<char>)
    ensures
        lowered(lowered(s)) == lowered(s),
{
    assert(lowered(lowered(s)) =~= lowered(s));
}

/// Key names are read without regard to case: a key written in any case
/// reads as the same key, or fails with the same message, as when written
/// in lower case.
pub proof fn law_key_case_insensitive(raw: Seq<char>)
    ensures
        key_event_of(raw) == key_event_of(lowered(raw)),
{
    lemma_lowered_idempotent(raw);
}

/// A key spec whose `<` and `>` do not pair up in number lists no keys: it
/// is refused with a message quoting it.
pub proof fn law_unbalanced_brackets_refused(raw: Seq<char>)
    requires
        count_of(raw, '<') != count_of(raw, '>'),
    ensures
        key_sequence_of(raw) == Err::<Seq<KeyEvent>, Seq<char>>("Unable to parse `"@ + raw + "`"@),
{
}

/// Each named key reads as the key of that name, with the modifiers held
/// (and `shift` added for `backtab`): `pageup` is `PageUp`, `pagedown` is
/// `PageDown`, `f5` is `F(5)`, `space` is the space character, and so on.
/// Conversely, a name that reads as a key other than a character is that
/// key's own name, and one that reads as a character is `space`, `hyphen`
/// or `minuc`, or the character itself (made upper case under `shift`).
pub proof fn law_keys_by_own_name(name: Seq<char>, m: KeyModifiers)
    ensures
        key_named("esc"@, m) == Some(KeyEvent { code: KeyCode::Esc, modifiers: m }),
        key_named("enter"@, m) == Some(KeyEvent { code: KeyCode::Enter, modifiers: m }),
        key_named("left"@, m) == Some(KeyEvent { code: KeyCode::Left, modifiers: m }),
        key_named("right"@, m) == Some(KeyEvent { code: KeyCode::Right, modifiers: m }),
        key_named("up"@, m) == Some(KeyEvent { code: KeyCode::Up, modifiers: m }),
        key_named("down"@, m) == Some(KeyEvent { code: KeyCode::Down, modifiers: m }),
        key_named("home"@, m) == Some(KeyEvent { code: KeyCode::Home, modifiers: m }),
        key_named("end"@, m) == Some(KeyEvent { code: KeyCode::End, modifiers: m }),
        key_named("pageup"@, m) == Some(KeyEvent { code: KeyCode::PageUp, modifiers: m }),
        key_named("pagedown"@, m) == Some(KeyEvent { code: KeyCode::PageDown, modifiers: m }),
        key_named("backtab"@, m) == Some(KeyEvent { code: KeyCode::BackTab, modifiers: KeyModifiers { shift: true, ..m } }),
        key_named("backspace"@, m) == Some(KeyEvent { code: KeyCode::Backspace, modifiers: m }),
        key_named("delete"@, m) == Some(KeyEvent { code: KeyCode::Delete, modifiers: m }),
        key_named("insert"@, m) == Some(KeyEvent { code: KeyCode::Insert, modifiers: m }),
        key_named("f1"@, m) == Some(KeyEvent { code: KeyCode::F(1), modifiers: m }),
        key_named("f2"@, m) == Some(KeyEvent { code: KeyCode::F(2), modifiers: m }),
        key_named("f3"@, m) == Some(KeyEvent { code: KeyCode::F(3), modifiers: m }),
        key_named("f4"@, m) == Some(KeyEvent { code: KeyCode::F(4), modifiers: m }),
        key_named("f5"@, m) == Some(KeyEvent { code: KeyCode::F(5), modifiers: m }),
        key_named("f6"@, m) == Some(KeyEvent { code: KeyCode::F(6), modifiers: m }),
        key_named("f7"@, m) == Some(KeyEvent { code: KeyCode::F(7), modifiers: m }),
        key_named("f8"@, m) == Some(KeyEvent { code: KeyCode::F(8), modifiers: m }),
        key_named("f9"@, m) == Some(KeyEvent { code: KeyCode::F(9), modifiers: m }),
        key_named("f10"@, m) == Some(KeyEvent { code: KeyCode::F(10), modifiers: m }),
        key_named("f11"@, m) == Some(KeyEvent { code: KeyCode::F(11), modifiers: m }),
        key_named("f12"@, m) == Some(KeyEvent { code: KeyCode::F(12), modifiers: m }),
        key_named("tab"@, m) == Some(KeyEvent { code: KeyCode::Tab, modifiers: m }),
        key_named("space"@, m) == Some(KeyEvent { code: KeyCode::Char(' '), modifiers: m }),
        key_named("hyphen"@, m) == Some(KeyEvent { code: KeyCode::Char('-'), modifiers: m }),
        key_named("minuc"@, m) == Some(KeyEvent { code: KeyCode::Char('-'), modifiers: m }),
        forall|e: KeyEvent| key_named(name, m) == Some(e) && !(e.code is Char) ==> {
            &&& key_code_name(e.code) == Some(name)
            &&& e.modifiers == if e.code == KeyCode::BackTab {
                KeyModifiers { shift: true, ..m }
            } else {
                m
            }
        },
        forall|e: KeyEvent| key_named(name, m) == Some(e) && e.code is Char ==> {
            &&& e.modifiers == m
            &&& {
                ||| name == "space"@ && e.code == KeyCode::Char(' ')
                ||| (name == "hyphen"@ || name == "minuc"@) && e.code == KeyCode::Char('-')
                ||| name.len() == 1 && e.code == KeyCode::Char(
                    if m.shift {
                        ascii_upper(name[0])
                    } else {
                        name[0]
                    },
                )
            }
        },
{
    reveal_strlit("esc");
    reveal_strlit("enter");
    reveal_strlit("left");
    reveal_strlit("right");
    reveal_strlit("up");
    reveal_strlit("down");
    reveal_strlit("home");
    reveal_strlit("end");
    reveal_strlit("pageup");
    reveal_strlit("pagedown");
    reveal_strlit("backtab");
    reveal_strlit("backspace");
    reveal_strlit("delete");
    reveal_strlit("insert");
    reveal_strlit("f1");
    reveal_strlit("f2");
    reveal_strlit("f3");
    reveal_strlit("f4");
    reveal_strlit("f5");
    reveal_strlit("f6");
    reveal_strlit("f7");
    reveal_strlit("f8");
    reveal_strlit("f9");
    reveal_strlit("f10");
    reveal_strlit("f11");
    reveal_strlit("f12");
    reveal_strlit("tab");
    reveal_strlit("space");
    reveal_strlit("hyphen");
    reveal_strlit("minuc");
    assert("esc"@.len() == 3 && "esc"@[0] == 'e' && "esc"@[1] == 's' && "esc"@[2] == 'c');
    assert("enter"@.len() == 5 && "enter"@[0] == 'e' && "enter"@[1] == 'n' && "enter"@[2] == 't');
    assert("left"@.len() == 4 && "left"@[0] == 'l' && "left"@[1] == 'e' && "left"@[2] == 'f');
    assert("right"@.len() == 5 && "right"@[0] == 'r' && "right"@[1] == 'i' && "right"@[2] == 'g');
    assert("up"@.len() == 2 && "up"@[0] == 'u' && "up"@[1] == 'p');
    assert("down"@.len() == 4 && "down"@[0] == 'd' && "down"@[1] == 'o' && "down"@[2] == 'w');
    assert("home"@.len() == 4 && "home"@[0] == 'h' && "home"@[1] == 'o' && "home"@[2] == 'm');
    assert("end"@.len() == 3 && "end"@[0] == 'e' && "end"@[1] == 'n' && "end"@[2] == 'd');
    assert("pageup"@.len() == 6 && "pageup"@[0] == 'p' && "pageup"@[1] == 'a' && "pageup"@[2] == 'g');
    assert("pagedown"@.len() == 8 && "pagedown"@[0] == 'p' && "pagedown"@[1] == 'a' && "pagedown"@[2] == 'g');
    assert("backtab"@.len() == 7 && "backtab"@[0] == 'b' && "backtab"@[1] == 'a' && "backtab"@[2] == 'c');
    assert("backspace"@.len() == 9 && "backspace"@[0] == 'b' && "backspace"@[1] == 'a' && "backspace"@[2] == 'c');
    assert("delete"@.len() == 6 && "delete"@[0] == 'd' && "delete"@[1] == 'e' && "delete"@[2] == 'l');
    assert("insert"@.len() == 6 && "insert"@[0] == 'i' && "insert"@[1] == 'n' && "insert"@[2] == 's');
    assert("f1"@.len() == 2 && "f1"@[0] == 'f' && "f1"@[1] == '1');
    assert("f2"@.len() == 2 && "f2"@[0] == 'f' && "f2"@[1] == '2');
    assert("f3"@.len() == 2 && "f3"@[0] == 'f' && "f3"@[1] == '3');
    assert("f4"@.len() == 2 && "f4"@[0] == 'f' && "f4"@[1] == '4');
    assert("f5"@.len() == 2 && "f5"@[0] == 'f' && "f5"@[1] == '5');
    assert("f6"@.len() == 2 && "f6"@[0] == 'f' && "f6"@[1] == '6');
    assert("f7"@.len() == 2 && "f7"@[0] == 'f' && "f7"@[1] == '7');
    assert("f8"@.len() == 2 && "f8"@[0] == 'f' && "f8"@[1] == '8');
    assert("f9"@.len() == 2 && "f9"@[0] == 'f' && "f9"@[1] == '9');
    assert("f10"@.len() == 3 && "f10"@[0] == 'f' && "f10"@[1] == '1' && "f10"@[2] == '0');
    assert("f11"@.len() == 3 && "f11"@[0] == 'f' && "f11"@[1] == '1' && "f11"@[2] == '1');
    assert("f12"@.len() == 3 && "f12"@[0] == 'f' && "f12"@[1] == '1' && "f12"@[2] == '2');
    assert("tab"@.len() == 3 && "tab"@[0] == 't' && "tab"@[1] == 'a' && "tab"@[2] == 'b');
    assert("space"@.len() == 5 && "space"@[0] == 's' && "space"@[1] == 'p' && "space"@[2] == 'a');
    assert("hyphen"@.len() == 6 && "hyphen"@[0] == 'h' && "hyphen"@[1] == 'y' && "hyphen"@[2] == 'p');
    assert("minuc"@.len() == 5 && "minuc"@[0] == 'm' && "minuc"@[1] == 'i' && "minuc"@[2] == 'n');
}

} // verus!
