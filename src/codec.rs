use vstd::prelude::*;
use crate::text::{char_from_scalar, chars_of, string_of};

verus! {

// ---------------------------------------------------------------- characters

pub open spec fn is_ws(c: char) -> bool {
    c == ' ' || c == '\t' || c == '\n' || c == '\r'
}

/// Lower-case hexadecimal digit of `n`, for `0 <= n < 16`.
pub open spec fn hex_digit(n: int) -> char {
    if n < 10 {
        ((n + 48) as u8) as char
    } else {
        ((n + 87) as u8) as char
    }
}

pub open spec fn is_hex(c: char) -> bool {
    ('0' <= c && c <= '9') || ('a' <= c && c <= 'f') || ('A' <= c && c <= 'F')
}

pub open spec fn hex_val(c: char) -> int {
    if '0' <= c && c <= '9' {
        c as int - 48
    } else if 'a' <= c && c <= 'f' {
        c as int - 87
    } else {
        c as int - 55
    }
}

/// How one character of a string is written inside a quoted string.
pub open spec fn esc_char(c: char) -> Seq<char> {
    if c == '"' {
        seq!['\\', '"']
    } else if c == '\\' {
        seq!['\\', '\\']
    } else if c == '\n' {
        seq!['\\', 'n']
    } else if c == '\r' {
        seq!['\\', 'r']
    } else if c == '\t' {
        seq!['\\', 't']
    } else if c == '\x08' {
        seq!['\\', 'b']
    } else if c == '\x0c' {
        seq!['\\', 'f']
    } else if (c as u32) < 0x20 {
        seq!['\\', 'u', '0', '0', hex_digit(((c as u32) / 16) as int), hex_digit(((c as u32) % 16) as int)]
    } else {
        seq![c]
    }
}

/// The escaped form of a whole string, without the surrounding quotes.
pub open spec fn esc(s: Seq<char>) -> Seq<char>
    decreases s.len(),
{
    if s.len() == 0 {
        Seq::empty()
    } else {
        esc_char(s[0]) + esc(s.drop_first())
    }
}

/// A string written as a quoted string literal.
pub open spec fn quote(s: Seq<char>) -> Seq<char> {
    seq!['"'] + esc(s) + seq!['"']
}

/// Four hexadecimal digits start at `s[i]`.
pub open spec fn hex4_at(s: Seq<char>, i: int) -> bool {
    0 <= i && i + 3 < s.len() && is_hex(s[i]) && is_hex(s[i + 1]) && is_hex(s[i + 2]) && is_hex(
        s[i + 3],
    )
}

pub open spec fn hex4(s: Seq<char>, i: int) -> int {
    hex_val(s[i]) * 4096 + hex_val(s[i + 1]) * 256 + hex_val(s[i + 2]) * 16 + hex_val(s[i + 3])
}

pub open spec fn is_high_surrogate(v: int) -> bool {
    0xD800 <= v <= 0xDBFF
}

pub open spec fn is_low_surrogate(v: int) -> bool {
    0xDC00 <= v <= 0xDFFF
}

/// The scalar value of a character.
pub open spec fn code_of(c: char) -> int {
    c as u32 as int
}

/// The character whose scalar value is `v`, if `v` is one.
pub open spec fn scalar(v: int) -> Option<char> {
    if (0 <= v < 0xD800) || (0xE000 <= v <= 0x10FFFF) {
        Some(choose|c: char| #[trigger] code_of(c) == v)
    } else {
        None
    }
}

/// The escape at `s[i]` is the first half of a surrogate pair.
pub open spec fn starts_pair(s: Seq<char>, i: int) -> bool {
    s[i + 1] == 'u' && hex4_at(s, i + 2) && is_high_surrogate(hex4(s, i + 2))
}

/// The character that the escape sequence starting at `s[i]` (a backslash) stands for.
#[verifier::opaque]
pub open spec fn unescape(s: Seq<char>, i: int) -> Option<char> {
    if !(0 <= i && i + 1 < s.len()) {
        None
    } else {
        let e = s[i + 1];
        if e == '"' {
            Some('"')
        } else if e == '\\' {
            Some('\\')
        } else if e == '/' {
            Some('/')
        } else if e == 'b' {
            Some('\x08')
        } else if e == 'f' {
            Some('\x0c')
        } else if e == 'n' {
            Some('\n')
        } else if e == 'r' {
            Some('\r')
        } else if e == 't' {
            Some('\t')
        } else if e == 'u' && hex4_at(s, i + 2) {
            let v = hex4(s, i + 2);
            if is_high_surrogate(v) {
                if s[i + 6] == '\\' && s[i + 7] == 'u' && hex4_at(s, i + 8) && is_low_surrogate(
                    hex4(s, i + 8),
                ) {
                    scalar(0x10000 + (v - 0xD800) * 0x400 + (hex4(s, i + 8) - 0xDC00))
                } else {
                    None
                }
            } else if is_low_surrogate(v) {
                None
            } else {
                scalar(v)
            }
        } else {
            None
        }
    }
}

/// Length of the escape sequence starting at `s[i]`.
pub open spec fn esc_len(s: Seq<char>, i: int) -> int {
    if s[i + 1] == 'u' {
        if starts_pair(s, i) {
            12
        } else {
            6
        }
    } else {
        2
    }
}

/// Reads the body of a quoted string from `s[i]` up to and including its closing quote:
/// the characters it stands for and the position just after the closing quote.
pub open spec fn parse_chars(s: Seq<char>, i: int) -> Option<(Seq<char>, int)>
    decreases s.len() - i,
{
    if i < 0 || i >= s.len() {
        None
    } else if s[i] == '"' {
        Some((Seq::empty(), i + 1))
    } else if s[i] == '\\' {
        match unescape(s, i) {
            None => None,
            Some(c) => if i + esc_len(s, i) > s.len() {
                None
            } else {
                match parse_chars(s, i + esc_len(s, i)) {
                    None => None,
                    Some((r, k)) => Some((seq![c] + r, k)),
                }
            },
        }
    } else if (s[i] as u32) < 0x20 {
        None
    } else {
        match parse_chars(s, i + 1) {
            None => None,
            Some((r, k)) => Some((seq![s[i]] + r, k)),
        }
    }
}

pub open spec fn prepend(a: Seq<char>, o: Option<(Seq<char>, int)>) -> Option<(Seq<char>, int)> {
    match o {
        None => None,
        Some((r, k)) => Some((a + r, k)),
    }
}

/// A quoted string starting at `s[i]`.
pub open spec fn parse_string(s: Seq<char>, i: int) -> Option<(Seq<char>, int)> {
    if 0 <= i < s.len() && s[i] == '"' {
        parse_chars(s, i + 1)
    } else {
        None
    }
}

pub proof fn lemma_esc_push(s: Seq<char>, c: char)
    ensures
        esc(s.push(c)) == esc(s) + esc_char(c),
    decreases s.len(),
{
    if s.len() == 0 {
        assert(s.push(c).drop_first() =~= Seq::<char>::empty());
        assert(esc(s.push(c).drop_first()) == Seq::<char>::empty());
        assert(esc(s) == Seq::<char>::empty());
        assert(esc(s.push(c)) =~= esc(s) + esc_char(c));
    } else {
        assert(s.push(c).drop_first() =~= s.drop_first().push(c));
        lemma_esc_push(s.drop_first(), c);
        assert(esc(s.push(c)) =~= esc(s) + esc_char(c));
    }
}

proof fn lemma_hex_digit(n: int)
    requires
        0 <= n < 16,
    ensures
        is_hex(hex_digit(n)),
        hex_val(hex_digit(n)) == n,
{
}

proof fn lemma_code_injective(a: char, b: char)
    requires
        code_of(a) == code_of(b),
    ensures
        a == b,
{
}

/// Reading back one escaped character.
proof fn lemma_parse_esc_char(t: Seq<char>, i: int, c: char)
    requires
        0 <= i,
        i + esc_char(c).len() <= t.len(),
        t.subrange(i, i + esc_char(c).len()) == esc_char(c),
        esc_char(c).len() > 1,
    ensures
        t[i] == '\\',
        unescape(t, i) == Some(c),
        esc_len(t, i) == esc_char(c).len(),
{
    reveal(unescape);
    let e = esc_char(c);
    assert(t[i] == e[0]);
    assert(t[i + 1] == e[1]);
    if (c as u32) < 0x20 && c != '\n' && c != '\r' && c != '\t' && c != '\x08' && c != '\x0c' {
        assert(t[i + 2] == e[2]);
        assert(t[i + 3] == e[3]);
        assert(t[i + 4] == e[4]);
        assert(t[i + 5] == e[5]);
        lemma_hex_digit(((c as u32) / 16) as int);
        lemma_hex_digit(((c as u32) % 16) as int);
        assert(hex_val(t[i + 2]) == 0 && hex_val(t[i + 3]) == 0);
        let v = hex4(t, i + 2);
        assert(v == c as u32);
        assert(!is_high_surrogate(v) && !is_low_surrogate(v));
        assert(scalar(v) == Some(c)) by {
            assert(code_of(c) == v);
            assert(exists|y: char| #[trigger] code_of(y) == v);
            let x = choose|x: char| #[trigger] code_of(x) == v;
            assert(code_of(x) == v);
            lemma_code_injective(x, c);
        }
    }
}

/// Reading an escaped string back gives the string.
pub proof fn lemma_parse_chars_esc(t: Seq<char>, i: int, s: Seq<char>)
    requires
        0 <= i,
        i + esc(s).len() < t.len(),
        t.subrange(i, i + esc(s).len()) == esc(s),
        t[i + esc(s).len()] == '"',
    ensures
        parse_chars(t, i) == Some((s, i + esc(s).len() + 1)),
    decreases s.len(),
{
    if s.len() == 0 {
    } else {
        let c = s[0];
        let e = esc_char(c);
        let s1 = s.drop_first();
        assert(esc(s) == e + esc(s1));
        assert(t.subrange(i, i + e.len()) =~= e) by {
            assert(t.subrange(i, i + e.len()) =~= t.subrange(i, i + esc(s).len()).subrange(0, e.len() as int));
        }
        assert(t.subrange(i + e.len(), i + e.len() + esc(s1).len()) =~= esc(s1)) by {
            assert(t.subrange(i + e.len(), i + e.len() + esc(s1).len()) =~= t.subrange(i, i + esc(s).len()).subrange(e.len() as int, esc(s).len() as int));
        }
        lemma_parse_chars_esc(t, i + e.len(), s1);
        if e.len() > 1 {
            lemma_parse_esc_char(t, i, c);
        } else {
            assert(t[i] == e[0]);
        }
        assert(seq![c] + s1 =~= s);
    }
}

/// Reading a quoted string back gives the string.
pub proof fn lemma_parse_string_quote(t: Seq<char>, i: int, s: Seq<char>)
    requires
        0 <= i,
        i + quote(s).len() <= t.len(),
        t.subrange(i, i + quote(s).len()) == quote(s),
    ensures
        parse_string(t, i) == Some((s, i + quote(s).len())),
{
    let q = quote(s);
    assert(t[i] == q[0]);
    assert(t[i + 1 + esc(s).len()] == q[1 + esc(s).len() as int]);
    assert(t.subrange(i + 1, i + 1 + esc(s).len()) =~= esc(s)) by {
        assert(t.subrange(i + 1, i + 1 + esc(s).len()) =~= t.subrange(i, i + q.len()).subrange(1, 1 + esc(s).len() as int));
    }
    lemma_parse_chars_esc(t, i + 1, s);
}


fn hex_digit_exec(n: u32) -> (r: char)
    requires
        n < 16,
    ensures
        r == hex_digit(n as int),
{
    if n < 10 {
        ((n + 48) as u8) as char
    } else {
        ((n + 87) as u8) as char
    }
}

/// Appends the escaped form of `c` to `out`.
fn push_esc_char(out: &mut Vec<char>, c: char)
    ensures
        final(out)@ == old(out)@ + esc_char(c),
{
    if c == '"' {
        out.push('\\');
        out.push('"');
    } else if c == '\\' {
        out.push('\\');
        out.push('\\');
    } else if c == '\n' {
        out.push('\\');
        out.push('n');
    } else if c == '\r' {
        out.push('\\');
        out.push('r');
    } else if c == '\t' {
        out.push('\\');
        out.push('t');
    } else if c == '\x08' {
        out.push('\\');
        out.push('b');
    } else if c == '\x0c' {
        out.push('\\');
        out.push('f');
    } else if (c as u32) < 0x20 {
        out.push('\\');
        out.push('u');
        out.push('0');
        out.push('0');
        out.push(hex_digit_exec((c as u32) / 16));
        out.push(hex_digit_exec((c as u32) % 16));
    } else {
        out.push(c);
    }
    assert(final(out)@ =~= old(out)@ + esc_char(c));
}

/// Appends `s` as a quoted string literal to `out`.
pub fn push_quoted(out: &mut Vec<char>, s: &str)
    ensures
        final(out)@ == old(out)@ + quote(s@),
{
    let cs = chars_of(s);
    out.push('"');
    let ghost base = out@;
    let mut i: usize = 0;
    while i < cs.len()
        invariant
            i <= cs.len(),
            cs@ == s@,
            out@ == base + esc(cs@.take(i as int)),
            base == old(out)@.push('"'),
        decreases cs.len() - i,
    {
        proof {
            assert(cs@.take(i as int + 1) =~= cs@.take(i as int).push(cs@[i as int]));
            lemma_esc_push(cs@.take(i as int), cs@[i as int]);
        }
        push_esc_char(out, cs[i]);
        i = i + 1;
    }
    out.push('"');
    assert(cs@.take(i as int) =~= s@);
    assert(out@ =~= old(out)@ + quote(s@));
}

fn is_hex_exec(c: char) -> (r: bool)
    ensures
        r == is_hex(c),
{
    ('0' <= c && c <= '9') || ('a' <= c && c <= 'f') || ('A' <= c && c <= 'F')
}

fn hex_val_exec(c: char) -> (r: u32)
    requires
        is_hex(c),
    ensures
        r as int == hex_val(c),
        r < 16,
{
    if '0' <= c && c <= '9' {
        (c as u32) - 48
    } else if 'a' <= c && c <= 'f' {
        (c as u32) - 87
    } else {
        (c as u32) - 55
    }
}

fn hex4_exec(s: &Vec<char>, i: usize) -> (r: Option<u32>)
    ensures
        r is Some == hex4_at(s@, i as int),
        r matches Some(v) ==> v as int == hex4(s@, i as int) && v <= 0xFFFF,
{
    if i < s.len() && s.len() - i > 3 && is_hex_exec(s[i]) && is_hex_exec(s[i + 1]) && is_hex_exec(
        s[i + 2],
    ) && is_hex_exec(s[i + 3]) {
        Some(hex_val_exec(s[i]) * 4096 + hex_val_exec(s[i + 1]) * 256 + hex_val_exec(s[i + 2]) * 16
            + hex_val_exec(s[i + 3]))
    } else {
        None
    }
}

/// The character an escape sequence starting at `s[i]` stands for, and its length.
fn unescape_exec(s: &Vec<char>, i: usize) -> (r: Option<(char, usize)>)
    ensures
        r is Some == unescape(s@, i as int) is Some,
        r matches Some((c, n)) ==> unescape(s@, i as int) == Some(c) && n as int == esc_len(
            s@,
            i as int,
        ) && i + n <= s.len(),
{
    reveal(unescape);
    if i >= s.len() || s.len() - i < 2 {
        return None;
    }
    let e = s[i + 1];
    if e == '"' {
        Some(('"', 2))
    } else if e == '\\' {
        Some(('\\', 2))
    } else if e == '/' {
        Some(('/', 2))
    } else if e == 'b' {
        Some(('\x08', 2))
    } else if e == 'f' {
        Some(('\x0c', 2))
    } else if e == 'n' {
        Some(('\n', 2))
    } else if e == 'r' {
        Some(('\r', 2))
    } else if e == 't' {
        Some(('\t', 2))
    } else if e == 'u' {
        let v = match hex4_exec(s, i + 2) {
            None => {
                return None;
            },
            Some(v) => v,
        };
        if 0xD800 <= v && v <= 0xDBFF {
            if s.len() - i > 7 && s[i + 6] == '\\' && s[i + 7] == 'u' {
                match hex4_exec(s, i + 8) {
                    Some(w) => {
                        if 0xDC00 <= w && w <= 0xDFFF {
                            match char_from_scalar(0x10000 + (v - 0xD800) * 0x400 + (w - 0xDC00)) {
                                Some(c) => Some((c, 12)),
                                None => None,
                            }
                        } else {
                            None
                        }
                    },
                    None => None,
                }
            } else {
                None
            }
        } else if 0xDC00 <= v && v <= 0xDFFF {
            None
        } else {
            match char_from_scalar(v) {
                Some(c) => Some((c, 6)),
                None => None,
            }
        }
    } else {
        None
    }
}

fn parse_chars_exec(s: &Vec<char>, start: usize) -> (r: Option<(Vec<char>, usize)>)
    ensures
        r is Some == parse_chars(s@, start as int) is Some,
        r matches Some((w, k)) ==> parse_chars(s@, start as int) == Some((w@, k as int)),
{
    let mut acc: Vec<char> = Vec::new();
    let mut i: usize = start;
    while i < s.len()
        invariant
            start <= i,
            parse_chars(s@, start as int) == prepend(acc@, parse_chars(s@, i as int)),
        decreases s.len() - i,
    {
        let c = s[i];
        if c == '"' {
            assert(acc@ + Seq::<char>::empty() =~= acc@);
            return Some((acc, i + 1));
        } else if c == '\\' {
            match unescape_exec(s, i) {
                None => {
                    return None;
                },
                Some((d, step)) => {
                    let ghost a0 = acc@;
                    acc.push(d);
                    proof {
                        match parse_chars(s@, i + step) {
                            None => {},
                            Some((r, k)) => {
                                assert(a0 + (seq![d] + r) =~= acc@ + r);
                            },
                        }
                    }
                    i = i + step;
                },
            }
        } else if (c as u32) < 0x20 {
            return None;
        } else {
            let ghost a0 = acc@;
            acc.push(c);
            proof {
                match parse_chars(s@, i + 1) {
                    None => {},
                    Some((r, k)) => {
                        assert(a0 + (seq![c] + r) =~= acc@ + r);
                    },
                }
            }
            i = i + 1;
        }
    }
    None
}

/// A quoted string starting at `s[i]`, read into a `String`.
pub fn parse_string_exec(s: &Vec<char>, i: usize) -> (r: Option<(String, usize)>)
    ensures
        r is Some == parse_string(s@, i as int) is Some,
        r matches Some((w, k)) ==> parse_string(s@, i as int) == Some((w@, k as int)),
{
    if i < s.len() && s[i] == '"' {
        match parse_chars_exec(s, i + 1) {
            None => None,
            Some((w, k)) => Some((string_of(&w), k)),
        }
    } else {
        None
    }
}


// ---------------------------------------------------------------- values and objects

/// Position of the first character at or after `i` that is not insignificant whitespace.
pub open spec fn skip_ws(s: Seq<char>, i: int) -> int
    decreases s.len() - i,
{
    if 0 <= i < s.len() && is_ws(s[i]) {
        skip_ws(s, i + 1)
    } else {
        i
    }
}

/// The items of a list of strings, from its first item to its closing bracket.
pub open spec fn parse_items(s: Seq<char>, i: int) -> Option<(Seq<Seq<char>>, int)>
    decreases s.len() - i,
{
    match parse_string(s, i) {
        None => None,
        Some((x, j)) => {
            let k = skip_ws(s, j);
            if 0 <= k < s.len() && s[k] == ']' {
                Some((seq![x], k + 1))
            } else if 0 <= k < s.len() && s[k] == ',' {
                let n = skip_ws(s, k + 1);
                if !(i < n <= s.len()) {
                    None
                } else {
                    match parse_items(s, n) {
                        None => None,
                        Some((xs, m)) => Some((seq![x] + xs, m)),
                    }
                }
            } else {
                None
            }
        },
    }
}

/// A bracketed list of strings starting at `s[i]`.
pub open spec fn parse_list(s: Seq<char>, i: int) -> Option<(Seq<Seq<char>>, int)> {
    if 0 <= i < s.len() && s[i] == '[' {
        let j = skip_ws(s, i + 1);
        if 0 <= j < s.len() && s[j] == ']' {
            Some((Seq::empty(), j + 1))
        } else {
            parse_items(s, j)
        }
    } else {
        None
    }
}

/// The values that an envelope's fields may hold.
pub enum JValue {
    Null,
    Str(Seq<char>),
    List(Seq<Seq<char>>),
}

pub open spec fn is_null_at(s: Seq<char>, i: int) -> bool {
    0 <= i && i + 4 <= s.len() && s[i] == 'n' && s[i + 1] == 'u' && s[i + 2] == 'l' && s[i + 3]
        == 'l'
}

pub open spec fn parse_value(s: Seq<char>, i: int) -> Option<(JValue, int)> {
    if is_null_at(s, i) {
        Some((JValue::Null, i + 4))
    } else if 0 <= i < s.len() && s[i] == '"' {
        match parse_string(s, i) {
            None => None,
            Some((x, j)) => Some((JValue::Str(x), j)),
        }
    } else {
        match parse_list(s, i) {
            None => None,
            Some((xs, j)) => Some((JValue::List(xs), j)),
        }
    }
}

/// The three fields of an object with a fixed set of keys; `None` where a key is absent.
pub struct Slots {
    pub a: Option<JValue>,
    pub b: Option<JValue>,
    pub c: Option<JValue>,
}

pub open spec fn no_slots() -> Slots {
    Slots { a: None, b: None, c: None }
}

/// Records the field `k: v`; fails on an unknown or repeated key.
pub open spec fn put(st: Slots, keys: (Seq<char>, Seq<char>, Seq<char>), k: Seq<char>, v: JValue) -> Option<Slots> {
    if k == keys.0 {
        if st.a is Some { None } else { Some(Slots { a: Some(v), ..st }) }
    } else if k == keys.1 {
        if st.b is Some { None } else { Some(Slots { b: Some(v), ..st }) }
    } else if k == keys.2 {
        if st.c is Some { None } else { Some(Slots { c: Some(v), ..st }) }
    } else {
        None
    }
}

/// The members of an object, from its first key to its closing brace.
pub open spec fn parse_members(
    s: Seq<char>,
    i: int,
    keys: (Seq<char>, Seq<char>, Seq<char>),
    st: Slots,
) -> Option<(Slots, int)>
    decreases s.len() - i,
{
    match parse_string(s, i) {
        None => None,
        Some((k, j)) => {
            let c = skip_ws(s, j);
            if !(0 <= c < s.len() && s[c] == ':') {
                None
            } else {
                match parse_value(s, skip_ws(s, c + 1)) {
                    None => None,
                    Some((v, m)) => match put(st, keys, k, v) {
                        None => None,
                        Some(st2) => {
                            let n = skip_ws(s, m);
                            if 0 <= n < s.len() && s[n] == '}' {
                                Some((st2, n + 1))
                            } else if 0 <= n < s.len() && s[n] == ',' {
                                let q = skip_ws(s, n + 1);
                                if !(i < q <= s.len()) {
                                    None
                                } else {
                                    parse_members(s, q, keys, st2)
                                }
                            } else {
                                None
                            }
                        },
                    },
                }
            }
        },
    }
}

/// A whole text holding one object with the given keys, and nothing else but whitespace.
pub open spec fn parse_object(s: Seq<char>, keys: (Seq<char>, Seq<char>, Seq<char>)) -> Option<Slots> {
    let i = skip_ws(s, 0);
    if 0 <= i < s.len() && s[i] == '{' {
        let j = skip_ws(s, i + 1);
        let r = if 0 <= j < s.len() && s[j] == '}' {
            Some((no_slots(), j + 1))
        } else {
            parse_members(s, j, keys, no_slots())
        };
        match r {
            None => None,
            Some((st, m)) => if skip_ws(s, m) == s.len() {
                Some(st)
            } else {
                None
            },
        }
    } else {
        None
    }
}


pub proof fn lemma_skip_ws_bounds(s: Seq<char>, i: int)
    requires
        0 <= i <= s.len(),
    ensures
        i <= skip_ws(s, i) <= s.len(),
    decreases s.len() - i,
{
    if 0 <= i < s.len() && is_ws(s[i]) {
        lemma_skip_ws_bounds(s, i + 1);
    }
}

fn skip_ws_exec(s: &Vec<char>, start: usize) -> (r: usize)
    requires
        start <= s.len(),
    ensures
        r as int == skip_ws(s@, start as int),
        start <= r <= s.len(),
{
    let mut i = start;
    while i < s.len() && (s[i] == ' ' || s[i] == '\t' || s[i] == '\n' || s[i] == '\r')
        invariant
            start <= i <= s.len(),
            skip_ws(s@, start as int) == skip_ws(s@, i as int),
        decreases s.len() - i,
    {
        i = i + 1;
    }
    i
}

/// The strings of a `Vec<String>`, as sequences of characters.
pub open spec fn texts(v: Seq<String>) -> Seq<Seq<char>> {
    v.map_values(|x: String| x@)
}

proof fn lemma_texts_push(v: Seq<String>, x: String)
    ensures
        texts(v.push(x)) == texts(v).push(x@),
{
    assert(texts(v.push(x)) =~= texts(v).push(x@));
}

proof fn lemma_parse_string_moves(s: Seq<char>, i: int)
    requires
        parse_string(s, i) is Some,
    ensures
        parse_string(s, i) matches Some((x, j)) ==> i < j <= s.len(),
{
    lemma_parse_chars_moves(s, i + 1);
}

proof fn lemma_parse_chars_moves(s: Seq<char>, i: int)
    requires
        parse_chars(s, i) is Some,
    ensures
        parse_chars(s, i) matches Some((x, j)) ==> i < j <= s.len(),
    decreases s.len() - i,
{
    if s[i] == '"' {
    } else if s[i] == '\\' {
        lemma_parse_chars_moves(s, i + esc_len(s, i));
    } else {
        lemma_parse_chars_moves(s, i + 1);
    }
}

fn parse_items_exec(s: &Vec<char>, i: usize) -> (r: Option<(Vec<String>, usize)>)
    ensures
        r is Some == parse_items(s@, i as int) is Some,
        r matches Some((w, k)) ==> parse_items(s@, i as int) == Some((texts(w@), k as int)),
    decreases s.len() - i,
{
    match parse_string_exec(s, i) {
        None => None,
        Some((x, j)) => {
            proof {
                lemma_parse_string_moves(s@, i as int);
            }
            let k = skip_ws_exec(s, j);
            if k < s.len() && s[k] == ']' {
                let mut v: Vec<String> = Vec::new();
                v.push(x);
                assert(texts(v@) =~= seq![x@]);
                Some((v, k + 1))
            } else if k < s.len() && s[k] == ',' {
                let n = skip_ws_exec(s, k + 1);
                match parse_items_exec(s, n) {
                    None => None,
                    Some((rest, m)) => {
                        let mut v: Vec<String> = Vec::new();
                        v.push(x);
                        let mut p: usize = 0;
                        while p < rest.len()
                            invariant
                                p <= rest.len(),
                                texts(v@) == seq![x@] + texts(rest@).take(p as int),
                            decreases rest.len() - p,
                        {
                            proof {
                                lemma_texts_push(v@, rest@[p as int]);
                                assert(texts(rest@).take(p as int + 1) =~= texts(rest@).take(p as int).push(rest@[p as int]@));
                            }
                            v.push(rest[p].clone());
                            p = p + 1;
                        }
                        assert(texts(rest@).take(p as int) =~= texts(rest@));
                        Some((v, m))
                    },
                }
            } else {
                None
            }
        },
    }
}


fn parse_list_exec(s: &Vec<char>, i: usize) -> (r: Option<(Vec<String>, usize)>)
    ensures
        r is Some == parse_list(s@, i as int) is Some,
        r matches Some((w, k)) ==> parse_list(s@, i as int) == Some((texts(w@), k as int)),
{
    if i < s.len() && s[i] == '[' {
        let j = skip_ws_exec(s, i + 1);
        if j < s.len() && s[j] == ']' {
            let v: Vec<String> = Vec::new();
            assert(texts(v@) =~= Seq::<Seq<char>>::empty());
            Some((v, j + 1))
        } else {
            parse_items_exec(s, j)
        }
    } else {
        None
    }
}

/// A field value as read from text.
pub enum Field {
    Null,
    Str(String),
    List(Vec<String>),
}

impl Field {
    pub open spec fn view(&self) -> JValue {
        match self {
            Field::Null => JValue::Null,
            Field::Str(x) => JValue::Str(x@),
            Field::List(v) => JValue::List(texts(v@)),
        }
    }
}

pub open spec fn field_opt(f: Option<Field>) -> Option<JValue> {
    match f {
        None => None,
        Some(v) => Some(v.view()),
    }
}

fn parse_value_exec(s: &Vec<char>, i: usize) -> (r: Option<(Field, usize)>)
    ensures
        r is Some == parse_value(s@, i as int) is Some,
        r matches Some((w, k)) ==> parse_value(s@, i as int) == Some((w.view(), k as int)),
{
    if i < s.len() && s.len() - i >= 4 && s[i] == 'n' && s[i + 1] == 'u' && s[i + 2] == 'l'
        && s[i + 3] == 'l' {
        Some((Field::Null, i + 4))
    } else if i < s.len() && s[i] == '"' {
        match parse_string_exec(s, i) {
            None => None,
            Some((x, j)) => Some((Field::Str(x), j)),
        }
    } else {
        match parse_list_exec(s, i) {
            None => None,
            Some((xs, j)) => Some((Field::List(xs), j)),
        }
    }
}

/// The three fields of an object, as read from text.
pub struct FieldSlots {
    pub a: Option<Field>,
    pub b: Option<Field>,
    pub c: Option<Field>,
}

impl FieldSlots {
    pub open spec fn view(&self) -> Slots {
        Slots { a: field_opt(self.a), b: field_opt(self.b), c: field_opt(self.c) }
    }
}

fn same_chars(a: &Vec<char>, b: &Vec<char>) -> (r: bool)
    ensures
        r == (a@ == b@),
{
    if a.len() != b.len() {
        return false;
    }
    let mut i: usize = 0;
    while i < a.len()
        invariant
            a.len() == b.len(),
            i <= a.len(),
            a@.take(i as int) == b@.take(i as int),
        decreases a.len() - i,
    {
        if a[i] != b[i] {
            assert(a@[i as int] != b@[i as int]);
            return false;
        }
        assert(a@.take(i as int + 1) =~= a@.take(i as int).push(a@[i as int]));
        assert(b@.take(i as int + 1) =~= b@.take(i as int).push(b@[i as int]));
        i = i + 1;
    }
    assert(a@ =~= a@.take(i as int));
    assert(b@ =~= b@.take(i as int));
    true
}

fn put_exec(st: FieldSlots, keys: &(Vec<char>, Vec<char>, Vec<char>), k: &Vec<char>, v: Field) -> (r: Option<FieldSlots>)
    ensures
        r is Some == put(st@, (keys.0@, keys.1@, keys.2@), k@, v.view()) is Some,
        r matches Some(w) ==> put(st@, (keys.0@, keys.1@, keys.2@), k@, v.view()) == Some(w@),
{
    let FieldSlots { a, b, c } = st;
    if same_chars(k, &keys.0) {
        if a.is_some() { None } else { Some(FieldSlots { a: Some(v), b, c }) }
    } else if same_chars(k, &keys.1) {
        if b.is_some() { None } else { Some(FieldSlots { a, b: Some(v), c }) }
    } else if same_chars(k, &keys.2) {
        if c.is_some() { None } else { Some(FieldSlots { a, b, c: Some(v) }) }
    } else {
        None
    }
}

fn parse_members_exec(
    s: &Vec<char>,
    i: usize,
    keys: &(Vec<char>, Vec<char>, Vec<char>),
    st: FieldSlots,
) -> (r: Option<(FieldSlots, usize)>)
    ensures
        r is Some == parse_members(s@, i as int, (keys.0@, keys.1@, keys.2@), st@) is Some,
        r matches Some((w, k)) ==> parse_members(s@, i as int, (keys.0@, keys.1@, keys.2@), st@)
            == Some((w@, k as int)),
    decreases s.len() - i,
{
    if !(i < s.len() && s[i] == '"') {
        return None;
    }
    match parse_chars_exec(s, i + 1) {
        None => None,
        Some((k, j)) => {
            proof {
                lemma_parse_string_moves(s@, i as int);
            }
            let c = skip_ws_exec(s, j);
            if !(c < s.len() && s[c] == ':') {
                return None;
            }
            let vs = skip_ws_exec(s, c + 1);
            match parse_value_exec(s, vs) {
                None => None,
                Some((v, m)) => {
                    proof {
                        lemma_parse_value_moves(s@, vs as int);
                    }
                    match put_exec(st, keys, &k, v) {
                        None => None,
                        Some(st2) => {
                            let n = skip_ws_exec(s, m);
                            if n < s.len() && s[n] == '}' {
                                Some((st2, n + 1))
                            } else if n < s.len() && s[n] == ',' {
                                let q = skip_ws_exec(s, n + 1);
                                parse_members_exec(s, q, keys, st2)
                            } else {
                                None
                            }
                        },
                    }
                },
            }
        },
    }
}

proof fn lemma_parse_value_moves(s: Seq<char>, i: int)
    requires
        0 <= i <= s.len(),
        parse_value(s, i) is Some,
    ensures
        parse_value(s, i) matches Some((x, j)) ==> i < j <= s.len(),
{
    if is_null_at(s, i) {
    } else if 0 <= i < s.len() && s[i] == '"' {
        lemma_parse_string_moves(s, i);
    } else {
        let j = skip_ws(s, i + 1);
        lemma_skip_ws_bounds(s, i + 1);
        if 0 <= j < s.len() && s[j] == ']' {
        } else {
            lemma_parse_items_moves(s, j);
        }
    }
}

proof fn lemma_parse_items_moves(s: Seq<char>, i: int)
    requires
        parse_items(s, i) is Some,
    ensures
        parse_items(s, i) matches Some((x, j)) ==> i < j <= s.len(),
    decreases s.len() - i,
{
    lemma_parse_string_moves(s, i);
    let (x, j) = parse_string(s, i)->0;
    lemma_skip_ws_bounds(s, j);
    let k = skip_ws(s, j);
    if 0 <= k < s.len() && s[k] == ']' {
    } else {
        lemma_skip_ws_bounds(s, k + 1);
        lemma_parse_items_moves(s, skip_ws(s, k + 1));
    }
}

/// Reads a whole text holding one object with the given keys.
fn parse_object_exec(s: &Vec<char>, keys: &(Vec<char>, Vec<char>, Vec<char>)) -> (r: Option<FieldSlots>)
    ensures
        r is Some == parse_object(s@, (keys.0@, keys.1@, keys.2@)) is Some,
        r matches Some(w) ==> parse_object(s@, (keys.0@, keys.1@, keys.2@)) == Some(w@),
{
    let i = skip_ws_exec(s, 0);
    if !(i < s.len() && s[i] == '{') {
        return None;
    }
    let j = skip_ws_exec(s, i + 1);
    let r = if j < s.len() && s[j] == '}' {
        Some((FieldSlots { a: None, b: None, c: None }, j + 1))
    } else {
        parse_members_exec(s, j, keys, FieldSlots { a: None, b: None, c: None })
    };
    match r {
        None => None,
        Some((st, m)) => {
            proof {
                if !(0 <= j < s.len() && s@[j as int] == '}') {
                    lemma_parse_members_moves(s@, j as int, (keys.0@, keys.1@, keys.2@), no_slots());
                }
            }
            if skip_ws_exec(s, m) == s.len() {
                Some(st)
            } else {
                None
            }
        },
    }
}

proof fn lemma_parse_members_moves(s: Seq<char>, i: int, keys: (Seq<char>, Seq<char>, Seq<char>), st: Slots)
    requires
        parse_members(s, i, keys, st) is Some,
    ensures
        parse_members(s, i, keys, st) matches Some((x, j)) ==> i < j <= s.len(),
    decreases s.len() - i,
{
    lemma_parse_string_moves(s, i);
    let (k, j) = parse_string(s, i)->0;
    lemma_skip_ws_bounds(s, j);
    let c = skip_ws(s, j);
    lemma_skip_ws_bounds(s, c + 1);
    let vs = skip_ws(s, c + 1);
    lemma_parse_value_moves(s, vs);
    let (v, m) = parse_value(s, vs)->0;
    let st2 = put(st, keys, k, v)->0;
    lemma_skip_ws_bounds(s, m);
    let n = skip_ws(s, m);
    if 0 <= n < s.len() && s[n] == '}' {
    } else {
        lemma_parse_members_moves(s, skip_ws(s, n + 1), keys, st2);
    }
}


// ---------------------------------------------------------------- envelopes

/// The closed set of envelope kinds.
#[derive(Clone, Copy, Debug, PartialEq, Eq, Structural)]
pub enum MsgTypes {
    Users,
    Register,
    Message,
    Typing,
    Reaction,
}

/// How a kind is written on the wire.
pub open spec fn kind_name(k: MsgTypes) -> Seq<char> {
    match k {
        MsgTypes::Users => "users"@,
        MsgTypes::Register => "register"@,
        MsgTypes::Message => "message"@,
        MsgTypes::Typing => "typing"@,
        MsgTypes::Reaction => "reaction"@,
    }
}

/// The kind written as `s`, if `s` names one.
pub open spec fn kind_of(s: Seq<char>) -> Option<MsgTypes> {
    if s == "users"@ {
        Some(MsgTypes::Users)
    } else if s == "register"@ {
        Some(MsgTypes::Register)
    } else if s == "message"@ {
        Some(MsgTypes::Message)
    } else if s == "typing"@ {
        Some(MsgTypes::Typing)
    } else if s == "reaction"@ {
        Some(MsgTypes::Reaction)
    } else {
        None
    }
}

/// The abstract value of an envelope.
pub struct EnvelopeView {
    pub kind: MsgTypes,
    pub items: Option<Seq<Seq<char>>>,
    pub payload: Option<Seq<char>>,
}

/// The unit of wire exchange: a kind, an optional roster and an optional text payload.
pub struct WebSocketMessage {
    pub message_type: MsgTypes,
    pub data_array: Option<Vec<String>>,
    pub data: Option<String>,
}

impl View for WebSocketMessage {
    type V = EnvelopeView;

    open spec fn view(&self) -> EnvelopeView {
        EnvelopeView {
            kind: self.message_type,
            items: match self.data_array {
                None => None,
                Some(v) => Some(texts(v@)),
            },
            payload: match self.data {
                None => None,
                Some(d) => Some(d@),
            },
        }
    }
}

/// Why a text could not be read as an envelope.
#[derive(Clone, Copy, Debug, PartialEq, Eq, Structural)]
pub enum DecodeError {
    /// The text is not a well-formed envelope object.
    Malformed,
    /// The kind is a string outside the closed set.
    UnknownKind,
}

pub open spec fn key_kind() -> Seq<char> {
    "messageType"@
}

pub open spec fn key_items() -> Seq<char> {
    "dataArray"@
}

pub open spec fn key_payload() -> Seq<char> {
    "data"@
}

pub open spec fn envelope_keys() -> (Seq<char>, Seq<char>, Seq<char>) {
    (key_kind(), key_items(), key_payload())
}

pub open spec fn null_text() -> Seq<char> {
    seq!['n', 'u', 'l', 'l']
}

/// The quoted strings of `xs`, separated by commas.
pub open spec fn join_quoted(xs: Seq<Seq<char>>) -> Seq<char>
    decreases xs.len(),
{
    if xs.len() == 0 {
        Seq::empty()
    } else if xs.len() == 1 {
        quote(xs[0])
    } else {
        quote(xs[0]) + seq![','] + join_quoted(xs.drop_first())
    }
}

pub open spec fn enc_list(xs: Seq<Seq<char>>) -> Seq<char> {
    seq!['['] + join_quoted(xs) + seq![']']
}

pub open spec fn enc_items(o: Option<Seq<Seq<char>>>) -> Seq<char> {
    match o {
        None => null_text(),
        Some(xs) => enc_list(xs),
    }
}

pub open spec fn enc_payload(o: Option<Seq<char>>) -> Seq<char> {
    match o {
        None => null_text(),
        Some(s) => quote(s),
    }
}

/// The canonical text of an envelope: its three fields in a fixed order, no whitespace.
pub open spec fn encode_spec(e: EnvelopeView) -> Seq<char> {
    seq!['{'] + quote(key_kind()) + seq![':'] + quote(kind_name(e.kind)) + seq![','] + quote(
        key_items(),
    ) + seq![':'] + enc_items(e.items) + seq![','] + quote(key_payload()) + seq![':']
        + enc_payload(e.payload) + seq!['}']
}

pub open spec fn items_field(f: Option<JValue>) -> Option<Option<Seq<Seq<char>>>> {
    match f {
        None => Some(None),
        Some(JValue::Null) => Some(None),
        Some(JValue::List(xs)) => Some(Some(xs)),
        Some(JValue::Str(_)) => None,
    }
}

pub open spec fn text_field(f: Option<JValue>) -> Option<Option<Seq<char>>> {
    match f {
        None => Some(None),
        Some(JValue::Null) => Some(None),
        Some(JValue::Str(x)) => Some(Some(x)),
        Some(JValue::List(_)) => None,
    }
}

/// What a text decodes to: an object whose `messageType` is a known kind, whose
/// `dataArray` is absent, null or a list of strings, and whose `data` is absent,
/// null or a string.
pub open spec fn decode_spec(s: Seq<char>) -> Result<EnvelopeView, DecodeError> {
    match parse_object(s, envelope_keys()) {
        None => Err(DecodeError::Malformed),
        Some(st) => match st.a {
            Some(JValue::Str(k)) => match kind_of(k) {
                None => Err(DecodeError::UnknownKind),
                Some(kind) => match (items_field(st.b), text_field(st.c)) {
                    (Some(items), Some(payload)) => Ok(
                        EnvelopeView { kind, items, payload },
                    ),
                    _ => Err(DecodeError::Malformed),
                },
            },
            _ => Err(DecodeError::Malformed),
        },
    }
}

pub open spec fn decoded_view(r: Result<WebSocketMessage, DecodeError>) -> Result<EnvelopeView, DecodeError> {
    match r {
        Ok(e) => Ok(e@),
        Err(x) => Err(x),
    }
}

proof fn lemma_join_push(xs: Seq<Seq<char>>, x: Seq<char>)
    requires
        xs.len() > 0,
    ensures
        join_quoted(xs.push(x)) == join_quoted(xs) + seq![','] + quote(x),
    decreases xs.len(),
{
    if xs.len() == 1 {
        assert(xs.push(x).drop_first() =~= seq![x]);
        assert(join_quoted(seq![x]) == quote(seq![x][0]));
        assert(join_quoted(xs.push(x)) =~= join_quoted(xs) + seq![','] + quote(x));
    } else {
        assert(xs.push(x).drop_first() =~= xs.drop_first().push(x));
        lemma_join_push(xs.drop_first(), x);
        assert(join_quoted(xs.push(x)) =~= join_quoted(xs) + seq![','] + quote(x));
    }
}

fn push_kind(out: &mut Vec<char>, k: MsgTypes)
    ensures
        final(out)@ == old(out)@ + quote(kind_name(k)),
{
    match k {
        MsgTypes::Users => push_quoted(out, "users"),
        MsgTypes::Register => push_quoted(out, "register"),
        MsgTypes::Message => push_quoted(out, "message"),
        MsgTypes::Typing => push_quoted(out, "typing"),
        MsgTypes::Reaction => push_quoted(out, "reaction"),
    }
}

fn push_null(out: &mut Vec<char>)
    ensures
        final(out)@ == old(out)@ + null_text(),
{
    out.push('n');
    out.push('u');
    out.push('l');
    out.push('l');
    assert(out@ =~= old(out)@ + null_text());
}

fn push_list(out: &mut Vec<char>, xs: &Vec<String>)
    ensures
        final(out)@ == old(out)@ + enc_list(texts(xs@)),
{
    out.push('[');
    let ghost base = out@;
    let mut i: usize = 0;
    while i < xs.len()
        invariant
            i <= xs.len(),
            base == old(out)@ + seq!['['],
            out@ == base + join_quoted(texts(xs@).take(i as int)),
        decreases xs.len() - i,
    {
        let ghost before = texts(xs@).take(i as int);
        proof {
            assert(texts(xs@).take(i as int + 1) =~= before.push(xs@[i as int]@));
        }
        if i > 0 {
            out.push(',');
            proof {
                lemma_join_push(before, xs@[i as int]@);
            }
        } else {
            assert(before.push(xs@[i as int]@) =~= seq![xs@[i as int]@]);
            assert(join_quoted(seq![xs@[i as int]@]) == quote(seq![xs@[i as int]@][0]));
            assert(join_quoted(before) == Seq::<char>::empty());
        }
        push_quoted(out, xs[i].as_str());
        assert(out@ =~= base + join_quoted(texts(xs@).take(i as int + 1)));
        i = i + 1;
    }
    out.push(']');
    assert(texts(xs@).take(i as int) =~= texts(xs@));
    assert(out@ =~= old(out)@ + enc_list(texts(xs@)));
}

/// The canonical text of an envelope.
pub fn encode(e: &WebSocketMessage) -> (r: String)
    ensures
        r@ == encode_spec(e@),
{
    let mut out: Vec<char> = Vec::new();
    out.push('{');
    push_quoted(&mut out, "messageType");
    out.push(':');
    push_kind(&mut out, e.message_type);
    out.push(',');
    push_quoted(&mut out, "dataArray");
    out.push(':');
    match &e.data_array {
        None => push_null(&mut out),
        Some(xs) => push_list(&mut out, xs),
    }
    out.push(',');
    push_quoted(&mut out, "data");
    out.push(':');
    match &e.data {
        None => push_null(&mut out),
        Some(d) => push_quoted(&mut out, d.as_str()),
    }
    out.push('}');
    assert(out@ =~= encode_spec(e@));
    string_of(&out)
}

fn kind_exec(k: &Vec<char>) -> (r: Option<MsgTypes>)
    ensures
        r == kind_of(k@),
{
    if same_chars(k, &chars_of("users")) {
        Some(MsgTypes::Users)
    } else if same_chars(k, &chars_of("register")) {
        Some(MsgTypes::Register)
    } else if same_chars(k, &chars_of("message")) {
        Some(MsgTypes::Message)
    } else if same_chars(k, &chars_of("typing")) {
        Some(MsgTypes::Typing)
    } else if same_chars(k, &chars_of("reaction")) {
        Some(MsgTypes::Reaction)
    } else {
        None
    }
}

/// Reads an envelope from its text form.
pub fn decode(text: &str) -> (r: Result<WebSocketMessage, DecodeError>)
    ensures
        decoded_view(r) == decode_spec(text@),
{
    let s = chars_of(text);
    let keys = (chars_of("messageType"), chars_of("dataArray"), chars_of("data"));
    match parse_object_exec(&s, &keys) {
        None => Err(DecodeError::Malformed),
        Some(st) => match st.a {
            Some(Field::Str(k)) => match kind_exec(&chars_of(k.as_str())) {
                None => Err(DecodeError::UnknownKind),
                Some(kind) => {
                    let items = match st.b {
                        None => None,
                        Some(Field::Null) => None,
                        Some(Field::List(xs)) => Some(xs),
                        Some(Field::Str(_)) => {
                            return Err(DecodeError::Malformed);
                        },
                    };
                    let payload = match st.c {
                        None => None,
                        Some(Field::Null) => None,
                        Some(Field::Str(x)) => Some(x),
                        Some(Field::List(_)) => {
                            return Err(DecodeError::Malformed);
                        },
                    };
                    Ok(WebSocketMessage { message_type: kind, data_array: items, data: payload })
                },
            },
            _ => Err(DecodeError::Malformed),
        },
    }
}


// ---------------------------------------------------------------- round trip

pub open spec fn at(t: Seq<char>, i: int, p: Seq<char>) -> bool {
    0 <= i && i + p.len() <= t.len() && t.subrange(i, i + p.len()) == p
}

proof fn lemma_at_split(t: Seq<char>, i: int, p: Seq<char>, q: Seq<char>)
    requires
        at(t, i, p + q),
    ensures
        at(t, i, p),
        at(t, i + p.len(), q),
{
    assert(t.subrange(i, i + p.len()) =~= t.subrange(i, i + (p + q).len()).subrange(0, p.len() as int));
    assert(t.subrange(i + p.len(), i + p.len() + q.len()) =~= t.subrange(i, i + (p + q).len()).subrange(p.len() as int, (p + q).len() as int));
    assert((p + q).subrange(0, p.len() as int) =~= p);
    assert((p + q).subrange(p.len() as int, (p + q).len() as int) =~= q);
}

proof fn lemma_at_first(t: Seq<char>, i: int, p: Seq<char>)
    requires
        at(t, i, p),
        p.len() > 0,
    ensures
        t[i] == p[0],
{
    assert(t.subrange(i, i + p.len())[0] == t[i]);
}

proof fn lemma_quote_first(s: Seq<char>)
    ensures
        quote(s)[0] == '"',
        quote(s).len() >= 2,
{
}

proof fn lemma_parse_items_join(t: Seq<char>, i: int, xs: Seq<Seq<char>>)
    requires
        xs.len() >= 1,
        at(t, i, join_quoted(xs) + seq![']']),
    ensures
        parse_items(t, i) == Some((xs, i + join_quoted(xs).len() + 1)),
    decreases xs.len(),
{
    let x = xs[0];
    if xs.len() == 1 {
        lemma_at_split(t, i, quote(x), seq![']']);
        lemma_parse_string_quote(t, i, x);
        lemma_at_first(t, i + quote(x).len(), seq![']']);
        assert(seq![x] =~= xs);
    } else {
        let rest = xs.drop_first();
        assert(join_quoted(xs) + seq![']'] =~= quote(x) + seq![','] + (join_quoted(rest) + seq![']']));
        lemma_at_split(t, i, quote(x) + seq![','], join_quoted(rest) + seq![']']);
        lemma_at_split(t, i, quote(x), seq![',']);
        lemma_parse_string_quote(t, i, x);
        let k = i + quote(x).len();
        lemma_at_first(t, k, seq![',']);
        lemma_quote_first(rest[0]);
        assert(join_quoted(rest)[0] == '"');
        lemma_at_first(t, k + 1, join_quoted(rest) + seq![']']);
        lemma_parse_items_join(t, k + 1, rest);
        assert(seq![x] + rest =~= xs);
    }
}

proof fn lemma_parse_list_enc(t: Seq<char>, i: int, xs: Seq<Seq<char>>)
    requires
        at(t, i, enc_list(xs)),
    ensures
        parse_list(t, i) == Some((xs, i + enc_list(xs).len())),
{
    assert(enc_list(xs) =~= seq!['['] + (join_quoted(xs) + seq![']']));
    lemma_at_split(t, i, seq!['['], join_quoted(xs) + seq![']']);
    lemma_at_first(t, i, seq!['[']);
    if xs.len() == 0 {
        lemma_at_first(t, i + 1, join_quoted(xs) + seq![']']);
        assert(xs =~= Seq::<Seq<char>>::empty());
    } else {
        lemma_quote_first(xs[0]);
        assert(join_quoted(xs)[0] == '"');
        lemma_at_first(t, i + 1, join_quoted(xs) + seq![']']);
        lemma_parse_items_join(t, i + 1, xs);
    }
}

proof fn lemma_parse_items_value(t: Seq<char>, i: int, o: Option<Seq<Seq<char>>>)
    requires
        at(t, i, enc_items(o)),
    ensures
        parse_value(t, i) == Some((
            match o {
                None => JValue::Null,
                Some(xs) => JValue::List(xs),
            },
            i + enc_items(o).len(),
        )),
{
    match o {
        None => {
            assert(t[i] == t.subrange(i, i + 4)[0]);
            assert(t[i + 1] == t.subrange(i, i + 4)[1]);
            assert(t[i + 2] == t.subrange(i, i + 4)[2]);
            assert(t[i + 3] == t.subrange(i, i + 4)[3]);
        },
        Some(xs) => {
            lemma_at_first(t, i, enc_list(xs));
            lemma_parse_list_enc(t, i, xs);
        },
    }
}

proof fn lemma_parse_payload_value(t: Seq<char>, i: int, o: Option<Seq<char>>)
    requires
        at(t, i, enc_payload(o)),
    ensures
        parse_value(t, i) == Some((
            match o {
                None => JValue::Null,
                Some(s) => JValue::Str(s),
            },
            i + enc_payload(o).len(),
        )),
{
    match o {
        None => {
            assert(t[i] == t.subrange(i, i + 4)[0]);
            assert(t[i + 1] == t.subrange(i, i + 4)[1]);
            assert(t[i + 2] == t.subrange(i, i + 4)[2]);
            assert(t[i + 3] == t.subrange(i, i + 4)[3]);
        },
        Some(s) => {
            lemma_quote_first(s);
            lemma_at_first(t, i, quote(s));
            lemma_parse_string_quote(t, i, s);
        },
    }
}

proof fn lemma_kind_round_trip(k: MsgTypes)
    ensures
        kind_of(kind_name(k)) == Some(k),
{
    reveal_strlit("users");
    reveal_strlit("register");
    reveal_strlit("message");
    reveal_strlit("typing");
    reveal_strlit("reaction");
    assert("users"@.len() == 5 && "typing"@.len() == 6 && "message"@.len() == 7);
    assert("register"@.len() == 8 && "reaction"@.len() == 8);
    assert("register"@[2] != "reaction"@[2]);
}

/// One member `key:value` followed by a comma or the closing brace.
proof fn lemma_member_step(
    t: Seq<char>,
    i: int,
    keys: (Seq<char>, Seq<char>, Seq<char>),
    st: Slots,
    key: Seq<char>,
    a: int,
    v: JValue,
    b: int,
    st2: Slots,
)
    requires
        parse_string(t, i) == Some((key, a)),
        0 <= a && a + 1 < t.len() && t[a] == ':' && !is_ws(t[a + 1]),
        parse_value(t, a + 1) == Some((v, b)),
        put(st, keys, key, v) == Some(st2),
        0 <= b < t.len() && (t[b] == '}' || t[b] == ','),
        t[b] == ',' ==> b + 1 < t.len() && !is_ws(t[b + 1]),
        i < b + 1,
    ensures
        parse_members(t, i, keys, st) == if t[b] == '}' {
            Some((st2, b + 1))
        } else {
            parse_members(t, b + 1, keys, st2)
        },
{
}

/// Where the pieces of an envelope's canonical text stand.
proof fn lemma_encode_layout(e: EnvelopeView) -> (offsets: Seq<int>)
    ensures
        offsets.len() == 13,
        offsets[0] == 0,
        at(encode_spec(e), offsets[0], seq!['{']),
        at(encode_spec(e), offsets[1], quote(key_kind())),
        at(encode_spec(e), offsets[2], seq![':']),
        at(encode_spec(e), offsets[3], quote(kind_name(e.kind))),
        at(encode_spec(e), offsets[4], seq![',']),
        at(encode_spec(e), offsets[5], quote(key_items())),
        at(encode_spec(e), offsets[6], seq![':']),
        at(encode_spec(e), offsets[7], enc_items(e.items)),
        at(encode_spec(e), offsets[8], seq![',']),
        at(encode_spec(e), offsets[9], quote(key_payload())),
        at(encode_spec(e), offsets[10], seq![':']),
        at(encode_spec(e), offsets[11], enc_payload(e.payload)),
        at(encode_spec(e), offsets[12], seq!['}']),
        offsets[1] == offsets[0] + 1,
        offsets[2] == offsets[1] + quote(key_kind()).len(),
        offsets[3] == offsets[2] + 1,
        offsets[4] == offsets[3] + quote(kind_name(e.kind)).len(),
        offsets[5] == offsets[4] + 1,
        offsets[6] == offsets[5] + quote(key_items()).len(),
        offsets[7] == offsets[6] + 1,
        offsets[8] == offsets[7] + enc_items(e.items).len(),
        offsets[9] == offsets[8] + 1,
        offsets[10] == offsets[9] + quote(key_payload()).len(),
        offsets[11] == offsets[10] + 1,
        offsets[12] == offsets[11] + enc_payload(e.payload).len(),
        encode_spec(e).len() == offsets[12] + 1,
{
    let t = encode_spec(e);
    let p1 = seq!['{'];
    let p2 = p1 + quote(key_kind());
    let p3 = p2 + seq![':'];
    let p4 = p3 + quote(kind_name(e.kind));
    let p5 = p4 + seq![','];
    let p6 = p5 + quote(key_items());
    let p7 = p6 + seq![':'];
    let p8 = p7 + enc_items(e.items);
    let p9 = p8 + seq![','];
    let p10 = p9 + quote(key_payload());
    let p11 = p10 + seq![':'];
    let p12 = p11 + enc_payload(e.payload);
    assert(t == p12 + seq!['}']);
    assert(at(t, 0, t)) by {
        assert(t.subrange(0, t.len() as int) =~= t);
    }
    lemma_at_split(t, 0, p12, seq!['}']);
    lemma_at_split(t, 0, p11, enc_payload(e.payload));
    lemma_at_split(t, 0, p10, seq![':']);
    lemma_at_split(t, 0, p9, quote(key_payload()));
    lemma_at_split(t, 0, p8, seq![',']);
    lemma_at_split(t, 0, p7, enc_items(e.items));
    lemma_at_split(t, 0, p6, seq![':']);
    lemma_at_split(t, 0, p5, quote(key_items()));
    lemma_at_split(t, 0, p4, seq![',']);
    lemma_at_split(t, 0, p3, quote(kind_name(e.kind)));
    lemma_at_split(t, 0, p2, seq![':']);
    lemma_at_split(t, 0, p1, quote(key_kind()));
    seq![0, p1.len() as int, p2.len() as int, p3.len() as int, p4.len() as int, p5.len() as int,
        p6.len() as int, p7.len() as int, p8.len() as int, p9.len() as int, p10.len() as int,
        p11.len() as int, p12.len() as int]
}

/// The reading of an envelope's text, given what each of its pieces reads as.
#[verifier::rlimit(50)]
proof fn lemma_decode_pieces(t: Seq<char>, e: EnvelopeView, o: Seq<int>)
    requires
        o.len() == 13,
        o[0] == 0,
        t.len() == o[12] + 1,
        o[1] == 1,
        o[3] == o[2] + 1,
        o[5] == o[4] + 1,
        o[7] == o[6] + 1,
        o[9] == o[8] + 1,
        o[11] == o[10] + 1,
        t[0] == '{',
        t[o[1]] == '"',
        t[o[2]] == ':',
        t[o[3]] == '"',
        t[o[4]] == ',',
        t[o[5]] == '"',
        t[o[6]] == ':',
        t[o[7]] == 'n' || t[o[7]] == '[',
        t[o[8]] == ',',
        t[o[9]] == '"',
        t[o[10]] == ':',
        t[o[11]] == 'n' || t[o[11]] == '"',
        t[o[12]] == '}',
        parse_string(t, o[1]) == Some((key_kind(), o[2])),
        parse_string(t, o[5]) == Some((key_items(), o[6])),
        parse_string(t, o[9]) == Some((key_payload(), o[10])),
        parse_value(t, o[3]) == Some((JValue::Str(kind_name(e.kind)), o[4])),
        parse_value(t, o[7]) == Some((match e.items {
            None => JValue::Null,
            Some(xs) => JValue::List(xs),
        }, o[8])),
        parse_value(t, o[11]) == Some((match e.payload {
            None => JValue::Null,
            Some(s) => JValue::Str(s),
        }, o[12])),
        key_kind() != key_items() && key_kind() != key_payload() && key_items() != key_payload(),
        kind_of(kind_name(e.kind)) == Some(e.kind),
        o[1] < o[2] < o[4] < o[6] < o[8] < o[10] < o[12],
    ensures
        decode_spec(t) == Ok::<EnvelopeView, DecodeError>(e),
{
    let keys = envelope_keys();
    let st1 = Slots { a: Some(JValue::Str(kind_name(e.kind))), b: None, c: None };
    let vb = match e.items {
        None => JValue::Null,
        Some(xs) => JValue::List(xs),
    };
    let vc = match e.payload {
        None => JValue::Null,
        Some(s) => JValue::Str(s),
    };
    let st2 = Slots { b: Some(vb), ..st1 };
    let st3 = Slots { c: Some(vc), ..st2 };
    lemma_member_step(t, o[9], keys, st2, key_payload(), o[10], vc, o[12], st3);
    lemma_member_step(t, o[5], keys, st1, key_items(), o[6], vb, o[8], st2);
    lemma_member_step(t, o[1], keys, no_slots(), key_kind(), o[2], JValue::Str(kind_name(e.kind)), o[4], st1);
    assert(skip_ws(t, t.len() as int) == t.len());
    assert(parse_object(t, keys) == Some(st3));
}

/// Decoding the canonical text of an envelope gives the envelope back.
#[verifier::rlimit(100)]
pub proof fn lemma_envelope_round_trip(e: EnvelopeView)
    ensures
        decode_spec(encode_spec(e)) == Ok::<EnvelopeView, DecodeError>(e),
{
    let t = encode_spec(e);
    let o = lemma_encode_layout(e);
    reveal_strlit("messageType");
    reveal_strlit("dataArray");
    reveal_strlit("data");
    assert(key_kind() != key_items() && key_kind() != key_payload() && key_items() != key_payload()) by {
        assert(key_kind().len() != key_items().len());
        assert(key_kind().len() != key_payload().len());
        assert(key_items().len() != key_payload().len());
    }
    lemma_quote_first(key_kind());
    lemma_quote_first(kind_name(e.kind));
    lemma_quote_first(key_items());
    lemma_quote_first(key_payload());
    lemma_at_first(t, o[0], seq!['{']);
    lemma_at_first(t, o[1], quote(key_kind()));
    lemma_at_first(t, o[2], seq![':']);
    lemma_at_first(t, o[3], quote(kind_name(e.kind)));
    lemma_at_first(t, o[4], seq![',']);
    lemma_at_first(t, o[5], quote(key_items()));
    lemma_at_first(t, o[6], seq![':']);
    assert(enc_items(e.items).len() > 0 && enc_payload(e.payload).len() > 0);
    lemma_at_first(t, o[7], enc_items(e.items));
    lemma_at_first(t, o[8], seq![',']);
    lemma_at_first(t, o[9], quote(key_payload()));
    lemma_at_first(t, o[10], seq![':']);
    lemma_at_first(t, o[11], enc_payload(e.payload));
    lemma_at_first(t, o[12], seq!['}']);
    lemma_parse_string_quote(t, o[1], key_kind());
    lemma_parse_string_quote(t, o[3], kind_name(e.kind));
    assert(parse_value(t, o[3]) == Some((JValue::Str(kind_name(e.kind)), o[4])));
    lemma_parse_string_quote(t, o[5], key_items());
    lemma_parse_items_value(t, o[7], e.items);
    lemma_parse_string_quote(t, o[9], key_payload());
    lemma_parse_payload_value(t, o[11], e.payload);
    lemma_kind_round_trip(e.kind);
    lemma_decode_pieces(t, e, o);
}

// ---------------------------------------------------------------- reaction payloads

pub open spec fn is_digit(c: char) -> bool {
    '0' <= c && c <= '9'
}

pub open spec fn digit_char(d: int) -> char {
    ((d + 48) as u8) as char
}

/// Decimal digits of `n`, most significant first, without leading zeros.
pub open spec fn digits(n: nat) -> Seq<char>
    decreases n,
{
    if n < 10 {
        seq![digit_char(n as int)]
    } else {
        digits(n / 10).push(digit_char((n % 10) as int))
    }
}

/// The number that a sequence of decimal digits stands for.
pub open spec fn digits_val(ds: Seq<char>) -> nat
    decreases ds.len(),
{
    if ds.len() == 0 {
        0
    } else {
        digits_val(ds.drop_last()) * 10 + (ds.last() as int - 48) as nat
    }
}

/// Position of the first non-digit at or after `i`.
pub open spec fn digits_end(s: Seq<char>, i: int) -> int
    decreases s.len() - i,
{
    if 0 <= i < s.len() && is_digit(s[i]) {
        digits_end(s, i + 1)
    } else {
        i
    }
}

/// A non-negative integer starting at `s[i]`, written without leading zeros.
pub open spec fn parse_nat(s: Seq<char>, i: int) -> Option<(nat, int)> {
    let e = digits_end(s, i);
    if !(0 <= i < e) {
        None
    } else if s[i] == '0' && e > i + 1 {
        None
    } else {
        Some((digits_val(s.subrange(i, e)), e))
    }
}

/// The nested text of a reaction: a two-element list of the index and the symbol.
pub open spec fn enc_reaction(index: nat, symbol: Seq<char>) -> Seq<char> {
    seq!['['] + digits(index) + seq![','] + quote(symbol) + seq![']']
}

/// What a reaction text decodes to: `[index, "symbol"]`, whitespace allowed around
/// the tokens, the index fitting in a `usize`.
pub open spec fn decode_reaction_spec(s: Seq<char>) -> Option<(nat, Seq<char>)> {
    let a = skip_ws(s, 0);
    if !(0 <= a < s.len() && s[a] == '[') {
        None
    } else {
        match parse_nat(s, skip_ws(s, a + 1)) {
            None => None,
            Some((n, c)) => {
                let d = skip_ws(s, c);
                if !(0 <= d < s.len() && s[d] == ',') || n > usize::MAX {
                    None
                } else {
                    match parse_string(s, skip_ws(s, d + 1)) {
                        None => None,
                        Some((x, f)) => {
                            let g = skip_ws(s, f);
                            if 0 <= g < s.len() && s[g] == ']' && skip_ws(s, g + 1) == s.len() {
                                Some((n, x))
                            } else {
                                None
                            }
                        },
                    }
                }
            },
        }
    }
}

proof fn lemma_digits(n: nat)
    ensures
        digits(n).len() >= 1,
        forall|k: int| 0 <= k < digits(n).len() ==> is_digit(#[trigger] digits(n)[k]),
        digits_val(digits(n)) == n,
        digits(n)[0] == '0' ==> n == 0,
        n == 0 ==> digits(n).len() == 1,
    decreases n,
{
    if n >= 10 {
        lemma_digits(n / 10);
        let ds = digits(n);
        assert(ds.drop_last() =~= digits(n / 10));
        assert(ds[0] == digits(n / 10)[0]);
        assert(ds.last() as int == (n % 10) + 48);
        assert((n / 10) * 10 + n % 10 == n);
        assert(digits_val(ds) == digits_val(ds.drop_last()) * 10 + (ds.last() as int - 48) as nat);
        assert(digits_val(ds.drop_last()) == n / 10);
        assert((ds.last() as int - 48) as nat == n % 10);
        assert(digits_val(ds) == n);
    } else {
        assert(digits(n).drop_last() =~= Seq::<char>::empty());
        assert(digits(n).last() as int == n + 48);
        assert(digits_val(digits(n).drop_last()) == 0);
        assert(digits_val(digits(n)) == n);
    }
}

proof fn lemma_digits_end(s: Seq<char>, i: int, e: int)
    requires
        0 <= i <= e <= s.len(),
        forall|k: int| i <= k < e ==> is_digit(#[trigger] s[k]),
        e < s.len() ==> !is_digit(s[e]),
    ensures
        digits_end(s, i) == e,
    decreases e - i,
{
    if i < e {
        lemma_digits_end(s, i + 1, e);
    }
}

proof fn lemma_digits_end_bounds(s: Seq<char>, i: int)
    requires
        0 <= i <= s.len(),
    ensures
        i <= digits_end(s, i) <= s.len(),
        forall|k: int| i <= k < digits_end(s, i) ==> is_digit(#[trigger] s[k]),
    decreases s.len() - i,
{
    if 0 <= i < s.len() && is_digit(s[i]) {
        lemma_digits_end_bounds(s, i + 1);
    }
}

/// Decoding the nested text of a reaction gives back its index and symbol.
pub proof fn lemma_reaction_round_trip(index: nat, symbol: Seq<char>)
    requires
        index <= usize::MAX,
    ensures
        decode_reaction_spec(enc_reaction(index, symbol)) == Some((index, symbol)),
{
    let t = enc_reaction(index, symbol);
    let ds = digits(index);
    let q = quote(symbol);
    let p1 = seq!['['];
    let p2 = p1 + ds;
    let p3 = p2 + seq![','];
    let p4 = p3 + q;
    assert(t == p4 + seq![']']);
    assert(at(t, 0, t)) by {
        assert(t.subrange(0, t.len() as int) =~= t);
    }
    lemma_at_split(t, 0, p4, seq![']']);
    lemma_at_split(t, 0, p3, q);
    lemma_at_split(t, 0, p2, seq![',']);
    lemma_at_split(t, 0, p1, ds);
    lemma_at_first(t, 0, p1);
    lemma_at_first(t, p2.len() as int, seq![',']);
    lemma_at_first(t, p4.len() as int, seq![']']);
    lemma_quote_first(symbol);
    lemma_at_first(t, p3.len() as int, q);
    lemma_digits(index);
    lemma_at_first(t, 1, ds);
    assert forall|k: int| 1 <= k < p2.len() implies is_digit(#[trigger] t[k]) by {
        assert(t[k] == t.subrange(1, 1 + ds.len() as int)[k - 1]);
    }
    lemma_digits_end(t, 1, p2.len() as int);
    lemma_parse_string_quote(t, p3.len() as int, symbol);
    assert(skip_ws(t, t.len() as int) == t.len());
}

/// The nested text of a reaction.
pub fn encode_reaction_payload(index: usize, symbol: &str) -> (r: String)
    ensures
        r@ == enc_reaction(index as nat, symbol@),
{
    let mut out: Vec<char> = Vec::new();
    out.push('[');
    push_digits(&mut out, index);
    out.push(',');
    push_quoted(&mut out, symbol);
    out.push(']');
    assert(out@ =~= enc_reaction(index as nat, symbol@));
    string_of(&out)
}

fn push_digits(out: &mut Vec<char>, n: usize)
    ensures
        final(out)@ == old(out)@ + digits(n as nat),
    decreases n,
{
    if n >= 10 {
        push_digits(out, n / 10);
    }
    out.push(((n % 10) as u8 + 48) as char);
    assert(out@ =~= old(out)@ + digits(n as nat));
}

/// Reads a decimal index from `s[i]`; `None` where there is none or it exceeds `usize`.
fn parse_index_exec(s: &Vec<char>, i: usize) -> (r: Option<(usize, usize)>)
    requires
        i <= s.len(),
    ensures
        r is Some == (parse_nat(s@, i as int) is Some && parse_nat(s@, i as int).unwrap().0 <= usize::MAX),
        r matches Some((n, e)) ==> parse_nat(s@, i as int) == Some((n as nat, e as int)),
{
    let mut acc: usize = 0;
    let mut k: usize = i;
    let mut overflow = false;
    proof {
        lemma_digits_end_bounds(s@, i as int);
        assert(s@.subrange(i as int, i as int) =~= Seq::<char>::empty());
    }
    while k < s.len() && '0' <= s[k] && s[k] <= '9'
        invariant
            i <= k <= s.len(),
            k <= digits_end(s@, i as int) <= s.len(),
            digits_end(s@, k as int) == digits_end(s@, i as int),
            forall|m: int| i <= m < digits_end(s@, i as int) ==> is_digit(#[trigger] s@[m]),
            !overflow ==> acc as nat == digits_val(s@.subrange(i as int, k as int)),
            overflow ==> digits_val(s@.subrange(i as int, k as int)) > usize::MAX,
        decreases s.len() - k,
    {
        let d = (s[k] as u32 - 48) as usize;
        proof {
            assert(s@.subrange(i as int, k as int + 1).drop_last() =~= s@.subrange(i as int, k as int));
            let sub = s@.subrange(i as int, k as int);
            let sub2 = s@.subrange(i as int, (k + 1) as int);
            lemma_digits_end_bounds(s@, k + 1);
            if overflow {
                assert(digits_val(sub2) >= digits_val(sub));
            }
        }
        if !overflow {
            if acc > (usize::MAX - d) / 10 {
                overflow = true;
                assert(digits_val(s@.subrange(i as int, k as int + 1)) > usize::MAX) by (nonlinear_arith)
                    requires
                        digits_val(s@.subrange(i as int, k as int + 1)) == acc * 10 + d,
                        acc > (usize::MAX - d) / 10,
                        d <= 9,
                ;
            } else {
                acc = acc * 10 + d;
            }
        }
        k = k + 1;
    }
    proof {
        assert(!(k < s.len() && is_digit(s@[k as int])));
        assert(digits_end(s@, k as int) == k);
    }
    if k == i {
        return None;
    }
    if s[i] == '0' && k > i + 1 {
        return None;
    }
    if overflow {
        None
    } else {
        Some((acc, k))
    }
}

/// Reads the nested text of a reaction back into its index and symbol.
pub fn decode_reaction_payload(text: &str) -> (r: Result<(usize, String), DecodeError>)
    ensures
        match decode_reaction_spec(text@) {
            Some((n, x)) => r matches Ok((m, y)) && m as nat == n && y@ == x,
            None => r == Err::<(usize, String), DecodeError>(DecodeError::Malformed),
        },
{
    let s = chars_of(text);
    let a = skip_ws_exec(&s, 0);
    if !(a < s.len() && s[a] == '[') {
        return Err(DecodeError::Malformed);
    }
    let b = skip_ws_exec(&s, a + 1);
    let (n, c) = match parse_index_exec(&s, b) {
        None => {
            return Err(DecodeError::Malformed);
        },
        Some(p) => p,
    };
    proof {
        lemma_digits_end_bounds(s@, b as int);
    }
    let d = skip_ws_exec(&s, c);
    if !(d < s.len() && s[d] == ',') {
        return Err(DecodeError::Malformed);
    }
    let e = skip_ws_exec(&s, d + 1);
    match parse_string_exec(&s, e) {
        None => Err(DecodeError::Malformed),
        Some((x, f)) => {
            proof {
                lemma_parse_string_moves(s@, e as int);
            }
            let g = skip_ws_exec(&s, f);
            if g < s.len() && s[g] == ']' && skip_ws_exec(&s, g + 1) == s.len() {
                Ok((n, x))
            } else {
                Err(DecodeError::Malformed)
            }
        },
    }
}

// ---------------------------------------------------------------- chat message bodies

/// The abstract value of a chat message.
pub struct MessageView {
    pub from: Seq<char>,
    pub message: Seq<char>,
    pub timestamp: Option<Seq<char>>,
}

/// A chat message: its sender, its body and its display time, if known.
pub struct MessageData {
    pub from: String,
    pub message: String,
    pub timestamp: Option<String>,
}

impl View for MessageData {
    type V = MessageView;

    open spec fn view(&self) -> MessageView {
        MessageView {
            from: self.from@,
            message: self.message@,
            timestamp: match self.timestamp {
                None => None,
                Some(x) => Some(x@),
            },
        }
    }
}

pub open spec fn message_keys() -> (Seq<char>, Seq<char>, Seq<char>) {
    ("from"@, "message"@, "timestamp"@)
}

/// What the payload of a `message` envelope decodes to: an object with string fields
/// `from` and `message`, and a `timestamp` that is absent, null or a string.
pub open spec fn decode_message_spec(s: Seq<char>) -> Option<MessageView> {
    match parse_object(s, message_keys()) {
        None => None,
        Some(st) => match (st.a, st.b, text_field(st.c)) {
            (Some(JValue::Str(from)), Some(JValue::Str(message)), Some(timestamp)) => Some(
                MessageView { from, message, timestamp },
            ),
            _ => None,
        },
    }
}

/// Reads the payload of a `message` envelope.
pub fn decode_message_data(text: &str) -> (r: Result<MessageData, DecodeError>)
    ensures
        match decode_message_spec(text@) {
            Some(m) => r matches Ok(d) && d@ == m,
            None => r == Err::<MessageData, DecodeError>(DecodeError::Malformed),
        },
{
    let s = chars_of(text);
    let keys = (chars_of("from"), chars_of("message"), chars_of("timestamp"));
    match parse_object_exec(&s, &keys) {
        None => Err(DecodeError::Malformed),
        Some(st) => {
            let FieldSlots { a, b, c } = st;
            let from = match a {
                Some(Field::Str(x)) => x,
                _ => {
                    return Err(DecodeError::Malformed);
                },
            };
            let message = match b {
                Some(Field::Str(x)) => x,
                _ => {
                    return Err(DecodeError::Malformed);
                },
            };
            let timestamp = match c {
                None => None,
                Some(Field::Null) => None,
                Some(Field::Str(x)) => Some(x),
                Some(Field::List(_)) => {
                    return Err(DecodeError::Malformed);
                },
            };
            Ok(MessageData { from, message, timestamp })
        },
    }
}

} // verus!
