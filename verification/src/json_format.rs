//! JSON string literals: how they are written, as `serde_json` writes them,
//! and how they are read, with the white space and the single characters
//! around them.

use crate::text::digit;
use vstd::prelude::*;

verus! {

/// What stands for `c` inside a JSON string literal: the quote and the
/// backslash get a backslash in front, a control character below U+0020 its
/// short escape or `\u00xx`, and every other character stands for itself.
pub open spec fn escaped_char(c: char) -> Seq<char> {
    if c == '"' {
        seq!['\\', '"']
    } else if c == '\\' {
        seq!['\\', '\\']
    } else if c == '\u{8}' {
        seq!['\\', 'b']
    } else if c == '\t' {
        seq!['\\', 't']
    } else if c == '\n' {
        seq!['\\', 'n']
    } else if c == '\u{c}' {
        seq!['\\', 'f']
    } else if c == '\r' {
        seq!['\\', 'r']
    } else if (c as int) < 0x20 {
        seq!['\\', 'u', '0', '0', digit(c as int / 16), digit(c as int % 16)]
    } else {
        seq![c]
    }
}

/// The characters of `s`, each escaped.
pub open spec fn escaped(s: Seq<char>) -> Seq<char>
    decreases s.len(),
{
    if s.len() == 0 {
        Seq::empty()
    } else {
        escaped(s.drop_last()) + escaped_char(s.last())
    }
}

/// The JSON string literal for `s`: its escaped characters between quotes.
pub open spec fn quoted(s: Seq<char>) -> Seq<char> {
    seq!['"'] + escaped(s) + seq!['"']
}

/// `serde_json::to_string` on a string: the result is the JSON literal for
/// `s`. Serialising a string into memory has no way to fail, so the result is
/// always there.
#[verifier::external_body]
pub(crate) fn quote(s: &str) -> (r: Option<String>)
    ensures
        r is Some,
        r matches Some(q) ==> q@ == quoted(s@),
{
    serde_json::to_string(s).ok()
}

/// White space between the tokens of JSON.
pub open spec fn is_ws(c: char) -> bool {
    c == ' ' || c == '\n' || c == '\t' || c == '\r'
}

/// The first position from `i` on that holds no white space.
pub open spec fn skip_ws(s: Seq<char>, i: int) -> int
    decreases s.len() - i,
{
    if 0 <= i < s.len() && is_ws(s[i]) {
        skip_ws(s, i + 1)
    } else {
        i
    }
}

/// The position behind the character `c` at `i`, if it stands there.
pub open spec fn expect(s: Seq<char>, i: int, c: char) -> Option<int> {
    if 0 <= i < s.len() && s[i] == c {
        Some(i + 1)
    } else {
        None
    }
}

/// The value of a hexadecimal digit, in either case.
pub open spec fn hex_val(c: char) -> Option<int> {
    if 0x30 <= c as int <= 0x39 {
        Some(c as int - 0x30)
    } else if 0x61 <= c as int <= 0x66 {
        Some(c as int - 0x61 + 10)
    } else if 0x41 <= c as int <= 0x46 {
        Some(c as int - 0x41 + 10)
    } else {
        None
    }
}

/// The number that the four hexadecimal digits at `i` write.
pub open spec fn hex4(s: Seq<char>, i: int) -> Option<int> {
    if 0 <= i && i + 4 <= s.len() {
        match (hex_val(s[i]), hex_val(s[i + 1]), hex_val(s[i + 2]), hex_val(s[i + 3])) {
            (Some(a), Some(b), Some(c), Some(d)) => Some(((a * 16 + b) * 16 + c) * 16 + d),
            _ => None,
        }
    } else {
        None
    }
}

/// Whether `v` is the code of a character: no more than 0x10FFFF and no
/// surrogate.
pub open spec fn is_scalar(v: int) -> bool {
    0 <= v < 0xD800 || 0xE000 <= v <= 0x10FFFF
}

/// The character that the escape `\u` stands for, its four digits at `i`: the
/// character of that code, or, where the code is the first half of a
/// surrogate pair, the character of the pair, whose second half follows as
/// another `\u` escape.
pub open spec fn read_unicode(s: Seq<char>, i: int) -> Option<(char, int)> {
    match hex4(s, i) {
        Some(v) => if v < 0xD800 || v > 0xDFFF {
            Some((v as char, i + 4))
        } else if v <= 0xDBFF && i + 6 <= s.len() && s[i + 4] == '\\' && s[i + 5] == 'u' {
            match hex4(s, i + 6) {
                Some(low) => if 0xDC00 <= low <= 0xDFFF {
                    Some(((0x10000 + (v - 0xD800) * 0x400 + (low - 0xDC00)) as char, i + 10))
                } else {
                    None
                },
                None => None,
            }
        } else {
            None
        },
        None => None,
    }
}

/// The character that stands at `i` inside a string literal, and the position
/// behind it. A control character or a quote does not stand for a character,
/// nor does a backslash with anything but `"`, `\`, `/`, `b`, `f`, `n`, `r`,
/// `t` or `u` and its digits behind it.
pub open spec fn read_char(s: Seq<char>, i: int) -> Option<(char, int)> {
    if !(0 <= i < s.len()) {
        None
    } else if s[i] == '"' || (s[i] as int) < 0x20 {
        None
    } else if s[i] != '\\' {
        Some((s[i], i + 1))
    } else if i + 1 >= s.len() {
        None
    } else if s[i + 1] == '"' {
        Some(('"', i + 2))
    } else if s[i + 1] == '\\' {
        Some(('\\', i + 2))
    } else if s[i + 1] == '/' {
        Some(('/', i + 2))
    } else if s[i + 1] == 'b' {
        Some(('\u{8}', i + 2))
    } else if s[i + 1] == 'f' {
        Some(('\u{c}', i + 2))
    } else if s[i + 1] == 'n' {
        Some(('\n', i + 2))
    } else if s[i + 1] == 'r' {
        Some(('\r', i + 2))
    } else if s[i + 1] == 't' {
        Some(('\t', i + 2))
    } else if s[i + 1] == 'u' {
        read_unicode(s, i + 2)
    } else {
        None
    }
}

/// The text of a string literal whose opening quote stands just before `i`,
/// and the position behind its closing quote.
pub open spec fn read_text(s: Seq<char>, i: int) -> Option<(Seq<char>, int)>
    decreases s.len() - i,
{
    if !(0 <= i < s.len()) {
        None
    } else if s[i] == '"' {
        Some((Seq::empty(), i + 1))
    } else {
        match read_char(s, i) {
            Some((c, next)) => if i < next {
                match read_text(s, next) {
                    Some((rest, end)) => Some((seq![c] + rest, end)),
                    None => None,
                }
            } else {
                None
            },
            None => None,
        }
    }
}

/// The text of the string literal at `i`, and the position behind it.
pub open spec fn read_string(s: Seq<char>, i: int) -> Option<(Seq<char>, int)> {
    match expect(s, i, '"') {
        Some(j) => read_text(s, j),
        None => None,
    }
}

/// `char::from_u32`: the character of the code `v`, if `v` is the code of
/// one.
#[verifier::external_body]
fn char_of(v: u32) -> (r: Option<char>)
    ensures
        is_scalar(v as int) ==> r == Some(v as char),
        !is_scalar(v as int) ==> r is None,
{
    char::from_u32(v)
}

pub(crate) fn skip_spaces(s: &Vec<char>, i: usize) -> (r: usize)
    requires
        i <= s.len(),
    ensures
        r == skip_ws(s@, i as int),
        i <= r <= s.len(),
{
    let mut j = i;
    while j < s.len() && (s[j] == ' ' || s[j] == '\n' || s[j] == '\t' || s[j] == '\r')
        invariant
            i <= j <= s.len(),
            skip_ws(s@, i as int) == skip_ws(s@, j as int),
        decreases s.len() - j,
    {
        j += 1;
    }
    j
}

pub(crate) fn take(s: &Vec<char>, i: usize, c: char) -> (r: Option<usize>)
    requires
        i <= s.len(),
    ensures
        match r {
            Some(n) => expect(s@, i as int, c) == Some(n as int) && n == i + 1 && n <= s.len(),
            None => expect(s@, i as int, c) is None,
        },
{
    if i < s.len() && s[i] == c {
        Some(i + 1)
    } else {
        None
    }
}

fn hex_digit(c: char) -> (r: Option<u32>)
    ensures
        match r {
            Some(v) => hex_val(c) == Some(v as int) && v < 16,
            None => hex_val(c) is None,
        },
{
    let v = c as u32;
    if 0x30 <= v && v <= 0x39 {
        Some(v - 0x30)
    } else if 0x61 <= v && v <= 0x66 {
        Some(v - 0x61 + 10)
    } else if 0x41 <= v && v <= 0x46 {
        Some(v - 0x41 + 10)
    } else {
        None
    }
}

fn read_hex4(s: &Vec<char>, i: usize) -> (r: Option<u32>)
    requires
        i <= s.len(),
    ensures
        match r {
            Some(v) => hex4(s@, i as int) == Some(v as int) && v <= 0xFFFF && i + 4 <= s.len(),
            None => hex4(s@, i as int) is None,
        },
{
    if s.len() - i < 4 {
        return None;
    }
    match (hex_digit(s[i]), hex_digit(s[i + 1]), hex_digit(s[i + 2]), hex_digit(s[i + 3])) {
        (Some(a), Some(b), Some(c), Some(d)) => Some(((a * 16 + b) * 16 + c) * 16 + d),
        _ => None,
    }
}

fn read_escaped_unicode(s: &Vec<char>, i: usize) -> (r: Option<(char, usize)>)
    requires
        i <= s.len(),
    ensures
        match r {
            Some((c, n)) => read_unicode(s@, i as int) == Some((c, n as int)) && i < n <= s.len(),
            None => read_unicode(s@, i as int) is None,
        },
{
    let v = match read_hex4(s, i) {
        Some(v) => v,
        None => {
            return None;
        },
    };
    if v < 0xD800 || v > 0xDFFF {
        match char_of(v) {
            Some(c) => Some((c, i + 4)),
            None => None,
        }
    } else if v <= 0xDBFF && s.len() - i >= 6 && s[i + 4] == '\\' && s[i + 5] == 'u' {
        match read_hex4(s, i + 6) {
            Some(low) => {
                if 0xDC00 <= low && low <= 0xDFFF {
                    match char_of(0x10000 + (v - 0xD800) * 0x400 + (low - 0xDC00)) {
                        Some(c) => Some((c, i + 10)),
                        None => None,
                    }
                } else {
                    None
                }
            },
            None => None,
        }
    } else {
        None
    }
}

fn is_control(c: char) -> (r: bool)
    ensures
        r == ((c as int) < 0x20),
{
    (c as u32) < 0x20
}

fn read_one(s: &Vec<char>, i: usize) -> (r: Option<(char, usize)>)
    requires
        i <= s.len(),
    ensures
        match r {
            Some((c, n)) => read_char(s@, i as int) == Some((c, n as int)) && i < n <= s.len(),
            None => read_char(s@, i as int) is None,
        },
{
    if i >= s.len() {
        return None;
    }
    let c = s[i];
    if c == '"' || is_control(c) {
        None
    } else if c != '\\' {
        Some((c, i + 1))
    } else if i + 1 >= s.len() {
        None
    } else {
        let e = s[i + 1];
        if e == '"' {
            Some(('"', i + 2))
        } else if e == '\\' {
            Some(('\\', i + 2))
        } else if e == '/' {
            Some(('/', i + 2))
        } else if e == 'b' {
            Some(('\u{8}', i + 2))
        } else if e == 'f' {
            Some(('\u{c}', i + 2))
        } else if e == 'n' {
            Some(('\n', i + 2))
        } else if e == 'r' {
            Some(('\r', i + 2))
        } else if e == 't' {
            Some(('\t', i + 2))
        } else if e == 'u' {
            read_escaped_unicode(s, i + 2)
        } else {
            None
        }
    }
}

/// A text with more text behind it, where there is any.
pub open spec fn with_text(head: Seq<char>, rest: Option<(Seq<char>, int)>) -> Option<
    (Seq<char>, int),
> {
    match rest {
        Some((tail, end)) => Some((head + tail, end)),
        None => None,
    }
}

pub(crate) fn read_str(s: &Vec<char>, i: usize) -> (r: Option<(String, usize)>)
    requires
        i <= s.len(),
    ensures
        match r {
            Some((text, n)) => read_string(s@, i as int) == Some((text@, n as int)) && i < n
                <= s.len(),
            None => read_string(s@, i as int) is None,
        },
{
    let start = match take(s, i, '"') {
        Some(j) => j,
        None => {
            return None;
        },
    };
    let mut out = String::new();
    let mut j = start;
    assert(with_text(out@, read_text(s@, j as int)) =~= read_text(s@, start as int)) by {
        if let Some((tail, end)) = read_text(s@, start as int) {
            assert(Seq::<char>::empty() + tail =~= tail);
        }
    }
    loop
        invariant
            i < start <= j <= s.len(),
            with_text(out@, read_text(s@, j as int)) == read_text(s@, start as int),
            read_string(s@, i as int) == read_text(s@, start as int),
        decreases s.len() - j,
    {
        if j >= s.len() {
            return None;
        }
        if s[j] == '"' {
            assert(out@ + Seq::<char>::empty() =~= out@);
            return Some((out, j + 1));
        }
        match read_one(s, j) {
            Some((c, n)) => {
                proof {
                    if let Some((tail, end)) = read_text(s@, n as int) {
                        assert(out@.push(c) + tail =~= out@ + (seq![c] + tail));
                    }
                }
                out.push(c);
                j = n;
            },
            None => {
                return None;
            },
        }
    }
}

/// The text `piece` stands in `s` at `i`.
pub open spec fn holds(s: Seq<char>, i: int, piece: Seq<char>) -> bool {
    0 <= i && i + piece.len() <= s.len() && s.subrange(i, i + piece.len()) == piece
}

pub(crate) proof fn lemma_holds_char(s: Seq<char>, i: int, piece: Seq<char>, k: int)
    requires
        holds(s, i, piece),
        0 <= k < piece.len(),
    ensures
        s[i + k] == piece[k],
{
    assert(s.subrange(i, i + piece.len())[k] == s[i + k]);
}

pub(crate) proof fn lemma_holds_split(s: Seq<char>, i: int, head: Seq<char>, tail: Seq<char>)
    requires
        holds(s, i, head + tail),
    ensures
        holds(s, i, head),
        holds(s, i + head.len(), tail),
{
    let whole = head + tail;
    assert(s.subrange(i, i + head.len()) =~= head) by {
        assert forall|k: int| 0 <= k < head.len() implies s.subrange(i, i + head.len())[k]
            == head[k] by {
            lemma_holds_char(s, i, whole, k);
        }
    }
    assert(s.subrange(i + head.len(), i + head.len() + tail.len()) =~= tail) by {
        assert forall|k: int| 0 <= k < tail.len() implies s.subrange(
            i + head.len(),
            i + head.len() + tail.len(),
        )[k] == tail[k] by {
            lemma_holds_char(s, i, whole, head.len() + k);
        }
    }
}

proof fn lemma_hex_of_digit(d: int)
    requires
        0 <= d < 16,
    ensures
        hex_val(digit(d)) == Some(d),
{
}

/// What `escaped_char` writes for a character, `read_char` reads as that
/// character.
#[verifier::rlimit(40)]
proof fn lemma_read_escaped_char(s: Seq<char>, i: int, c: char)
    requires
        holds(s, i, escaped_char(c)),
    ensures
        read_char(s, i) == Some((c, i + escaped_char(c).len())),
        escaped_char(c).len() >= 1,
        s[i] != '"',
{
    let e = escaped_char(c);
    assert forall|k: int| 0 <= k < e.len() implies s[i + k] == e[k] by {
        lemma_holds_char(s, i, e, k);
    }
    if c == '"' || c == '\\' || c == '\u{8}' || c == '\t' || c == '\n' || c == '\u{c}' || c
        == '\r' {
        assert(s[i] == e[0] && s[i + 1] == e[1]);
    } else if (c as int) < 0x20 {
        assert(s[i] == e[0] && s[i + 1] == e[1] && s[i + 2] == e[2] && s[i + 3] == e[3] && s[i
            + 4] == e[4] && s[i + 5] == e[5]);
        lemma_hex_of_digit(0);
        lemma_hex_of_digit(c as int / 16);
        lemma_hex_of_digit(c as int % 16);
        assert(hex4(s, i + 2) == Some(c as int));
        assert((c as int) as char == c);
    } else {
        assert(s[i] == e[0]);
    }
}

proof fn lemma_escaped_front(x: Seq<char>)
    requires
        x.len() > 0,
    ensures
        escaped(x) == escaped_char(x[0]) + escaped(x.drop_first()),
    decreases x.len(),
{
    if x.len() == 1 {
        assert(x.drop_last() =~= Seq::<char>::empty());
        assert(x.drop_first() =~= Seq::<char>::empty());
        assert(escaped(x) =~= escaped_char(x[0]) + escaped(x.drop_first()));
    } else {
        lemma_escaped_front(x.drop_last());
        assert(x.drop_last().drop_first() =~= x.drop_first().drop_last());
        assert(escaped(x) =~= escaped_char(x[0]) + escaped(x.drop_first()));
    }
}

/// What `escaped` writes for a text, with the closing quote behind it,
/// `read_text` reads as that text.
#[verifier::rlimit(40)]
proof fn lemma_read_escaped(s: Seq<char>, i: int, x: Seq<char>)
    requires
        holds(s, i, escaped(x) + seq!['"']),
    ensures
        read_text(s, i) == Some((x, i + escaped(x).len() + 1)),
    decreases x.len(),
{
    if x.len() == 0 {
        lemma_holds_char(s, i, escaped(x) + seq!['"'], 0);
        assert(x =~= Seq::<char>::empty());
    } else {
        let c = x[0];
        let rest = x.drop_first();
        lemma_escaped_front(x);
        assert(escaped(x) + seq!['"'] =~= escaped_char(c) + (escaped(rest) + seq!['"']));
        lemma_holds_split(s, i, escaped_char(c), escaped(rest) + seq!['"']);
        lemma_read_escaped_char(s, i, c);
        lemma_read_escaped(s, i + escaped_char(c).len(), rest);
        assert(seq![c] + rest =~= x);
    }
}

/// The literal that `quoted` writes for a text, `read_string` reads as that
/// text.
pub(crate) proof fn lemma_read_quoted(s: Seq<char>, i: int, x: Seq<char>)
    requires
        holds(s, i, quoted(x)),
    ensures
        read_string(s, i) == Some((x, i + quoted(x).len())),
        quoted(x).len() >= 2,
        s[i] == '"',
{
    assert(quoted(x) =~= seq!['"'] + (escaped(x) + seq!['"']));
    lemma_holds_split(s, i, seq!['"'], escaped(x) + seq!['"']);
    lemma_holds_char(s, i, seq!['"'], 0);
    lemma_read_escaped(s, i + 1, x);
}

/// Every character of the text stands for itself in a string literal.
pub open spec fn plain(x: Seq<char>) -> bool {
    forall|k: int| 0 <= k < x.len() ==> escaped_char(#[trigger] x[k]) == seq![x[k]]
}

pub(crate) proof fn lemma_escaped_plain(x: Seq<char>)
    requires
        plain(x),
    ensures
        escaped(x) == x,
    decreases x.len(),
{
    if x.len() == 0 {
        assert(escaped(x) =~= x);
    } else {
        let front = x.drop_last();
        assert(plain(front)) by {
            assert forall|k: int| 0 <= k < front.len() implies escaped_char(#[trigger] front[k])
                == seq![front[k]] by {
                assert(front[k] == x[k]);
            }
        }
        lemma_escaped_plain(front);
        assert(escaped_char(x[x.len() - 1]) == seq![x[x.len() - 1]]);
        assert(escaped(x) =~= x);
    }
}

} // verus!
