//! Reading a tree manifest: the grammar of the file, and the parser that
//! follows it.
//!
//! A manifest is a JSON array of objects. Each object has the two members
//! `md5` and `relpath`, in either order, and both are strings. White space
//! may stand between the tokens and around the array.

use crate::json_format::{
    escaped_char, expect, holds, lemma_escaped_plain, lemma_holds_char, lemma_holds_split, lemma_read_quoted,
    plain, quoted, read_str, read_string, skip_spaces, skip_ws, take,
};
use crate::objects::{
    entries_json, entry_json, entry_views, tree_json, EntryView, Tree, TreeEntry, TreeError,
};
use crate::order::same;
use crate::text::chars_of;
use vstd::prelude::*;

verus! {

/// The member at `i`: a string, a colon, a string. The result is the key, the
/// value, and the position behind the member.
pub open spec fn read_member(s: Seq<char>, i: int) -> Option<(Seq<char>, Seq<char>, int)> {
    match read_string(s, i) {
        Some((key, j)) => match expect(s, skip_ws(s, j), ':') {
            Some(k) => match read_string(s, skip_ws(s, k)) {
                Some((value, end)) => Some((key, value, end)),
                None => None,
            },
            None => None,
        },
        None => None,
    }
}

/// The entry that two members make: one has the key `md5`, the other the key
/// `relpath`.
pub open spec fn entry_of(
    first: (Seq<char>, Seq<char>, int),
    second: (Seq<char>, Seq<char>, int),
) -> Option<EntryView> {
    if first.0 == "md5"@ && second.0 == "relpath"@ {
        Some((second.1, first.1))
    } else if first.0 == "relpath"@ && second.0 == "md5"@ {
        Some((first.1, second.1))
    } else {
        None
    }
}

/// The entry at `i`, an object of two members, and the position behind it.
#[verifier::opaque]
pub open spec fn read_entry(s: Seq<char>, i: int) -> Option<(EntryView, int)> {
    match expect(s, i, '{') {
        Some(j) => match read_member(s, skip_ws(s, j)) {
            Some(first) => match expect(s, skip_ws(s, first.2), ',') {
                Some(k) => match read_member(s, skip_ws(s, k)) {
                    Some(second) => match (
                        entry_of(first, second),
                        expect(s, skip_ws(s, second.2), '}'),
                    ) {
                        (Some(e), Some(end)) => Some((e, end)),
                        _ => None,
                    },
                    None => None,
                },
                None => None,
            },
            None => None,
        },
        None => None,
    }
}

/// The entries from `i` up to the end of the array, each with a comma before
/// it, and the position behind the closing bracket.
pub open spec fn read_more(s: Seq<char>, i: int) -> Option<(Seq<EntryView>, int)>
    decreases s.len() - i,
{
    let j = skip_ws(s, i);
    if expect(s, j, ']') is Some {
        Some((Seq::empty(), j + 1))
    } else {
        match expect(s, j, ',') {
            Some(k) => match read_entry(s, skip_ws(s, k)) {
                Some((e, next)) => if i < next <= s.len() {
                    match read_more(s, next) {
                        Some((rest, end)) => Some((seq![e] + rest, end)),
                        None => None,
                    }
                } else {
                    None
                },
                None => None,
            },
            None => None,
        }
    }
}

/// The entries of the array at `i`, and the position behind it.
pub open spec fn read_array(s: Seq<char>, i: int) -> Option<(Seq<EntryView>, int)> {
    match expect(s, i, '[') {
        Some(j) => {
            let k = skip_ws(s, j);
            if expect(s, k, ']') is Some {
                Some((Seq::empty(), k + 1))
            } else {
                match read_entry(s, k) {
                    Some((e, next)) => match read_more(s, next) {
                        Some((rest, end)) => Some((seq![e] + rest, end)),
                        None => None,
                    },
                    None => None,
                }
            }
        },
        None => None,
    }
}

/// The entries that a manifest lists, in order; `None` for a text that is no
/// manifest.
pub open spec fn parsed(s: Seq<char>) -> Option<Seq<EntryView>> {
    match read_array(s, skip_ws(s, 0)) {
        Some((entries, end)) => if skip_ws(s, end) == s.len() {
            Some(entries)
        } else {
            None
        },
        None => None,
    }
}

fn read_pair(s: &Vec<char>, i: usize) -> (r: Option<(String, String, usize)>)
    requires
        i <= s.len(),
    ensures
        match r {
            Some((key, value, n)) => read_member(s@, i as int) == Some((key@, value@, n as int))
                && i < n <= s.len(),
            None => read_member(s@, i as int) is None,
        },
{
    let (key, j) = match read_str(s, i) {
        Some(r) => r,
        None => {
            return None;
        },
    };
    let k = match take(s, skip_spaces(s, j), ':') {
        Some(k) => k,
        None => {
            return None;
        },
    };
    match read_str(s, skip_spaces(s, k)) {
        Some((value, end)) => Some((key, value, end)),
        None => None,
    }
}

fn read_object(s: &Vec<char>, i: usize) -> (r: Option<(TreeEntry, usize)>)
    requires
        i <= s.len(),
    ensures
        match r {
            Some((entry, n)) => read_entry(s@, i as int) == Some((entry@, n as int)) && i < n
                <= s.len(),
            None => read_entry(s@, i as int) is None,
        },
{
    proof {
        reveal(read_entry);
    }
    let j = match take(s, i, '{') {
        Some(j) => j,
        None => {
            return None;
        },
    };
    let (key1, value1, after1) = match read_pair(s, skip_spaces(s, j)) {
        Some(r) => r,
        None => {
            return None;
        },
    };
    let k = match take(s, skip_spaces(s, after1), ',') {
        Some(k) => k,
        None => {
            return None;
        },
    };
    let (key2, value2, after2) = match read_pair(s, skip_spaces(s, k)) {
        Some(r) => r,
        None => {
            return None;
        },
    };
    let end = take(s, skip_spaces(s, after2), '}');
    let md5_first = same(key1.as_str(), "md5") && same(key2.as_str(), "relpath");
    let md5_second = same(key1.as_str(), "relpath") && same(key2.as_str(), "md5");
    match end {
        Some(n) => {
            if md5_first {
                Some((TreeEntry { relpath: value2, oid: value1 }, n))
            } else if md5_second {
                Some((TreeEntry { relpath: value1, oid: value2 }, n))
            } else {
                None
            }
        },
        None => None,
    }
}

/// Entries with more entries behind them, where there are any.
pub open spec fn with_entries(head: Seq<EntryView>, rest: Option<(Seq<EntryView>, int)>) -> Option<
    (Seq<EntryView>, int),
> {
    match rest {
        Some((tail, end)) => Some((head + tail, end)),
        None => None,
    }
}

fn read_list(s: &Vec<char>, i: usize) -> (r: Option<(Vec<TreeEntry>, usize)>)
    requires
        i <= s.len(),
    ensures
        match r {
            Some((entries, n)) => read_array(s@, i as int) == Some(
                (entry_views(entries@), n as int),
            ) && n <= s.len(),
            None => read_array(s@, i as int) is None,
        },
{
    let mut entries: Vec<TreeEntry> = Vec::new();
    let j = match take(s, i, '[') {
        Some(j) => j,
        None => {
            return None;
        },
    };
    let k = skip_spaces(s, j);
    match take(s, k, ']') {
        Some(n) => {
            assert(entry_views(entries@) =~= Seq::<EntryView>::empty());
            return Some((entries, n));
        },
        None => {},
    }
    let mut at = match read_object(s, k) {
        Some((entry, next)) => {
            let ghost e = entry@;
            entries.push(entry);
            assert(entry_views(entries@) =~= seq![e]);
            next
        },
        None => {
            return None;
        },
    };
    proof {
        if let Some((rest, end)) = read_more(s@, at as int) {
            assert(entry_views(entries@) + rest =~= seq![entries@[0]@] + rest);
        }
    }
    loop
        invariant
            at <= s.len(),
            with_entries(entry_views(entries@), read_more(s@, at as int)) == read_array(
                s@,
                i as int,
            ),
        decreases s.len() - at,
    {
        let j = skip_spaces(s, at);
        match take(s, j, ']') {
            Some(n) => {
                assert(entry_views(entries@) + Seq::<EntryView>::empty() =~= entry_views(
                    entries@,
                ));
                return Some((entries, n));
            },
            None => {},
        }
        let k = match take(s, j, ',') {
            Some(k) => k,
            None => {
                return None;
            },
        };
        match read_object(s, skip_spaces(s, k)) {
            Some((entry, next)) => {
                let ghost before = entry_views(entries@);
                let ghost e = entry@;
                entries.push(entry);
                proof {
                    assert(entry_views(entries@) =~= before.push(e));
                    if let Some((rest, end)) = read_more(s@, next as int) {
                        assert(before.push(e) + rest =~= before + (seq![e] + rest));
                    }
                }
                at = next;
            },
            None => {
                return None;
            },
        }
    }
}

impl Tree {
    /// Reads a tree from the contents of its manifest. The tree lists the
    /// entries of the manifest in the order of the file; a text that is no
    /// manifest is an error.
    pub fn load_from(text: &str) -> (r: Result<Tree, TreeError>)
        ensures
            match r {
                Ok(tree) => parsed(text@) == Some(tree@),
                Err(TreeError::Json(_)) => parsed(text@) is None,
            },
    {
        let s = chars_of(text);
        let message = "the text is not the manifest of a tree";
        match read_list(&s, skip_spaces(&s, 0)) {
            Some((entries, end)) => {
                if skip_spaces(&s, end) == s.len() {
                    Ok(Tree { entries })
                } else {
                    Err(TreeError::Json(message.to_owned()))
                }
            },
            None => Err(TreeError::Json(message.to_owned())),
        }
    }
}

/// The pieces of the JSON object of an entry.
#[verifier::rlimit(40)]
proof fn lemma_entry_shape(e: EntryView)
    ensures
        plain("md5"@),
        plain("relpath"@),
        entry_json(e) == seq!['{'] + (quoted("md5"@) + (seq![':', ' '] + (quoted(e.1) + (seq![
            ',',
            ' ',
        ] + (quoted("relpath"@) + (seq![':', ' '] + (quoted(e.0) + seq!['}']))))))),
{
    reveal(entry_json);
    reveal_strlit("md5");
    reveal_strlit("relpath");
    reveal_strlit("{\"md5\": ");
    reveal_strlit(", \"relpath\": ");
    reveal_strlit("}");
    let k1 = "md5"@;
    let k2 = "relpath"@;
    assert(plain(k1)) by {
        assert forall|k: int| 0 <= k < k1.len() implies escaped_char(#[trigger] k1[k]) == seq![
            k1[k],
        ] by {
            assert(k1[k] == 'm' || k1[k] == 'd' || k1[k] == '5');
        }
    }
    assert(plain(k2)) by {
        assert forall|k: int| 0 <= k < k2.len() implies escaped_char(#[trigger] k2[k]) == seq![
            k2[k],
        ] by {
            assert(k2[k] == 'r' || k2[k] == 'e' || k2[k] == 'l' || k2[k] == 'p' || k2[k] == 'a'
                || k2[k] == 't' || k2[k] == 'h');
        }
    }
    lemma_escaped_plain(k1);
    lemma_escaped_plain(k2);
    assert("{\"md5\": "@ =~= seq!['{'] + quoted(k1) + seq![':', ' ']);
    assert(", \"relpath\": "@ =~= seq![',', ' '] + quoted(k2) + seq![':', ' ']);
    assert("}"@ =~= seq!['}']);
    assert(entry_json(e) =~= seq!['{'] + (quoted(k1) + (seq![':', ' '] + (quoted(e.1) + (seq![
        ',',
        ' ',
    ] + (quoted(k2) + (seq![':', ' '] + (quoted(e.0) + seq!['}']))))))));
}

/// A member as the serializer writes it, `read_member` reads with its key
/// and its value.
#[verifier::rlimit(40)]
proof fn lemma_read_written_member(
    s: Seq<char>,
    i: int,
    key: Seq<char>,
    value: Seq<char>,
    rest: Seq<char>,
)
    requires
        holds(s, i, quoted(key) + (seq![':', ' '] + (quoted(value) + rest))),
    ensures
        read_member(s, i) == Some((key, value, i + quoted(key).len() + 2 + quoted(value).len())),
        holds(s, i + quoted(key).len() + 2 + quoted(value).len(), rest),
        s[i] == '"',
{
    let colon = seq![':', ' '];
    lemma_holds_split(s, i, quoted(key), colon + (quoted(value) + rest));
    lemma_read_quoted(s, i, key);
    let j = i + quoted(key).len();
    lemma_holds_split(s, j, colon, quoted(value) + rest);
    lemma_holds_char(s, j, colon, 0);
    lemma_holds_char(s, j, colon, 1);
    lemma_holds_split(s, j + 2, quoted(value), rest);
    lemma_read_quoted(s, j + 2, value);
    assert(skip_ws(s, j) == j);
    assert(skip_ws(s, j + 2) == j + 2);
    assert(skip_ws(s, j + 1) == j + 2);
}

/// The JSON object that the serializer writes for an entry, `read_entry`
/// reads as that entry.
#[verifier::rlimit(40)]
proof fn lemma_read_written_entry(s: Seq<char>, i: int, e: EntryView)
    requires
        holds(s, i, entry_json(e)),
    ensures
        read_entry(s, i) == Some((e, i + entry_json(e).len())),
        entry_json(e).len() >= 2,
        s[i] == '{',
{
    reveal(read_entry);
    lemma_entry_shape(e);
    let k1 = "md5"@;
    let k2 = "relpath"@;
    let comma = seq![',', ' '];
    let close = seq!['}'];
    let second = quoted(k2) + (seq![':', ' '] + (quoted(e.0) + close));
    let first = quoted(k1) + (seq![':', ' '] + (quoted(e.1) + (comma + second)));
    lemma_holds_split(s, i, seq!['{'], first);
    lemma_holds_char(s, i, seq!['{'], 0);
    lemma_read_written_member(s, i + 1, k1, e.1, comma + second);
    assert(skip_ws(s, i + 1) == i + 1);
    let j = i + 1 + quoted(k1).len() + 2 + quoted(e.1).len();
    lemma_holds_split(s, j, comma, second);
    lemma_holds_char(s, j, comma, 0);
    lemma_holds_char(s, j, comma, 1);
    lemma_read_written_member(s, j + 2, k2, e.0, close);
    assert(skip_ws(s, j) == j);
    assert(skip_ws(s, j + 2) == j + 2);
    assert(skip_ws(s, j + 1) == j + 2);
    let end = j + 2 + quoted(k2).len() + 2 + quoted(e.0).len();
    lemma_holds_char(s, end, close, 0);
    assert(skip_ws(s, end) == end);
    assert(k1 != k2) by {
        reveal_strlit("md5");
        reveal_strlit("relpath");
        assert(k1.len() != k2.len());
    }
}

/// The entries of a list, each as the serializer writes it with `, ` before
/// it.
pub open spec fn more_json(entries: Seq<EntryView>) -> Seq<char>
    decreases entries.len(),
{
    if entries.len() == 0 {
        Seq::empty()
    } else {
        seq![',', ' '] + (entry_json(entries[0]) + more_json(entries.drop_first()))
    }
}

#[verifier::rlimit(40)]
proof fn lemma_more_push(entries: Seq<EntryView>, e: EntryView)
    ensures
        more_json(entries.push(e)) == more_json(entries) + seq![',', ' '] + entry_json(e),
    decreases entries.len(),
{
    let grown = entries.push(e);
    let comma = seq![',', ' '];
    assert(grown[0] == if entries.len() == 0 { e } else { entries[0] });
    assert(more_json(grown) == comma + (entry_json(grown[0]) + more_json(grown.drop_first())));
    if entries.len() == 0 {
        assert(grown.drop_first() =~= Seq::<EntryView>::empty());
        assert(more_json(grown.drop_first()) =~= Seq::<char>::empty());
        assert(more_json(entries) =~= Seq::<char>::empty());
        assert(more_json(grown) =~= more_json(entries) + comma + entry_json(e));
    } else {
        lemma_more_push(entries.drop_first(), e);
        assert(grown.drop_first() =~= entries.drop_first().push(e));
        assert(more_json(entries) == comma + (entry_json(entries[0]) + more_json(
            entries.drop_first(),
        )));
        assert(more_json(grown) =~= more_json(entries) + comma + entry_json(e));
    }
}

#[verifier::rlimit(40)]
proof fn lemma_entries_front(entries: Seq<EntryView>)
    requires
        entries.len() > 0,
    ensures
        entries_json(entries) == entry_json(entries[0]) + more_json(entries.drop_first()),
    decreases entries.len(),
{
    reveal_strlit(", ");
    assert(", "@ =~= seq![',', ' ']);
    if entries.len() == 1 {
        assert(entries.drop_first() =~= Seq::<EntryView>::empty());
        assert(entries_json(entries) =~= entry_json(entries[0]) + more_json(
            entries.drop_first(),
        ));
    } else {
        let front = entries.drop_last();
        lemma_entries_front(front);
        lemma_more_push(front.drop_first(), entries.last());
        assert(front.drop_first().push(entries.last()) =~= entries.drop_first());
        assert(entries_json(entries) =~= entry_json(entries[0]) + more_json(
            entries.drop_first(),
        ));
    }
}

/// The rest of an array as the serializer writes it, `read_more` reads as
/// the entries it was written for.
#[verifier::rlimit(40)]
proof fn lemma_read_written_more(s: Seq<char>, i: int, entries: Seq<EntryView>)
    requires
        holds(s, i, more_json(entries) + seq![']']),
    ensures
        read_more(s, i) == Some((entries, i + more_json(entries).len() + 1)),
    decreases entries.len(),
{
    let close = seq![']'];
    if entries.len() == 0 {
        lemma_holds_char(s, i, more_json(entries) + close, 0);
        assert(skip_ws(s, i) == i);
    } else {
        let comma = seq![',', ' '];
        let e = entries[0];
        let rest = entries.drop_first();
        assert(more_json(entries) + close =~= comma + (entry_json(e) + (more_json(rest) + close)));
        lemma_holds_split(s, i, comma, entry_json(e) + (more_json(rest) + close));
        lemma_holds_char(s, i, comma, 0);
        lemma_holds_char(s, i, comma, 1);
        lemma_holds_split(s, i + 2, entry_json(e), more_json(rest) + close);
        lemma_read_written_entry(s, i + 2, e);
        assert(skip_ws(s, i) == i);
        assert(skip_ws(s, i + 2) == i + 2);
        assert(skip_ws(s, i + 1) == i + 2);
        lemma_read_written_more(s, i + 2 + entry_json(e).len(), rest);
        assert(seq![e] + rest =~= entries);
    }
}

proof fn lemma_tree_shape(entries: Seq<EntryView>)
    ensures
        tree_json(entries) == seq!['['] + (entries_json(entries) + seq![']']),
{
    reveal_strlit("[");
    reveal_strlit("]");
    assert("["@ =~= seq!['[']);
    assert("]"@ =~= seq![']']);
    assert(tree_json(entries) =~= seq!['['] + (entries_json(entries) + seq![']']));
}

proof fn lemma_read_empty_array(s: Seq<char>)
    requires
        s == seq!['['] + (Seq::<char>::empty() + seq![']']),
    ensures
        read_array(s, 0) == Some((Seq::<EntryView>::empty(), s.len() as int)),
{
    assert(s =~= seq!['[', ']']);
    assert(s[0] == '[' && s[1] == ']');
    assert(skip_ws(s, 1) == 1);
    assert(expect(s, 0, '[') == Some(1int));
    assert(expect(s, 1, ']') == Some(2int));
}

proof fn lemma_three_parts(s: Seq<char>, a: Seq<char>, b: Seq<char>, c: Seq<char>)
    requires
        s == a + (b + c),
    ensures
        holds(s, 0, a),
        holds(s, a.len() as int, b),
        holds(s, (a.len() + b.len()) as int, c),
        s.len() == a.len() + b.len() + c.len(),
{
    assert(s.subrange(0, s.len() as int) =~= s);
    lemma_holds_split(s, 0, a, b + c);
    lemma_holds_split(s, a.len() as int, b, c);
}

proof fn lemma_read_array_steps(
    s: Seq<char>,
    e: EntryView,
    next: int,
    rest: Seq<EntryView>,
    end: int,
)
    requires
        s.len() > 1,
        s[0] == '[',
        s[1] == '{',
        read_entry(s, 1) == Some((e, next)),
        read_more(s, next) == Some((rest, end)),
    ensures
        read_array(s, 0) == Some((seq![e] + rest, end)),
{
    assert(skip_ws(s, 1) == 1);
    assert(expect(s, 0, '[') == Some(1int));
    assert(expect(s, 1, ']') is None);
}

#[verifier::rlimit(40)]
proof fn lemma_read_full_array(s: Seq<char>, e: EntryView, rest: Seq<EntryView>)
    requires
        s == seq!['['] + (entry_json(e) + (more_json(rest) + seq![']'])),
    ensures
        read_array(s, 0) == Some((seq![e] + rest, s.len() as int)),
{
    let first = entry_json(e);
    let tail = more_json(rest) + seq![']'];
    let next: int = 1 + first.len() as int;
    lemma_three_parts(s, seq!['['], first, tail);
    lemma_holds_char(s, 0, seq!['['], 0);
    lemma_read_written_entry(s, 1, e);
    lemma_read_written_more(s, next, rest);
    lemma_read_array_steps(s, e, next, rest, s.len() as int);
}

proof fn lemma_full_shape(entries: Seq<EntryView>)
    requires
        entries.len() > 0,
    ensures
        tree_json(entries) == seq!['['] + (entry_json(entries[0]) + (more_json(
            entries.drop_first(),
        ) + seq![']'])),
{
    lemma_tree_shape(entries);
    lemma_entries_front(entries);
    assert(entries_json(entries) + seq![']'] =~= entry_json(entries[0]) + (more_json(
        entries.drop_first(),
    ) + seq![']']));
}

proof fn lemma_read_written_tree(entries: Seq<EntryView>)
    ensures
        read_array(tree_json(entries), 0) == Some((entries, tree_json(entries).len() as int)),
        tree_json(entries).len() > 0,
        tree_json(entries)[0] == '[',
{
    let s = tree_json(entries);
    lemma_tree_shape(entries);
    if entries.len() == 0 {
        lemma_read_empty_array(s);
        assert(entries =~= Seq::<EntryView>::empty());
    } else {
        lemma_full_shape(entries);
        lemma_read_full_array(s, entries[0], entries.drop_first());
        assert(seq![entries[0]] + entries.drop_first() =~= entries);
    }
}

/// Reading what was written gives back what was written: the manifest that
/// the serializer writes for a list of entries is read as that list.
pub proof fn lemma_round_trip(entries: Seq<EntryView>)
    ensures
        parsed(tree_json(entries)) == Some(entries),
{
    let s = tree_json(entries);
    lemma_read_written_tree(entries);
    assert(skip_ws(s, 0) == 0);
    assert(skip_ws(s, s.len() as int) == s.len());
}

} // verus!
