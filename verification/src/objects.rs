//! Objects of the store: a file's content, known by its identifier, or a tree,
//! the ordered manifest of the files under a directory.

use crate::hash::{md5, md5_hex};
use crate::json_format::{quote, quoted};
use crate::order::{lemma_lex_irreflexive, lemma_lex_total, oid_lt, path_lt};
use vstd::prelude::*;
use vstd::utf8::encode_utf8;

verus! {

/// The identifier of a file object: the MD5 digest of its content in
/// hexadecimal.
pub type HashFile = String;

/// An object identifier; that of a tree ends in `.dir`.
pub type Oid = String;

/// What can go wrong while a tree manifest is read.
#[derive(Debug)]
pub enum TreeError {
    /// The text is not the JSON of a tree; the message says why.
    Json(String),
}

/// One file of a tree: where it lies below the root, with `/` between
/// components, and the identifier of its content.
#[derive(Clone, Debug, PartialEq, Eq)]
pub struct TreeEntry {
    pub relpath: String,
    pub oid: Oid,
}

/// An entry as a pair of texts: the relative path, then the identifier.
pub type EntryView = (Seq<char>, Seq<char>);

impl View for TreeEntry {
    type V = EntryView;

    open spec fn view(&self) -> EntryView {
        (self.relpath@, self.oid@)
    }
}

/// The entries of a list, each as a pair of texts.
pub open spec fn entry_views(entries: Seq<TreeEntry>) -> Seq<EntryView> {
    entries.map_values(|e: TreeEntry| e@)
}

/// The manifest of a directory: its files, in order.
#[derive(Clone, Debug, Default)]
pub struct Tree {
    pub entries: Vec<TreeEntry>,
}

impl View for Tree {
    type V = Seq<EntryView>;

    open spec fn view(&self) -> Seq<EntryView> {
        entry_views(self.entries@)
    }
}

/// An object of the store.
#[derive(Clone, Debug)]
pub enum Object {
    Tree(Tree),
    HashFile(HashFile),
}

/// Entries are ordered by path, component by component, and entries of one
/// path by identifier.
pub open spec fn entry_lt(a: EntryView, b: EntryView) -> bool {
    path_lt(a.0, b.0) || (a.0 == b.0 && oid_lt(a.1, b.1))
}

/// No entry comes before an earlier one.
pub open spec fn sorted(entries: Seq<EntryView>) -> bool {
    forall|i: int, j: int| 0 <= i < j < entries.len() ==> !entry_lt(entries[j], entries[i])
}

/// Each entry's path comes strictly before the next one's: the entries are in
/// order and no path occurs twice.
pub open spec fn strictly_sorted(entries: Seq<EntryView>) -> bool {
    forall|i: int, j: int| 0 <= i < j < entries.len() ==> path_lt(entries[i].0, entries[j].0)
}

/// No two entries have the same path.
pub open spec fn distinct_paths(entries: Seq<EntryView>) -> bool {
    forall|i: int, j: int| 0 <= i < j < entries.len() ==> entries[i].0 != entries[j].0
}

/// Of two different entries exactly one comes before the other.
pub proof fn lemma_entry_total(a: EntryView, b: EntryView)
    ensures
        a == b || entry_lt(a, b) || entry_lt(b, a),
        !(entry_lt(a, b) && entry_lt(b, a)),
        !entry_lt(a, a),
{
    lemma_lex_total(a.0, b.0, true);
    lemma_lex_total(a.1, b.1, false);
    lemma_lex_irreflexive(a.0, true);
    lemma_lex_irreflexive(a.1, false);
    lemma_lex_irreflexive(b.0, true);
}

/// Entries in order whose paths all differ are in strictly rising order of
/// path.
pub proof fn lemma_sorted_distinct_is_strict(entries: Seq<EntryView>)
    requires
        sorted(entries),
        distinct_paths(entries),
    ensures
        strictly_sorted(entries),
{
    assert forall|i: int, j: int| 0 <= i < j < entries.len() implies path_lt(
        entries[i].0,
        entries[j].0,
    ) by {
        lemma_lex_total(entries[i].0, entries[j].0, true);
        assert(!entry_lt(entries[j], entries[i]));
    }
}

/// There is one way to put given entries in order: two lists in order that
/// hold the same entries, each as often as the other, are the same list.
#[verifier::rlimit(40)]
pub proof fn lemma_sorted_unique(first: Seq<EntryView>, second: Seq<EntryView>)
    requires
        sorted(first),
        sorted(second),
        first.to_multiset() == second.to_multiset(),
    ensures
        first == second,
    decreases first.len(),
{
    broadcast use vstd::seq_lib::group_to_multiset_ensures;

    assert(first.len() == second.len()) by {
        vstd::seq_lib::to_multiset_len(first);
        vstd::seq_lib::to_multiset_len(second);
    }
    if first.len() == 0 {
        assert(first =~= second);
    } else {
        let x = first[0];
        let y = second[0];
        assert(first.to_multiset().contains(x));
        assert(second.to_multiset().contains(y));
        assert(second.contains(x));
        assert(first.contains(y));
        let j = choose|j: int| 0 <= j < second.len() && second[j] == x;
        let i = choose|i: int| 0 <= i < first.len() && first[i] == y;
        lemma_entry_total(x, y);
        if j > 0 {
            assert(!entry_lt(second[j], second[0]));
        }
        if i > 0 {
            assert(!entry_lt(first[i], first[0]));
        }
        assert(x == y);
        let rest1 = first.remove(0);
        let rest2 = second.remove(0);
        assert(rest1.to_multiset() =~= first.to_multiset().remove(x));
        assert(rest2.to_multiset() =~= second.to_multiset().remove(y));
        assert(sorted(rest1)) by {
            assert forall|a: int, b: int| 0 <= a < b < rest1.len() implies !entry_lt(
                rest1[b],
                rest1[a],
            ) by {
                assert(!entry_lt(first[b + 1], first[a + 1]));
            }
        }
        assert(sorted(rest2)) by {
            assert forall|a: int, b: int| 0 <= a < b < rest2.len() implies !entry_lt(
                rest2[b],
                rest2[a],
            ) by {
                assert(!entry_lt(second[b + 1], second[a + 1]));
            }
        }
        lemma_sorted_unique(rest1, rest2);
        assert(first =~= seq![x] + rest1);
        assert(second =~= seq![y] + rest2);
    }
}

/// The JSON object of one entry: the key `md5` first, then `relpath`.
#[verifier::opaque]
pub open spec fn entry_json(e: EntryView) -> Seq<char> {
    "{\"md5\": "@ + quoted(e.1) + ", \"relpath\": "@ + quoted(e.0) + "}"@
}

/// The JSON objects of `entries`, in order, with `, ` between them.
pub open spec fn entries_json(entries: Seq<EntryView>) -> Seq<char>
    decreases entries.len(),
{
    if entries.len() == 0 {
        Seq::empty()
    } else if entries.len() == 1 {
        entry_json(entries[0])
    } else {
        entries_json(entries.drop_last()) + ", "@ + entry_json(entries.last())
    }
}

/// The canonical serialization of a tree: a JSON array of its entries, with
/// `, ` after each comma and `: ` after each colon that JSON's grammar asks for.
pub open spec fn tree_json(entries: Seq<EntryView>) -> Seq<char> {
    "["@ + entries_json(entries) + "]"@
}

/// The identifier of a tree: the MD5 digest of its canonical serialization in
/// hexadecimal, followed by `.dir`.
pub open spec fn tree_oid(entries: Seq<EntryView>) -> Seq<char> {
    md5_hex(encode_utf8(tree_json(entries))) + ".dir"@
}

impl Tree {
    /// The canonical serialization of the tree.
    pub fn serialize(&self) -> (r: Result<String, TreeError>)
        ensures
            r matches Ok(s) && s@ == tree_json(self@),
    {
        let mut out = String::new();
        out.append("[");
        let mut i: usize = 0;
        while i < self.entries.len()
            invariant
                i <= self.entries.len(),
                out@ == "["@ + entries_json(self@.take(i as int)),
            decreases self.entries.len() - i,
        {
            let entry = &self.entries[i];
            let oid = quote(entry.oid.as_str()).unwrap();
            let relpath = quote(entry.relpath.as_str()).unwrap();
            if i > 0 {
                out.append(", ");
            }
            out.append("{\"md5\": ");
            out.append(oid.as_str());
            out.append(", \"relpath\": ");
            out.append(relpath.as_str());
            out.append("}");
            proof {
                reveal(entry_json);
                let next = self@.take(i + 1);
                assert(next.drop_last() =~= self@.take(i as int));
                assert(next.last() == entry@);
                assert(out@ =~= "["@ + entries_json(next));
            }
            i += 1;
        }
        out.append("]");
        proof {
            assert(self@.take(i as int) =~= self@);
        }
        Ok(out)
    }

    /// The canonical serialization of the tree, and the tree's identifier.
    pub fn digest(&self) -> (r: Result<(String, String), TreeError>)
        ensures
            r matches Ok(pair) && pair.0@ == tree_json(self@) && pair.1@ == tree_oid(self@)
                && pair.1@.len() == 36,
    {
        let serialized = match self.serialize() {
            Ok(s) => s,
            Err(e) => {
                return Err(e);
            },
        };
        let mut oid = md5(serialized.as_str().as_bytes());
        proof {
            reveal_strlit(".dir");
        }
        oid.append(".dir");
        Ok((serialized, oid))
    }
}

} // verus!
