//! The lines that are added to a `.gitignore` for tracked data.

use crate::order::same;
use crate::text::{join_with, joined_with, texts, trim_end, trimmed_end};
use vstd::prelude::*;

verus! {

/// Patterns to be ignored, one for each line.
#[derive(Clone, Debug, Default)]
pub struct IgnoreList {
    pub ignore: Vec<String>,
}

/// What is appended to a file that holds the lines `existing` already, before
/// trimming: a line break, then each of `items` that is not among `existing`,
/// in order, with a line break after it.
pub open spec fn missing_lines(items: Seq<Seq<char>>, existing: Seq<Seq<char>>) -> Seq<char>
    decreases items.len(),
{
    if items.len() == 0 {
        seq!['\n']
    } else if existing.contains(items.last()) {
        missing_lines(items.drop_last(), existing)
    } else {
        missing_lines(items.drop_last(), existing) + items.last() + seq!['\n']
    }
}

fn contains(list: &Vec<String>, item: &str) -> (r: bool)
    ensures
        r == texts(list@).contains(item@),
{
    let mut i: usize = 0;
    while i < list.len()
        invariant
            i <= list.len(),
            forall|j: int| 0 <= j < i ==> texts(list@)[j] != item@,
        decreases list.len() - i,
    {
        if same(list[i].as_str(), item) {
            assert(texts(list@)[i as int] == item@);
            return true;
        }
        i += 1;
    }
    false
}

impl IgnoreList {
    /// The contents of a new file: the patterns, one for each line.
    pub fn as_new(&self) -> (contents: String)
        ensures
            contents@ == joined_with(texts(self.ignore@), seq!['\n']) + seq!['\n'],
    {
        proof {
            reveal_strlit("\n");
            assert("\n"@ =~= seq!['\n']);
        }
        let mut contents = join_with(&self.ignore, "\n");
        contents.append("\n");
        contents
    }

    /// What is appended to a file whose lines are `existing`: the patterns
    /// that are not among them, one for each line, after a line break and
    /// without white space at the end.
    pub fn as_string(&self, existing: &Vec<String>) -> (contents: String)
        ensures
            contents@ == trimmed_end(missing_lines(texts(self.ignore@), texts(existing@))),
    {
        let ghost items = texts(self.ignore@);
        proof {
            reveal_strlit("\n");
            assert("\n"@ =~= seq!['\n']);
        }
        let mut out = String::new();
        out.append("\n");
        let mut i: usize = 0;
        assert(items.take(0) =~= Seq::<Seq<char>>::empty());
        while i < self.ignore.len()
            invariant
                i <= self.ignore.len(),
                items == texts(self.ignore@),
                "\n"@ == seq!['\n'],
                out@ == missing_lines(items.take(i as int), texts(existing@)),
            decreases self.ignore.len() - i,
        {
            let item = &self.ignore[i];
            proof {
                assert(items.take(i + 1).drop_last() =~= items.take(i as int));
                assert(items.take(i + 1).last() == item@);
            }
            if !contains(existing, item.as_str()) {
                out.append(item.as_str());
                out.append("\n");
            }
            i += 1;
        }
        assert(items.take(i as int) =~= items);
        trim_end(out.as_str())
    }
}

} // verus!
