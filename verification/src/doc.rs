use vstd::prelude::*;
use crate::util::str_eq;

verus! {

/// A parsed configuration document: the key-value tree that the loader
/// hands the graph builder. Only the shapes the builder reads are kept
/// apart; every other leaf is `Other`.
#[derive(Debug)]
pub enum DocValue {
    Str(String),
    Bool(bool),
    Arr(Vec<DocValue>),
    Table(Vec<(String, DocValue)>),
    Other,
}

/// First value stored under `key` in a table's entry list, by characters.
pub open spec fn table_get(entries: Seq<(String, DocValue)>, key: Seq<char>) -> Option<DocValue>
    decreases entries.len(),
{
    if entries.len() == 0 {
        None
    } else if entries[0].0@ == key {
        Some(entries[0].1)
    } else {
        table_get(entries.drop_first(), key)
    }
}

/// Lookup under `key`: only a table holds anything.
pub open spec fn doc_get(v: DocValue, key: Seq<char>) -> Option<DocValue> {
    match v {
        DocValue::Table(entries) => table_get(entries@, key),
        _ => None,
    }
}

/// The string a value holds, if it is a string leaf.
pub open spec fn doc_as_str(v: Option<DocValue>) -> Option<Seq<char>> {
    match v {
        Some(DocValue::Str(s)) => Some(s@),
        _ => None,
    }
}

proof fn lemma_table_get_step(entries: Seq<(String, DocValue)>, key: Seq<char>, i: int)
    requires
        0 <= i < entries.len(),
        forall|j: int| 0 <= j < i ==> #[trigger] entries[j].0@ != key,
    ensures
        entries[i].0@ == key ==> table_get(entries, key) == Some(entries[i].1),
    decreases entries.len(),
{
    if entries.len() > 0 && entries[0].0@ != key {
        if i > 0 {
            lemma_table_get_step(entries.drop_first(), key, i - 1);
        }
    }
}

proof fn lemma_table_get_none(entries: Seq<(String, DocValue)>, key: Seq<char>)
    requires
        forall|j: int| 0 <= j < entries.len() ==> #[trigger] entries[j].0@ != key,
    ensures
        table_get(entries, key) is None,
    decreases entries.len(),
{
    if entries.len() > 0 {
        lemma_table_get_none(entries.drop_first(), key);
    }
}

impl DocValue {
    /// Looks `key` up when this value is a table; anything else holds nothing.
    #[verifier::loop_isolation(false)]
    pub fn get<'a>(&'a self, key: &str) -> (r: Option<&'a DocValue>)
        ensures
            match r {
                Some(d) => doc_get(*self, key@) == Some(*d),
                None => doc_get(*self, key@) is None,
            },
    {
        match self {
            DocValue::Table(entries) => {
                let ghost all = entries@;
                let mut i: usize = 0;
                while i < entries.len()
                    invariant
                        all == entries@,
                        0 <= i <= entries.len(),
                        forall|j: int| 0 <= j < i ==> #[trigger] all[j].0@ != key@,
                    decreases entries.len() - i,
                {
                    if str_eq(entries[i].0.as_str(), key) {
                        proof {
                            lemma_table_get_step(all, key@, i as int);
                            assert(doc_get(*self, key@) == table_get(all, key@));
                        }
                        return Some(&entries[i].1);
                    }
                    i += 1;
                }
                proof {
                    lemma_table_get_none(all, key@);
                }
                None
            },
            _ => None,
        }
    }

    /// The borrowed string, when this value is a string leaf.
    pub fn as_str<'a>(&'a self) -> (r: Option<&'a String>)
        ensures
            match r {
                Some(s) => doc_as_str(Some(*self)) == Some(s@),
                None => doc_as_str(Some(*self)) is None,
            },
    {
        match self {
            DocValue::Str(s) => Some(s),
            _ => None,
        }
    }
}

} // verus!
