//! The documents that are open in the editor.

use vstd::prelude::*;
use crate::text::same_text;

verus! {

broadcast use vstd::string::group_string_axioms;

/// An open document.
#[derive(Debug)]
struct Document {
    uri: String,
    content: String,
}

/// The open documents and their texts, by URI.
#[derive(Debug)]
pub struct Documents {
    entries: Vec<Document>,
}

/// The first entry with the URI, or the number of entries where there is none.
spec fn position(entries: Seq<Document>, uri: Seq<char>) -> int
    decreases entries.len(),
{
    if entries.len() == 0 || entries[0].uri@ == uri {
        0
    } else {
        1 + position(entries.skip(1), uri)
    }
}

proof fn lemma_position_is(entries: Seq<Document>, uri: Seq<char>, n: int)
    requires
        0 <= n <= entries.len(),
        forall|i: int| 0 <= i < n ==> (#[trigger] entries[i]).uri@ != uri,
        n < entries.len() ==> entries[n].uri@ == uri,
    ensures
        position(entries, uri) == n,
    decreases entries.len(),
{
    if n > 0 {
        assert(entries[0].uri@ != uri);
        assert forall|i: int| 0 <= i < n - 1 implies (#[trigger] entries.skip(1)[i]).uri@ != uri by {
            assert(entries[i + 1].uri@ != uri);
        }
        lemma_position_is(entries.skip(1), uri, n - 1);
    }
}

proof fn lemma_position(entries: Seq<Document>, uri: Seq<char>)
    ensures
        0 <= position(entries, uri) <= entries.len(),
        forall|i: int| 0 <= i < position(entries, uri) ==> (#[trigger] entries[i]).uri@ != uri,
        position(entries, uri) < entries.len() ==> entries[position(entries, uri)].uri@ == uri,
    decreases entries.len(),
{
    if entries.len() > 0 && entries[0].uri@ != uri {
        lemma_position(entries.skip(1), uri);
        assert forall|i: int| 0 <= i < position(entries, uri) implies (#[trigger] entries[i]).uri@ != uri by {
            if i > 0 {
                assert(entries.skip(1)[i - 1].uri@ != uri);
            }
        }
    }
}

impl View for Documents {
    type V = Map<Seq<char>, Seq<char>>;

    closed spec fn view(&self) -> Map<Seq<char>, Seq<char>> {
        let e = self.entries@;
        Map::new(|u: Seq<char>| position(e, u) < e.len(), |u: Seq<char>| e[position(e, u)].content@)
    }
}

impl Documents {
    /// No URI has two entries.
    pub closed spec fn wf(&self) -> bool {
        forall|i: int, j: int|
            0 <= i < j < self.entries@.len() ==> (#[trigger] self.entries@[i]).uri@ != (#[trigger] self.entries@[j]).uri@
    }

    /// No documents.
    pub fn new() -> (r: Self)
        ensures
            r.wf(),
            r@ == Map::<Seq<char>, Seq<char>>::empty(),
    {
        let r: Documents = Documents { entries: Vec::new() };
        assert(r@ =~= Map::<Seq<char>, Seq<char>>::empty());
        r
    }

    /// The entry with the URI, if there is one.
    fn find(&self, uri: &str) -> (r: Option<usize>)
        ensures
            match r {
                Some(n) => n < self.entries@.len() && position(self.entries@, uri@) == n,
                None => position(self.entries@, uri@) == self.entries@.len(),
            },
    {
        let mut i: usize = 0;
        while i < self.entries.len()
            invariant
                i <= self.entries@.len(),
                forall|j: int| 0 <= j < i ==> (#[trigger] self.entries@[j]).uri@ != uri@,
            decreases self.entries@.len() - i,
        {
            if same_text(self.entries[i].uri.as_str(), uri) {
                proof {
                    lemma_position_is(self.entries@, uri@, i as int);
                }
                return Some(i);
            }
            i += 1;
        }
        proof {
            lemma_position_is(self.entries@, uri@, i as int);
        }
        None
    }

    /// The text of a document, if it is open.
    pub fn get(&self, uri: &str) -> (r: Option<String>)
        ensures
            match r {
                Some(t) => self@.contains_key(uri@) && t@ == self@[uri@],
                None => !self@.contains_key(uri@),
            },
    {
        match self.find(uri) {
            Some(i) => Some(self.entries[i].content.as_str().to_owned()),
            None => None,
        }
    }

    /// Opens a document, or replaces its text.
    pub fn open(&mut self, uri: &str, content: String)
        requires
            old(self).wf(),
        ensures
            final(self).wf(),
            final(self)@ == old(self)@.insert(uri@, content@),
    {
        let ghost before = self.entries@;
        let ghost map = self@;
        let found: Option<usize> = self.find(uri);
        proof {
            lemma_position(before, uri@);
        }
        let entry: Document = Document { uri: uri.to_owned(), content };
        match found {
            Some(i) => {
                self.entries.set(i, entry);
            },
            None => {
                self.entries.push(entry);
            },
        }
        proof {
            let after = self.entries@;
            assert forall|u: Seq<char>| true implies {
                &&& u != uri@ && #[trigger] position(before, u) < before.len() ==> position(after, u) == position(
                    before,
                    u,
                )
                &&& u != uri@ && position(before, u) == before.len() ==> position(after, u) == after.len()
                &&& u == uri@ ==> position(after, u) == position(before, u)
            } by {
                lemma_position(before, u);
                lemma_position(after, u);
                let k = position(before, u);
                if u == uri@ || k < before.len() {
                    assert forall|i: int| 0 <= i < k implies (#[trigger] after[i]).uri@ != u by {
                        assert(before[i].uri@ != u);
                    }
                    lemma_position_is(after, u, k);
                } else {
                    assert forall|i: int| 0 <= i < after.len() implies (#[trigger] after[i]).uri@ != u by {
                        if i < before.len() {
                            assert(before[i].uri@ != u);
                        }
                    }
                    lemma_position_is(after, u, after.len() as int);
                }
            }
            assert forall|u: Seq<char>| #[trigger] self@.contains_key(u) == map.insert(uri@, content@).contains_key(
                u,
            ) by {
                lemma_position(before, u);
                assert(position(before, u) <= before.len());
            }
            assert forall|u: Seq<char>| self@.contains_key(u) implies #[trigger] self@[u] == map.insert(uri@, content@)[u] by {
                lemma_position(before, u);
                lemma_position(after, u);
                assert(position(before, u) <= before.len());
            }
            assert(self@ =~= map.insert(uri@, content@));
        }
    }

    /// Takes the changes that an editor reports of a document. Each holds the
    /// whole text, so the last one counts.
    pub fn change(&mut self, uri: &str, changes: Vec<String>)
        requires
            old(self).wf(),
        ensures
            final(self).wf(),
            final(self)@ == (if changes@.len() == 0 {
                old(self)@
            } else {
                old(self)@.insert(uri@, changes@.last()@)
            }),
    {
        let mut changes: Vec<String> = changes;
        if let Some(content) = changes.pop() {
            self.open(uri, content);
        }
    }

    /// Closes a document.
    pub fn close(&mut self, uri: &str)
        requires
            old(self).wf(),
        ensures
            final(self).wf(),
            final(self)@ == old(self)@.remove(uri@),
    {
        let ghost before = self.entries@;
        let ghost map = self@;
        let found: Option<usize> = self.find(uri);
        if let Some(n) = found {
            self.entries.remove(n);
        }
        proof {
            let after = self.entries@;
            lemma_position(before, uri@);
            let n = position(before, uri@);
            if n < before.len() {
                assert forall|u: Seq<char>| true implies {
                    &&& u != uri@ && #[trigger] position(before, u) < n ==> position(after, u) == position(before, u)
                    &&& u != uri@ && position(before, u) > n ==> position(after, u) == position(before, u) - 1
                    &&& u == uri@ ==> position(after, u) == after.len()
                    &&& u != uri@ ==> position(before, u) != n
                } by {
                    lemma_position(before, u);
                    let k = position(before, u);
                    let m = if u == uri@ {
                        after.len() as int
                    } else if k < n {
                        k
                    } else {
                        k - 1
                    };
                    assert forall|i: int| 0 <= i < m implies (#[trigger] after[i]).uri@ != u by {
                        if i < n {
                            assert(after[i] == before[i]);
                            assert(before[i].uri@ != before[n].uri@);
                        } else {
                            assert(after[i] == before[i + 1]);
                            assert(before[n].uri@ != before[i + 1].uri@);
                        }
                    }
                    lemma_position_is(after, u, m);
                }
                assert(self.wf()) by {
                    assert forall|i: int, j: int| 0 <= i < j < after.len() implies (#[trigger] after[i]).uri@ != (
                    #[trigger] after[j]).uri@ by {
                        let a = if i < n {
                            i
                        } else {
                            i + 1
                        };
                        let b = if j < n {
                            j
                        } else {
                            j + 1
                        };
                        assert(before[a].uri@ != before[b].uri@);
                    }
                }
            }
            assert forall|u: Seq<char>| #[trigger] self@.contains_key(u) == map.remove(uri@).contains_key(u) by {
                lemma_position(before, u);
                assert(position(before, u) <= before.len());
            }
            assert forall|u: Seq<char>| self@.contains_key(u) implies #[trigger] self@[u] == map.remove(uri@)[u] by {
                lemma_position(before, u);
                lemma_position(after, u);
                assert(position(before, u) <= before.len());
            }
            assert(self@ =~= map.remove(uri@));
        }
    }
}

} // verus!
