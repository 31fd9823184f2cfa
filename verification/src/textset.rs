//! Sets of texts and counters keyed by text, kept in vectors without
//! repeated keys.
use vstd::prelude::*;
use crate::keyed::{keys_distinct, has_key, seq_to_map, lemma_map_at, lemma_map_empty, lemma_map_update, lemma_map_push};
use crate::text::str_eq;

verus! {

/// A finite set of texts.
pub struct TextSet {
    items: Vec<String>,
}

impl TextSet {
    /// The texts, in the order they were added.
    pub closed spec fn elems(&self) -> Seq<Seq<char>> {
        self.items@.map_values(|s: String| s@)
    }

    /// No text is held twice.
    pub closed spec fn wf(&self) -> bool {
        self.elems().no_duplicates()
    }

    /// The empty set.
    pub fn new() -> (r: TextSet)
        ensures
            r.wf(),
            r@ == Set::<Seq<char>>::empty(),
    {
        let r = TextSet { items: Vec::new() };
        assert(r.elems().to_set() =~= Set::<Seq<char>>::empty());
        r
    }

    /// Whether `s` is in the set.
    pub fn contains(&self, s: &str) -> (r: bool)
        ensures
            r == self@.contains(s@),
    {
        let mut i: usize = self.items.len();
        while i > 0
            invariant
                i <= self.items@.len(),
                forall|j: int| i <= j < self.items@.len() ==> self.items@[j]@ != s@,
            decreases i,
        {
            if str_eq(self.items[i - 1].as_str(), s) {
                assert(self.elems()[i - 1] == s@);
                return true;
            }
            i = i - 1;
        }
        assert(!self.elems().contains(s@));
        false
    }

    /// Adds `s` to the set.
    pub fn insert(&mut self, s: &str)
        requires
            old(self).wf(),
        ensures
            final(self).wf(),
            final(self)@ == old(self)@.insert(s@),
    {
        if !self.contains(s) {
            let ghost before = self.elems();
            self.items.push(s.to_owned());
            assert(self.elems() =~= before.push(s@));
            proof {
                before.lemma_push_to_set_commute(s@);
            }
        } else {
            assert(self@ =~= self@.insert(s@));
        }
    }

    /// The number of texts in the set.
    pub fn len(&self) -> (r: usize)
        requires
            self.wf(),
        ensures
            r == self@.len(),
            self@.finite(),
    {
        proof {
            self.elems().unique_seq_to_set();
        }
        self.items.len()
    }
}

impl View for TextSet {
    type V = Set<Seq<char>>;

    closed spec fn view(&self) -> Set<Seq<char>> {
        self.elems().to_set()
    }
}

/// A count for each of a finite set of texts.
pub struct TextCounts {
    entries: Vec<(String, u32)>,
}

impl TextCounts {
    /// The texts and their counts, in the order the texts were first counted.
    pub closed spec fn pairs(&self) -> Seq<(Seq<char>, u32)> {
        self.entries@.map_values(|e: (String, u32)| (e.0@, e.1))
    }

    /// No text is held twice.
    pub closed spec fn wf(&self) -> bool {
        keys_distinct(self.pairs())
    }

    /// No text counted yet.
    pub fn new() -> (r: TextCounts)
        ensures
            r.wf(),
            r@ == Map::<Seq<char>, u32>::empty(),
    {
        let r = TextCounts { entries: Vec::new() };
        proof {
            lemma_map_empty(r.pairs());
        }
        r
    }

    fn index_of(&self, s: &str) -> (r: Option<usize>)
        requires
            self.wf(),
        ensures
            r matches Some(i) ==> i < self.pairs().len() && self.pairs()[i as int].0 == s@,
            r is None ==> !has_key(self.pairs(), s@),
    {
        let mut i: usize = self.entries.len();
        while i > 0
            invariant
                i <= self.entries@.len(),
                forall|j: int| i <= j < self.entries@.len() ==> self.pairs()[j].0 != s@,
            decreases i,
        {
            if str_eq(self.entries[i - 1].0.as_str(), s) {
                return Some(i - 1);
            }
            i = i - 1;
        }
        None
    }

    /// Adds `delta` to the count of `s` (a text not yet counted starts at 0).
    pub fn add(&mut self, s: &str, delta: u32)
        requires
            old(self).wf(),
            (if old(self)@.contains_key(s@) { old(self)@[s@] as int } else { 0int }) + delta <= u32::MAX,
        ensures
            final(self).wf(),
            final(self)@ == old(self)@.insert(
                s@,
                ((if old(self)@.contains_key(s@) { old(self)@[s@] as int } else { 0int }) + delta) as u32,
            ),
    {
        let ghost before = self.pairs();
        match self.index_of(s) {
            Some(i) => {
                proof {
                    lemma_map_at(before, i as int);
                }
                let n = self.entries[i].1 + delta;
                let key = s.to_owned();
                self.entries.set(i, (key, n));
                proof {
                    assert(self.pairs() =~= before.update(i as int, (before[i as int].0, n)));
                    lemma_map_update(before, i as int, n);
                }
            },
            None => {
                self.entries.push((s.to_owned(), delta));
                proof {
                    assert(self.pairs() =~= before.push((s@, delta)));
                    lemma_map_push(before, s@, delta);
                }
            },
        }
    }

    /// The texts and their counts, each text once.
    pub fn to_vec(&self) -> (r: Vec<(String, u32)>)
        requires
            self.wf(),
        ensures
            keys_distinct(r@.map_values(|e: (String, u32)| (e.0@, e.1))),
            seq_to_map(r@.map_values(|e: (String, u32)| (e.0@, e.1))) == self@,
    {
        let mut out: Vec<(String, u32)> = Vec::new();
        let mut i: usize = 0;
        while i < self.entries.len()
            invariant
                i <= self.entries@.len(),
                out@.len() == i,
                out@.map_values(|e: (String, u32)| (e.0@, e.1)) == self.pairs().take(i as int),
            decreases self.entries@.len() - i,
        {
            let e = &self.entries[i];
            let key = e.0.clone();
            assert(key@ == self.pairs()[i as int].0);
            let ghost before = out@;
            out.push((key, e.1));
            assert(out@ == before.push((key, e.1)));
            proof {
                let f = |e: (String, u32)| (e.0@, e.1);
                assert(before.map_values(f) == self.pairs().take(i as int));
                assert forall|j: int| 0 <= j < i implies out@.map_values(f)[j] == self.pairs()[j] by {
                    assert(out@[j] == before[j]);
                    assert(before.map_values(f)[j] == self.pairs().take(i as int)[j]);
                }
                assert(out@.map_values(f)[i as int] == self.pairs()[i as int]);
                assert(out@.map_values(f) =~= self.pairs().take(i + 1));
            }
            i = i + 1;
        }
        assert(self.pairs().take(i as int) =~= self.pairs());
        out
    }
}

impl View for TextCounts {
    type V = Map<Seq<char>, u32>;

    closed spec fn view(&self) -> Map<Seq<char>, u32> {
        seq_to_map(self.pairs())
    }
}

} // verus!
