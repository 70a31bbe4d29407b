//! Visit tracking: how often each entry has been offered and displayed.
//!
//! The store is sparse: entries never reached have no record.

use vstd::prelude::*;

use crate::assoc::{assoc_map, is_last_key, lemma_assoc_dom, lemma_assoc_push, lemma_assoc_update, lemma_assoc_value};
use crate::data::EntryKey;

verus! {

/// How often one entry was offered and displayed.
#[derive(Debug, Clone, Copy, Default, PartialEq, Eq, Structural)]
pub struct VisitCount {
    /// Times the entry appeared in a response menu.
    pub offered: u32,
    /// Times the entry was presented as a line.
    pub displayed: u32,
}

/// The counts of a never-reached entry.
pub open spec fn zero_count() -> VisitCount {
    VisitCount { offered: 0, displayed: 0 }
}

/// The counts a map holds for an entry; zero if it holds none.
pub open spec fn count_in(m: Map<EntryKey, VisitCount>, at: EntryKey) -> VisitCount {
    if m.contains_key(at) {
        m[at]
    } else {
        zero_count()
    }
}

/// Every recorded count can still be incremented.
pub open spec fn room_in(m: Map<EntryKey, VisitCount>) -> bool {
    forall|k: EntryKey|
        #![trigger m[k]]
        m.contains_key(k) ==> m[k].offered < u32::MAX && m[k].displayed < u32::MAX
}

/// Visit counts for every entry that has been reached, keyed by conversation
/// and entry id.
#[derive(Debug)]
pub struct Visits {
    /// Position-count pairs; a later pair for a position overrides an earlier one.
    pub(crate) entries: Vec<(EntryKey, VisitCount)>,
}

impl View for Visits {
    type V = Map<EntryKey, VisitCount>;

    closed spec fn view(&self) -> Map<EntryKey, VisitCount> {
        assoc_map(self.entries@)
    }
}

impl Visits {
    /// An empty store.
    pub fn new() -> (r: Visits)
        ensures
            r@ == Map::<EntryKey, VisitCount>::empty(),
    {
        Visits { entries: Vec::new() }
    }

    /// The last position holding `at`.
    fn position(&self, at: EntryKey) -> (r: Option<usize>)
        ensures
            match r {
                Some(i) => is_last_key(self.entries@, at, i as int),
                None => forall|j: int| 0 <= j < self.entries@.len() ==> (#[trigger] self.entries@[j]).0 != at,
            },
    {
        let n = self.entries.len();
        let mut i: usize = n;
        while i > 0
            invariant
                i <= n == self.entries@.len(),
                forall|j: int| i <= j < n ==> (#[trigger] self.entries@[j]).0 != at,
            decreases i,
        {
            i = i - 1;
            if self.entries[i].0.0 == at.0 && self.entries[i].0.1 == at.1 {
                return Some(i);
            }
        }
        None
    }

    /// The counts for an entry; zero if never reached.
    pub fn count(&self, at: (crate::data::ConversationId, crate::data::EntryId)) -> (r: VisitCount)
        ensures
            r == count_in(self@, at),
    {
        match self.position(at) {
            Some(i) => {
                proof {
                    lemma_assoc_value(self.entries@, at, i as int);
                }
                self.entries[i].1
            },
            None => {
                proof {
                    lemma_assoc_dom(self.entries@, at);
                }
                VisitCount { offered: 0, displayed: 0 }
            },
        }
    }

    /// Times the entry was presented as a line.
    pub fn displayed(&self, at: (crate::data::ConversationId, crate::data::EntryId)) -> (r: u32)
        ensures
            r == count_in(self@, at).displayed,
    {
        self.count(at).displayed
    }

    /// Times the entry appeared in a response menu.
    pub fn offered(&self, at: (crate::data::ConversationId, crate::data::EntryId)) -> (r: u32)
        ensures
            r == count_in(self@, at).offered,
    {
        self.count(at).offered
    }

    /// Stores the counts of an entry.
    pub(crate) fn put(&mut self, at: EntryKey, c: VisitCount)
        ensures
            final(self)@ == old(self)@.insert(at, c),
    {
        match self.position(at) {
            Some(i) => {
                proof {
                    lemma_assoc_update(self.entries@, at, i as int, c);
                }
                self.entries.set(i, (at, c));
            },
            None => {
                proof {
                    lemma_assoc_push(self.entries@, at, c);
                }
                self.entries.push((at, c));
            },
        }
    }

    /// Records the entry being presented as a line.
    pub fn record_displayed(&mut self, at: (crate::data::ConversationId, crate::data::EntryId))
        requires
            count_in(old(self)@, at).displayed < u32::MAX,
        ensures
            final(self)@ == old(self)@.insert(
                at,
                VisitCount {
                    offered: count_in(old(self)@, at).offered,
                    displayed: (count_in(old(self)@, at).displayed + 1) as u32,
                },
            ),
    {
        let c = self.count(at);
        self.put(at, VisitCount { offered: c.offered, displayed: c.displayed + 1 });
    }

    /// Records the entry being offered in a menu.
    pub fn record_offered(&mut self, at: (crate::data::ConversationId, crate::data::EntryId))
        requires
            count_in(old(self)@, at).offered < u32::MAX,
        ensures
            final(self)@ == old(self)@.insert(
                at,
                VisitCount {
                    offered: (count_in(old(self)@, at).offered + 1) as u32,
                    displayed: count_in(old(self)@, at).displayed,
                },
            ),
    {
        let c = self.count(at);
        self.put(at, VisitCount { offered: c.offered + 1, displayed: c.displayed });
    }

    /// Whether every recorded count can still be incremented.
    pub fn has_room(&self) -> (r: bool)
        ensures
            r == room_in(self@),
    {
        let n = self.entries.len();
        let mut i: usize = 0;
        while i < n
            invariant
                i <= n == self.entries@.len(),
                forall|j: int|
                    0 <= j < i && is_last_key(self.entries@, #[trigger] self.entries@[j].0, j)
                        ==> self.entries@[j].1.offered < u32::MAX && self.entries@[j].1.displayed
                        < u32::MAX,
            decreases n - i,
        {
            let c = self.entries[i].1;
            if c.offered == u32::MAX || c.displayed == u32::MAX {
                let k = self.entries[i].0;
                match self.position(k) {
                    Some(last) => {
                        if last == i {
                            proof {
                                lemma_assoc_value(self.entries@, k, i as int);
                            }
                            return false;
                        }
                    },
                    None => {},
                }
            }
            i = i + 1;
        }
        proof {
            assert forall|k: EntryKey| #![trigger self@[k]] self@.contains_key(k) implies self@[k].offered < u32::MAX
                && self@[k].displayed < u32::MAX by {
                lemma_assoc_dom(self.entries@, k);
                let j = choose|j: int| 0 <= j < self.entries@.len() && (#[trigger] self.entries@[j]).0 == k;
                self.lemma_last_of(k, j);
            }
        }
        true
    }

    /// The position-count pairs of the store: a list whose map is the store.
    pub fn pairs(&self) -> (r: Vec<(EntryKey, VisitCount)>)
        ensures
            assoc_map(r@) == self@,
    {
        let mut out: Vec<(EntryKey, VisitCount)> = Vec::new();
        let mut i: usize = 0;
        while i < self.entries.len()
            invariant
                i <= self.entries@.len(),
                out@ == self.entries@.take(i as int),
            decreases self.entries@.len() - i,
        {
            out.push(self.entries[i]);
            proof {
                assert(out@ =~= self.entries@.take(i + 1));
            }
            i = i + 1;
        }
        proof {
            assert(self.entries@.take(self.entries@.len() as int) =~= self.entries@);
        }
        out
    }

    /// A key held at `j` has a last position at or after `j`, whose value is the map's.
    proof fn lemma_last_of(&self, k: EntryKey, j: int)
        requires
            0 <= j < self.entries@.len(),
            self.entries@[j].0 == k,
        ensures
            exists|i: int| j <= i < self.entries@.len() && is_last_key(self.entries@, k, i) && self@[k] == self.entries@[i].1,
        decreases self.entries@.len() - j,
    {
        if exists|m: int| j < m < self.entries@.len() && (#[trigger] self.entries@[m]).0 == k {
            let m = choose|m: int| j < m < self.entries@.len() && (#[trigger] self.entries@[m]).0 == k;
            self.lemma_last_of(k, m);
        } else {
            lemma_assoc_value(self.entries@, k, j);
        }
    }
}

/// Recording a display counts one more display of that entry and changes
/// nothing else; recording an offer counts one more offer of that entry and
/// changes nothing else.
pub proof fn law_record_counts_one(m: Map<EntryKey, VisitCount>, at: EntryKey, other: EntryKey)
    requires
        count_in(m, at).displayed < u32::MAX,
        count_in(m, at).offered < u32::MAX,
    ensures
        ({
            let d = m.insert(at, VisitCount { offered: count_in(m, at).offered, displayed: (count_in(m, at).displayed + 1) as u32 });
            &&& count_in(d, at).displayed == count_in(m, at).displayed + 1
            &&& count_in(d, at).offered == count_in(m, at).offered
            &&& other != at ==> count_in(d, other) == count_in(m, other)
        }),
        ({
            let o = m.insert(at, VisitCount { offered: (count_in(m, at).offered + 1) as u32, displayed: count_in(m, at).displayed });
            &&& count_in(o, at).offered == count_in(m, at).offered + 1
            &&& count_in(o, at).displayed == count_in(m, at).displayed
            &&& other != at ==> count_in(o, other) == count_in(m, other)
        }),
{
}

} // verus!
