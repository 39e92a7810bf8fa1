use crate::statistics::FlashcardStatistics;
use vstd::prelude::*;
use vstd::seq_lib::*;

verus! {

/// One question with its answer and the record of the attempts at it.
pub struct Flashcard {
    pub front: String,
    pub back: String,
    pub statistics: FlashcardStatistics,
}

/// The cards, the selection of card indices that is being drilled, the
/// cursor into that selection, and the statistics of the whole session.
pub struct Quiz {
    pub items: Vec<Flashcard>,
    pub selection: Vec<usize>,
    pub current: usize,
    pub aggregate_statistics: FlashcardStatistics,
}

/// How often the card at `index` was answered wrongly.
pub open spec fn wrong_attempts(items: Seq<Flashcard>, index: usize) -> int {
    items[index as int].statistics.attempts - items[index as int].statistics.correct
}

/// The order in which cards are ranked by difficulty: more wrong attempts
/// first, and among equals the later card first.
pub open spec fn ranks_before(items: Seq<Flashcard>, a: usize, b: usize) -> bool {
    wrong_attempts(items, a) > wrong_attempts(items, b) || (wrong_attempts(items, a)
        == wrong_attempts(items, b) && a >= b)
}

/// The indices `0, 1, .., n - 1`.
pub open spec fn load_order(n: nat) -> Seq<usize> {
    Seq::new(n, |i: int| i as usize)
}

/// Where the cursor stands after the selection was replaced by one of `len`
/// entries: where it stood if that is still inside, else at the start.
pub open spec fn cursor_within(cursor: usize, len: nat) -> usize {
    if cursor < len {
        cursor
    } else {
        0
    }
}

/// Shuffles with `rand::seq::SliceRandom::shuffle`, driven by `rand::rng()`.
/// The slice implementation only swaps elements, so the same indices are
/// there afterwards, each as often as before; nothing is said of their order.
#[verifier::external_body]
fn shuffle_indices(indices: &mut Vec<usize>)
    ensures
        final(indices)@.to_multiset() == old(indices)@.to_multiset(),
{
    let mut rng = rand::rng();
    rand::seq::SliceRandom::shuffle(&mut indices[..], &mut rng);
}

impl Quiz {
    /// Every selected index names a card, every record is consistent, and the
    /// cursor is inside the selection unless the selection is empty.
    pub open spec fn wf(&self) -> bool {
        &&& self.items.len() > 0
        &&& forall|i: int| 0 <= i < self.items.len() ==> (#[trigger] self.items[i]).statistics.wf()
        &&& self.aggregate_statistics.wf()
        &&& forall|i: int|
            0 <= i < self.selection.len() ==> (#[trigger] self.selection[i]) < self.items.len()
        &&& self.selection.len() > 0 ==> self.current < self.selection.len()
    }

    /// A quiz can be run: there is a card under the cursor.
    pub open spec fn active(&self) -> bool {
        self.wf() && self.selection.len() > 0
    }

    /// The index of the card under the cursor.
    pub open spec fn current_index(&self) -> usize
        recommends
            self.active(),
    {
        self.selection[self.current as int]
    }

    /// This quiz is `before` with one more attempt at the card under the
    /// cursor, recorded for that card and for the session, and nothing else
    /// changed.
    pub open spec fn attempt_recorded(&self, before: &Quiz, correct: bool) -> bool {
        &&& self.items.len() == before.items.len()
        &&& forall|i: int|
            0 <= i < before.items.len() ==> {
                &&& (#[trigger] self.items[i]).front == before.items[i].front
                &&& self.items[i].back == before.items[i].back
                &&& self.items[i].statistics == if i == before.current_index() {
                    before.items[i].statistics.recorded(correct)
                } else {
                    before.items[i].statistics
                }
            }
        &&& self.aggregate_statistics == before.aggregate_statistics.recorded(correct)
        &&& self.selection == before.selection
        &&& self.current == before.current
    }

    /// Builds the quiz from the records of the input, one pair of front and
    /// back for each card: all cards selected in load order, nothing
    /// attempted yet, the cursor on the last card.
    pub fn from_csv_input(records: Vec<(String, String)>) -> (quiz: Quiz)
        requires
            records.len() > 0,
        ensures
            quiz.items.len() == records.len(),
            forall|i: int|
                0 <= i < records.len() ==> {
                    &&& (#[trigger] quiz.items[i]).front@ == records[i].0@
                    &&& quiz.items[i].back@ == records[i].1@
                    &&& quiz.items[i].statistics == crate::statistics::replay(Seq::empty())
                },
            quiz.selection@ == load_order(records.len() as nat),
            quiz.current == records.len() - 1,
            quiz.aggregate_statistics == crate::statistics::replay(Seq::empty()),
            quiz.active(),
    {
        let n_items = records.len();
        let mut items: Vec<Flashcard> = Vec::new();
        let mut i: usize = 0;
        while i < n_items
            invariant
                i <= n_items == records.len(),
                items.len() == i,
                forall|k: int|
                    0 <= k < i ==> {
                        &&& (#[trigger] items[k]).front@ == records[k].0@
                        &&& items[k].back@ == records[k].1@
                        &&& items[k].statistics == crate::statistics::replay(Seq::empty())
                        &&& items[k].statistics.wf()
                    },
            decreases n_items - i,
        {
            items.push(
                Flashcard {
                    front: records[i].0.clone(),
                    back: records[i].1.clone(),
                    statistics: FlashcardStatistics::new(),
                },
            );
            i = i + 1;
        }
        let mut ret = Quiz {
            items,
            selection: Vec::new(),
            current: n_items - 1,
            aggregate_statistics: FlashcardStatistics::new(),
        };
        ret.select_all();
        ret
    }

    /// Tells whether a quiz can be run on this state.
    pub fn is_active(&self) -> (ret: bool)
        ensures
            ret == self.active(),
    {
        let n_items = self.items.len();
        let n_selected = self.selection.len();
        if n_items == 0 || n_selected == 0 || self.current >= n_selected {
            return false;
        }
        if !self.aggregate_statistics.is_wf() {
            return false;
        }
        let mut i: usize = 0;
        while i < n_items
            invariant
                i <= n_items == self.items.len(),
                forall|k: int| 0 <= k < i ==> (#[trigger] self.items[k]).statistics.wf(),
            decreases n_items - i,
        {
            if !self.items[i].statistics.is_wf() {
                assert(!self.items[i as int].statistics.wf());
                return false;
            }
            i = i + 1;
        }
        let mut j: usize = 0;
        while j < n_selected
            invariant
                j <= n_selected == self.selection.len(),
                n_items == self.items.len(),
                forall|k: int| 0 <= k < j ==> (#[trigger] self.selection[k]) < n_items,
            decreases n_selected - j,
        {
            if self.selection[j] >= n_items {
                assert(!(self.selection[j as int] < self.items.len()));
                return false;
            }
            j = j + 1;
        }
        true
    }

    /// Tells whether an attempt at the card under the cursor can be
    /// recorded: a quiz can be run, and neither the card's counter of
    /// attempts nor the session's is at its limit.
    pub fn can_record(&self) -> (ret: bool)
        ensures
            ret == (self.active() && self.items[self.current_index() as int].statistics.attempts
                < u32::MAX && self.aggregate_statistics.attempts < u32::MAX),
    {
        self.is_active() && self.items[self.selection[self.current]].statistics.attempts
            < u32::MAX && self.aggregate_statistics.attempts < u32::MAX
    }

    /// Selects all cards, in load order.
    pub fn select_all(&mut self)
        ensures
            final(self).selection@ == load_order(old(self).items.len() as nat),
            final(self).items == old(self).items,
            final(self).aggregate_statistics == old(self).aggregate_statistics,
            final(self).current == cursor_within(old(self).current, old(self).items.len() as nat),
            old(self).items.len() > 0 && old(self).aggregate_statistics.wf() && (forall|i: int|
                0 <= i < old(self).items.len() ==> (#[trigger] old(
                    self,
                ).items[i]).statistics.wf()) ==> final(self).active(),
    {
        let n_items = self.items.len();
        let mut selection: Vec<usize> = Vec::new();
        let mut i: usize = 0;
        while i < n_items
            invariant
                i <= n_items,
                selection@ == load_order(i as nat),
            decreases n_items - i,
        {
            selection.push(i);
            i = i + 1;
            assert(selection@ =~= load_order(i as nat));
        }
        self.selection = selection;
        if self.current >= n_items {
            self.current = 0;
        }
    }

    /// Puts the selection into a random order.
    pub fn shuffle_selection(&mut self)
        ensures
            final(self).selection@.to_multiset() == old(self).selection@.to_multiset(),
            final(self).selection.len() == old(self).selection.len(),
            final(self).items == old(self).items,
            final(self).current == old(self).current,
            final(self).aggregate_statistics == old(self).aggregate_statistics,
            old(self).wf() ==> final(self).wf(),
            old(self).active() ==> final(self).active(),
    {
        let ghost before = self.selection@;
        shuffle_indices(&mut self.selection);
        proof {
            let after = self.selection@;
            to_multiset_len(before);
            to_multiset_len(after);
            assert forall|i: int| 0 <= i < after.len() implies (#[trigger] after[i])
                < self.items.len() || !old(self).wf() by {
                if old(self).wf() {
                    to_multiset_contains(after, after[i]);
                    to_multiset_contains(before, after[i]);
                    assert(after.contains(after[i]));
                    let k = choose|k: int| 0 <= k < before.len() && before[k] == after[i];
                    assert(before[k] < self.items.len());
                }
            }
        }
    }

    /// Whether the card at `a` is ranked before the card at `b`.
    fn ranked_before(&self, a: usize, b: usize) -> (ret: bool)
        requires
            a < self.items.len(),
            b < self.items.len(),
            self.items[a as int].statistics.wf(),
            self.items[b as int].statistics.wf(),
        ensures
            ret == ranks_before(self.items@, a, b),
    {
        let wrong_a: u32 = self.items[a].statistics.attempts - self.items[a].statistics.correct;
        let wrong_b: u32 = self.items[b].statistics.attempts - self.items[b].statistics.correct;
        wrong_a > wrong_b || (wrong_a == wrong_b && a >= b)
    }

    /// Narrows the current selection to its `n` hardest cards, measured by the
    /// number of wrong attempts, hardest first.
    pub fn select_hardest(&mut self, n: usize)
        requires
            old(self).wf(),
        ensures
            final(self).items == old(self).items,
            final(self).aggregate_statistics == old(self).aggregate_statistics,
            final(self).selection.len() == if n < old(self).selection.len() {
                n
            } else {
                old(self).selection.len()
            },
            forall|i: int, j: int|
                0 <= i <= j < final(self).selection.len() ==> ranks_before(
                    final(self).items@,
                    #[trigger] final(self).selection[i],
                    #[trigger] final(self).selection[j],
                ),
            exists|dropped: Seq<usize>|
                {
                    &&& (final(self).selection@ + dropped).to_multiset() == old(
                        self,
                    ).selection@.to_multiset()
                    &&& forall|i: int, j: int|
                        0 <= i < final(self).selection.len() && 0 <= j < dropped.len()
                            ==> ranks_before(
                            final(self).items@,
                            #[trigger] final(self).selection[i],
                            #[trigger] dropped[j],
                        )
                },
            final(self).current == cursor_within(
                old(self).current,
                final(self).selection.len() as nat,
            ),
            final(self).wf(),
    {
        let len = self.selection.len();
        let keep = if n < len {
            n
        } else {
            len
        };
        let ghost given = self.selection@;
        let mut i: usize = 0;
        while i < keep
            invariant
                i <= keep <= len,
                self.items == old(self).items,
                self.aggregate_statistics == old(self).aggregate_statistics,
                self.current == old(self).current,
                old(self).wf(),
                self.selection.len() == len,
                self.selection@.to_multiset() == given.to_multiset(),
                forall|k: int| 0 <= k < len ==> (#[trigger] self.selection[k]) < self.items.len(),
                forall|a: int, b: int|
                    0 <= a < i && a <= b < len ==> ranks_before(
                        self.items@,
                        #[trigger] self.selection[a],
                        #[trigger] self.selection[b],
                    ),
            decreases keep - i,
        {
            let mut best = i;
            let mut j = i + 1;
            while j < len
                invariant
                    i <= best < j <= len,
                    self.items == old(self).items,
                    old(self).wf(),
                    self.selection.len() == len,
                    forall|k: int|
                        0 <= k < len ==> (#[trigger] self.selection[k]) < self.items.len(),
                    forall|b: int|
                        i <= b < j ==> ranks_before(
                            self.items@,
                            self.selection[best as int],
                            #[trigger] self.selection[b],
                        ),
                decreases len - j,
            {
                if self.ranked_before(self.selection[j], self.selection[best]) {
                    best = j;
                }
                j = j + 1;
            }
            let ghost before = self.selection@;
            let first = self.selection[i];
            let hardest = self.selection[best];
            self.selection.set(i, hardest);
            self.selection.set(best, first);
            proof {
                broadcast use vstd::multiset::group_multiset_axioms;

                let middle = before.update(i as int, hardest);
                to_multiset_update(before, i as int, hardest);
                to_multiset_update(middle, best as int, first);
                to_multiset_contains(before, first);
                assert(before.contains(first));
                assert(self.selection@.to_multiset() =~= before.to_multiset());
            }
            i = i + 1;
        }
        let ghost ranked = self.selection@;
        self.selection.truncate(keep);
        if self.current >= keep {
            self.current = 0;
        }
        proof {
            let dropped = ranked.subrange(keep as int, len as int);
            assert(self.selection@ + dropped =~= ranked);
            assert forall|i: int, j: int|
                0 <= i < self.selection.len() && 0 <= j < dropped.len() implies ranks_before(
                self.items@,
                #[trigger] self.selection[i],
                #[trigger] dropped[j],
            ) by {
                assert(dropped[j] == ranked[keep + j]);
                assert(self.selection[i] == ranked[i]);
            }
        }
    }

    /// The card under the cursor.
    pub fn current(&self) -> (card: &Flashcard)
        requires
            self.active(),
        ensures
            *card == self.items[self.current_index() as int],
    {
        &self.items[self.selection[self.current]]
    }

    /// Moves the cursor to the next selected card, and from the last one back
    /// to the first.
    pub fn advance(&mut self)
        requires
            old(self).active(),
        ensures
            final(self).current == (old(self).current + 1) % (old(self).selection.len() as int),
            old(self).selection.len() == 1 ==> final(self).current == old(self).current,
            final(self).items == old(self).items,
            final(self).selection == old(self).selection,
            final(self).aggregate_statistics == old(self).aggregate_statistics,
            final(self).active(),
    {
        self.current = (self.current + 1) % self.selection.len();
    }

    /// Records an attempt at the card under the cursor, for that card and for
    /// the session.
    pub fn record_attempt(&mut self, correct: bool)
        requires
            old(self).active(),
            old(self).items[old(self).current_index() as int].statistics.attempts < u32::MAX,
            old(self).aggregate_statistics.attempts < u32::MAX,
        ensures
            final(self).attempt_recorded(old(self), correct),
            final(self).active(),
    {
        let index = self.selection[self.current];
        self.items[index].statistics.record_attempt(correct);
        self.aggregate_statistics.record_attempt(correct);
    }
}

} // verus!
