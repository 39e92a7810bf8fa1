use vstd::prelude::*;
use vstd::string::*;

verus! {

/// Number of outcomes that the history register can hold.
pub const HISTORY_SLOTS: u32 = 64;

/// Attempt counters of one card, or of a whole session, with a 64-slot record
/// of the most recent outcomes (newest in the lowest bit).
pub struct FlashcardStatistics {
    pub attempts: u32,
    pub correct: u32,
    pub history: u64,
}

/// Whether slot `i` of the register `h` holds a correct outcome. Slot 0 is
/// the newest outcome; slots from 64 on do not exist.
pub open spec fn slot(h: u64, i: nat) -> bool {
    i < 64 && (h >> (i as u64)) & 1 == 1
}

/// How many of the slots below `n` hold a correct outcome.
pub open spec fn correct_below(h: u64, n: nat) -> nat
    decreases n,
{
    if n == 0 {
        0
    } else {
        correct_below(h, (n - 1) as nat) + if slot(h, (n - 1) as nat) { 1nat } else { 0nat }
    }
}

/// How many outcomes in `outcomes` are correct.
pub open spec fn count_correct(outcomes: Seq<bool>) -> nat
    decreases outcomes.len(),
{
    if outcomes.len() == 0 {
        0
    } else {
        count_correct(outcomes.drop_last()) + if outcomes.last() { 1nat } else { 0nat }
    }
}

/// The last `n` outcomes of `outcomes`, or all of them where there are fewer.
pub open spec fn newest(outcomes: Seq<bool>, n: nat) -> Seq<bool> {
    if n >= outcomes.len() {
        outcomes
    } else {
        outcomes.subrange(outcomes.len() - n, outcomes.len() as int)
    }
}

/// The text that shows the slots below `n` of `h`, oldest (highest) first.
pub open spec fn render(h: u64, n: nat, correct_char: Seq<char>, incorrect_char: Seq<char>) -> Seq<
    char,
>
    decreases n,
{
    if n == 0 {
        Seq::empty()
    } else {
        (if slot(h, (n - 1) as nat) { correct_char } else { incorrect_char }) + render(
            h,
            (n - 1) as nat,
            correct_char,
            incorrect_char,
        )
    }
}

/// The statistics after the outcomes in `outcomes` were recorded in order,
/// starting from fresh statistics.
pub open spec fn replay(outcomes: Seq<bool>) -> FlashcardStatistics
    decreases outcomes.len(),
{
    if outcomes.len() == 0 {
        FlashcardStatistics { attempts: 0, correct: 0, history: 0 }
    } else {
        replay(outcomes.drop_last()).recorded(outcomes.last())
    }
}

impl FlashcardStatistics {
    /// The counters never disagree, and the register holds nothing in slots
    /// that no attempt has reached yet.
    pub open spec fn wf(&self) -> bool {
        &&& self.correct <= self.attempts
        &&& forall|i: nat| self.attempts <= i < 64 ==> !slot(self.history, i)
    }

    /// The statistics after one more attempt.
    pub open spec fn recorded(self, correct: bool) -> FlashcardStatistics {
        FlashcardStatistics {
            attempts: (self.attempts + 1) as u32,
            correct: if correct { (self.correct + 1) as u32 } else { self.correct },
            history: if correct { (self.history << 1) | 1 } else { self.history << 1 },
        }
    }

    pub open spec fn spec_recent_attempts(&self) -> nat {
        if self.attempts < 64 { self.attempts as nat } else { 64 }
    }

    pub open spec fn spec_recently_correct(&self) -> nat {
        correct_below(self.history, 64)
    }

    pub fn new() -> (ret: Self)
        ensures
            ret.attempts == 0,
            ret.correct == 0,
            ret.history == 0,
            ret == replay(Seq::empty()),
            ret.wf(),
    {
        proof {
            lemma_empty_register();
        }
        Self { attempts: 0, correct: 0, history: 0 }
    }

    /// Tells whether the counters and the register are consistent.
    pub fn is_wf(&self) -> (ret: bool)
        ensures
            ret == self.wf(),
    {
        if self.correct > self.attempts {
            return false;
        }
        let mut i: u64 = if self.attempts < HISTORY_SLOTS {
            self.attempts as u64
        } else {
            64
        };
        while i < 64
            invariant
                i <= 64,
                self.attempts <= i || i == 64,
                self.correct <= self.attempts,
                forall|k: nat| self.attempts <= k < i ==> !slot(self.history, k),
            decreases 64 - i,
        {
            if (self.history >> i) & 1 == 1 {
                assert(slot(self.history, i as nat));
                return false;
            }
            i = i + 1;
        }
        true
    }

    /// Record an attempt.
    pub fn record_attempt(&mut self, correct: bool)
        requires
            old(self).wf(),
            old(self).attempts < u32::MAX,
        ensures
            *final(self) == old(self).recorded(correct),
            final(self).attempts == old(self).attempts + 1,
            final(self).correct == old(self).correct + if correct { 1int } else { 0int },
            final(self).wf(),
    {
        proof {
            lemma_recorded_wf(*self, correct);
        }
        self.attempts = self.attempts + 1;
        self.history = self.history << 1;
        if correct {
            self.correct = self.correct + 1;
            self.history = self.history | 1;
        }
    }

    /// Returns how many attempts the recent history holds.
    pub fn recent_attempts(&self) -> (ret: u32)
        ensures
            ret == self.spec_recent_attempts(),
            ret == if self.attempts < 64 { self.attempts } else { 64u32 },
    {
        if self.attempts < HISTORY_SLOTS {
            self.attempts
        } else {
            HISTORY_SLOTS
        }
    }

    /// Returns how many of the attempts in the recent history were correct.
    pub fn recently_correct(&self) -> (ret: u32)
        ensures
            ret == self.spec_recently_correct(),
            ret <= 64,
            self.wf() ==> ret <= self.spec_recent_attempts(),
    {
        let mut count: u32 = 0;
        let mut i: u64 = 0;
        while i < 64
            invariant
                i <= 64,
                count <= i,
                count == correct_below(self.history, i as nat),
            decreases 64 - i,
        {
            if (self.history >> i) & 1 == 1 {
                count = count + 1;
            }
            i = i + 1;
        }
        proof {
            if self.wf() {
                lemma_correct_below_bound(*self, 64);
            }
        }
        count
    }

    /// Formats the recent history as text, oldest attempt first, one symbol
    /// for each attempt.
    pub fn history_string(&self, correct_char: &str, incorrect_char: &str) -> (ret: String)
        ensures
            ret@ == render(
                self.history,
                self.spec_recent_attempts(),
                correct_char@,
                incorrect_char@,
            ),
    {
        let mut ret = String::new();
        let oldest: u64 = if self.attempts < HISTORY_SLOTS {
            self.attempts as u64
        } else {
            64
        };
        let mut i: u64 = oldest;
        while i > 0
            invariant
                i <= oldest <= 64,
                oldest == self.spec_recent_attempts(),
                ret@ + render(self.history, i as nat, correct_char@, incorrect_char@) == render(
                    self.history,
                    oldest as nat,
                    correct_char@,
                    incorrect_char@,
                ),
            decreases i,
        {
            let ghost before = ret@;
            i = i - 1;
            if (self.history >> i) & 1 == 1 {
                ret.append(correct_char);
            } else {
                ret.append(incorrect_char);
            }
            proof {
                let rest = render(self.history, i as nat, correct_char@, incorrect_char@);
                let symbol = if slot(self.history, i as nat) {
                    correct_char@
                } else {
                    incorrect_char@
                };
                assert(ret@ == before + symbol);
                assert((before + symbol) + rest =~= before + (symbol + rest));
            }
        }
        proof {
            assert(ret@ + Seq::<char>::empty() =~= ret@);
        }
        ret
    }
}

proof fn lemma_empty_register()
    ensures
        forall|i: nat| !slot(0u64, i),
{
    assert forall|i: nat| !slot(0u64, i) by {
        if i < 64 {
            let k = i as u64;
            assert((0u64 >> k) & 1 == 0) by (bit_vector);
        }
    }
}

/// Shifting an outcome in moves every earlier outcome one slot up.
pub proof fn lemma_recorded_slots(stats: FlashcardStatistics, correct: bool, i: nat)
    requires
        i < 64,
    ensures
        slot(stats.recorded(correct).history, i) == if i == 0 {
            correct
        } else {
            slot(stats.history, (i - 1) as nat)
        },
{
    let h = stats.history;
    let k = i as u64;
    if i == 0 {
        assert(((h << 1) | 1) & 1 == 1) by (bit_vector);
        assert((h << 1) & 1 == 0) by (bit_vector);
        assert((((h << 1) | 1) >> 0) == ((h << 1) | 1)) by (bit_vector);
        assert(((h << 1) >> 0) == (h << 1)) by (bit_vector);
    } else {
        let j = (i - 1) as u64;
        assert(j < 63 && k == j + 1 ==> (((h << 1) | 1) >> k) & 1 == (h >> j) & 1)
            by (bit_vector);
        assert(j < 63 && k == j + 1 ==> ((h << 1) >> k) & 1 == (h >> j) & 1) by (bit_vector);
    }
}

proof fn lemma_recorded_wf(stats: FlashcardStatistics, correct: bool)
    requires
        stats.wf(),
        stats.attempts < u32::MAX,
    ensures
        stats.recorded(correct).wf(),
{
    let next = stats.recorded(correct);
    assert forall|i: nat| next.attempts <= i < 64 implies !slot(next.history, i) by {
        lemma_recorded_slots(stats, correct, i);
    }
}

proof fn lemma_correct_below_bound(stats: FlashcardStatistics, n: nat)
    requires
        stats.wf(),
        n <= 64,
    ensures
        correct_below(stats.history, n) <= n,
        correct_below(stats.history, n) <= stats.spec_recent_attempts(),
    decreases n,
{
    if n > 0 {
        lemma_correct_below_bound(stats, (n - 1) as nat);
    }
}

proof fn lemma_count_correct_concat(a: Seq<bool>, b: Seq<bool>)
    ensures
        count_correct(a + b) == count_correct(a) + count_correct(b),
    decreases b.len(),
{
    if b.len() == 0 {
        assert(a + b =~= a);
    } else {
        assert((a + b).drop_last() =~= a + b.drop_last());
        lemma_count_correct_concat(a, b.drop_last());
    }
}

/// Whatever outcomes are recorded, in whatever order, the counters agree:
/// every attempt is counted, the correct ones are counted among them, and the
/// recent history holds the smaller of 64 and the number of attempts.
pub proof fn lemma_replay_counters(outcomes: Seq<bool>)
    requires
        outcomes.len() <= u32::MAX,
    ensures
        replay(outcomes).wf(),
        replay(outcomes).attempts == outcomes.len(),
        replay(outcomes).correct == count_correct(outcomes),
        replay(outcomes).correct <= replay(outcomes).attempts,
        replay(outcomes).spec_recent_attempts() == if outcomes.len() < 64 {
            outcomes.len()
        } else {
            64
        },
    decreases outcomes.len(),
{
    if outcomes.len() == 0 {
        lemma_empty_register();
    } else {
        lemma_replay_counters(outcomes.drop_last());
        lemma_recorded_wf(replay(outcomes.drop_last()), outcomes.last());
    }
}

/// After any recorded outcomes, slot `i` of the register holds the outcome
/// that was recorded `i` attempts before the newest one, and nothing where
/// there were fewer attempts.
pub proof fn lemma_replay_slots(outcomes: Seq<bool>, i: nat)
    requires
        i < 64,
    ensures
        slot(replay(outcomes).history, i) == (i < outcomes.len() && outcomes[outcomes.len() - 1
            - i]),
    decreases outcomes.len(),
{
    if outcomes.len() == 0 {
        lemma_empty_register();
    } else {
        lemma_recorded_slots(replay(outcomes.drop_last()), outcomes.last(), i);
        if i > 0 {
            lemma_replay_slots(outcomes.drop_last(), (i - 1) as nat);
        }
    }
}

proof fn lemma_correct_below_newest(outcomes: Seq<bool>, n: nat)
    requires
        n <= 64,
    ensures
        correct_below(replay(outcomes).history, n) == count_correct(newest(outcomes, n)),
    decreases n,
{
    if n > 0 {
        let fewer = (n - 1) as nat;
        lemma_correct_below_newest(outcomes, fewer);
        lemma_replay_slots(outcomes, fewer);
        if fewer < outcomes.len() {
            let head = seq![outcomes[outcomes.len() - n]];
            assert(newest(outcomes, n) =~= head + newest(outcomes, fewer));
            lemma_count_correct_concat(head, newest(outcomes, fewer));
            assert(head.drop_last() =~= Seq::<bool>::empty());
            assert(count_correct(head.drop_last()) == 0);
        }
    }
}

/// The number of recently correct attempts is the number of correct outcomes
/// among the last 64 that were recorded, while the counters cover all of them.
pub proof fn lemma_replay_recently_correct(outcomes: Seq<bool>)
    requires
        outcomes.len() <= u32::MAX,
    ensures
        replay(outcomes).spec_recently_correct() == count_correct(newest(outcomes, 64)),
        replay(outcomes).correct == count_correct(outcomes),
        replay(outcomes).attempts == outcomes.len(),
{
    lemma_correct_below_newest(outcomes, 64);
    lemma_replay_counters(outcomes);
}

/// Two runs that end in the same 64 outcomes have the same number of recently
/// correct attempts, whatever came before.
pub proof fn lemma_older_outcomes_forgotten(a: Seq<bool>, b: Seq<bool>)
    requires
        newest(a, 64) == newest(b, 64),
    ensures
        replay(a).spec_recently_correct() == replay(b).spec_recently_correct(),
{
    lemma_correct_below_newest(a, 64);
    lemma_correct_below_newest(b, 64);
}

/// With symbols of one character each, the text for `n` slots has `n`
/// characters, and the character at position `j` shows slot `n - 1 - j`:
/// the oldest slot comes first.
pub proof fn lemma_render_glyphs(h: u64, n: nat, correct_char: Seq<char>, incorrect_char: Seq<char>)
    requires
        correct_char.len() == 1,
        incorrect_char.len() == 1,
    ensures
        render(h, n, correct_char, incorrect_char).len() == n,
        forall|j: int|
            0 <= j < n ==> #[trigger] render(h, n, correct_char, incorrect_char)[j] == if slot(
                h,
                (n - 1 - j) as nat,
            ) {
                correct_char[0]
            } else {
                incorrect_char[0]
            },
    decreases n,
{
    if n > 0 {
        lemma_render_glyphs(h, (n - 1) as nat, correct_char, incorrect_char);
    }
}

/// With symbols of one character each, the text of the recent history has one
/// character for each of the last 64 recorded outcomes, in the order in which
/// they were recorded.
pub proof fn lemma_replay_render(
    outcomes: Seq<bool>,
    correct_char: Seq<char>,
    incorrect_char: Seq<char>,
)
    requires
        outcomes.len() <= u32::MAX,
        correct_char.len() == 1,
        incorrect_char.len() == 1,
    ensures
        ({
            let stats = replay(outcomes);
            let text = render(
                stats.history,
                stats.spec_recent_attempts(),
                correct_char,
                incorrect_char,
            );
            let shown = newest(outcomes, 64);
            &&& text.len() == stats.spec_recent_attempts()
            &&& text.len() == shown.len()
            &&& forall|j: int|
                0 <= j < text.len() ==> #[trigger] text[j] == if shown[j] {
                    correct_char[0]
                } else {
                    incorrect_char[0]
                }
        }),
{
    let stats = replay(outcomes);
    let n = stats.spec_recent_attempts();
    let text = render(stats.history, n, correct_char, incorrect_char);
    let shown = newest(outcomes, 64);
    lemma_replay_counters(outcomes);
    lemma_render_glyphs(stats.history, n, correct_char, incorrect_char);
    assert forall|j: int| 0 <= j < text.len() implies #[trigger] text[j] == if shown[j] {
        correct_char[0]
    } else {
        incorrect_char[0]
    } by {
        lemma_replay_slots(outcomes, (n - 1 - j) as nat);
    }
}

} // verus!
