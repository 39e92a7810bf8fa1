use crate::matcher::{trim_whitespace, trimmed, Matcher};
use crate::quiz::{cursor_within, load_order, ranks_before, Quiz};
use crate::statistics::{lemma_render_glyphs, render};
use vstd::prelude::*;
use vstd::string::*;

verus! {

/// Where the session stands.
#[derive(Clone, Copy, PartialEq, Eq, Structural, Debug)]
pub enum ProgramMode {
    Quiz,
    Menu,
    Quit,
}

/// What a line typed at the menu asks for.
#[derive(Clone, Copy, PartialEq, Eq, Structural, Debug)]
pub enum MenuCommand {
    Quit,
    Resume,
    SelectAll,
    Shuffle,
    SelectHardest(usize),
    Help,
    Unknown,
}

/// What a line typed during the quiz is.
#[derive(Clone, Copy, PartialEq, Eq, Structural, Debug)]
pub enum Reply {
    ToMenu,
    Quit,
    Answer,
}

/// What became of one line typed during the quiz.
#[derive(Clone, Copy, PartialEq, Eq, Structural, Debug)]
pub enum TurnOutcome {
    ToMenu,
    Quit,
    Correct,
    Incorrect,
}

/// What is shown for the card under the cursor before an answer is asked
/// for: the question, the recent attempts at the card and in the session as
/// text, oldest first, and the two numbers of the recent accuracy.
pub struct TurnView {
    pub question: String,
    pub history: String,
    pub session_history: String,
    pub recently_correct: u32,
    pub recent_attempts: u32,
}

/// The symbol of a correct attempt.
pub open spec fn correct_glyph() -> Seq<char> {
    seq!['\u{2714}']
}

/// The symbol of a wrong attempt.
pub open spec fn incorrect_glyph() -> Seq<char> {
    seq!['\u{2717}']
}

/// The line that holds the one character `c` and the line break.
pub open spec fn key_line(c: char) -> Seq<char> {
    seq![c, '\n']
}

/// Every character of `text` is a decimal digit.
pub open spec fn all_digits(text: Seq<char>) -> bool {
    forall|i: int| 0 <= i < text.len() ==> '0' <= #[trigger] text[i] <= '9'
}

/// The number that the decimal digits in `digits` write.
pub open spec fn decimal_value(digits: Seq<char>) -> nat
    decreases digits.len(),
{
    if digits.len() == 0 {
        0
    } else {
        decimal_value(digits.drop_last()) * 10 + (digits.last() as u32 - '0' as u32) as nat
    }
}

/// The line `q` ends the session. The line that holds only the line break,
/// and every other line with nothing but whitespace in it, leads to the menu.
/// Every other line is an answer.
pub open spec fn reply_of(line: Seq<char>) -> Reply {
    if line == key_line('q') {
        Reply::Quit
    } else if line == seq!['\n'] || trimmed(line).len() == 0 {
        Reply::ToMenu
    } else {
        Reply::Answer
    }
}

/// The menu knows the lines `q`, `r`, `a`, `s` and `h`, and a line of decimal
/// digits, which asks for that many of the hardest cards.
pub open spec fn menu_command_of(line: Seq<char>) -> MenuCommand {
    if line == key_line('q') {
        MenuCommand::Quit
    } else if line == key_line('r') {
        MenuCommand::Resume
    } else if line == key_line('a') {
        MenuCommand::SelectAll
    } else if line == key_line('s') {
        MenuCommand::Shuffle
    } else if line == key_line('h') {
        MenuCommand::Help
    } else if line.len() >= 2 && line.last() == '\n' && all_digits(line.drop_last())
        && decimal_value(line.drop_last()) <= usize::MAX {
        MenuCommand::SelectHardest(decimal_value(line.drop_last()) as usize)
    } else {
        MenuCommand::Unknown
    }
}

/// The mode that follows a turn of the quiz: the quiz goes on after an
/// answer, right or wrong.
pub open spec fn mode_after(outcome: TurnOutcome) -> ProgramMode {
    match outcome {
        TurnOutcome::ToMenu => ProgramMode::Menu,
        TurnOutcome::Quit => ProgramMode::Quit,
        TurnOutcome::Correct => ProgramMode::Quiz,
        TurnOutcome::Incorrect => ProgramMode::Quiz,
    }
}

proof fn lemma_decimal_value_grows(digits: Seq<char>, shorter: int)
    requires
        0 <= shorter <= digits.len(),
    ensures
        decimal_value(digits.subrange(0, shorter)) <= decimal_value(digits),
    decreases digits.len() - shorter,
{
    if shorter < digits.len() {
        lemma_decimal_value_grows(digits, shorter + 1);
        assert(digits.subrange(0, shorter + 1).drop_last() =~= digits.subrange(0, shorter));
    } else {
        assert(digits.subrange(0, shorter) =~= digits);
    }
}

/// Tells whether `line` holds the character `c` and the line break, and
/// nothing else.
fn is_key_line(line: &str, c: char) -> (ret: bool)
    ensures
        ret == (line@ == key_line(c)),
{
    if line.unicode_len() != 2 {
        return false;
    }
    let ret = line.get_char(0) == c && line.get_char(1) == '\n';
    assert(ret ==> line@ =~= key_line(c));
    ret
}

/// Reads a line of decimal digits that ends in a line break.
fn hardest_count(line: &str) -> (ret: Option<usize>)
    ensures
        ret == if line@.len() >= 2 && line@.last() == '\n' && all_digits(line@.drop_last())
            && decimal_value(line@.drop_last()) <= usize::MAX {
            Some(decimal_value(line@.drop_last()) as usize)
        } else {
            None
        },
{
    let n = line.unicode_len();
    if n < 2 || line.get_char(n - 1) != '\n' {
        return None;
    }
    let ghost digits = line@.drop_last();
    let mut value: usize = 0;
    let mut i: usize = 0;
    while i < n - 1
        invariant
            i <= n - 1,
            n == line@.len(),
            digits == line@.drop_last(),
            all_digits(digits.subrange(0, i as int)),
            value == decimal_value(digits.subrange(0, i as int)),
        decreases n - i,
    {
        let c = line.get_char(i);
        assert(digits.subrange(0, i + 1).drop_last() =~= digits.subrange(0, i as int));
        assert(digits[i as int] == c);
        if c < '0' || c > '9' {
            assert(!all_digits(digits));
            return None;
        }
        let digit: usize = (c as u32 - '0' as u32) as usize;
        if value > (usize::MAX - digit) / 10 {
            proof {
                lemma_decimal_value_grows(digits, i + 1);
            }
            return None;
        }
        value = value * 10 + digit;
        i = i + 1;
        assert forall|k: int| 0 <= k < i implies '0' <= #[trigger] digits.subrange(0, i as int)[k]
            <= '9' by {
            if k < i - 1 {
                assert(digits.subrange(0, i - 1)[k] == digits[k]);
            }
        }
    }
    assert(digits.subrange(0, n - 1) =~= digits);
    Some(value)
}

/// Reads a line typed at the menu.
pub fn menu_command(line: &str) -> (ret: MenuCommand)
    ensures
        ret == menu_command_of(line@),
{
    if is_key_line(line, 'q') {
        MenuCommand::Quit
    } else if is_key_line(line, 'r') {
        MenuCommand::Resume
    } else if is_key_line(line, 'a') {
        MenuCommand::SelectAll
    } else if is_key_line(line, 's') {
        MenuCommand::Shuffle
    } else if is_key_line(line, 'h') {
        MenuCommand::Help
    } else {
        match hardest_count(line) {
            Some(n) => MenuCommand::SelectHardest(n),
            None => MenuCommand::Unknown,
        }
    }
}

/// Reads a line typed during the quiz.
pub fn reply(line: &str) -> (ret: Reply)
    ensures
        ret == reply_of(line@),
{
    if is_key_line(line, 'q') {
        return Reply::Quit;
    }
    if line.unicode_len() == 1 && line.get_char(0) == '\n' {
        assert(line@ =~= seq!['\n']);
        return Reply::ToMenu;
    }
    let text = trim_whitespace(line);
    if text.as_str().unicode_len() == 0 {
        Reply::ToMenu
    } else {
        Reply::Answer
    }
}

/// Gathers what is shown for the card under the cursor. Each history has
/// one symbol for each of its recent attempts.
pub fn turn_view(quiz: &Quiz) -> (view: TurnView)
    requires
        quiz.active(),
    ensures
        view.question@ == quiz.items[quiz.current_index() as int].front@,
        view.history@ == render(
            quiz.items[quiz.current_index() as int].statistics.history,
            quiz.items[quiz.current_index() as int].statistics.spec_recent_attempts(),
            correct_glyph(),
            incorrect_glyph(),
        ),
        view.history@.len() == view.recent_attempts,
        view.session_history@ == render(
            quiz.aggregate_statistics.history,
            quiz.aggregate_statistics.spec_recent_attempts(),
            correct_glyph(),
            incorrect_glyph(),
        ),
        view.session_history@.len() == quiz.aggregate_statistics.spec_recent_attempts(),
        view.recently_correct == quiz.items[quiz.current_index() as int]
            .statistics.spec_recently_correct(),
        view.recent_attempts == quiz.items[quiz.current_index() as int]
            .statistics.spec_recent_attempts(),
        view.recently_correct <= view.recent_attempts,
{
    let card = quiz.current();
    proof {
        reveal_strlit("\u{2714}");
        reveal_strlit("\u{2717}");
        assert("\u{2714}"@ =~= correct_glyph());
        assert("\u{2717}"@ =~= incorrect_glyph());
        lemma_render_glyphs(
            card.statistics.history,
            card.statistics.spec_recent_attempts(),
            correct_glyph(),
            incorrect_glyph(),
        );
        lemma_render_glyphs(
            quiz.aggregate_statistics.history,
            quiz.aggregate_statistics.spec_recent_attempts(),
            correct_glyph(),
            incorrect_glyph(),
        );
    }
    TurnView {
        question: card.front.clone(),
        history: card.statistics.history_string("\u{2714}", "\u{2717}"),
        session_history: quiz.aggregate_statistics.history_string("\u{2714}", "\u{2717}"),
        recently_correct: card.statistics.recently_correct(),
        recent_attempts: card.statistics.recent_attempts(),
    }
}

/// One turn of the quiz on the line that was typed: a blank line and the
/// quit line change nothing; an answer is judged against the back of the
/// card under the cursor and recorded, and the cursor moves on only after a
/// correct one.
pub fn quiz_turn(quiz: &mut Quiz, matcher: &Matcher, line: &str) -> (ret: TurnOutcome)
    requires
        old(quiz).active(),
        old(quiz).items[old(quiz).current_index() as int].statistics.attempts < u32::MAX,
        old(quiz).aggregate_statistics.attempts < u32::MAX,
    ensures
        final(quiz).active(),
        ret == match reply_of(line@) {
            Reply::ToMenu => TurnOutcome::ToMenu,
            Reply::Quit => TurnOutcome::Quit,
            Reply::Answer => if matcher.spec_matches(
                old(quiz).items[old(quiz).current_index() as int].back@,
                line@,
            ) {
                TurnOutcome::Correct
            } else {
                TurnOutcome::Incorrect
            },
        },
        ret == TurnOutcome::ToMenu || ret == TurnOutcome::Quit ==> *final(quiz) == *old(quiz),
        ret == TurnOutcome::Incorrect ==> final(quiz).attempt_recorded(old(quiz), false),
        ret == TurnOutcome::Correct ==> {
            &&& final(quiz).items.len() == old(quiz).items.len()
            &&& final(quiz).selection == old(quiz).selection
            &&& final(quiz).current == (old(quiz).current + 1) % (old(quiz).selection.len() as int)
            &&& final(quiz).aggregate_statistics == old(quiz).aggregate_statistics.recorded(true)
            &&& forall|i: int|
                0 <= i < old(quiz).items.len() ==> {
                    &&& (#[trigger] final(quiz).items[i]).front == old(quiz).items[i].front
                    &&& final(quiz).items[i].back == old(quiz).items[i].back
                    &&& final(quiz).items[i].statistics == if i == old(quiz).current_index() {
                        old(quiz).items[i].statistics.recorded(true)
                    } else {
                        old(quiz).items[i].statistics
                    }
                }
        },
{
    match reply(line) {
        Reply::ToMenu => TurnOutcome::ToMenu,
        Reply::Quit => TurnOutcome::Quit,
        Reply::Answer => {
            let correct = matcher.matches(quiz.current().back.as_str(), line);
            quiz.record_attempt(correct);
            if correct {
                quiz.advance();
                TurnOutcome::Correct
            } else {
                TurnOutcome::Incorrect
            }
        },
    }
}

/// One turn of the menu on the line that was typed. A new selection leaves
/// the session at the menu; a request for none of the hardest cards, and a
/// line that the menu does not know, change nothing.
pub fn menu_turn(quiz: &mut Quiz, line: &str) -> (ret: ProgramMode)
    requires
        old(quiz).active(),
    ensures
        final(quiz).active(),
        final(quiz).items == old(quiz).items,
        final(quiz).aggregate_statistics == old(quiz).aggregate_statistics,
        ret == match menu_command_of(line@) {
            MenuCommand::Quit => ProgramMode::Quit,
            MenuCommand::Resume => ProgramMode::Quiz,
            _ => ProgramMode::Menu,
        },
        match menu_command_of(line@) {
            MenuCommand::SelectAll => {
                &&& final(quiz).selection@ == load_order(old(quiz).items.len() as nat)
                &&& final(quiz).current == cursor_within(
                    old(quiz).current,
                    old(quiz).items.len() as nat,
                )
            },
            MenuCommand::Shuffle => {
                &&& final(quiz).selection@.to_multiset() == old(quiz).selection@.to_multiset()
                &&& final(quiz).current == old(quiz).current
            },
            MenuCommand::SelectHardest(n) => if n == 0 {
                *final(quiz) == *old(quiz)
            } else {
                &&& final(quiz).selection.len() == if n < old(quiz).selection.len() {
                    n
                } else {
                    old(quiz).selection.len()
                }
                &&& final(quiz).current == cursor_within(
                    old(quiz).current,
                    final(quiz).selection.len() as nat,
                )
                &&& forall|i: int, j: int|
                    0 <= i <= j < final(quiz).selection.len() ==> ranks_before(
                        final(quiz).items@,
                        #[trigger] final(quiz).selection[i],
                        #[trigger] final(quiz).selection[j],
                    )
                &&& exists|dropped: Seq<usize>|
                    {
                        &&& (final(quiz).selection@ + dropped).to_multiset() == old(
                            quiz,
                        ).selection@.to_multiset()
                        &&& forall|i: int, j: int|
                            0 <= i < final(quiz).selection.len() && 0 <= j < dropped.len()
                                ==> ranks_before(
                                final(quiz).items@,
                                #[trigger] final(quiz).selection[i],
                                #[trigger] dropped[j],
                            )
                    }
            },
            _ => *final(quiz) == *old(quiz),
        },
{
    match menu_command(line) {
        MenuCommand::Quit => ProgramMode::Quit,
        MenuCommand::Resume => ProgramMode::Quiz,
        MenuCommand::SelectAll => {
            quiz.select_all();
            ProgramMode::Menu
        },
        MenuCommand::Shuffle => {
            quiz.shuffle_selection();
            ProgramMode::Menu
        },
        MenuCommand::SelectHardest(n) => {
            if n > 0 {
                quiz.select_hardest(n);
            }
            ProgramMode::Menu
        },
        MenuCommand::Help => ProgramMode::Menu,
        MenuCommand::Unknown => ProgramMode::Menu,
    }
}

/// The mode that follows a turn of the quiz.
pub fn next_mode(outcome: TurnOutcome) -> (ret: ProgramMode)
    ensures
        ret == mode_after(outcome),
{
    match outcome {
        TurnOutcome::ToMenu => ProgramMode::Menu,
        TurnOutcome::Quit => ProgramMode::Quit,
        TurnOutcome::Correct => ProgramMode::Quiz,
        TurnOutcome::Incorrect => ProgramMode::Quiz,
    }
}

} // verus!
