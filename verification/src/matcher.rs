use vstd::prelude::*;
use vstd::string::*;

verus! {

/// The steps that are applied to both texts before they are compared, each
/// switched on or off. They run in the order of the fields.
pub struct Matcher {
    pub trim_whitespace: bool,
    pub normalize_whitespace: bool,
    pub ignore_case: bool,
    pub ignore_accents: bool,
    pub ignore_nonalphabetic: bool,
}

/// What `char::is_whitespace` answers for `c`.
pub uninterp spec fn whitespace_char(c: char) -> bool;

/// What `char::is_alphabetic` answers for `c`.
pub uninterp spec fn alphabetic_char(c: char) -> bool;

/// What `str::to_lowercase` returns for `text`.
pub uninterp spec fn lowercase_text(text: Seq<char>) -> Seq<char>;

/// What `deunicode::deunicode` returns for `text`.
pub uninterp spec fn deunicode_text(text: Seq<char>) -> Seq<char>;

/// Every character of `text` is an ASCII character.
pub open spec fn ascii_text(text: Seq<char>) -> bool {
    forall|i: int| 0 <= i < text.len() ==> (#[trigger] text[i]) as u32 <= 127
}

/// `text` without the whitespace at its start.
pub open spec fn trimmed_start(text: Seq<char>) -> Seq<char>
    decreases text.len(),
{
    if text.len() > 0 && whitespace_char(text.first()) {
        trimmed_start(text.drop_first())
    } else {
        text
    }
}

/// `text` without the whitespace at its end.
pub open spec fn trimmed_end(text: Seq<char>) -> Seq<char>
    decreases text.len(),
{
    if text.len() > 0 && whitespace_char(text.last()) {
        trimmed_end(text.drop_last())
    } else {
        text
    }
}

/// `text` without the whitespace at its start and at its end.
pub open spec fn trimmed(text: Seq<char>) -> Seq<char> {
    trimmed_end(trimmed_start(text))
}

/// The words of `text`, which are its longest runs without whitespace, with
/// one space between each two: read from the left, whitespace is left out,
/// and a character that begins a later word is preceded by one space.
pub open spec fn collapsed(text: Seq<char>) -> Seq<char>
    decreases text.len(),
{
    if text.len() == 0 {
        Seq::empty()
    } else {
        let before = collapsed(text.drop_last());
        let c = text.last();
        if whitespace_char(c) {
            before
        } else if before.len() > 0 && whitespace_char(text[text.len() - 2]) {
            before.push(' ').push(c)
        } else {
            before.push(c)
        }
    }
}

/// The alphabetic characters of `text`, in their order.
pub open spec fn letters(text: Seq<char>) -> Seq<char> {
    text.filter(|c: char| alphabetic_char(c))
}

/// Calls `char::is_whitespace`, which tells whether the character has the
/// Unicode property White_Space. The answer is named and nothing more is said.
#[verifier::external_body]
fn is_whitespace(c: char) -> (ret: bool)
    ensures
        ret == whitespace_char(c),
{
    c.is_whitespace()
}

/// Calls `char::is_alphabetic`, which tells whether the character has the
/// Unicode property Alphabetic. The answer is named and nothing more is said.
#[verifier::external_body]
fn is_alphabetic(c: char) -> (ret: bool)
    ensures
        ret == alphabetic_char(c),
{
    c.is_alphabetic()
}

/// Calls `str::to_lowercase`. The result is named and nothing more is said.
#[verifier::external_body]
fn to_lowercase(text: &str) -> (ret: String)
    ensures
        ret@ == lowercase_text(text@),
{
    text.to_lowercase()
}

/// Calls `deunicode::deunicode`, which transliterates to ASCII. The result is
/// named; as the crate documents, it holds ASCII characters only.
#[verifier::external_body]
fn strip_accents(text: &str) -> (ret: String)
    ensures
        ret@ == deunicode_text(text@),
        ascii_text(ret@),
{
    deunicode::deunicode(text)
}

/// Removes the whitespace at both ends of `input`.
pub fn trim_whitespace(input: &str) -> (output: String)
    ensures
        output@ == trimmed(input@),
{
    let n = input.unicode_len();
    let mut start: usize = 0;
    assert(input@.subrange(0, n as int) =~= input@);
    while start < n && is_whitespace(input.get_char(start))
        invariant
            start <= n == input@.len(),
            trimmed_start(input@) == trimmed_start(input@.subrange(start as int, n as int)),
        decreases n - start,
    {
        assert(input@.subrange(start as int, n as int).drop_first() =~= input@.subrange(
            start + 1,
            n as int,
        ));
        start = start + 1;
    }
    let ghost rest = input@.subrange(start as int, n as int);
    assert(trimmed_start(input@) == rest);
    let mut end: usize = n;
    while end > start && is_whitespace(input.get_char(end - 1))
        invariant
            start <= end <= n == input@.len(),
            trimmed_end(rest) == trimmed_end(input@.subrange(start as int, end as int)),
        decreases end,
    {
        assert(input@.subrange(start as int, end as int).drop_last() =~= input@.subrange(
            start as int,
            end - 1,
        ));
        end = end - 1;
    }
    String::from_str(input.substring_char(start, end))
}

/// Puts one space between the words of `input` and drops all other
/// whitespace.
pub fn normalize_whitespace(input: &str) -> (output: String)
    ensures
        output@ == collapsed(input@),
{
    let n = input.unicode_len();
    let mut output = String::new();
    let mut started = false;
    let mut gap = false;
    let mut i: usize = 0;
    while i < n
        invariant
            i <= n == input@.len(),
            output@ == collapsed(input@.subrange(0, i as int)),
            started == (output@.len() > 0),
            i > 0 ==> gap == whitespace_char(input@[i - 1]),
        decreases n - i,
    {
        let c = input.get_char(i);
        let blank = is_whitespace(c);
        proof {
            reveal_strlit(" ");
            assert(input@.subrange(0, i + 1).drop_last() =~= input@.subrange(0, i as int));
            assert(input@.subrange(0, i as int).len() == 0 ==> output@.len() == 0);
        }
        if !blank {
            if started && gap {
                output.append(" ");
            }
            output.append(input.substring_char(i, i + 1));
            started = true;
            proof {
                let before = collapsed(input@.subrange(0, i as int));
                assert(input@.subrange(i as int, i + 1) =~= seq![c]);
                assert(before + seq![' '] + seq![c] =~= before.push(' ').push(c));
                assert(before + seq![c] =~= before.push(c));
            }
        }
        gap = blank;
        i = i + 1;
    }
    assert(input@.subrange(0, n as int) =~= input@);
    output
}

/// Keeps the alphabetic characters of `input` and drops all others.
pub fn remove_nonalphabetic(input: &str) -> (output: String)
    ensures
        output@ == letters(input@),
        ascii_text(input@) ==> ascii_text(output@),
{
    let n = input.unicode_len();
    let mut output = String::new();
    let mut i: usize = 0;
    while i < n
        invariant
            i <= n == input@.len(),
            output@ == letters(input@.subrange(0, i as int)),
            ascii_text(input@) ==> ascii_text(output@),
        decreases n - i,
    {
        let c = input.get_char(i);
        proof {
            reveal(Seq::filter);
            assert(input@.subrange(0, i + 1).drop_last() =~= input@.subrange(0, i as int));
            assert(input@.subrange(i as int, i + 1) =~= seq![c]);
            assert(output@ + seq![c] =~= output@.push(c));
        }
        if is_alphabetic(c) {
            output.append(input.substring_char(i, i + 1));
        }
        i = i + 1;
    }
    assert(input@.subrange(0, n as int) =~= input@);
    output
}

impl Matcher {
    /// `text` after the steps that are switched on, in their fixed order.
    pub open spec fn normalized(&self, text: Seq<char>) -> Seq<char> {
        let trimmed_text = if self.trim_whitespace {
            trimmed(text)
        } else {
            text
        };
        let spaced = if self.normalize_whitespace {
            collapsed(trimmed_text)
        } else {
            trimmed_text
        };
        let folded = if self.ignore_case {
            lowercase_text(spaced)
        } else {
            spaced
        };
        let plain = if self.ignore_accents {
            deunicode_text(folded)
        } else {
            folded
        };
        if self.ignore_nonalphabetic {
            letters(plain)
        } else {
            plain
        }
    }

    /// None of the steps that are switched on, but for the removal of what
    /// is not alphabetic, changes `text`.
    pub open spec fn steady(&self, text: Seq<char>) -> bool {
        &&& self.trim_whitespace ==> trimmed(text) == text
        &&& self.normalize_whitespace ==> collapsed(text) == text
        &&& self.ignore_case ==> lowercase_text(text) == text
        &&& self.ignore_accents ==> deunicode_text(text) == text
    }

    /// Two texts match where they are equal after the steps.
    pub open spec fn spec_matches(&self, a: Seq<char>, b: Seq<char>) -> bool {
        self.normalized(a) == self.normalized(b)
    }

    /// The policy with every step switched on.
    pub fn new() -> (ret: Self)
        ensures
            ret.trim_whitespace,
            ret.normalize_whitespace,
            ret.ignore_case,
            ret.ignore_accents,
            ret.ignore_nonalphabetic,
    {
        Self {
            trim_whitespace: true,
            normalize_whitespace: true,
            ignore_case: true,
            ignore_accents: true,
            ignore_nonalphabetic: true,
        }
    }

    /// Applies the steps that are switched on to `text`.
    pub fn normalize(&self, text: &str) -> (ret: String)
        ensures
            ret@ == self.normalized(text@),
            self.ignore_accents ==> ascii_text(ret@),
    {
        let mut ret = String::from_str(text);
        if self.trim_whitespace {
            ret = trim_whitespace(ret.as_str());
        }
        if self.normalize_whitespace {
            ret = normalize_whitespace(ret.as_str());
        }
        if self.ignore_case {
            ret = to_lowercase(ret.as_str());
        }
        if self.ignore_accents {
            ret = strip_accents(ret.as_str());
        }
        if self.ignore_nonalphabetic {
            ret = remove_nonalphabetic(ret.as_str());
        }
        ret
    }

    /// Tells whether the two texts are equal after the steps.
    pub fn matches(&self, a: &str, b: &str) -> (ret: bool)
        ensures
            ret == self.spec_matches(a@, b@),
    {
        let a = self.normalize(a);
        let b = self.normalize(b);
        same_text(&a, &b)
    }
}

/// Tells whether two normalized texts are the same.
pub fn same_text(a: &String, b: &String) -> (ret: bool)
    ensures
        ret == (a@ == b@),
{
    *a == *b
}

proof fn lemma_trimmed_start_shape(text: Seq<char>)
    ensures
        trimmed_start(text).len() <= text.len(),
        trimmed_start(text) == text.subrange(
            text.len() - trimmed_start(text).len(),
            text.len() as int,
        ),
        trimmed_start(text).len() > 0 ==> !whitespace_char(trimmed_start(text).first()),
    decreases text.len(),
{
    if text.len() > 0 && whitespace_char(text.first()) {
        let rest = text.drop_first();
        lemma_trimmed_start_shape(rest);
        let kept = trimmed_start(rest);
        assert(rest.subrange(rest.len() - kept.len(), rest.len() as int) =~= text.subrange(
            text.len() - kept.len(),
            text.len() as int,
        ));
    } else {
        assert(text.subrange(0, text.len() as int) =~= text);
    }
}

proof fn lemma_trimmed_end_shape(text: Seq<char>)
    ensures
        trimmed_end(text).len() <= text.len(),
        trimmed_end(text) == text.subrange(0, trimmed_end(text).len() as int),
        trimmed_end(text).len() > 0 ==> !whitespace_char(trimmed_end(text).last()),
    decreases text.len(),
{
    if text.len() > 0 && whitespace_char(text.last()) {
        let rest = text.drop_last();
        lemma_trimmed_end_shape(rest);
        let kept = trimmed_end(rest);
        assert(rest.subrange(0, kept.len() as int) =~= text.subrange(0, kept.len() as int));
    } else {
        assert(text.subrange(0, text.len() as int) =~= text);
    }
}

/// Trimming a trimmed text changes nothing.
pub proof fn lemma_trimmed_idempotent(text: Seq<char>)
    ensures
        trimmed(trimmed(text)) == trimmed(text),
{
    let front = trimmed_start(text);
    lemma_trimmed_start_shape(text);
    lemma_trimmed_end_shape(front);
    let kept = trimmed_end(front);
    if kept.len() > 0 {
        assert(kept.first() == front.first());
    }
}

/// The words of a text joined by single spaces begin and end without
/// whitespace, so trimming them changes nothing, and neither does joining
/// their words once more.
pub proof fn lemma_collapsed_idempotent(text: Seq<char>)
    ensures
        collapsed(text).len() > 0 ==> !whitespace_char(collapsed(text).first())
            && !whitespace_char(collapsed(text).last()),
        trimmed(collapsed(text)) == collapsed(text),
        collapsed(collapsed(text)) == collapsed(text),
    decreases text.len(),
{
    if text.len() > 0 {
        let before = collapsed(text.drop_last());
        let c = text.last();
        lemma_collapsed_idempotent(text.drop_last());
        if whitespace_char(c) {
        } else if before.len() > 0 && whitespace_char(text[text.len() - 2]) {
            let spaced = before.push(' ');
            let out = spaced.push(c);
            assert(spaced.drop_last() =~= before);
            assert(out.drop_last() =~= spaced);
            assert(collapsed(spaced) == if whitespace_char(' ') {
                before
            } else {
                spaced
            });
            assert(out[out.len() - 2] == ' ');
            assert(collapsed(out) == out);
            assert(out.first() == before.first());
        } else {
            let out = before.push(c);
            assert(out.drop_last() =~= before);
            if before.len() > 0 {
                assert(out[out.len() - 2] == before.last());
                assert(out.first() == before.first());
            }
            assert(collapsed(out) == out);
        }
    }
}

/// No character of `text` is whitespace.
pub open spec fn without_whitespace(text: Seq<char>) -> bool {
    forall|i: int| 0 <= i < text.len() ==> !whitespace_char(#[trigger] text[i])
}

/// Two normalized texts with one space between them; an empty one adds
/// nothing, not even the space.
pub open spec fn spaced_pair(left: Seq<char>, right: Seq<char>) -> Seq<char> {
    if left.len() == 0 {
        right
    } else if right.len() == 0 {
        left
    } else {
        left.push(' ') + right
    }
}

/// A text without whitespace is one word, which stays as it is.
pub proof fn lemma_collapsed_word(text: Seq<char>)
    ensures
        without_whitespace(text) ==> collapsed(text) == text,
    decreases text.len(),
{
    if text.len() > 0 && without_whitespace(text) {
        assert(without_whitespace(text.drop_last())) by {
            assert forall|i: int| 0 <= i < text.drop_last().len() implies !whitespace_char(
                #[trigger] text.drop_last()[i],
            ) by {
                assert(text.drop_last()[i] == text[i]);
            }
        }
        lemma_collapsed_word(text.drop_last());
        assert(text.drop_last().push(text.last()) =~= text);
    }
}

/// Whitespace between two texts splits them: what comes of the whole is
/// what comes of the part before it and of the part after it, with one space
/// between the two.
pub proof fn lemma_collapsed_split(left: Seq<char>, gap: char, right: Seq<char>)
    ensures
        whitespace_char(gap) ==> collapsed(left.push(gap) + right) == spaced_pair(
            collapsed(left),
            collapsed(right),
        ),
    decreases right.len(),
{
    let whole = left.push(gap) + right;
    if !whitespace_char(gap) {
    } else if right.len() == 0 {
        assert(whole =~= left.push(gap));
        assert(whole.drop_last() =~= left);
    } else {
        let shorter = right.drop_last();
        let c = right.last();
        lemma_collapsed_split(left, gap, shorter);
        assert(whole.drop_last() =~= left.push(gap) + shorter);
        let before = collapsed(whole.drop_last());
        let first = collapsed(left);
        let second = collapsed(shorter);
        assert(before == spaced_pair(first, second));
        if !whitespace_char(c) {
            if shorter.len() == 0 {
                assert(whole[whole.len() - 2] == gap);
                assert(collapsed(right) =~= seq![c]);
                assert(first.push(' ').push(c) =~= first.push(' ') + seq![c]);
            } else {
                assert(whole[whole.len() - 2] == shorter.last());
                assert(right[right.len() - 2] == shorter.last());
                if whitespace_char(shorter.last()) {
                    if second.len() > 0 {
                        assert((first.push(' ') + second).push(' ').push(c) =~= first.push(' ')
                            + second.push(' ').push(c));
                    } else {
                        assert(collapsed(right) =~= seq![c]);
                        assert(first.push(' ').push(c) =~= first.push(' ') + seq![c]);
                    }
                } else {
                    assert(second.len() > 0);
                    assert((first.push(' ') + second).push(c) =~= first.push(' ') + second.push(
                        c,
                    ));
                }
            }
        }
    }
}

proof fn lemma_letters_kept(text: Seq<char>)
    requires
        forall|i: int| 0 <= i < text.len() ==> alphabetic_char(#[trigger] text[i]),
    ensures
        letters(text) == text,
    decreases text.len(),
{
    reveal(Seq::filter);
    if text.len() > 0 {
        lemma_letters_kept(text.drop_last());
        assert(text.drop_last().push(text.last()) =~= text);
    }
}

/// Removing what is not alphabetic from a text that went through the removal
/// changes nothing.
pub proof fn lemma_letters_idempotent(text: Seq<char>)
    ensures
        letters(letters(text)) == letters(text),
{
    let pred = |c: char| alphabetic_char(c);
    assert forall|i: int| 0 <= i < letters(text).len() implies alphabetic_char(
        #[trigger] letters(text)[i],
    ) by {
        text.lemma_filter_pred(pred, i);
    }
    lemma_letters_kept(letters(text));
}

/// With no step switched on but the two on whitespace, normalizing a
/// normalized text changes nothing.
pub proof fn lemma_spacing_idempotent(policy: Matcher, text: Seq<char>)
    requires
        !policy.ignore_case,
        !policy.ignore_accents,
        !policy.ignore_nonalphabetic,
    ensures
        policy.normalized(policy.normalized(text)) == policy.normalized(text),
{
    if policy.normalize_whitespace {
        if policy.trim_whitespace {
            lemma_collapsed_idempotent(trimmed(text));
        } else {
            lemma_collapsed_idempotent(text);
        }
    } else if policy.trim_whitespace {
        lemma_trimmed_idempotent(text);
    }
}

/// Normalizing a normalized text changes nothing, for every policy, where
/// the normalized text is one that case folding, transliteration and the
/// whitespace steps, as far as they are switched on, leave as it is. The
/// removal of what is not alphabetic needs no such condition.
pub proof fn lemma_normalized_idempotent(policy: Matcher, text: Seq<char>)
    ensures
        ({
            let once = policy.normalized(text);
            policy.steady(once) ==> policy.normalized(once) == once
        }),
{
    if policy.ignore_nonalphabetic {
        let trimmed_text = if policy.trim_whitespace {
            trimmed(text)
        } else {
            text
        };
        let spaced = if policy.normalize_whitespace {
            collapsed(trimmed_text)
        } else {
            trimmed_text
        };
        let folded = if policy.ignore_case {
            lowercase_text(spaced)
        } else {
            spaced
        };
        let plain = if policy.ignore_accents {
            deunicode_text(folded)
        } else {
            folded
        };
        lemma_letters_idempotent(plain);
    }
}

/// Matching does not depend on which text is the reference and which the
/// candidate.
pub proof fn lemma_matches_symmetric(policy: Matcher, a: Seq<char>, b: Seq<char>)
    ensures
        policy.spec_matches(a, b) == policy.spec_matches(b, a),
{
}

} // verus!
