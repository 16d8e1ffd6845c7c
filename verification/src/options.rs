//! What the command line and the answers to questions ask for.

use vstd::prelude::*;

verus! {

/// Whether two strings are the same.
pub(crate) fn same_text(a: &str, b: &str) -> (r: bool)
    ensures
        r == (a@ == b@),
{
    a.to_owned() == b.to_owned()
}

/// The sort mode that the flags ask for; the first of the two wins, and without either it has to be
/// asked for.
pub fn flagged_sort_mode(unique: bool, freq: bool) -> (r: Option<&'static str>)
    ensures
        match r {
            Some(mode) => (unique && mode@ == "unique"@) || (!unique && freq && mode@
                == "frequency"@),
            None => !unique && !freq,
        },
{
    if unique {
        Some("unique")
    } else if freq {
        Some("frequency")
    } else {
        None
    }
}

/// The sort mode that the answer to "sort by frequency?" asks for.
pub fn answered_sort_mode(by_frequency: bool) -> (mode: &'static str)
    ensures
        by_frequency ==> mode@ == "frequency"@,
        !by_frequency ==> mode@ == "unique"@,
{
    if by_frequency {
        "frequency"
    } else {
        "unique"
    }
}

/// White space, as Unicode has it.
pub open spec fn is_white_space(c: char) -> bool {
    let n = c as u32;
    ||| 0x9 <= n <= 0xd
    ||| n == 0x20
    ||| n == 0x85
    ||| n == 0xa0
    ||| n == 0x1680
    ||| 0x2000 <= n <= 0x200a
    ||| n == 0x2028
    ||| n == 0x2029
    ||| n == 0x202f
    ||| n == 0x205f
    ||| n == 0x3000
}

/// The text without the white space in front of it.
pub open spec fn front_trimmed(text: Seq<char>) -> Seq<char>
    decreases text.len(),
{
    if text.len() > 0 && is_white_space(text[0]) {
        front_trimmed(text.drop_first())
    } else {
        text
    }
}

/// The text without the white space behind it.
pub open spec fn back_trimmed(text: Seq<char>) -> Seq<char>
    decreases text.len(),
{
    if text.len() > 0 && is_white_space(text.last()) {
        back_trimmed(text.drop_last())
    } else {
        text
    }
}

/// The text without the white space around it.
pub open spec fn text_trimmed(text: Seq<char>) -> Seq<char> {
    back_trimmed(front_trimmed(text))
}

/// The text in lower case.
pub uninterp spec fn text_lowered(text: Seq<char>) -> Seq<char>;

/// Takes the white space off both ends.
///
/// Calls std's `str::trim`, which takes off what has the Unicode property `White_Space` at either
/// end, and nothing else.
#[verifier::external_body]
fn trim_text(text: &str) -> (r: &str)
    ensures
        r@ == text_trimmed(text@),
{
    text.trim()
}

/// Turns text into lower case.
///
/// Calls std's `str::to_lowercase`: a function of the text alone, by the case rules of Unicode.
/// What it is on a given text is not stated.
#[verifier::external_body]
fn lower_text(text: &str) -> (r: String)
    ensures
        r@ == text_lowered(text@),
{
    text.to_lowercase()
}

/// The words that mean yes.
pub open spec fn means_yes(word: Seq<char>) -> bool {
    word == "y"@ || word == "yes"@ || word == "true"@ || word == "1"@
}

/// Whether a word, in lower case, means yes.
pub fn is_yes(word: &str) -> (r: bool)
    ensures
        r == means_yes(word@),
{
    same_text(word, "y") || same_text(word, "yes") || same_text(word, "true") || same_text(
        word,
        "1",
    )
}

/// Whether an answer as it was typed means yes: white space around it and its case do not matter.
pub fn interactive_choice(input: &str) -> (r: bool)
    ensures
        r == means_yes(text_lowered(text_trimmed(input@))),
{
    let word = lower_text(trim_text(input));
    is_yes(&word)
}

/// More input files than this are read in parallel.
pub const PARALLEL_FILES_THRESHOLD: usize = 100;

/// Whether input files are read in parallel: if asked for, or if there are many.
pub fn reads_files_in_parallel(parallel_files: bool, inputs: usize) -> (r: bool)
    ensures
        r == (parallel_files || inputs > PARALLEL_FILES_THRESHOLD),
{
    parallel_files || inputs > PARALLEL_FILES_THRESHOLD
}

/// Least memory budget for counting.
pub const MIN_COUNT_BUDGET: usize = 0x1000_0000;

/// As much as is asked for, but no less than [`MIN_COUNT_BUDGET`]; everything without a request.
pub open spec fn budget_for(requested: Option<usize>) -> usize {
    match requested {
        Some(n) => if n < MIN_COUNT_BUDGET {
            MIN_COUNT_BUDGET
        } else {
            n
        },
        None => usize::MAX,
    }
}

/// The memory budget for counting: as asked for, but no less than [`MIN_COUNT_BUDGET`]; without a
/// request there is no limit.
pub fn counting_budget(requested: Option<usize>) -> (r: usize)
    ensures
        r == budget_for(requested),
{
    match requested {
        Some(n) => if n < MIN_COUNT_BUDGET {
            MIN_COUNT_BUDGET
        } else {
            n
        },
        None => usize::MAX,
    }
}

/// The words that mean yes, letter by letter.
pub proof fn lemma_yes_by_letters(word: Seq<char>)
    ensures
        means_yes(word) <==> (word == seq!['y'] || word == seq!['y', 'e', 's'] || word == seq![
            't',
            'r',
            'u',
            'e',
        ] || word == seq!['1']),
{
    reveal_strlit("y");
    reveal_strlit("yes");
    reveal_strlit("true");
    reveal_strlit("1");
    assert("y"@ =~= seq!['y']);
    assert("yes"@ =~= seq!['y', 'e', 's']);
    assert("true"@ =~= seq!['t', 'r', 'u', 'e']);
    assert("1"@ =~= seq!['1']);
}

/// Trimming takes off white space at both ends and nothing else: what is left does not start or end
/// in it, and text that does not stays as it is.
pub proof fn lemma_trimmed_text(front: Seq<char>, text: Seq<char>, back: Seq<char>)
    requires
        forall|i: int| 0 <= i < front.len() ==> is_white_space(front[i]),
        forall|i: int| 0 <= i < back.len() ==> is_white_space(back[i]),
        text.len() > 0 ==> !is_white_space(text[0]) && !is_white_space(text[text.len() - 1]),
    ensures
        text_trimmed(front + text + back) == text,
    decreases front.len() + back.len(),
{
    let all = front + text + back;
    if front.len() > 0 {
        assert(all[0] == front[0]);
        assert(all.drop_first() =~= front.drop_first() + text + back);
        assert forall|i: int| 0 <= i < front.drop_first().len() implies is_white_space(
            front.drop_first()[i],
        ) by {
            assert(front.drop_first()[i] == front[i + 1]);
        }
        lemma_trimmed_text(front.drop_first(), text, back);
    } else if text.len() > 0 {
        assert(all =~= text + back);
        assert(all[0] == text[0]);
        lemma_back_trimmed(text, back);
    } else if back.len() > 0 {
        assert(all[0] == back[0]);
        assert(all.drop_first() =~= front + text + back.drop_first());
        assert forall|i: int| 0 <= i < back.drop_first().len() implies is_white_space(
            back.drop_first()[i],
        ) by {
            assert(back.drop_first()[i] == back[i + 1]);
        }
        lemma_trimmed_text(front, text, back.drop_first());
    } else {
        assert(all =~= text);
    }
}

proof fn lemma_back_trimmed(text: Seq<char>, back: Seq<char>)
    requires
        text.len() > 0,
        !is_white_space(text[text.len() - 1]),
        forall|i: int| 0 <= i < back.len() ==> is_white_space(back[i]),
    ensures
        back_trimmed(text + back) == text,
    decreases back.len(),
{
    let all = text + back;
    if back.len() > 0 {
        assert(all.last() == back[back.len() - 1]);
        assert(all.drop_last() =~= text + back.drop_last());
        lemma_back_trimmed(text, back.drop_last());
    } else {
        assert(all =~= text);
    }
}

/// More than a hundred files are read in parallel, and counting has at least 256 MiB.
pub proof fn lemma_option_limits()
    ensures
        PARALLEL_FILES_THRESHOLD == 100,
        MIN_COUNT_BUDGET == 256 * 1024 * 1024,
{
}

/// A budget for counting is what was asked for if that is 256 MiB or more, and 256 MiB if it is
/// less; asking for more never gives less. Without a request no amount of memory reaches it.
pub proof fn lemma_counting_budget(n: usize, more: usize)
    requires
        n <= more,
    ensures
        n >= 256 * 1024 * 1024 ==> budget_for(Some(n)) == n,
        n < 256 * 1024 * 1024 ==> budget_for(Some(n)) == 256 * 1024 * 1024,
        budget_for(Some(n)) <= budget_for(Some(more)),
        budget_for(None) == usize::MAX,
{
}

} // verus!
