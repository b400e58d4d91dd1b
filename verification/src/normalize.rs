use vstd::prelude::*;
use vstd::string::{StrSliceExecFns, StringExecFns};
use crate::text::{same_text, trim, trimmed};

verus! {

/// Whether `pattern`, read as a regular expression, matches somewhere in `text`;
/// `None` where the engine does not accept `pattern`.
pub uninterp spec fn pattern_match(pattern: Seq<char>, text: Seq<char>) -> Option<bool>;

/// `text` with every non-overlapping match of `pattern` replaced by `replacement`,
/// in which `$name` stands for a capture group; `None` where the engine does not
/// accept `pattern`.
pub uninterp spec fn pattern_rewrite(
    pattern: Seq<char>,
    text: Seq<char>,
    replacement: Seq<char>,
) -> Option<Seq<char>>;

/// `s` in lower case, as `str::to_lowercase` gives it.
pub uninterp spec fn lowercased(s: Seq<char>) -> Seq<char>;

/// Calls `regex::Regex::new` and, where the pattern compiles, `Regex::is_match`.
/// Nothing is proved of the engine: the contract gives its answer a name.
#[verifier::external_body]
fn regex_is_match(pattern: &str, text: &str) -> (r: Option<bool>)
    ensures
        r == pattern_match(pattern@, text@),
{
    match regex::Regex::new(pattern) {
        Ok(re) => Some(re.is_match(text)),
        Err(_) => None,
    }
}

/// Calls `regex::Regex::new` and, where the pattern compiles, `Regex::replace_all`.
/// Nothing is proved of the engine: the contract gives its answer a name.
#[verifier::external_body]
fn regex_replace_all(pattern: &str, text: &str, replacement: &str) -> (r: Option<String>)
    ensures
        match r {
            Some(s) => pattern_rewrite(pattern@, text@, replacement@) == Some(s@),
            None => pattern_rewrite(pattern@, text@, replacement@) is None,
        },
{
    match regex::Regex::new(pattern) {
        Ok(re) => Some(re.replace_all(text, replacement).into_owned()),
        Err(_) => None,
    }
}

/// Calls `str::to_lowercase`, whose result the contract names.
#[verifier::external_body]
fn to_lowercase(text: &str) -> (r: String)
    ensures
        r@ == lowercased(text@),
{
    text.to_lowercase()
}

/// A link: whitespace, then `http://` or `https://` and what follows up to the next
/// whitespace.
pub const LINK: &'static str = r"\shttps?://\S+";

/// A character that belongs to no word.
pub const NON_WORD: &'static str = r"\W";

/// A nominal or adjectival ending before whitespace.
pub const NOMINAL_ENDING: &'static str = r"(o|a)j?n?\s";

/// A verbal ending before whitespace.
pub const VERBAL_ENDING: &'static str = r"(i|a|o|u)s\s";

/// A run of whitespace.
pub const BLANKS: &'static str = r"\s+";

/// A name that was forwarded through a channel.
pub const FORWARDED: &'static str = r".+ via @.+";

/// A date and a time of day where a name should be.
pub const DATE_TIME: &'static str = r"\d\d.\d\d.\d\d\d\d \d\d:\d\d:\d\d";

/// What one rewrite rule makes of `text`. A pattern that the engine does not accept
/// rewrites nothing.
pub open spec fn rewritten(pattern: Seq<char>, text: Seq<char>, replacement: Seq<char>) -> Seq<char> {
    match pattern_rewrite(pattern, text, replacement) {
        Some(s) => s,
        None => text,
    }
}

/// The stemming rules of word mode, in their order: characters outside words become
/// spaces, nominal endings become `i`, then the verbal endings are rewritten twice.
pub open spec fn stemmed(text: Seq<char>) -> Seq<char> {
    let a = rewritten(NON_WORD@, text, "$1 "@);
    let b = rewritten(NOMINAL_ENDING@, a, "i "@);
    let c = rewritten(VERBAL_ENDING@, b, "$1u "@);
    rewritten(VERBAL_ENDING@, c, "$1i "@)
}

/// What one pass of the rules makes of a message: links removed from the text behind
/// a leading space, stemmed in word mode, whitespace runs collapsed to one space,
/// lower case if asked for, and trimmed.
pub open spec fn normalized_once(text: Seq<char>, word_mode: bool, case_fold: bool) -> Seq<char> {
    let a = rewritten(LINK@, " "@ + text, " "@);
    let b = if word_mode {
        stemmed(a)
    } else {
        a
    };
    let c = rewritten(BLANKS@, b, " "@);
    let d = if case_fold {
        lowercased(c)
    } else {
        c
    };
    trimmed(d)
}

/// Whether a pass of the rules leaves `text` as it is.
pub open spec fn is_stable(text: Seq<char>, word_mode: bool, case_fold: bool) -> bool {
    normalized_once(text, word_mode, case_fold) == text
}

/// The first text that a pass leaves as it is, among `text` and what up to `passes`
/// passes make of it, one after the other; `None` where none of them is stable.
pub open spec fn settled(text: Seq<char>, word_mode: bool, case_fold: bool, passes: nat) -> Option<
    Seq<char>,
>
    decreases passes,
{
    if is_stable(text, word_mode, case_fold) {
        Some(text)
    } else if passes == 0 {
        None
    } else {
        settled(
            normalized_once(text, word_mode, case_fold),
            word_mode,
            case_fold,
            (passes - 1) as nat,
        )
    }
}

/// How many passes a text of `length` characters is given to settle.
pub open spec fn passes_for(length: nat) -> nat {
    2 * length + 8
}

/// The normal form of a message: what the passes of the rules settle on, which is a
/// text that one more pass leaves as it is. A text that does not settle within the
/// passes it is given has no normal form but itself. Either way the normal form of
/// a normal form is that normal form.
pub open spec fn normalized(text: Seq<char>, word_mode: bool, case_fold: bool) -> Seq<char> {
    match settled(text, word_mode, case_fold, passes_for(text.len())) {
        Some(stable) => stable,
        None => text,
    }
}

/// What the passes settle on is stable.
pub proof fn lemma_settled_is_stable(text: Seq<char>, word_mode: bool, case_fold: bool, passes: nat)
    ensures
        match settled(text, word_mode, case_fold, passes) {
            Some(stable) => is_stable(stable, word_mode, case_fold),
            None => true,
        },
    decreases passes,
{
    if !is_stable(text, word_mode, case_fold) && passes > 0 {
        lemma_settled_is_stable(
            normalized_once(text, word_mode, case_fold),
            word_mode,
            case_fold,
            (passes - 1) as nat,
        );
    }
}

/// A stable text is its own normal form.
pub proof fn lemma_stable_is_normal(text: Seq<char>, word_mode: bool, case_fold: bool)
    requires
        is_stable(text, word_mode, case_fold),
    ensures
        normalized(text, word_mode, case_fold) == text,
{
}

/// Normalizing is idempotent: the normal form of a normal form is that normal form,
/// whatever the text and the settings. Where the passes settled, one more pass
/// leaves the normal form as it is.
pub proof fn lemma_normalized_idempotent(text: Seq<char>, word_mode: bool, case_fold: bool)
    ensures
        normalized(normalized(text, word_mode, case_fold), word_mode, case_fold) == normalized(
            text,
            word_mode,
            case_fold,
        ),
        settled(text, word_mode, case_fold, passes_for(text.len())) is Some ==> is_stable(
            normalized(text, word_mode, case_fold),
            word_mode,
            case_fold,
        ),
{
    lemma_settled_is_stable(text, word_mode, case_fold, passes_for(text.len()));
    match settled(text, word_mode, case_fold, passes_for(text.len())) {
        Some(stable) => {
            lemma_stable_is_normal(stable, word_mode, case_fold);
        },
        None => {},
    }
}

/// Applies one rewrite rule to `text`.
fn rewrite(pattern: &str, text: String, replacement: &str) -> (r: String)
    ensures
        r@ == rewritten(pattern@, text@, replacement@),
{
    match regex_replace_all(pattern, text.as_str(), replacement) {
        Some(s) => s,
        None => text,
    }
}

/// Takes a message through one pass of the rules.
pub fn normalize_once(data: &str, word_mode: bool, case_fold: bool) -> (r: String)
    ensures
        r@ == normalized_once(data@, word_mode, case_fold),
{
    let padded = String::from_str(" ").concat(data);
    let mut text = rewrite(LINK, padded, " ");
    if word_mode {
        text = rewrite(NON_WORD, text, "$1 ");
        text = rewrite(NOMINAL_ENDING, text, "i ");
        text = rewrite(VERBAL_ENDING, text, "$1u ");
        text = rewrite(VERBAL_ENDING, text, "$1i ");
    }
    text = rewrite(BLANKS, text, " ");
    if case_fold {
        text = to_lowercase(text.as_str());
    }
    trim(text.as_str())
}

/// Brings a message into its normal form: takes it through the rules, pass after
/// pass, until a pass changes nothing. The result of a second call on the result is
/// the result.
pub fn lemmatize(data: &str, word_mode: bool, case_fold: bool) -> (r: String)
    ensures
        r@ == normalized(data@, word_mode, case_fold),
        normalized(r@, word_mode, case_fold) == r@,
        settled(data@, word_mode, case_fold, passes_for(data@.len())) is Some ==> is_stable(
            r@,
            word_mode,
            case_fold,
        ),
{
    proof {
        lemma_normalized_idempotent(data@, word_mode, case_fold);
    }
    let length = data.unicode_len();
    let mut left: u128 = 2 * (length as u128) + 8;
    let mut current = data.to_owned();
    loop
        invariant
            settled(data@, word_mode, case_fold, passes_for(data@.len())) == settled(
                current@,
                word_mode,
                case_fold,
                left as nat,
            ),
        ensures
            current@ == normalized(data@, word_mode, case_fold),
        decreases left,
    {
        let next = normalize_once(current.as_str(), word_mode, case_fold);
        if same_text(next.as_str(), current.as_str()) {
            break ;
        }
        if left == 0 {
            current = data.to_owned();
            break ;
        }
        left = left - 1;
        current = next;
    }
    current
}

/// Whether `name` is one of the fixed names of bots and deleted accounts; the empty
/// name is one of them.
pub open spec fn is_sentinel_name(name: Seq<char>) -> bool {
    ||| name == "Deleted Account"@
    ||| name == ""@
    ||| name == "Anonymous Telegram Bot"@
    ||| name == "Anonima Roboto"@
    ||| name == "Robotino"@
    ||| name == "Anonymous telegram bot"@
}

/// Whether `pattern` is found in `text`. A pattern that the engine does not accept is
/// found nowhere.
pub open spec fn found_in(pattern: Seq<char>, text: Seq<char>) -> bool {
    pattern_match(pattern, text) == Some(true)
}

/// Whether messages under this author name are left out.
pub open spec fn blacklisted(name: Seq<char>) -> bool {
    is_sentinel_name(name) || found_in(FORWARDED@, name) || found_in(DATE_TIME@, name)
}

/// Whether `pattern` is found in `text`.
fn matches(pattern: &str, text: &str) -> (r: bool)
    ensures
        r == found_in(pattern@, text@),
{
    match regex_is_match(pattern, text) {
        Some(found) => found,
        None => false,
    }
}

/// Whether messages under the author name `author` are left out: the name of a bot or
/// of a deleted account, a name forwarded through a channel, or a date and time in
/// the name's place.
pub fn in_blacklist(author: &str) -> (r: bool)
    ensures
        r == blacklisted(author@),
{
    same_text(author, "Deleted Account") || same_text(author, "") || same_text(
        author,
        "Anonymous Telegram Bot",
    ) || same_text(author, "Anonima Roboto") || same_text(author, "Robotino") || same_text(
        author,
        "Anonymous telegram bot",
    ) || matches(FORWARDED, author) || matches(DATE_TIME, author)
}

} // verus!
