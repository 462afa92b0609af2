//! The text-processing stage: per-text normalization and trimming, the
//! newline join over one thread's texts, the length metric, and the assembly
//! of the output record.

use vstd::prelude::*;

use crate::record::ThreadPost;
use crate::text::{
    cleaned, is_ws, char_is_whitespace, clean_content, tokenize, TextCleaner, TextConfig,
};

verus! {

use vstd::string::StrSliceExecFns;

/// Index of the first character without the white-space property; the length
/// if every character has it.
pub open spec fn first_non_ws(s: Seq<char>) -> int
    decreases s.len(),
{
    if s.len() == 0 {
        0
    } else if !is_ws(s[0]) {
        0
    } else {
        1 + first_non_ws(s.drop_first())
    }
}

/// One past the index of the last character without the white-space
/// property; zero if every character has it.
pub open spec fn last_non_ws(s: Seq<char>) -> int
    decreases s.len(),
{
    if s.len() == 0 {
        0
    } else if !is_ws(s.last()) {
        s.len() as int
    } else {
        last_non_ws(s.drop_last())
    }
}

/// The text with leading and trailing white space removed.
pub open spec fn trimmed(s: Seq<char>) -> Seq<char> {
    if first_non_ws(s) == s.len() {
        Seq::empty()
    } else {
        s.subrange(first_non_ws(s), last_non_ws(s))
    }
}

proof fn lemma_first_non_ws_is(s: Seq<char>, k: int)
    requires
        0 <= k <= s.len(),
        forall|j: int| 0 <= j < k ==> is_ws(s[j]),
        k < s.len() ==> !is_ws(s[k]),
    ensures
        first_non_ws(s) == k,
    decreases k,
{
    if k == 0 {
    } else {
        lemma_first_non_ws_is(s.drop_first(), k - 1);
    }
}

proof fn lemma_last_non_ws_is(s: Seq<char>, k: int)
    requires
        0 <= k <= s.len(),
        forall|j: int| k <= j < s.len() ==> is_ws(s[j]),
        k > 0 ==> !is_ws(s[k - 1]),
    ensures
        last_non_ws(s) == k,
    decreases s.len(),
{
    if k == s.len() {
    } else {
        assert(is_ws(s.last()));
        lemma_last_non_ws_is(s.drop_last(), k);
    }
}

/// Removes leading and trailing white space, by the same character property
/// the word count uses.
pub fn trim_whitespace(s: &str) -> (r: String)
    ensures
        r@ == trimmed(s@),
{
    let len = s.unicode_len();
    let mut lo: usize = len;
    let mut hi: usize = 0;
    for i in 0..len
        invariant
            len == s@.len(),
            lo == len || (lo < i && !is_ws(s@[lo as int])),
            lo == len ==> forall|j: int| 0 <= j < i ==> is_ws(s@[j]),
            lo < len ==> forall|j: int| 0 <= j < lo ==> is_ws(s@[j]),
            hi == 0 || (hi <= i && !is_ws(s@[hi - 1])),
            forall|j: int| hi <= j < i ==> is_ws(s@[j]),
            hi == 0 ==> forall|j: int| 0 <= j < i ==> is_ws(s@[j]),
    {
        let c = s.get_char(i);
        if !char_is_whitespace(c) {
            if lo == len {
                lo = i;
            }
            hi = i + 1;
        }
    }
    if lo == len {
        proof {
            lemma_first_non_ws_is(s@, s@.len() as int);
        }
        String::new()
    } else {
        proof {
            lemma_first_non_ws_is(s@, lo as int);
            lemma_last_non_ws_is(s@, hi as int);
        }
        let r = s.substring_char(lo, hi);
        r.to_owned()
    }
}

/// One text as the output carries it: normalized by the two patterns, then
/// trimmed.
pub open spec fn clean_text_spec(s: Seq<char>) -> Seq<char> {
    trimmed(cleaned(s))
}

/// Normalizes one text and trims the result.
pub fn clean_text(cleaner: &TextCleaner, text: &str) -> (r: String)
    requires
        cleaner.wf(),
    ensures
        r@ == clean_text_spec(text@),
{
    let content = clean_content(cleaner, text);
    trim_whitespace(content.as_str())
}

pub open spec fn word_count_from(s: Seq<char>, in_word: bool) -> nat
    decreases s.len(),
{
    if s.len() == 0 {
        0
    } else if is_ws(s[0]) {
        word_count_from(s.drop_first(), false)
    } else {
        (if in_word {
            0nat
        } else {
            1nat
        }) + word_count_from(s.drop_first(), true)
    }
}

/// How many maximal runs of non-white-space characters the text holds: the
/// whitespace word count.
pub open spec fn word_count(s: Seq<char>) -> nat {
    word_count_from(s, false)
}

proof fn lemma_word_count_from_le_len(s: Seq<char>, in_word: bool)
    ensures
        word_count_from(s, in_word) <= s.len(),
    decreases s.len(),
{
    if s.len() > 0 {
        lemma_word_count_from_le_len(s.drop_first(), false);
        lemma_word_count_from_le_len(s.drop_first(), true);
    }
}

/// Counts words split by white space, as the whitespace length metric.
pub fn count_words(s: &str) -> (r: usize)
    ensures
        r as nat == word_count(s@),
{
    let len = s.unicode_len();
    let mut count: usize = 0;
    let mut in_word: bool = false;
    proof {
        assert(s@.skip(0) == s@);
    }
    for i in 0..len
        invariant
            len == s@.len(),
            count + word_count_from(s@.skip(i as int), in_word) == word_count(s@),
            count <= i,
    {
        proof {
            lemma_word_count_from_le_len(s@.skip(i as int), in_word);
            assert(s@.skip(i as int).drop_first() == s@.skip(i + 1));
        }
        let c = s.get_char(i);
        if char_is_whitespace(c) {
            in_word = false;
        } else {
            if !in_word {
                count = count + 1;
            }
            in_word = true;
        }
    }
    count
}

/// The whole thread text: each entry normalized and trimmed, joined with a
/// single newline between entries.
pub open spec fn cleaned_joined(texts: Seq<Seq<char>>) -> Seq<char>
    decreases texts.len(),
{
    if texts.len() == 0 {
        Seq::empty()
    } else if texts.len() == 1 {
        clean_text_spec(texts[0])
    } else {
        cleaned_joined(texts.drop_last()) + seq!['\n'] + clean_text_spec(texts.last())
    }
}

/// Assembles an output record from its four parts, exactly as given.
pub fn build_record(thread_id: &str, raw_content: String, forum_name: &str, length: usize) -> (r:
    ThreadPost)
    ensures
        r@.thread_id == thread_id@,
        r@.raw_content == raw_content@,
        r@.source == forum_name@,
        r@.length == length,
{
    ThreadPost {
        length,
        raw_content,
        thread_id: thread_id.to_owned(),
        source: forum_name.to_owned(),
    }
}

/// Processes one traversed thread into an output record: normalizes and
/// joins the texts, computes the length metric, and tags the record.
///
/// With no tokenizer configured the length is the whitespace word count and
/// the call always succeeds. With a tokenizer the length is whatever count
/// the collaborator reported — a model with merge dropout may even report a
/// different count for the same text — and `None` reports its encoding
/// failure.
pub fn process(thread_id: &str, content: &Vec<String>, forum_name: &str, cfg: &TextConfig) -> (r:
    Option<ThreadPost>)
    requires
        cfg.wf(),
    ensures
        r is Some ==> r->0@.thread_id == thread_id@,
        r is Some ==> r->0@.source == forum_name@,
        r is Some ==> r->0@.raw_content == cleaned_joined(content@.map_values(|t: String| t@)),
        cfg.tokenizer is None ==> r is Some && r->0@.length as nat == word_count(
            cleaned_joined(content@.map_values(|t: String| t@)),
        ),
        r is None ==> cfg.tokenizer is Some,
{
    let ghost texts = content@.map_values(|t: String| t@);
    let mut raw = String::new();
    let n = content.len();
    for i in 0..n
        invariant
            cfg.wf(),
            n == content@.len(),
            texts == content@.map_values(|t: String| t@),
            raw@ == cleaned_joined(texts.take(i as int)),
    {
        proof {
            assert(texts.take(i + 1).drop_last() == texts.take(i as int));
            assert(texts.take(i + 1).last() == texts[i as int]);
            reveal_strlit("\n");
            assert("\n"@ =~= seq!['\n']);
        }
        if i > 0 {
            raw.append("\n");
        }
        let piece = clean_text(&cfg.cleaner, content[i].as_str());
        raw.append(piece.as_str());
    }
    proof {
        assert(texts.take(n as int) == texts);
    }
    match &cfg.tokenizer {
        None => {
            let length = count_words(raw.as_str());
            Some(build_record(thread_id, raw, forum_name, length))
        },
        Some(t) => {
            match tokenize(t, raw.as_str()) {
                Some(length) => Some(build_record(thread_id, raw, forum_name, length)),
                None => None,
            }
        },
    }
}

} // verus!
