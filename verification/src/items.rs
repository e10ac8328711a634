//! Search entries and the text of the search queries sent to the database.

use vstd::prelude::*;
use crate::text::{
    is_white, join, join_strings, lemma_join_concat, lemma_words_concat, lemma_words_single,
    split_whitespace, words,
};

verus! {

/// A search entry: the key of a match and the text that describes it.
pub struct Item {
    pub id: String,
    pub text: String,
}

impl Item {
    /// An entry with the given key and text.
    pub fn new(id: &str, text: &str) -> (item: Item)
        ensures
            item.id@ == id@,
            item.text@ == text@,
    {
        Item { id: id.to_owned(), text: text.to_owned() }
    }
}

/// The most parameters that one database statement may bind.
pub const MAX_PARAMS: usize = 65534;

/// Whether the entries waiting to be written make a full batch: more than a
/// quarter of `MAX_PARAMS`, as each entry binds two parameters and a
/// margin is kept.
pub fn batch_full(pending: usize) -> (r: bool)
    ensures
        r == (pending > MAX_PARAMS / 4),
{
    pending > MAX_PARAMS / 4
}

/// The last word of a query, or the empty text when it has none.
pub open spec fn last_word_text(query: Seq<char>) -> Seq<char> {
    let ws = words(query);
    if ws.len() == 0 {
        Seq::<char>::empty()
    } else {
        ws.last()
    }
}

/// The word that search suggestions are asked for: the last word of the
/// query, or the empty string when it has none.
pub fn last_word(query: &str) -> (w: String)
    ensures
        w@ == last_word_text(query@),
{
    let mut ws = split_whitespace(query);
    match ws.pop() {
        Some(w) => w,
        None => String::new(),
    }
}

/// The full-text query of a search: its words joined by ` & `, so that every
/// word must occur.
pub open spec fn tsquery_text(query: Seq<char>) -> Seq<char> {
    join(words(query), " & "@)
}

/// The full-text query of a search (see `tsquery_text`).
pub fn tsquery(query: &str) -> (q: String)
    ensures
        q@ == tsquery_text(query@),
{
    let ws = split_whitespace(query);
    join_strings(&ws, " & ")
}

/// The `ILIKE` pattern of a search: its words in order, with anything
/// before, between and after them.
pub open spec fn like_pattern_text(query: Seq<char>) -> Seq<char> {
    "%"@ + join(words(query), "%"@) + "%"@
}

/// The `ILIKE` pattern of a search (see `like_pattern_text`).
pub fn like_pattern(query: &str) -> (p: String)
    ensures
        p@ == like_pattern_text(query@),
{
    let ws = split_whitespace(query);
    let inner = join_strings(&ws, "%");
    let mut p = String::new();
    p.append("%");
    p.append(inner.as_str());
    p.append("%");
    p
}

/// Law: the full-text query requires every word of the search, in order, each
/// joined to the next by ` & `. A search of one word (no white space) is
/// queried as that word, a search of white space only as the empty text, and
/// the query of two searches put together with white space between them is
/// the query of the first, ` & ` and the query of the second.
pub proof fn lemma_tsquery_requires_every_word(q1: Seq<char>, c: char, q2: Seq<char>)
    ensures
        q1.len() > 0 && (forall|i: int| 0 <= i < q1.len() ==> !is_white(#[trigger] q1[i]))
            ==> tsquery_text(q1) == q1,
        (forall|i: int| 0 <= i < q1.len() ==> is_white(#[trigger] q1[i]))
            ==> tsquery_text(q1) == Seq::<char>::empty(),
        is_white(c) && words(q1).len() > 0 && words(q2).len() > 0 ==> tsquery_text(q1 + seq![c] + q2)
            == tsquery_text(q1) + " & "@ + tsquery_text(q2),
{
    lemma_words_single(q1);
    if is_white(c) && words(q1).len() > 0 && words(q2).len() > 0 {
        let s = q1 + seq![c];
        assert(s.drop_last() =~= q1);
        assert(words(s) == words(q1));
        lemma_words_concat(s, q2);
        lemma_join_concat(words(q1), words(q2), " & "@);
    }
}

} // verus!
