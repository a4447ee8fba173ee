//! The cache-aside lookup core: check the store first; on a miss the caller
//! fetches from the provider and hands the reply back; a fresh definition is
//! written through, a non-match or a failure writes nothing.
//!
//! The fetch itself (an outbound HTTP call) cannot stand here, so a lookup
//! is driven in two verified steps: [`check_cache`] decides whether the
//! provider is consulted at all, and [`apply_provider_reply`] turns the
//! reply into the outcome and the store change.

use vstd::prelude::*;

use crate::defs::LookupOutcome;
use crate::defs::ProviderReply;
use crate::defs::SenseModel;
use crate::defs::WordEntryModel;
use crate::defs::clone_senses;
use crate::store::Store;
use crate::store::contains_word;
use crate::store::count_word;
use crate::store::lemma_count_after_insert;
use crate::store::unique_words;

verus! {

/// The rows after a provider reply for `word` is applied to rows `pre`:
/// a fresh definition is appended once, everything else changes nothing.
pub open spec fn rows_after_reply(
    pre: Seq<WordEntryModel>,
    word: Seq<char>,
    reply: ProviderReply,
) -> Seq<WordEntryModel> {
    match reply {
        ProviderReply::Found(defs) => if contains_word(pre, word) {
            pre
        } else {
            pre.push(WordEntryModel { word, definition: defs.deep_view() })
        },
        ProviderReply::NotFound(_) => pre,
        ProviderReply::Failed => pre,
    }
}

/// The outcome a provider reply for `word` comes to against rows `pre`.
pub open spec fn outcome_of_reply(
    pre: Seq<WordEntryModel>,
    word: Seq<char>,
    reply: ProviderReply,
    outcome: LookupOutcome,
) -> bool {
    match reply {
        ProviderReply::Found(defs) => if contains_word(pre, word) {
            outcome matches LookupOutcome::Duplicate { word: w } && w@ == word
        } else {
            &&& outcome matches LookupOutcome::New { word: w, definitions: d }
            &&& w@ == word
            &&& d.deep_view() == defs.deep_view()
        },
        ProviderReply::NotFound(sugg) => outcome matches LookupOutcome::SpellCheck {
            suggestions: s,
        } && s.deep_view() == sugg.deep_view(),
        ProviderReply::Failed => outcome is LookupFailed,
    }
}

/// Step one of a lookup: serve from the store when `word` is already a key.
/// Returns `Some(Duplicate)` exactly when the word is cached; `None` means
/// the caller owes a provider fetch.  Never changes the store.
pub fn check_cache(store: &Store, word: &str) -> (r: Option<LookupOutcome>)
    ensures
        match r {
            Some(o) => contains_word(store@, word@) && (o matches LookupOutcome::Duplicate {
                word: w,
            } && w@ == word@),
            None => !contains_word(store@, word@),
        },
{
    if store.contains(word) {
        Some(LookupOutcome::Duplicate { word: word.to_owned() })
    } else {
        None
    }
}

/// Step two of a lookup, after a cache miss made the caller fetch: applies
/// the provider's reply for `word`.
///
/// - `Found(defs)` with `word` still absent: the definition is written
///   through and the outcome is `New`.
/// - `Found(defs)` with `word` present (a concurrent lookup of the same
///   brand-new word won the race between this caller's existence check and
///   its write): the store's refusal of the duplicate key is translated
///   into `Duplicate`, never surfaced as an error, and nothing changes.
/// - `NotFound(suggestions)`: outcome `SpellCheck`; an unmatched word never
///   occupies the key space, so the store is unchanged.
/// - `Failed`: outcome `LookupFailed`; the store is unchanged.
pub fn apply_provider_reply(store: &mut Store, word: String, reply: ProviderReply) -> (o:
    LookupOutcome)
    requires
        old(store).wf(),
    ensures
        final(store).wf(),
        final(store)@ == rows_after_reply(old(store)@, word@, reply),
        outcome_of_reply(old(store)@, word@, reply, o),
{
    match reply {
        ProviderReply::Found(defs) => {
            let stored = clone_senses(&defs);
            match store.put(word.clone(), stored) {
                Ok(()) => LookupOutcome::New { word, definitions: defs },
                Err(_) => LookupOutcome::Duplicate { word },
            }
        },
        ProviderReply::NotFound(sugg) => LookupOutcome::SpellCheck { suggestions: sugg },
        ProviderReply::Failed => LookupOutcome::LookupFailed,
    }
}

/// Idempotence of lookup: after a `Found` reply for `word` is applied, the
/// rows left behind contain `word` — whether the application wrote the row
/// itself or found it already present.  By the contract of [`check_cache`],
/// a later lookup of the same word therefore returns `Some(Duplicate)` and
/// no second provider fetch is owed.
pub proof fn lemma_lookup_idempotent(pre: Seq<WordEntryModel>, word: Seq<char>, reply: ProviderReply)
    requires
        reply is Found,
    ensures
        contains_word(rows_after_reply(pre, word, reply), word),
{
    if !contains_word(pre, word) {
        let defs = reply->Found_0;
        let post = pre.push(WordEntryModel { word, definition: defs.deep_view() });
        assert(post[post.len() - 1].word == word);
    }
}

/// The suggestion path and the failure path never mutate the store: a reply
/// that is not a fresh definition leaves the rows exactly as they were, so
/// the listing before and after is unchanged.
pub proof fn lemma_miss_without_definition_leaves_store(
    pre: Seq<WordEntryModel>,
    word: Seq<char>,
    reply: ProviderReply,
)
    requires
        reply is NotFound || reply is Failed,
    ensures
        rows_after_reply(pre, word, reply) == pre,
{
}

/// Round-trip: the definitions a `New` outcome carries are the ones the
/// listing yields afterwards.  Applying a `Found(defs)` reply for a word
/// not yet cached appends exactly one row, holding that word and those
/// definitions; [`crate::store::Store::list_all`] returns the rows as they
/// stand, so the entry is obtainable from it.
pub proof fn lemma_new_definitions_listed(
    pre: Seq<WordEntryModel>,
    word: Seq<char>,
    reply: ProviderReply,
)
    requires
        reply is Found,
        !contains_word(pre, word),
    ensures
        ({
            let post = rows_after_reply(pre, word, reply);
            &&& post.len() == pre.len() + 1
            &&& post.last().word == word
            &&& post.last().definition == reply->Found_0.deep_view()
            &&& exists|i: int|
                0 <= i < post.len() && post[i].word == word && post[i].definition
                    == reply->Found_0.deep_view()
        }),
{
    let post = rows_after_reply(pre, word, reply);
    assert(post[post.len() - 1].word == word);
}

/// Uniqueness under a race: when several lookups of the same brand-new word
/// all miss the cache and fetch, the first write appends the single row for
/// that word; the rows stay well formed, the word is then present, so every
/// later application changes nothing ([`rows_after_reply`]) and comes to
/// `Duplicate` ([`outcome_of_reply`]): exactly one caller observes `New`.
pub proof fn lemma_unique_after_race(
    pre: Seq<WordEntryModel>,
    word: Seq<char>,
    defs: Seq<SenseModel>,
)
    requires
        unique_words(pre),
        !contains_word(pre, word),
    ensures
        ({
            let post = pre.push(WordEntryModel { word, definition: defs });
            &&& unique_words(post)
            &&& count_word(post, word) == 1
            &&& contains_word(post, word)
        }),
{
    let entry = WordEntryModel { word, definition: defs };
    let post = pre.push(entry);
    assert(post[post.len() - 1].word == word);
    assert forall|i: int, j: int| 0 <= i < j < post.len() implies post[i].word != post[j].word by {
        if j < pre.len() {
            assert(pre[i].word != pre[j].word);
        } else {
            assert(post[j].word == word);
            assert(pre[i].word != word);
        }
    }
    lemma_count_after_insert(pre, entry);
}

} // verus!
