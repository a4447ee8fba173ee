//! Core data types: definition senses, cached entries, provider replies,
//! lookup outcomes and store errors.

use vstd::prelude::*;

verus! {

/// One part-of-speech / meaning grouping for a word: a part-of-speech tag
/// (`fl`, e.g. "noun") and an ordered sequence of short definition strings.
pub struct Sense {
    pub fl: String,
    pub shortdef: Vec<String>,
}

/// Mathematical model of a [`Sense`]: the tag and the definitions as
/// sequences of characters.
pub ghost struct SenseModel {
    pub fl: Seq<char>,
    pub shortdef: Seq<Seq<char>>,
}

impl View for Sense {
    type V = SenseModel;

    open spec fn view(&self) -> SenseModel {
        SenseModel { fl: self.fl@, shortdef: self.shortdef.deep_view() }
    }
}

impl DeepView for Sense {
    type V = SenseModel;

    open spec fn deep_view(&self) -> SenseModel {
        self@
    }
}

impl Clone for Sense {
    /// Cloning keeps the model.
    fn clone(&self) -> (r: Self)
        ensures
            r@ == self@,
    {
        let fl = self.fl.clone();
        let mut shortdef: Vec<String> = Vec::new();
        let mut i: usize = 0;
        while i < self.shortdef.len()
            invariant
                i <= self.shortdef.len(),
                shortdef.len() == i,
                forall|k: int| 0 <= k < i ==> shortdef@[k]@ == self.shortdef@[k]@,
            decreases self.shortdef.len() - i,
        {
            shortdef.push(self.shortdef[i].clone());
            i += 1;
        }
        proof {
            assert(shortdef.deep_view() =~= self.shortdef.deep_view());
        }
        Sense { fl, shortdef }
    }
}

/// A cached entry: the lookup key and its parsed definition senses.
pub struct WordEntry {
    pub word: String,
    pub definition: Vec<Sense>,
}

/// Mathematical model of a [`WordEntry`].
pub ghost struct WordEntryModel {
    pub word: Seq<char>,
    pub definition: Seq<SenseModel>,
}

impl View for WordEntry {
    type V = WordEntryModel;

    open spec fn view(&self) -> WordEntryModel {
        WordEntryModel { word: self.word@, definition: self.definition.deep_view() }
    }
}

impl DeepView for WordEntry {
    type V = WordEntryModel;

    open spec fn deep_view(&self) -> WordEntryModel {
        self@
    }
}

/// Clones a vector of senses, keeping the model of every element.
pub fn clone_senses(defs: &Vec<Sense>) -> (r: Vec<Sense>)
    ensures
        r.deep_view() == defs.deep_view(),
{
    let mut out: Vec<Sense> = Vec::new();
    let mut i: usize = 0;
    while i < defs.len()
        invariant
            i <= defs.len(),
            out.len() == i,
            forall|k: int| 0 <= k < i ==> out@[k]@ == defs@[k]@,
        decreases defs.len() - i,
    {
        out.push(defs[i].clone());
        i += 1;
    }
    proof {
        assert(out.deep_view() =~= defs.deep_view());
    }
    out
}

/// Clones a vector of strings, keeping the model of every element.
pub fn clone_strings(ss: &Vec<String>) -> (r: Vec<String>)
    ensures
        r.deep_view() == ss.deep_view(),
{
    let mut out: Vec<String> = Vec::new();
    let mut i: usize = 0;
    while i < ss.len()
        invariant
            i <= ss.len(),
            out.len() == i,
            forall|k: int| 0 <= k < i ==> out@[k]@ == ss@[k]@,
        decreases ss.len() - i,
    {
        out.push(ss[i].clone());
        i += 1;
    }
    proof {
        assert(out.deep_view() =~= ss.deep_view());
    }
    out
}

impl Clone for WordEntry {
    /// Cloning keeps the model.
    fn clone(&self) -> (r: Self)
        ensures
            r@ == self@,
    {
        WordEntry { word: self.word.clone(), definition: clone_senses(&self.definition) }
    }
}

/// What one provider call came to, as handed to the lookup core: the body
/// parsed as definition senses, the body parsed as spelling suggestions, or
/// a failure (network error, timeout, non-success status, or a body in
/// neither shape).
pub enum ProviderReply {
    Found(Vec<Sense>),
    NotFound(Vec<String>),
    Failed,
}

/// The result of one lookup, exactly one of:
/// - `Duplicate`: the word was already cached; no provider call is owed.
/// - `New`: freshly fetched from the provider and persisted.
/// - `SpellCheck`: the provider reported no exact match, with candidate words.
/// - `LookupFailed`: the provider call failed; nothing was persisted.
pub enum LookupOutcome {
    Duplicate { word: String },
    New { word: String, definitions: Vec<Sense> },
    SpellCheck { suggestions: Vec<String> },
    LookupFailed,
}

/// Errors of the store: an insert for a key that is already present, or a
/// persisted payload that does not decode as a definition list.
#[derive(PartialEq, Eq, Structural, Clone, Copy, Debug)]
pub enum StoreError {
    ConstraintViolation,
    MalformedStoredPayload,
}

} // verus!
