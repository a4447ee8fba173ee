//! The store: an in-process cache mapping each word to its definition
//! senses, with the invariant that a word occurs at most once.  Durable
//! backing (loading rows at startup, mirroring inserts to disk) is the
//! caller's concern; rows reach the store only through [`Store::put`] and
//! [`Store::restore_entry`], which refuse a duplicate key.

use vstd::prelude::*;

use crate::codec::decode_definitions;
use crate::codec::encode_senses;
use crate::defs::Sense;
use crate::defs::SenseModel;
use crate::defs::StoreError;
use crate::defs::WordEntry;
use crate::defs::WordEntryModel;

verus! {

/// Whether some row of `rows` has key `w`.
pub open spec fn contains_word(rows: Seq<WordEntryModel>, w: Seq<char>) -> bool {
    exists|i: int| 0 <= i < rows.len() && rows[i].word == w
}

/// How many rows of `rows` have key `w`.
pub open spec fn count_word(rows: Seq<WordEntryModel>, w: Seq<char>) -> nat
    decreases rows.len(),
{
    if rows.len() == 0 {
        0
    } else {
        (if rows.last().word == w {
            1nat
        } else {
            0nat
        }) + count_word(rows.drop_last(), w)
    }
}

/// Well-formed rows: no two rows share a key.
pub open spec fn unique_words(rows: Seq<WordEntryModel>) -> bool {
    forall|i: int, j: int| 0 <= i < j < rows.len() ==> rows[i].word != rows[j].word
}

/// Compares two strings character by character.
pub fn str_eq(a: &str, b: &str) -> (r: bool)
    ensures
        r == (a@ == b@),
{
    let an = a.unicode_len();
    let bn = b.unicode_len();
    if an != bn {
        proof {
            assert(a@ != b@) by {
                if a@ == b@ {
                    assert(a@.len() == b@.len());
                }
            }
        }
        return false;
    }
    let mut i: usize = 0;
    while i < an
        invariant
            i <= an,
            an == a@.len(),
            an == b@.len(),
            forall|k: int| 0 <= k < i ==> a@[k] == b@[k],
        decreases an - i,
    {
        if a.get_char(i) != b.get_char(i) {
            return false;
        }
        i += 1;
    }
    proof {
        assert(a@ =~= b@);
    }
    true
}

/// The cache of looked-up words.  Its model is the sequence of rows in
/// insertion order; [`Store::wf`] says no key repeats.
pub struct Store {
    rows: Vec<WordEntry>,
}

impl View for Store {
    type V = Seq<WordEntryModel>;

    closed spec fn view(&self) -> Seq<WordEntryModel> {
        self.rows.deep_view()
    }
}

impl Store {
    /// No two rows share a key.
    pub open spec fn wf(&self) -> bool {
        unique_words(self@)
    }

    /// An empty store.
    pub fn new() -> (s: Store)
        ensures
            s@ == Seq::<WordEntryModel>::empty(),
            s.wf(),
    {
        let s = Store { rows: Vec::new() };
        proof {
            assert(s@ =~= Seq::<WordEntryModel>::empty());
        }
        s
    }

    /// How many words are cached.
    pub fn len(&self) -> (n: usize)
        ensures
            n == self@.len(),
    {
        self.rows.len()
    }

    /// Whether `word` is already a key; the existence check of the
    /// cache-aside algorithm.
    pub fn contains(&self, word: &str) -> (b: bool)
        ensures
            b == contains_word(self@, word@),
    {
        let n = self.rows.len();
        let mut i: usize = 0;
        while i < n
            invariant
                i <= n,
                n == self@.len(),
                forall|k: int| 0 <= k < i ==> self@[k].word != word@,
            decreases n - i,
        {
            if str_eq(self.rows[i].word.as_str(), word) {
                proof {
                    assert(self@[i as int].word == word@);
                }
                return true;
            }
            i += 1;
        }
        false
    }

    /// The cached definition senses of `word`, if any.
    pub fn get(&self, word: &str) -> (r: Option<&Vec<Sense>>)
        ensures
            match r {
                Some(d) => exists|i: int|
                    0 <= i < self@.len() && self@[i].word == word@ && d.deep_view()
                        == self@[i].definition,
                None => !contains_word(self@, word@),
            },
    {
        let n = self.rows.len();
        let mut i: usize = 0;
        while i < n
            invariant
                i <= n,
                n == self@.len(),
                forall|k: int| 0 <= k < i ==> self@[k].word != word@,
            decreases n - i,
        {
            if str_eq(self.rows[i].word.as_str(), word) {
                proof {
                    assert(self@[i as int].word == word@);
                    assert(self@[i as int].definition == self.rows@[i as int].definition.deep_view());
                }
                return Some(&self.rows[i].definition);
            }
            i += 1;
        }
        None
    }

    /// Inserts a new row.  Refuses a key that is already present with
    /// `ConstraintViolation` and leaves the store unchanged: the cache-aside
    /// algorithm checks existence first, so a duplicate insert signals a
    /// race that the caller resolves as a cache hit.
    pub fn put(&mut self, word: String, definition: Vec<Sense>) -> (r: Result<(), StoreError>)
        ensures
            match r {
                Ok(()) => !contains_word(old(self)@, word@) && final(self)@ == old(self)@.push(
                    WordEntryModel { word: word@, definition: definition.deep_view() },
                ),
                Err(e) => e == StoreError::ConstraintViolation && contains_word(old(self)@, word@)
                    && final(self)@ == old(self)@,
            },
            old(self).wf() ==> final(self).wf(),
    {
        if self.contains(word.as_str()) {
            return Err(StoreError::ConstraintViolation);
        }
        let ghost pre = self@;
        let ghost model = WordEntryModel { word: word@, definition: definition.deep_view() };
        self.rows.push(WordEntry { word, definition });
        proof {
            assert(self@ =~= pre.push(model));
            if unique_words(pre) {
                assert forall|i: int, j: int| 0 <= i < j < self@.len() implies self@[i].word
                    != self@[j].word by {
                    if j < pre.len() {
                        assert(pre[i].word != pre[j].word);
                    } else {
                        assert(self@[j].word == model.word);
                        assert(!contains_word(pre, model.word));
                        assert(pre[i].word != model.word);
                    }
                }
            }
        }
        Ok(())
    }

    /// Rebuilds one row from its persisted form: the word and the serialized
    /// definition text, as a durable backing handed them over.  A payload
    /// that does not decode as a sense array is refused with
    /// `MalformedStoredPayload` — the corrupt row is reported, never let
    /// into the cache and never allowed to fail the rows around it — and a
    /// repeated word with `ConstraintViolation`; either way the store is
    /// unchanged.
    pub fn restore_entry(&mut self, word: String, payload: &str) -> (r: Result<(), StoreError>)
        requires
            old(self).wf(),
        ensures
            final(self).wf(),
            match r {
                Ok(()) => !contains_word(old(self)@, word@) && (exists|d: Seq<SenseModel>|
                    payload@ == encode_senses(d) && final(self)@ == old(self)@.push(
                        WordEntryModel { word: word@, definition: d },
                    )),
                Err(StoreError::MalformedStoredPayload) => final(self)@ == old(self)@ && !(
                exists|d: Seq<SenseModel>| payload@ == encode_senses(d)),
                Err(StoreError::ConstraintViolation) => final(self)@ == old(self)@
                    && contains_word(old(self)@, word@) && (exists|d: Seq<SenseModel>|
                    payload@ == encode_senses(d)),
            },
    {
        match decode_definitions(payload) {
            None => Err(StoreError::MalformedStoredPayload),
            Some(d) => {
                let ghost model = d.deep_view();
                match self.put(word, d) {
                    Ok(()) => {
                        proof {
                            assert(payload@ == encode_senses(model));
                        }
                        Ok(())
                    },
                    Err(e) => Err(e),
                }
            },
        }
    }

    /// All cached entries, in insertion order.
    pub fn list_all(&self) -> (r: Vec<WordEntry>)
        ensures
            r.deep_view() == self@,
    {
        let mut out: Vec<WordEntry> = Vec::new();
        let n = self.rows.len();
        let mut i: usize = 0;
        while i < n
            invariant
                i <= n,
                n == self@.len(),
                out.len() == i,
                forall|k: int| 0 <= k < i ==> out@[k]@ == self@[k],
            decreases n - i,
        {
            out.push(self.rows[i].clone());
            i += 1;
        }
        proof {
            assert(out.deep_view() =~= self@);
        }
        out
    }
}

/// A word occurs in well-formed rows at exactly one index.
pub proof fn lemma_unique_index(rows: Seq<WordEntryModel>, w: Seq<char>, i: int, j: int)
    requires
        unique_words(rows),
        0 <= i < rows.len(),
        0 <= j < rows.len(),
        rows[i].word == w,
        rows[j].word == w,
    ensures
        i == j,
{
}

/// A key that no row has occurs zero times.
pub proof fn lemma_count_absent(rows: Seq<WordEntryModel>, w: Seq<char>)
    requires
        !contains_word(rows, w),
    ensures
        count_word(rows, w) == 0,
    decreases rows.len(),
{
    if rows.len() > 0 {
        assert(!contains_word(rows.drop_last(), w)) by {
            if contains_word(rows.drop_last(), w) {
                let i = choose|i: int|
                    0 <= i < rows.drop_last().len() && rows.drop_last()[i].word == w;
                assert(rows[i].word == w);
            }
        }
        assert(rows.last().word != w) by {
            assert(rows[rows.len() - 1] == rows.last());
        }
        lemma_count_absent(rows.drop_last(), w);
    }
}

/// Appending a row for a fresh key gives exactly one row with that key.
pub proof fn lemma_count_after_insert(
    rows: Seq<WordEntryModel>,
    entry: WordEntryModel,
)
    requires
        !contains_word(rows, entry.word),
    ensures
        count_word(rows.push(entry), entry.word) == 1,
{
    assert(rows.push(entry).drop_last() =~= rows);
    assert(rows.push(entry).last() == entry);
    lemma_count_absent(rows, entry.word);
}

} // verus!
