//! The values that scanning, pushing and pulling hand to one another.

use crate::flatten::{entries_of, Flat, FlatMap};
use crate::str_map::StrMap;
use vstd::prelude::*;

verus! {

/// Translations by language code: for each language its flat map.
pub type Translations = StrMap<FlatMap>;

/// The languages of a translation set in order, each code with its entries.
pub type LanguageEntries = Seq<(Seq<char>, Flat)>;

/// The languages of `translations` in order, each with its flat entries.
pub open spec fn languages_of(translations: Translations) -> LanguageEntries {
    Seq::new(
        translations.keys().len(),
        |i: int| (translations.keys()[i], entries_of(translations.values()[i])),
    )
}

/// The codes of a run of languages, in order.
pub open spec fn language_codes(languages: LanguageEntries) -> Seq<Seq<char>> {
    languages.map_values(|l: (Seq<char>, Flat)| l.0)
}

/// The entries of the language `code`; none where the language is not there.
pub open spec fn entries_for(languages: LanguageEntries, code: Seq<char>) -> Flat {
    if language_codes(languages).contains(code) {
        languages[language_codes(languages).index_of(code)].1
    } else {
        Seq::empty()
    }
}

/// The languages with `code` bound to `entries`: in place where the language
/// is already there, at the end where it is new.
pub open spec fn put_language(languages: LanguageEntries, code: Seq<char>, entries: Flat) -> LanguageEntries {
    if language_codes(languages).contains(code) {
        languages.update(language_codes(languages).index_of(code), (code, entries))
    } else {
        languages.push((code, entries))
    }
}

/// What an insertion into a translation set does to its languages.
pub proof fn lemma_insert_language(
    before: Translations,
    after: Translations,
    code: Seq<char>,
    map: FlatMap,
)
    requires
        before.wf(),
        before.keys().contains(code) ==> after.keys() == before.keys() && after.values()
            == before.values().update(before.keys().index_of(code), map),
        !before.keys().contains(code) ==> after.keys() == before.keys().push(code)
            && after.values() == before.values().push(map),
    ensures
        languages_of(after) == put_language(languages_of(before), code, entries_of(map)),
{
    assert(language_codes(languages_of(before)) =~= before.keys());
    assert(languages_of(after) =~= put_language(languages_of(before), code, entries_of(map)));
}

/// What a lookup in a translation set finds.
pub proof fn lemma_language_lookup(translations: Translations, code: Seq<char>)
    requires
        translations.wf(),
    ensures
        translations@.contains_key(code) <==> language_codes(languages_of(translations)).contains(
            code,
        ),
        translations@.contains_key(code) ==> entries_of(translations@[code]) == entries_for(
            languages_of(translations),
            code,
        ),
{
    assert(language_codes(languages_of(translations)) =~= translations.keys());
    translations.lemma_view();
    if translations.keys().contains(code) {
        let i = translations.keys().index_of(code);
        assert(translations.keys()[i] == code);
    }
}

/// The number of keys in the first `n` languages together.
pub open spec fn key_total(languages: LanguageEntries, n: nat) -> nat
    decreases n,
{
    if n == 0 || n > languages.len() {
        0
    } else {
        key_total(languages, (n - 1) as nat) + languages[n - 1].1.len()
    }
}

/// A flat map with the entries of `map`, in the same order.
pub fn copy_flat(map: &FlatMap) -> (copy: FlatMap)
    ensures
        entries_of(copy) == entries_of(*map),
        copy.keys() == map.keys(),
{
    let copy = map.clone();
    proof {
        use_type_invariant(&copy);
        use_type_invariant(map);
        assert(entries_of(copy) =~= entries_of(*map));
    }
    copy
}

/// The number of keys in all languages of `translations` together.
pub fn count_keys(translations: &Translations) -> (total: usize)
    requires
        key_total(languages_of(*translations), translations.keys().len()) <= usize::MAX,
    ensures
        total == key_total(languages_of(*translations), translations.keys().len()),
{
    let n = translations.len();
    let mut total: usize = 0;
    let mut i: usize = 0;
    while i < n
        invariant
            i <= n,
            n == translations.keys().len(),
            total == key_total(languages_of(*translations), i as nat),
            key_total(languages_of(*translations), n as nat) <= usize::MAX,
        decreases n - i,
    {
        let size = translations.value_at(i).len();
        proof {
            lemma_key_total_grows(languages_of(*translations), (i + 1) as nat, n as nat);
        }
        total = total + size;
        i += 1;
    }
    total
}

/// The number of keys in all languages together, where it fits in a
/// `usize`.
pub fn checked_count_keys(translations: &Translations) -> (total: Option<usize>)
    ensures
        match total {
            Some(n) => n == key_total(languages_of(*translations), translations.keys().len()),
            None => key_total(languages_of(*translations), translations.keys().len())
                > usize::MAX,
        },
{
    let n = translations.len();
    let mut total: usize = 0;
    let mut i: usize = 0;
    while i < n
        invariant
            i <= n,
            n == translations.keys().len(),
            total == key_total(languages_of(*translations), i as nat),
        decreases n - i,
    {
        let size = translations.value_at(i).len();
        total = match total.checked_add(size) {
            Some(sum) => sum,
            None => {
                proof {
                    lemma_key_total_grows(languages_of(*translations), (i + 1) as nat, n as nat);
                }
                return None;
            },
        };
        i += 1;
    }
    Some(total)
}

/// Counting more languages never gives fewer keys.
pub proof fn lemma_key_total_grows(languages: LanguageEntries, a: nat, b: nat)
    requires
        a <= b <= languages.len(),
    ensures
        key_total(languages, a) <= key_total(languages, b),
    decreases b,
{
    if a < b {
        lemma_key_total_grows(languages, a, (b - 1) as nat);
    }
}

/// What a scan of a messages directory found.
#[derive(Debug)]
pub struct ScanResult {
    /// The translations, by language.
    pub translations: Translations,
    /// The files that were read, each relative to the scanned root and
    /// beginning with its language's directory.
    pub files: Vec<TranslationFile>,
    /// The number of keys, all languages together.
    pub key_count: usize,
}

/// A translation file below the messages directory.
#[derive(Debug)]
pub struct TranslationFile {
    /// The language code: the name of the directory directly below the root.
    pub language: String,
    /// The path of the file, relative to the root.
    pub path: String,
}

/// What a push to the remote store has done so far.
#[derive(Debug)]
pub struct ImportResult {
    /// The number of keys that the store took as new.
    pub added: usize,
    /// The number of keys that the store already had.
    pub updated: usize,
    /// The number of keys that failed.
    pub failed: usize,
    /// What went wrong, in the order in which it happened.
    pub errors: Vec<String>,
}

/// What a pull from the remote store has done.
#[derive(Debug)]
pub struct SyncResult {
    /// The number of keys counted as downloaded.
    pub downloaded: usize,
    /// The number of files written.
    pub written: usize,
    /// The number of keys counted as skipped.
    pub skipped: usize,
    /// What went wrong, in the order in which it happened.
    pub errors: Vec<String>,
}

impl Default for ImportResult {
    fn default() -> (r: Self)
        ensures
            r.added == 0,
            r.updated == 0,
            r.failed == 0,
            r.errors@.len() == 0,
    {
        ImportResult { added: 0, updated: 0, failed: 0, errors: Vec::new() }
    }
}

impl Default for SyncResult {
    fn default() -> (r: Self)
        ensures
            r.downloaded == 0,
            r.written == 0,
            r.skipped == 0,
            r.errors@.len() == 0,
    {
        SyncResult { downloaded: 0, written: 0, skipped: 0, errors: Vec::new() }
    }
}

} // verus!
