//! Pulling translations from the remote store: what is new and what is
//! already there, and what a pull counts.
//!
//! A pull always writes the incoming text. `force` changes only the counts:
//! with it every incoming key counts as downloaded, without it a key that
//! the local scan already holds counts as skipped.

use crate::flatten::{entries_of, flat_keys, Flat};
use crate::language_mapping::{remapped, LanguageMapper};
use crate::text::texts;
use crate::types::{
    entries_for, key_total, languages_of, lemma_key_total_grows, lemma_language_lookup,
    LanguageEntries, SyncResult, Translations,
};
use vstd::prelude::*;

verus! {

/// The number of new keys named of each language in a preview.
pub const NEW_KEYS_SHOWN: usize = 5;

/// The number of existing keys named of each language in a preview.
pub const EXISTING_KEYS_SHOWN: usize = 3;

/// The options of the sync command.
#[derive(Debug)]
pub struct SyncCmd {
    /// The path of the configuration file, where one was given.
    pub config: Option<String>,
    /// Show what would be pulled and write nothing.
    pub dry_run: bool,
    /// Count every incoming key as downloaded.
    pub force: bool,
}

/// What a pull does once the incoming translations and the local scan are
/// there.
#[derive(Clone, Copy, Debug, PartialEq, Eq, Structural)]
pub enum SyncStep {
    /// Show what would be pulled.
    Preview,
    /// Write the files.
    Write,
}

impl SyncCmd {
    /// What the pull does once it has fetched and scanned: a preview on a
    /// dry run, else the writing.
    pub fn after_fetch(&self) -> (step: SyncStep)
        ensures
            step == if self.dry_run {
                SyncStep::Preview
            } else {
                SyncStep::Write
            },
    {
        if self.dry_run {
            SyncStep::Preview
        } else {
            SyncStep::Write
        }
    }
}

/// Whether an incoming key counts as downloaded: always with `force`, else
/// only where the local keys do not hold it.
pub open spec fn counts_as_downloaded(force: bool, local: Flat, key: Seq<char>) -> bool {
    force || !flat_keys(local).contains(key)
}

/// The number of the first `n` incoming keys that count as downloaded.
pub open spec fn downloaded_of(incoming: Flat, local: Flat, force: bool, n: nat) -> nat
    decreases n,
{
    if n == 0 || n > incoming.len() {
        0
    } else {
        downloaded_of(incoming, local, force, (n - 1) as nat) + if counts_as_downloaded(
            force,
            local,
            incoming[n - 1].0,
        ) {
            1nat
        } else {
            0nat
        }
    }
}

/// The number of keys of the first `n` incoming languages that count as
/// downloaded.
pub open spec fn downloaded_total(
    incoming: LanguageEntries,
    local: LanguageEntries,
    force: bool,
    n: nat,
) -> nat
    decreases n,
{
    if n == 0 || n > incoming.len() {
        0
    } else {
        downloaded_total(incoming, local, force, (n - 1) as nat) + downloaded_of(
            incoming[n - 1].1,
            entries_for(local, incoming[n - 1].0),
            force,
            incoming[n - 1].1.len(),
        )
    }
}

/// Of the first `n` keys, those that count as downloaded are no more than
/// `n`.
pub proof fn lemma_downloaded_bound(incoming: Flat, local: Flat, force: bool, n: nat)
    requires
        n <= incoming.len(),
    ensures
        downloaded_of(incoming, local, force, n) <= n,
        force ==> downloaded_of(incoming, local, force, n) == n,
    decreases n,
{
    if n > 0 {
        lemma_downloaded_bound(incoming, local, force, (n - 1) as nat);
    }
}

/// Of the keys of the first `n` languages, those that count as downloaded
/// are no more than all; with `force` they are all.
pub proof fn lemma_downloaded_total_bound(
    incoming: LanguageEntries,
    local: LanguageEntries,
    force: bool,
    n: nat,
)
    requires
        n <= incoming.len(),
    ensures
        downloaded_total(incoming, local, force, n) <= key_total(incoming, n),
        force ==> downloaded_total(incoming, local, force, n) == key_total(incoming, n),
    decreases n,
{
    if n > 0 {
        lemma_downloaded_total_bound(incoming, local, force, (n - 1) as nat);
        lemma_downloaded_bound(
            incoming[n - 1].1,
            entries_for(local, incoming[n - 1].0),
            force,
            incoming[n - 1].1.len(),
        );
    }
}

/// A pull that brings no key counts nothing, with or without `force`.
pub proof fn lemma_nothing_to_count(
    incoming: LanguageEntries,
    local: LanguageEntries,
    force: bool,
    n: nat,
)
    requires
        n <= incoming.len(),
        key_total(incoming, n) == 0,
    ensures
        downloaded_total(incoming, local, force, n) == 0,
{
    lemma_downloaded_total_bound(incoming, local, force, n);
}

/// Whether any language holds a key.
pub fn has_keys(translations: &Translations) -> (r: bool)
    ensures
        r == (key_total(languages_of(*translations), translations.keys().len()) > 0),
{
    let n = translations.len();
    let mut i: usize = 0;
    while i < n
        invariant
            i <= n,
            n == translations.keys().len(),
            key_total(languages_of(*translations), i as nat) == 0,
        decreases n - i,
    {
        if !translations.value_at(i).is_empty() {
            proof {
                lemma_key_total_grows(languages_of(*translations), (i + 1) as nat, n as nat);
            }
            return true;
        }
        i += 1;
    }
    false
}

/// The translations that a pull works with: what the store sent, under
/// local language codes; `None` where the store sent no key at all, so that
/// nothing is to be done.
pub fn prepare_pull(remote: Translations, mapper: &LanguageMapper) -> (incoming: Option<
    Translations,
>)
    ensures
        match incoming {
            None => key_total(languages_of(remote), remote.keys().len()) == 0,
            Some(translations) => key_total(languages_of(remote), remote.keys().len()) > 0
                && languages_of(translations) == remapped(
                languages_of(remote),
                mapper.backward(),
                remote.keys().len(),
            ),
        },
{
    if !has_keys(&remote) {
        None
    } else {
        Some(mapper.reverse_translations(remote))
    }
}

/// What a pull counts: every incoming key as downloaded or as skipped, and
/// the files written. The counts depend on the key sets alone, not on what
/// was written.
pub fn sync_stats(incoming: &Translations, local: &Translations, force: bool, written: usize) -> (result:
    SyncResult)
    requires
        key_total(languages_of(*incoming), incoming.keys().len()) <= usize::MAX,
    ensures
        result.written == written,
        result.downloaded == downloaded_total(
            languages_of(*incoming),
            languages_of(*local),
            force,
            incoming.keys().len(),
        ),
        result.downloaded + result.skipped == key_total(
            languages_of(*incoming),
            incoming.keys().len(),
        ),
        result.errors@.len() == 0,
{
    let ghost theirs = languages_of(*incoming);
    let ghost ours = languages_of(*local);
    let mut downloaded: usize = 0;
    let mut skipped: usize = 0;
    let n = incoming.len();
    let mut i: usize = 0;
    while i < n
        invariant
            i <= n,
            n == incoming.keys().len(),
            theirs == languages_of(*incoming),
            ours == languages_of(*local),
            key_total(theirs, n as nat) <= usize::MAX,
            downloaded == downloaded_total(theirs, ours, force, i as nat),
            downloaded + skipped == key_total(theirs, i as nat),
        decreases n - i,
    {
        let code = incoming.key_at(i);
        let keys = incoming.value_at(i);
        let known = local.get(code.as_str());
        let ghost their_keys = theirs[i as int].1;
        let ghost our_keys = entries_for(ours, code@);
        proof {
            use_type_invariant(local);
            lemma_language_lookup(*local, code@);
            lemma_key_total_grows(theirs, (i + 1) as nat, n as nat);
        }
        let count = keys.len();
        let ghost downloaded_before = downloaded;
        let ghost skipped_before = skipped;
        let mut k: usize = 0;
        while k < count
            invariant
                k <= count,
                count == keys.keys().len(),
                their_keys == entries_of(*keys),
                count == their_keys.len(),
                match known {
                    Some(map) => entries_of(*map) == our_keys,
                    None => our_keys.len() == 0,
                },
                downloaded == downloaded_before + downloaded_of(their_keys, our_keys, force, k as nat),
                downloaded + skipped == downloaded_before + skipped_before + k,
                downloaded_before + skipped_before + count <= usize::MAX,
            decreases count - k,
        {
            let key = keys.key_at(k);
            let present = match known {
                Some(map) => {
                    proof {
                        use_type_invariant(map);
                        map.lemma_view();
                        assert(flat_keys(entries_of(*map)) =~= map.keys());
                    }
                    map.contains_key(key.as_str())
                },
                None => {
                    assert(flat_keys(our_keys) =~= Seq::<Seq<char>>::empty());
                    false
                },
            };
            if force || !present {
                downloaded = downloaded + 1;
            } else {
                skipped = skipped + 1;
            }
            k += 1;
        }
        i += 1;
    }
    SyncResult { downloaded, written, skipped, errors: Vec::new() }
}

/// What a pull would bring for one language.
#[derive(Debug)]
pub struct LanguageDiff {
    /// The language code.
    pub language: String,
    /// The incoming keys that are not there locally, in incoming order.
    pub new_keys: Vec<String>,
    /// The incoming keys that are there locally, in incoming order.
    pub existing_keys: Vec<String>,
}

/// Those of the first `n` incoming keys that the local keys hold, when
/// `present` is set, or do not hold, when it is not.
pub open spec fn keys_where(incoming: Flat, local: Flat, present: bool, n: nat) -> Seq<Seq<char>>
    decreases n,
{
    if n == 0 || n > incoming.len() {
        Seq::empty()
    } else {
        let before = keys_where(incoming, local, present, (n - 1) as nat);
        if flat_keys(local).contains(incoming[n - 1].0) == present {
            before.push(incoming[n - 1].0)
        } else {
            before
        }
    }
}

/// What a pull would bring: for each incoming language, in order, its keys
/// parted into new and existing ones.
pub fn sync_diff(incoming: &Translations, local: &Translations) -> (diff: Vec<LanguageDiff>)
    ensures
        diff@.len() == incoming.keys().len(),
        forall|i: int|
            0 <= i < diff@.len() ==> {
                let theirs = languages_of(*incoming)[i];
                let ours = entries_for(languages_of(*local), theirs.0);
                &&& (#[trigger] diff@[i]).language@ == theirs.0
                &&& texts(diff@[i].new_keys@) == keys_where(theirs.1, ours, false, theirs.1.len())
                &&& texts(diff@[i].existing_keys@) == keys_where(
                    theirs.1,
                    ours,
                    true,
                    theirs.1.len(),
                )
            },
{
    let mut diff: Vec<LanguageDiff> = Vec::new();
    let n = incoming.len();
    let mut i: usize = 0;
    while i < n
        invariant
            i <= n,
            n == incoming.keys().len(),
            diff@.len() == i,
            forall|j: int|
                0 <= j < i ==> {
                    let theirs = languages_of(*incoming)[j];
                    let ours = entries_for(languages_of(*local), theirs.0);
                    &&& (#[trigger] diff@[j]).language@ == theirs.0
                    &&& texts(diff@[j].new_keys@) == keys_where(
                        theirs.1,
                        ours,
                        false,
                        theirs.1.len(),
                    )
                    &&& texts(diff@[j].existing_keys@) == keys_where(
                        theirs.1,
                        ours,
                        true,
                        theirs.1.len(),
                    )
                },
        decreases n - i,
    {
        let code = incoming.key_at(i);
        let keys = incoming.value_at(i);
        let known = local.get(code.as_str());
        let ghost their_keys = languages_of(*incoming)[i as int].1;
        let ghost our_keys = entries_for(languages_of(*local), code@);
        proof {
            use_type_invariant(local);
            lemma_language_lookup(*local, code@);
        }
        let mut new_keys: Vec<String> = Vec::new();
        let mut existing_keys: Vec<String> = Vec::new();
        let count = keys.len();
        let mut k: usize = 0;
        assert(texts(new_keys@) =~= Seq::<Seq<char>>::empty());
        assert(texts(existing_keys@) =~= Seq::<Seq<char>>::empty());
        while k < count
            invariant
                k <= count,
                count == keys.keys().len(),
                their_keys == entries_of(*keys),
                match known {
                    Some(map) => entries_of(*map) == our_keys,
                    None => our_keys.len() == 0,
                },
                texts(new_keys@) == keys_where(their_keys, our_keys, false, k as nat),
                texts(existing_keys@) == keys_where(their_keys, our_keys, true, k as nat),
            decreases count - k,
        {
            let key = keys.key_at(k);
            let present = match known {
                Some(map) => {
                    proof {
                        use_type_invariant(map);
                        map.lemma_view();
                        assert(flat_keys(entries_of(*map)) =~= map.keys());
                    }
                    map.contains_key(key.as_str())
                },
                None => {
                    assert(flat_keys(our_keys) =~= Seq::<Seq<char>>::empty());
                    false
                },
            };
            let copy = key.clone();
            if present {
                proof {
                    assert(texts(existing_keys@.push(copy)) =~= texts(existing_keys@).push(key@));
                }
                existing_keys.push(copy);
            } else {
                proof {
                    assert(texts(new_keys@.push(copy)) =~= texts(new_keys@).push(key@));
                }
                new_keys.push(copy);
            }
            k += 1;
        }
        diff.push(LanguageDiff { language: code.clone(), new_keys, existing_keys });
        i += 1;
    }
    diff
}

impl SyncCmd {
    /// What a dry run shows: for each incoming language its new and its
    /// existing keys.
    pub fn show_sync_diff(&self, backend: &Translations, local: &Translations) -> (diff: Vec<
        LanguageDiff,
    >)
        ensures
            diff@.len() == backend.keys().len(),
            forall|i: int|
                0 <= i < diff@.len() ==> {
                    let theirs = languages_of(*backend)[i];
                    let ours = entries_for(languages_of(*local), theirs.0);
                    &&& (#[trigger] diff@[i]).language@ == theirs.0
                    &&& texts(diff@[i].new_keys@) == keys_where(
                        theirs.1,
                        ours,
                        false,
                        theirs.1.len(),
                    )
                    &&& texts(diff@[i].existing_keys@) == keys_where(
                        theirs.1,
                        ours,
                        true,
                        theirs.1.len(),
                    )
                },
    {
        sync_diff(backend, local)
    }

    /// What the pull counts, with this command's `force`.
    pub fn execute_sync(&self, incoming: &Translations, local: &Translations, written: usize) -> (result:
        SyncResult)
        requires
            key_total(languages_of(*incoming), incoming.keys().len()) <= usize::MAX,
        ensures
            result.written == written,
            result.downloaded == downloaded_total(
                languages_of(*incoming),
                languages_of(*local),
                self.force,
                incoming.keys().len(),
            ),
            result.downloaded + result.skipped == key_total(
                languages_of(*incoming),
                incoming.keys().len(),
            ),
            result.errors@.len() == 0,
    {
        sync_stats(incoming, local, self.force, written)
    }
}

/// The first `n` of `keys`, or all of them where they are fewer.
pub fn first_keys(keys: &Vec<String>, n: usize) -> (shown: Vec<String>)
    ensures
        texts(shown@) == texts(keys@).take(
            if keys@.len() <= n {
                keys@.len() as int
            } else {
                n as int
            },
        ),
{
    let limit: usize = if keys.len() <= n {
        keys.len()
    } else {
        n
    };
    let mut shown: Vec<String> = Vec::new();
    let mut i: usize = 0;
    assert(texts(shown@) =~= texts(keys@).take(0));
    while i < limit
        invariant
            i <= limit <= keys@.len(),
            texts(shown@) == texts(keys@).take(i as int),
        decreases limit - i,
    {
        let key = keys[i].clone();
        proof {
            assert(texts(shown@.push(key)) =~= texts(shown@).push(key@));
            assert(texts(keys@).take(i + 1) =~= texts(keys@).take(i as int).push(key@));
        }
        shown.push(key);
        i += 1;
    }
    shown
}

} // verus!
