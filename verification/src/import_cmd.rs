//! Pushing local translations to the remote store: the batches, the notes
//! kept of failures, and the decisions between one push and the next.

use crate::client::PushKeysResponse;
use crate::flatten::{entries_of, lemma_insert_entries, Flat, FlatMap};
use crate::str_map::StrMap;
use crate::text::{
    clip, clipped, contains, contains_text, decimal, decimal_text, join, join_with, lowercase,
    lowercase_of, texts,
};
use crate::types::{languages_of, ImportResult, LanguageEntries, Translations};
use vstd::prelude::*;

verus! {

/// The number of keys pushed in one call.
pub const BATCH_SIZE: usize = 50;

/// The pause between two batches of one language, in milliseconds.
pub const BATCH_DELAY_MS: u64 = 200;

/// The number of times one batch is pushed again after a rate limit, at
/// most.
pub const MAX_RETRIES: usize = 3;

/// The number of keys shown of each language in a preview.
pub const PREVIEW_KEYS: usize = 5;

/// The number of characters shown of a text in a preview.
pub const PREVIEW_CHARS: usize = 50;

/// The number of failed keys named in a note.
pub const NAMED_FAILURES: usize = 10;

/// The options of the import command.
#[derive(Debug)]
pub struct ImportCmd {
    /// The path of the configuration file, where one was given.
    pub config: Option<String>,
    /// Show what would be pushed and push nothing.
    pub dry_run: bool,
}

/// What an import does once the local tree is scanned.
#[derive(Clone, Copy, Debug, PartialEq, Eq, Structural)]
pub enum ImportStep {
    /// Nothing was found: there is nothing to push.
    Skip,
    /// Show what would be pushed.
    Preview,
    /// Push.
    Push,
}

impl ImportCmd {
    /// What the import does with `key_count` keys found: nothing where
    /// there are none, a preview on a dry run, else the push.
    pub fn after_scan(&self, key_count: usize) -> (step: ImportStep)
        ensures
            step == if key_count == 0 {
                ImportStep::Skip
            } else if self.dry_run {
                ImportStep::Preview
            } else {
                ImportStep::Push
            },
    {
        if key_count == 0 {
            ImportStep::Skip
        } else if self.dry_run {
            ImportStep::Preview
        } else {
            ImportStep::Push
        }
    }
}

/// Whether a lower-case error text tells of a rate limit: it holds `429`,
/// `rate limit` or `too many requests`.
pub open spec fn rate_limit_text(lowered: Seq<char>) -> bool {
    contains_text(lowered, "429"@) || contains_text(lowered, "rate limit"@) || contains_text(
        lowered,
        "too many requests"@,
    )
}

/// Whether a lower-case error text tells of a rate limit.
pub fn mentions_rate_limit(lowered: &str) -> (r: bool)
    ensures
        r == rate_limit_text(lowered@),
{
    contains(lowered, "429") || contains(lowered, "rate limit") || contains(
        lowered,
        "too many requests",
    )
}

/// Whether an error text tells of a rate limit, whatever its case.
pub fn is_rate_limit_error(message: &str) -> (r: bool)
    ensures
        r == rate_limit_text(lowercase_of(message@)),
{
    let lowered = lowercase(message);
    mentions_rate_limit(lowered.as_str())
}

/// The pieces of `entries`, each of `size` entries but the last, which has
/// what is left. No piece is empty.
pub open spec fn chunks(entries: Flat, size: nat) -> Seq<Flat>
    decreases entries.len(),
{
    if entries.len() == 0 || size == 0 {
        Seq::empty()
    } else if entries.len() <= size {
        seq![entries]
    } else {
        seq![entries.take(size as int)] + chunks(entries.skip(size as int), size)
    }
}

/// The pieces put together again, one after the other.
pub open spec fn joined(pieces: Seq<Flat>) -> Flat
    decreases pieces.len(),
{
    if pieces.len() == 0 {
        Seq::empty()
    } else {
        pieces[0] + joined(pieces.skip(1))
    }
}

/// The pieces of entries hold all the entries in their order; every piece
/// has at least one entry and at most `size`, and every piece but the last
/// has `size`.
pub proof fn lemma_chunks(entries: Flat, size: nat)
    requires
        size > 0,
    ensures
        joined(chunks(entries, size)) == entries,
        forall|k: int|
            0 <= k < chunks(entries, size).len() ==> 1 <= (#[trigger] chunks(entries, size)[k]).len()
                <= size,
        forall|k: int|
            0 <= k < chunks(entries, size).len() - 1 ==> (#[trigger] chunks(entries, size)[k]).len()
                == size,
    decreases entries.len(),
{
    let pieces = chunks(entries, size);
    if entries.len() == 0 {
        assert(entries =~= Seq::empty());
    } else if entries.len() <= size {
        assert(pieces.skip(1) =~= Seq::<Flat>::empty());
        assert(joined(pieces.skip(1)) == Seq::<(Seq<char>, Seq<char>)>::empty());
        assert(joined(pieces) == pieces[0] + joined(pieces.skip(1)));
        assert(entries + Seq::<(Seq<char>, Seq<char>)>::empty() =~= entries);
    } else {
        let rest = chunks(entries.skip(size as int), size);
        lemma_chunks(entries.skip(size as int), size);
        assert(pieces.skip(1) =~= rest);
        assert(entries.take(size as int) + entries.skip(size as int) =~= entries);
        assert forall|k: int| 0 <= k < pieces.len() implies 1 <= (#[trigger] pieces[k]).len()
            <= size by {
            if k > 0 {
                assert(pieces[k] == rest[k - 1]);
            }
        }
        assert forall|k: int| 0 <= k < pieces.len() - 1 implies (#[trigger] pieces[k]).len()
            == size by {
            if k > 0 {
                assert(pieces[k] == rest[k - 1]);
            }
        }
    }
}

/// One batch of a push.
pub struct BatchModel {
    pub language: Seq<char>,
    pub number: nat,
    pub entries: Flat,
    pub is_last: bool,
}

/// The batches of one language: its chunks in order, numbered from one, the
/// last one marked.
pub open spec fn language_batches(language: Seq<char>, entries: Flat, size: nat) -> Seq<
    BatchModel,
> {
    let pieces = chunks(entries, size);
    Seq::new(
        pieces.len(),
        |k: int|
            BatchModel {
                language,
                number: (k + 1) as nat,
                entries: pieces[k],
                is_last: k + 1 == pieces.len(),
            },
    )
}

/// The batches of the first `n` languages, language after language.
pub open spec fn plan_of(languages: LanguageEntries, size: nat, n: nat) -> Seq<BatchModel>
    decreases n,
{
    if n == 0 || n > languages.len() {
        Seq::empty()
    } else {
        plan_of(languages, size, (n - 1) as nat) + language_batches(
            languages[n - 1].0,
            languages[n - 1].1,
            size,
        )
    }
}

/// One batch of a push: some keys of one language.
#[derive(Debug)]
pub struct Batch {
    /// The language code.
    pub language: String,
    /// The number of the batch within its language, from one.
    pub number: usize,
    /// The keys and texts to push.
    pub entries: FlatMap,
    /// Whether this is the last batch of its language.
    pub is_last: bool,
}

impl View for Batch {
    type V = BatchModel;

    open spec fn view(&self) -> BatchModel {
        BatchModel {
            language: self.language@,
            number: self.number as nat,
            entries: entries_of(self.entries),
            is_last: self.is_last,
        }
    }
}

/// The views of a run of batches.
pub open spec fn batches_view(batches: Seq<Batch>) -> Seq<BatchModel> {
    batches.map_values(|b: Batch| b@)
}

impl Batch {
    /// A batch equal to this one.
    pub fn copy(&self) -> (r: Batch)
        ensures
            r@ == self@,
    {
        Batch {
            language: self.language.clone(),
            number: self.number,
            entries: crate::types::copy_flat(&self.entries),
            is_last: self.is_last,
        }
    }
}

/// Splits a flat map into pieces of `size` entries, in order; the last piece
/// has what is left.
pub fn split_batches(map: &FlatMap, size: usize) -> (pieces: Vec<FlatMap>)
    requires
        size > 0,
    ensures
        pieces@.map_values(|m: FlatMap| entries_of(m)) == chunks(entries_of(*map), size as nat),
{
    let ghost all = entries_of(*map);
    let ghost view = |m: FlatMap| entries_of(m);
    let n = map.len();
    let mut pieces: Vec<FlatMap> = Vec::new();
    let mut current: FlatMap = StrMap::new();
    let mut start: usize = 0;
    let mut i: usize = 0;
    proof {
        use_type_invariant(map);
        assert(pieces@.map_values(view) =~= Seq::<Flat>::empty());
        assert(all.skip(0) =~= all);
        assert(entries_of(current) =~= all.subrange(0, 0));
    }
    while i < n
        invariant
            start <= i <= n,
            n == map.keys().len(),
            all == entries_of(*map),
            map.wf(),
            size > 0,
            view == |m: FlatMap| entries_of(m),
            i - start <= size,
            i - start == size ==> i == n,
            entries_of(current) == all.subrange(start as int, i as int),
            current.keys() == map.keys().subrange(start as int, i as int),
            pieces@.map_values(view) + chunks(all.skip(start as int), size as nat) == chunks(
                all,
                size as nat,
            ),
        decreases n - i,
    {
        let key = map.key_at(i).clone();
        let value = map.value_at(i).clone();
        let ghost before = current;
        proof {
            use_type_invariant(&current);
            if before.keys().contains(key@) {
                let j = before.keys().index_of(key@);
                assert(before.keys()[j] == map.keys()[start + j]);
            }
        }
        current.insert(key, value);
        proof {
            lemma_insert_entries(before, current, key@, value);
            assert(entries_of(current) =~= all.subrange(start as int, i + 1));
            assert(current.keys() =~= map.keys().subrange(start as int, i + 1));
        }
        i += 1;
        if i - start == size && i < n {
            proof {
                let rest = all.skip(start as int);
                assert(rest.len() > size);
                assert(rest.take(size as int) =~= entries_of(current));
                assert(rest.skip(size as int) =~= all.skip(i as int));
                assert(chunks(rest, size as nat) == seq![entries_of(current)] + chunks(
                    all.skip(i as int),
                    size as nat,
                ));
                assert(pieces@.push(current).map_values(view) =~= pieces@.map_values(view)
                    + seq![entries_of(current)]);
                assert((pieces@.map_values(view) + seq![entries_of(current)]) + chunks(
                    all.skip(i as int),
                    size as nat,
                ) =~= pieces@.map_values(view) + (seq![entries_of(current)] + chunks(
                    all.skip(i as int),
                    size as nat,
                )));
            }
            pieces.push(current);
            current = StrMap::new();
            start = i;
            proof {
                assert(entries_of(current) =~= all.subrange(start as int, i as int));
                assert(current.keys() =~= map.keys().subrange(start as int, i as int));
            }
        }
    }
    if i > start {
        proof {
            let rest = all.skip(start as int);
            assert(rest =~= entries_of(current));
            assert(0 < rest.len() <= size);
            assert(chunks(rest, size as nat) == seq![rest]);
            assert(pieces@.push(current).map_values(view) =~= pieces@.map_values(view) + seq![
                entries_of(current),
            ]);
        }
        pieces.push(current);
    } else {
        proof {
            let rest = all.skip(start as int);
            assert(rest.len() == 0);
            assert(pieces@.map_values(view) + Seq::<Flat>::empty() =~= pieces@.map_values(view));
        }
    }
    pieces
}

/// The batches of a push: language after language in the order of
/// `translations`, each language's keys in pieces of `size`. A language
/// without keys has no batch.
pub fn plan_batches(translations: &Translations, size: usize) -> (plan: Vec<Batch>)
    requires
        size > 0,
    ensures
        batches_view(plan@) == plan_of(
            languages_of(*translations),
            size as nat,
            translations.keys().len(),
        ),
{
    let ghost languages = languages_of(*translations);
    let n = translations.len();
    let mut plan: Vec<Batch> = Vec::new();
    let mut i: usize = 0;
    assert(batches_view(plan@) =~= Seq::<BatchModel>::empty());
    while i < n
        invariant
            i <= n,
            n == translations.keys().len(),
            size > 0,
            languages == languages_of(*translations),
            batches_view(plan@) == plan_of(languages, size as nat, i as nat),
        decreases n - i,
    {
        let language = translations.key_at(i);
        let pieces = split_batches(translations.value_at(i), size);
        let ghost entries = languages[i as int].1;
        let ghost wanted = language_batches(language@, entries, size as nat);
        let ghost done = plan_of(languages, size as nat, i as nat);
        let count = pieces.len();
        let mut k: usize = 0;
        assert(wanted.len() == count);
        assert(batches_view(plan@) =~= done + wanted.take(0));
        while k < count
            invariant
                k <= count,
                count == pieces@.len(),
                wanted.len() == count,
                language@ == languages[i as int].0,
                wanted == language_batches(language@, entries, size as nat),
                pieces@.map_values(|m: FlatMap| entries_of(m)) == chunks(entries, size as nat),
                batches_view(plan@) == done + wanted.take(k as int),
            decreases count - k,
        {
            let batch = Batch {
                language: language.clone(),
                number: k + 1,
                entries: crate::types::copy_flat(&pieces[k]),
                is_last: k + 1 == count,
            };
            proof {
                assert(pieces@.map_values(|m: FlatMap| entries_of(m))[k as int] == entries_of(
                    pieces@[k as int],
                ));
                assert(batch@ == wanted[k as int]);
                assert(batches_view(plan@.push(batch)) =~= batches_view(plan@).push(batch@));
                assert(wanted.take(k + 1) =~= wanted.take(k as int).push(wanted[k as int]));
                assert(done + wanted.take(k + 1) =~= (done + wanted.take(k as int)).push(
                    wanted[k as int],
                ));
            }
            plan.push(batch);
            k += 1;
        }
        proof {
            assert(wanted.take(count as int) =~= wanted);
        }
        i += 1;
    }
    plan
}

/// The note kept of keys that the store could not take: the language, the
/// batch number and the first ten of the keys.
pub open spec fn failed_keys_note(language: Seq<char>, number: nat, failed: Seq<Seq<char>>) -> Seq<
    char,
> {
    language + "["@ + decimal(number) + "]: failed keys - "@ + join_with(
        failed.take(
            if failed.len() <= NAMED_FAILURES {
                failed.len() as int
            } else {
                NAMED_FAILURES as int
            },
        ),
        ", "@,
    )
}

/// The note that tells how many failed keys were not named.
pub open spec fn more_failures_note(extra: nat) -> Seq<char> {
    "  ... and "@ + decimal(extra) + " more"@
}

/// The notes kept of one answer: none where no key failed, else the keys'
/// note, and the count of the rest where more than ten failed.
pub open spec fn failure_notes(language: Seq<char>, number: nat, failed: Seq<Seq<char>>) -> Seq<
    Seq<char>,
> {
    if failed.len() == 0 {
        Seq::empty()
    } else if failed.len() <= NAMED_FAILURES {
        seq![failed_keys_note(language, number, failed)]
    } else {
        seq![
            failed_keys_note(language, number, failed),
            more_failures_note((failed.len() - NAMED_FAILURES) as nat),
        ]
    }
}

/// The note kept of a batch that failed as a whole.
pub open spec fn batch_failure_note(language: Seq<char>, number: nat, message: Seq<char>) -> Seq<
    char,
> {
    language + "["@ + decimal(number) + "]: "@ + message
}

/// Appends to `errors` the notes of one answer.
pub fn note_failed_keys(errors: &mut Vec<String>, language: &str, number: usize, failed: &Vec<String>)
    ensures
        texts(final(errors)@) == texts(old(errors)@) + failure_notes(
            language@,
            number as nat,
            texts(failed@),
        ),
{
    let ghost before = texts(errors@);
    if failed.len() == 0 {
        assert(before + Seq::<Seq<char>>::empty() =~= before);
        return ;
    }
    let shown: usize = if failed.len() <= NAMED_FAILURES {
        failed.len()
    } else {
        NAMED_FAILURES
    };
    let mut named: Vec<String> = Vec::new();
    let mut i: usize = 0;
    while i < shown
        invariant
            i <= shown <= failed.len(),
            texts(named@) == texts(failed@).take(i as int),
        decreases shown - i,
    {
        let key = failed[i].clone();
        proof {
            assert(texts(named@.push(key)) =~= texts(named@).push(key@));
            assert(texts(failed@).take(i + 1) =~= texts(failed@).take(i as int).push(key@));
        }
        named.push(key);
        i += 1;
    }
    let mut note = language.to_owned();
    note.append("[");
    note.append(decimal_text(number as u64).as_str());
    note.append("]: failed keys - ");
    note.append(join(&named, ", ").as_str());
    proof {
        assert(note@ =~= failed_keys_note(language@, number as nat, texts(failed@)));
        assert(texts(errors@.push(note)) =~= before.push(note@));
    }
    errors.push(note);
    if failed.len() > NAMED_FAILURES {
        let ghost middle = errors@;
        let mut more = "  ... and ".to_owned();
        more.append(decimal_text((failed.len() - NAMED_FAILURES) as u64).as_str());
        more.append(" more");
        proof {
            assert(more@ =~= more_failures_note((failed@.len() - NAMED_FAILURES) as nat));
            assert(texts(middle.push(more)) =~= texts(middle).push(more@));
            assert(before.push(note@).push(more@) =~= before + failure_notes(
                language@,
                number as nat,
                texts(failed@),
            ));
        }
        errors.push(more);
    } else {
        proof {
            assert(before.push(note@) =~= before + failure_notes(
                language@,
                number as nat,
                texts(failed@),
            ));
        }
    }
}

/// Appends to `errors` the note of a batch that failed as a whole.
pub fn note_batch_failure(errors: &mut Vec<String>, language: &str, number: usize, message: &str)
    ensures
        texts(final(errors)@) == texts(old(errors)@).push(
            batch_failure_note(language@, number as nat, message@),
        ),
{
    let mut note = language.to_owned();
    note.append("[");
    note.append(decimal_text(number as u64).as_str());
    note.append("]: ");
    note.append(message);
    proof {
        assert(note@ =~= batch_failure_note(language@, number as nat, message@));
        assert(texts(errors@.push(note)) =~= texts(errors@).push(note@));
    }
    errors.push(note);
}

/// What a preview shows of one language.
#[derive(Debug)]
pub struct LanguagePreview {
    /// The language code.
    pub language: String,
    /// The number of keys of the language.
    pub key_count: usize,
    /// The first keys, each with the start of its text.
    pub samples: Vec<(String, String)>,
    /// The number of keys that are not shown.
    pub more: usize,
}

/// The number of entries that a preview shows of `count`.
pub open spec fn shown_count(count: nat) -> nat {
    if count <= PREVIEW_KEYS {
        count
    } else {
        PREVIEW_KEYS as nat
    }
}

/// The samples of a language: its first five entries, each text cut to
/// fifty characters.
pub open spec fn samples_of(entries: Flat) -> Flat {
    Seq::new(
        shown_count(entries.len()),
        |i: int| (entries[i].0, clipped(entries[i].1, PREVIEW_CHARS as nat)),
    )
}

/// The samples of a preview, each key and text by its view.
pub open spec fn samples_view(samples: Seq<(String, String)>) -> Flat {
    samples.map_values(|s: (String, String)| (s.0@, s.1@))
}

impl ImportCmd {
    /// What a dry run shows: for each language, in order, the number of its
    /// keys and its first keys with the start of their texts.
    pub fn dry_run_import(&self, translations: &Translations) -> (preview: Vec<LanguagePreview>)
        ensures
            preview@.len() == translations.keys().len(),
            forall|i: int|
                0 <= i < preview@.len() ==> {
                    let language = languages_of(*translations)[i];
                    &&& (#[trigger] preview@[i]).language@ == language.0
                    &&& preview@[i].key_count == language.1.len()
                    &&& samples_view(preview@[i].samples@) == samples_of(language.1)
                    &&& preview@[i].more == language.1.len() - shown_count(language.1.len())
                },
    {
        let mut preview: Vec<LanguagePreview> = Vec::new();
        let n = translations.len();
        let mut i: usize = 0;
        while i < n
            invariant
                i <= n,
                n == translations.keys().len(),
                preview@.len() == i,
                forall|j: int|
                    0 <= j < i ==> {
                        let language = languages_of(*translations)[j];
                        &&& (#[trigger] preview@[j]).language@ == language.0
                        &&& preview@[j].key_count == language.1.len()
                        &&& samples_view(preview@[j].samples@) == samples_of(language.1)
                        &&& preview@[j].more == language.1.len() - shown_count(language.1.len())
                    },
            decreases n - i,
        {
            let map = translations.value_at(i);
            let count = map.len();
            let shown: usize = if count <= PREVIEW_KEYS {
                count
            } else {
                PREVIEW_KEYS
            };
            let ghost entries = entries_of(*map);
            let mut samples: Vec<(String, String)> = Vec::new();
            let mut k: usize = 0;
            while k < shown
                invariant
                    k <= shown <= count,
                    count == map.keys().len(),
                    entries == entries_of(*map),
                    samples@.len() == k,
                    forall|j: int|
                        0 <= j < k ==> (#[trigger] samples@[j]).0@ == entries[j].0 && samples@[j].1@
                            == clipped(entries[j].1, PREVIEW_CHARS as nat),
                decreases shown - k,
            {
                let key = map.key_at(k).clone();
                let start = clip(map.value_at(k).as_str(), PREVIEW_CHARS);
                samples.push((key, start));
                k += 1;
            }
            assert(samples_view(samples@) =~= samples_of(entries));
            preview.push(
                LanguagePreview {
                    language: translations.key_at(i).clone(),
                    key_count: count,
                    samples,
                    more: count - shown,
                },
            );
            i += 1;
        }
        preview
    }

    /// What a dry run reports: every key that was found counts as added.
    pub fn dry_run_result(&self, key_count: usize) -> (result: ImportResult)
        ensures
            result.added == key_count,
            result.updated == 0,
            result.failed == 0,
            result.errors@.len() == 0,
    {
        ImportResult { added: key_count, updated: 0, failed: 0, errors: Vec::new() }
    }
}

/// The settings of a push.
#[derive(Debug)]
pub struct ImportSettings {
    /// The number of keys in one batch.
    pub batch_size: usize,
    /// The pause between two batches of one language, in milliseconds; the
    /// waits before retries are multiples of it.
    pub batch_delay_ms: u64,
    /// The number of retries: how often one batch is pushed again after a
    /// rate limit, at most.
    pub max_retries: usize,
}

impl ImportSettings {
    /// A batch holds at least one key, and the longest wait, the one before
    /// the last retry, fits in a `u64`.
    pub open spec fn valid(&self) -> bool {
        self.batch_size > 0 && 2 * self.max_retries <= u64::MAX && self.batch_delay_ms * (2
            * self.max_retries) <= u64::MAX
    }

    /// Whether the settings are valid.
    pub fn is_valid(&self) -> (r: bool)
        ensures
            r == self.valid(),
    {
        if self.batch_size == 0 {
            return false;
        }
        match (self.max_retries as u64).checked_mul(2) {
            Some(factor) => self.batch_delay_ms.checked_mul(factor).is_some(),
            None => false,
        }
    }

    /// A copy of the settings.
    pub fn copy(&self) -> (r: Self)
        ensures
            r == *self,
    {
        ImportSettings {
            batch_size: self.batch_size,
            batch_delay_ms: self.batch_delay_ms,
            max_retries: self.max_retries,
        }
    }
}

impl Default for ImportSettings {
    /// Batches of fifty keys, a pause of 200 ms, three retries at most.
    fn default() -> (r: Self)
        ensures
            r.batch_size == BATCH_SIZE,
            r.batch_delay_ms == BATCH_DELAY_MS,
            r.max_retries == MAX_RETRIES,
            r.valid(),
    {
        ImportSettings {
            batch_size: BATCH_SIZE,
            batch_delay_ms: BATCH_DELAY_MS,
            max_retries: MAX_RETRIES,
        }
    }
}

/// Where a push stands.
#[derive(Clone, Copy, Debug, PartialEq, Eq, Structural)]
pub enum Phase {
    /// Nothing has been asked for yet.
    Idle,
    /// A batch is being pushed.
    AwaitPush,
    /// A wait is under way.
    AwaitWake,
    /// Every batch has been dealt with.
    Done,
}

/// The state of a push, in numbers and texts.
pub struct RunModel {
    pub phase: Phase,
    /// The batch that is being pushed, or will be after the wait.
    pub position: nat,
    /// How often the batch at `position` has been pushed again.
    pub retries: nat,
    /// The length of the wait under way, in milliseconds.
    pub wait_ms: nat,
    pub added: nat,
    pub updated: nat,
    pub failed: nat,
    pub errors: Seq<Seq<char>>,
}

/// What has happened since the last action.
pub enum EventModel {
    Start,
    Pushed { added: nat, existed: nat, failed: Seq<Seq<char>> },
    PushFailed { message: Seq<char>, rate_limited: bool },
    Woke,
}

/// What is to be done next.
pub enum ActionModel {
    Push { batch: BatchModel },
    Sleep { millis: nat },
    Finish,
}

/// The wait before the `retries`-th repeated push of a batch.
pub open spec fn backoff_ms(delay_ms: nat, retries: nat) -> nat {
    delay_ms * (retries * 2)
}

/// The state before anything has happened.
pub open spec fn initial_state() -> RunModel {
    RunModel {
        phase: Phase::Idle,
        position: 0,
        retries: 0,
        wait_ms: 0,
        added: 0,
        updated: 0,
        failed: 0,
        errors: Seq::empty(),
    }
}

/// The push of the batch at `position`, or the end where there is none.
pub open spec fn push_at(plan: Seq<BatchModel>, m: RunModel, position: nat) -> (
    RunModel,
    ActionModel,
) {
    if position < plan.len() {
        (
            RunModel { phase: Phase::AwaitPush, position, wait_ms: 0, ..m },
            ActionModel::Push { batch: plan[position as int] },
        )
    } else {
        (
            RunModel { phase: Phase::Done, position: plan.len(), retries: 0, wait_ms: 0, ..m },
            ActionModel::Finish,
        )
    }
}

/// What follows once the batch at `m.position` is dealt with: the end after
/// the last batch, the next language's first batch at once, or the pause
/// before the next batch of the same language.
pub open spec fn next_after(delay_ms: nat, plan: Seq<BatchModel>, m: RunModel) -> (
    RunModel,
    ActionModel,
) {
    let next = m.position + 1;
    let fresh = RunModel { retries: 0, ..m };
    if next >= plan.len() || plan[m.position as int].is_last {
        push_at(plan, fresh, next)
    } else {
        (
            RunModel { phase: Phase::AwaitWake, position: next, wait_ms: delay_ms, ..fresh },
            ActionModel::Sleep { millis: delay_ms },
        )
    }
}

/// The state and the action that follow `event` in state `m`.
///
/// A batch that was pushed adds its counts and the notes of its failed keys.
/// A batch that failed is pushed again after a wait, if the failure was a
/// rate limit and the batch has been retried fewer than `max_retries`
/// times; else all its keys count as failed, a note is kept, and the push
/// goes on with the next batch. An event that the state does not wait for changes
/// nothing and gives the pending action again.
pub open spec fn step_model(
    delay_ms: nat,
    max_retries: nat,
    plan: Seq<BatchModel>,
    m: RunModel,
    event: EventModel,
) -> (RunModel, ActionModel) {
    match m.phase {
        Phase::Idle => push_at(plan, m, 0),
        Phase::Done => (m, ActionModel::Finish),
        Phase::AwaitWake => match event {
            EventModel::Woke => push_at(plan, m, m.position),
            _ => (m, ActionModel::Sleep { millis: m.wait_ms }),
        },
        Phase::AwaitPush => if m.position >= plan.len() {
            push_at(plan, m, m.position)
        } else {
            let batch = plan[m.position as int];
            match event {
                EventModel::Pushed { added, existed, failed } => next_after(
                    delay_ms,
                    plan,
                    RunModel {
                        added: m.added + added,
                        updated: m.updated + existed,
                        failed: m.failed + failed.len(),
                        errors: m.errors + failure_notes(batch.language, batch.number, failed),
                        ..m
                    },
                ),
                EventModel::PushFailed { message, rate_limited } => if rate_limited && m.retries
                    < max_retries {
                    (
                        RunModel {
                            phase: Phase::AwaitWake,
                            retries: m.retries + 1,
                            wait_ms: backoff_ms(delay_ms, m.retries + 1),
                            ..m
                        },
                        ActionModel::Sleep { millis: backoff_ms(delay_ms, m.retries + 1) },
                    )
                } else {
                    next_after(
                        delay_ms,
                        plan,
                        RunModel {
                            failed: m.failed + batch.entries.len(),
                            errors: m.errors.push(
                                batch_failure_note(batch.language, batch.number, message),
                            ),
                            ..m
                        },
                    )
                },
                _ => (m, ActionModel::Push { batch }),
            }
        },
    }
}

/// A batch that meets a rate limit is pushed again after a wait of twice
/// the pause times the number of the retry, until it has been retried
/// `max_retries` times; then all its keys count as failed, with a note, and
/// the push goes on.
pub proof fn lemma_rate_limit_steps(
    delay_ms: nat,
    max_retries: nat,
    plan: Seq<BatchModel>,
    m: RunModel,
    message: Seq<char>,
)
    requires
        m.phase == Phase::AwaitPush,
        m.position < plan.len(),
    ensures
        ({
            let event = EventModel::PushFailed { message, rate_limited: true };
            let (next, action) = step_model(delay_ms, max_retries, plan, m, event);
            let batch = plan[m.position as int];
            if m.retries < max_retries {
                &&& action == (ActionModel::Sleep { millis: delay_ms * (2 * (m.retries + 1)) })
                &&& next.retries == m.retries + 1
                &&& next.position == m.position
                &&& next.failed == m.failed
                &&& next.errors == m.errors
            } else {
                &&& next.failed == m.failed + batch.entries.len()
                &&& next.errors == m.errors.push(
                    batch_failure_note(batch.language, batch.number, message),
                )
                &&& next.retries == 0
                &&& next.position > m.position
            }
        }),
{
    assert(delay_ms * ((m.retries + 1) * 2) == delay_ms * (2 * (m.retries + 1))) by (nonlinear_arith);
}

/// Whether the counts of `m` can take `event` without leaving `usize`.
pub open spec fn has_room(plan: Seq<BatchModel>, m: RunModel, event: EventModel) -> bool {
    m.phase == Phase::AwaitPush && m.position < plan.len() ==> match event {
        EventModel::Pushed { added, existed, failed } => m.added + added <= usize::MAX && m.updated
            + existed <= usize::MAX && m.failed + failed.len() <= usize::MAX,
        EventModel::PushFailed { .. } => m.failed + plan[m.position as int].entries.len()
            <= usize::MAX,
        _ => true,
    }
}

/// What has happened since the last action.
#[derive(Debug)]
pub enum ImportEvent {
    /// Nothing yet: the push begins.
    Start,
    /// The store answered the push.
    Pushed(PushKeysResponse),
    /// The push failed, with the error's text; `rate_limited` says whether
    /// the error tells of a rate limit.
    PushFailed { message: String, rate_limited: bool },
    /// The wait is over.
    Woke,
}

impl View for ImportEvent {
    type V = EventModel;

    open spec fn view(&self) -> EventModel {
        match self {
            ImportEvent::Start => EventModel::Start,
            ImportEvent::Pushed(response) => EventModel::Pushed {
                added: response.added@.len(),
                existed: response.existed@.len(),
                failed: texts(response.failed@),
            },
            ImportEvent::PushFailed { message, rate_limited } => EventModel::PushFailed {
                message: message@,
                rate_limited: *rate_limited,
            },
            ImportEvent::Woke => EventModel::Woke,
        }
    }
}

impl ImportEvent {
    /// The event of a push that failed with `message`, told apart by the
    /// text of the error.
    pub fn failure(message: String) -> (event: ImportEvent)
        ensures
            event@ == (EventModel::PushFailed {
                message: message@,
                rate_limited: rate_limit_text(lowercase_of(message@)),
            }),
    {
        let rate_limited = is_rate_limit_error(message.as_str());
        ImportEvent::PushFailed { message, rate_limited }
    }
}

/// What is to be done next.
#[derive(Debug)]
pub enum ImportAction {
    /// Push this batch, and tell how it went.
    Push(Batch),
    /// Wait this long, and tell when the wait is over.
    Sleep { millis: u64 },
    /// Nothing is left to do.
    Finish,
}

impl View for ImportAction {
    type V = ActionModel;

    open spec fn view(&self) -> ActionModel {
        match self {
            ImportAction::Push(batch) => ActionModel::Push { batch: batch@ },
            ImportAction::Sleep { millis } => ActionModel::Sleep { millis: *millis as nat },
            ImportAction::Finish => ActionModel::Finish,
        }
    }
}

/// A push in progress: its batches, where it stands and what it has counted.
#[derive(Debug)]
pub struct ImportRun {
    settings: ImportSettings,
    batches: Vec<Batch>,
    phase: Phase,
    position: usize,
    retries: usize,
    wait_ms: u64,
    result: ImportResult,
}

impl ImportRun {
    /// The settings of the push.
    pub closed spec fn settings(&self) -> ImportSettings {
        self.settings
    }

    /// The batches of the push.
    pub closed spec fn plan(&self) -> Seq<BatchModel> {
        batches_view(self.batches@)
    }

    /// Where the push stands.
    pub closed spec fn state(&self) -> RunModel {
        RunModel {
            phase: self.phase,
            position: self.position as nat,
            retries: self.retries as nat,
            wait_ms: self.wait_ms as nat,
            added: self.result.added as nat,
            updated: self.result.updated as nat,
            failed: self.result.failed as nat,
            errors: texts(self.result.errors@),
        }
    }

    /// The settings are valid, the position is within the plan, and the
    /// batch in hand has been retried no more often than is allowed.
    pub closed spec fn wf(&self) -> bool {
        &&& self.settings.valid()
        &&& self.position <= self.batches@.len()
        &&& self.retries <= self.settings.max_retries
        &&& (self.phase == Phase::AwaitPush ==> self.position < self.batches@.len())
        &&& (self.phase == Phase::Done ==> self.position == self.batches@.len())
    }

    /// A push of `translations`, before its first step.
    pub fn new(translations: &Translations, settings: ImportSettings) -> (run: ImportRun)
        requires
            settings.valid(),
        ensures
            run.wf(),
            run.settings() == settings,
            run.state() == initial_state(),
            run.plan() == plan_of(
                languages_of(*translations),
                settings.batch_size as nat,
                translations.keys().len(),
            ),
    {
        let batches = plan_batches(translations, settings.batch_size);
        let run = ImportRun {
            settings,
            batches,
            phase: Phase::Idle,
            position: 0,
            retries: 0,
            wait_ms: 0,
            result: ImportResult::default(),
        };
        assert(run.state().errors =~= Seq::<Seq<char>>::empty());
        run
    }

    /// Whether every batch has been dealt with.
    pub fn is_finished(&self) -> (r: bool)
        ensures
            r == (self.state().phase == Phase::Done),
    {
        self.phase == Phase::Done
    }

    /// What the push has counted so far.
    pub fn result(&self) -> (r: &ImportResult)
        ensures
            r.added == self.state().added,
            r.updated == self.state().updated,
            r.failed == self.state().failed,
            texts(r.errors@) == self.state().errors,
    {
        &self.result
    }

    /// Ends the push and hands out what it has counted.
    pub fn into_result(self) -> (r: ImportResult)
        ensures
            r.added == self.state().added,
            r.updated == self.state().updated,
            r.failed == self.state().failed,
            texts(r.errors@) == self.state().errors,
    {
        self.result
    }

    /// Whether the counts can take `event` without leaving `usize`.
    pub fn can_take(&self, event: &ImportEvent) -> (r: bool)
        requires
            self.wf(),
        ensures
            r == has_room(self.plan(), self.state(), event@),
    {
        if self.phase != Phase::AwaitPush {
            return true;
        }
        match event {
            ImportEvent::Pushed(response) => {
                response.added.len() <= usize::MAX - self.result.added && response.existed.len()
                    <= usize::MAX - self.result.updated && response.failed.len() <= usize::MAX
                    - self.result.failed
            },
            ImportEvent::PushFailed { .. } => {
                let size = self.batches[self.position].entries.len();
                size <= usize::MAX - self.result.failed
            },
            _ => true,
        }
    }

    /// Goes to the batch at `position`, or to the end where there is none.
    fn push_next(&mut self, position: usize) -> (action: ImportAction)
        requires
            old(self).wf(),
            position <= old(self).batches@.len(),
        ensures
            final(self).wf(),
            final(self).settings() == old(self).settings(),
            final(self).plan() == old(self).plan(),
            (final(self).state(), action@) == push_at(
                old(self).plan(),
                old(self).state(),
                position as nat,
            ),
    {
        if position < self.batches.len() {
            self.phase = Phase::AwaitPush;
            self.position = position;
            self.wait_ms = 0;
            ImportAction::Push(self.batches[position].copy())
        } else {
            self.phase = Phase::Done;
            self.position = self.batches.len();
            self.retries = 0;
            self.wait_ms = 0;
            ImportAction::Finish
        }
    }

    /// Leaves the batch in hand behind.
    fn advance(&mut self) -> (action: ImportAction)
        requires
            old(self).wf(),
            old(self).position < old(self).batches@.len(),
        ensures
            final(self).wf(),
            final(self).settings() == old(self).settings(),
            final(self).plan() == old(self).plan(),
            (final(self).state(), action@) == next_after(
                old(self).settings().batch_delay_ms as nat,
                old(self).plan(),
                old(self).state(),
            ),
    {
        let count = self.batches.len();
        let next = self.position + 1;
        let last = self.batches[self.position].is_last;
        self.retries = 0;
        if next >= count || last {
            self.push_next(next)
        } else {
            self.phase = Phase::AwaitWake;
            self.position = next;
            self.wait_ms = self.settings.batch_delay_ms;
            ImportAction::Sleep { millis: self.settings.batch_delay_ms }
        }
    }

    /// Takes what has happened and says what to do next.
    ///
    /// The caller performs the action and comes back with its event: after
    /// `Push` with `Pushed` or `PushFailed`, after `Sleep` with `Woke`. The
    /// first call is made with `Start`; after `Finish` nothing is left.
    pub fn step(&mut self, event: ImportEvent) -> (action: ImportAction)
        requires
            old(self).wf(),
            has_room(old(self).plan(), old(self).state(), event@),
        ensures
            final(self).wf(),
            final(self).settings() == old(self).settings(),
            final(self).plan() == old(self).plan(),
            (final(self).state(), action@) == step_model(
                old(self).settings().batch_delay_ms as nat,
                old(self).settings().max_retries as nat,
                old(self).plan(),
                old(self).state(),
                event@,
            ),
    {
        match self.phase {
            Phase::Idle => self.push_next(0),
            Phase::Done => ImportAction::Finish,
            Phase::AwaitWake => match event {
                ImportEvent::Woke => self.push_next(self.position),
                _ => ImportAction::Sleep { millis: self.wait_ms },
            },
            Phase::AwaitPush => match event {
                ImportEvent::Pushed(response) => {
                    self.result.added = self.result.added + response.added.len();
                    self.result.updated = self.result.updated + response.existed.len();
                    self.result.failed = self.result.failed + response.failed.len();
                    note_failed_keys(
                        &mut self.result.errors,
                        self.batches[self.position].language.as_str(),
                        self.batches[self.position].number,
                        &response.failed,
                    );
                    self.advance()
                },
                ImportEvent::PushFailed { message, rate_limited } => {
                    if rate_limited && self.retries < self.settings.max_retries {
                        self.retries = self.retries + 1;
                        proof {
                            let d = self.settings.batch_delay_ms as int;
                            let r = self.retries as int;
                            let m = self.settings.max_retries as int;
                            assert(d * (r * 2) <= d * (2 * m)) by (nonlinear_arith)
                                requires
                                    0 <= d,
                                    0 <= r <= m,
                            ;
                        }
                        let wait = self.settings.batch_delay_ms * (self.retries as u64 * 2);
                        self.phase = Phase::AwaitWake;
                        self.wait_ms = wait;
                        ImportAction::Sleep { millis: wait }
                    } else {
                        self.result.failed = self.result.failed
                            + self.batches[self.position].entries.len();
                        note_batch_failure(
                            &mut self.result.errors,
                            self.batches[self.position].language.as_str(),
                            self.batches[self.position].number,
                            message.as_str(),
                        );
                        self.advance()
                    }
                },
                _ => ImportAction::Push(self.batches[self.position].copy()),
            },
        }
    }
}

} // verus!
