//! Building the translation set of a messages directory from the files that
//! were read in it, and planning what a pull writes back.
//!
//! The directory holds one subdirectory per language; every `.json` file
//! below it, at any depth, adds its flattened keys to that language. A file
//! that could not be read or parsed adds nothing and is not recorded. Files
//! are taken in the order given: of two files of one language with the same
//! key, the later one counts. Callers that want a fixed result hand the files
//! over sorted.

use crate::flatten::{
    entries_of, extend_flat, flatten_object, flatten_tree, merge_tree, merge_with_flat, overlay,
    unflatten_object, unflatten_tree, Flat, FlatMap,
};
use crate::json::{JsonValue, Tree};
use crate::str_map::StrMap;
use crate::text::chars_of;
use crate::types::{
    copy_flat, languages_of, lemma_insert_language, put_language, LanguageEntries, ScanResult,
    TranslationFile, Translations,
};
use vstd::prelude::*;

verus! {

/// The name of the file that a pull creates for a language without files.
pub const SYNC_FILE_NAME: &'static str = "sync.json";

/// Why a directory cannot be scanned.
#[derive(Debug)]
pub enum ScanError {
    /// The path does not lead anywhere.
    DirectoryNotFound(String),
    /// The path leads to something that is no directory.
    NotADirectory(String),
}

impl ScanError {
    /// The error in words.
    pub fn message(&self) -> (text: String)
        ensures
            text@ == match self {
                ScanError::DirectoryNotFound(path) => "Messages directory not found: "@ + path@,
                ScanError::NotADirectory(path) => "Path is not a directory: "@ + path@,
            },
    {
        match self {
            ScanError::DirectoryNotFound(path) => {
                let mut text = "Messages directory not found: ".to_owned();
                text.append(path.as_str());
                text
            },
            ScanError::NotADirectory(path) => {
                let mut text = "Path is not a directory: ".to_owned();
                text.append(path.as_str());
                text
            },
        }
    }
}

/// Whether the root of a scan can be scanned: it must exist and be a
/// directory.
pub fn check_root(path: &str, exists: bool, is_directory: bool) -> (r: Result<(), ScanError>)
    ensures
        match r {
            Ok(_) => exists && is_directory,
            Err(ScanError::DirectoryNotFound(p)) => !exists && p@ == path@,
            Err(ScanError::NotADirectory(p)) => exists && !is_directory && p@ == path@,
        },
{
    if !exists {
        Err(ScanError::DirectoryNotFound(path.to_owned()))
    } else if !is_directory {
        Err(ScanError::NotADirectory(path.to_owned()))
    } else {
        Ok(())
    }
}

/// A file name has the extension `json`: it ends in `.json`, and that dot is
/// its last dot and not its first character.
pub open spec fn json_file_name(name: Seq<char>) -> bool {
    name.len() > 5 && name.subrange(name.len() - 5, name.len() as int) == ".json"@
}

/// Whether a file name has the extension `json`.
pub fn is_json_file_name(name: &str) -> (r: bool)
    ensures
        r == json_file_name(name@),
{
    let chars = chars_of(name);
    let n = chars.len();
    proof {
        reveal_strlit(".json");
    }
    if n <= 5 {
        return false;
    }
    let r = chars[n - 5] == '.' && chars[n - 4] == 'j' && chars[n - 3] == 's' && chars[n - 2] == 'o'
        && chars[n - 1] == 'n';
    proof {
        let tail = name@.subrange(n - 5, n as int);
        if r {
            assert(tail =~= ".json"@);
        } else {
            assert(tail[0] == name@[n - 5]);
            assert(tail[1] == name@[n - 4]);
            assert(tail[2] == name@[n - 3]);
            assert(tail[3] == name@[n - 2]);
            assert(tail[4] == name@[n - 1]);
        }
    }
    r
}

/// A file that was found below a language's directory.
#[derive(Debug)]
pub struct FileSource {
    /// The path of the file, relative to the scanned root.
    pub path: String,
    /// What the file holds; `None` where it could not be read or parsed.
    pub tree: Option<JsonValue>,
}

/// The files that were found below one language's directory.
#[derive(Debug)]
pub struct LanguageSource {
    /// The language code: the directory's name.
    pub code: String,
    /// The files, in the order in which they are to be taken.
    pub files: Vec<FileSource>,
}

/// The entries of a language after the first `n` of its files have been
/// flattened and put over `acc`, one after the other.
pub open spec fn file_entries(acc: Flat, files: Seq<FileSource>, n: nat) -> Flat
    decreases n,
{
    if n == 0 || n > files.len() {
        acc
    } else {
        let before = file_entries(acc, files, (n - 1) as nat);
        match files[n - 1].tree {
            Some(tree) => {
                let flat = flatten_tree(tree@, Seq::empty());
                overlay(before, flat, flat.len())
            },
            None => before,
        }
    }
}

/// The first `n` files that could be read, each with its language.
pub open spec fn read_files(code: Seq<char>, files: Seq<FileSource>, n: nat) -> Seq<
    (Seq<char>, Seq<char>),
>
    decreases n,
{
    if n == 0 || n > files.len() {
        Seq::empty()
    } else {
        let before = read_files(code, files, (n - 1) as nat);
        if files[n - 1].tree is Some {
            before.push((code, files[n - 1].path@))
        } else {
            before
        }
    }
}

/// The entries of one language's files.
pub open spec fn language_entries(source: LanguageSource) -> Flat {
    file_entries(Seq::empty(), source.files@, source.files@.len())
}

/// The translation set of the first `n` languages. A code that comes twice
/// keeps the entries of its later occurrence.
pub open spec fn scanned_languages(sources: Seq<LanguageSource>, n: nat) -> LanguageEntries
    decreases n,
{
    if n == 0 || n > sources.len() {
        Seq::empty()
    } else {
        put_language(
            scanned_languages(sources, (n - 1) as nat),
            sources[n - 1].code@,
            language_entries(sources[n - 1]),
        )
    }
}

/// The files read of the first `n` languages, language after language.
pub open spec fn scanned_files(sources: Seq<LanguageSource>, n: nat) -> Seq<(Seq<char>, Seq<char>)>
    decreases n,
{
    if n == 0 || n > sources.len() {
        Seq::empty()
    } else {
        scanned_files(sources, (n - 1) as nat) + read_files(
            sources[n - 1].code@,
            sources[n - 1].files@,
            sources[n - 1].files@.len(),
        )
    }
}

/// The number of keys of the first `n` languages together.
pub open spec fn scanned_keys(sources: Seq<LanguageSource>, n: nat) -> nat
    decreases n,
{
    if n == 0 || n > sources.len() {
        0
    } else {
        scanned_keys(sources, (n - 1) as nat) + language_entries(sources[n - 1]).len()
    }
}

/// The files of a scan, each as its language and its path.
pub open spec fn files_view(files: Seq<TranslationFile>) -> Seq<(Seq<char>, Seq<char>)> {
    files.map_values(|f: TranslationFile| (f.language@, f.path@))
}

/// Counting more languages never gives fewer keys.
pub proof fn lemma_scanned_keys_grow(sources: Seq<LanguageSource>, a: nat, b: nat)
    requires
        a <= b <= sources.len(),
    ensures
        scanned_keys(sources, a) <= scanned_keys(sources, b),
    decreases b,
{
    if a < b {
        lemma_scanned_keys_grow(sources, a, (b - 1) as nat);
    }
}

/// The keys of one language and the files that gave them.
fn scan_language_dir(source: &LanguageSource, files: &mut Vec<TranslationFile>) -> (map: FlatMap)
    ensures
        entries_of(map) == language_entries(*source),
        files_view(final(files)@) == files_view(old(files)@) + read_files(
            source.code@,
            source.files@,
            source.files@.len(),
        ),
{
    let ghost start = files_view(files@);
    let mut map: FlatMap = StrMap::new();
    let n = source.files.len();
    let mut i: usize = 0;
    assert(entries_of(map) =~= Seq::empty());
    assert(start + read_files(source.code@, source.files@, 0) =~= start);
    while i < n
        invariant
            i <= n,
            n == source.files@.len(),
            entries_of(map) == file_entries(Seq::empty(), source.files@, i as nat),
            files_view(files@) == start + read_files(source.code@, source.files@, i as nat),
        decreases n - i,
    {
        let file = &source.files[i];
        match &file.tree {
            Some(tree) => {
                let flat = flatten_object(tree, "");
                proof {
                    reveal_strlit("");
                    assert(""@ =~= Seq::<char>::empty());
                }
                extend_flat(&mut map, &flat);
                let record = TranslationFile {
                    language: source.code.clone(),
                    path: file.path.clone(),
                };
                proof {
                    let known = read_files(source.code@, source.files@, i as nat);
                    assert(files_view(files@.push(record)) =~= files_view(files@).push(
                        (source.code@, file.path@),
                    ));
                    assert((start + known).push((source.code@, file.path@)) =~= start + known.push(
                        (source.code@, file.path@),
                    ));
                }
                files.push(record);
            },
            None => {},
        }
        i += 1;
    }
    map
}

/// The result of a scan, from what was found below the root: for each
/// language its keys, the files that could be read, and the number of keys.
/// There is no result where the number of keys does not fit in a `usize`.
pub fn build_scan_result(sources: &Vec<LanguageSource>) -> (r: Option<ScanResult>)
    ensures
        match r {
            Some(result) => {
                &&& languages_of(result.translations) == scanned_languages(
                    sources@,
                    sources@.len(),
                )
                &&& files_view(result.files@) == scanned_files(sources@, sources@.len())
                &&& result.key_count == scanned_keys(sources@, sources@.len())
            },
            None => scanned_keys(sources@, sources@.len()) > usize::MAX,
        },
{
    let mut translations: Translations = StrMap::new();
    let mut files: Vec<TranslationFile> = Vec::new();
    let mut key_count: usize = 0;
    let n = sources.len();
    let mut i: usize = 0;
    assert(languages_of(translations) =~= Seq::empty());
    assert(files_view(files@) =~= Seq::empty());
    while i < n
        invariant
            i <= n,
            n == sources@.len(),
            languages_of(translations) == scanned_languages(sources@, i as nat),
            files_view(files@) == scanned_files(sources@, i as nat),
            key_count == scanned_keys(sources@, i as nat),
        decreases n - i,
    {
        let map = scan_language_dir(&sources[i], &mut files);
        let size = map.len();
        proof {
            use_type_invariant(&translations);
        }
        key_count = match key_count.checked_add(size) {
            Some(sum) => sum,
            None => {
                proof {
                    lemma_scanned_keys_grow(sources@, (i + 1) as nat, n as nat);
                }
                return None;
            },
        };
        let ghost before = translations;
        translations.insert(sources[i].code.clone(), map);
        proof {
            lemma_insert_language(before, translations, sources@[i as int].code@, map);
        }
        i += 1;
    }
    Some(ScanResult { translations, files, key_count })
}

/// The result of a scan that found nothing.
pub fn empty_scan_result() -> (result: ScanResult)
    ensures
        languages_of(result.translations) == Seq::<(Seq<char>, Flat)>::empty(),
        result.files@.len() == 0,
        result.key_count == 0,
{
    let translations: Translations = StrMap::new();
    assert(languages_of(translations) =~= Seq::empty());
    ScanResult { translations, files: Vec::new(), key_count: 0 }
}

/// The tree of a file after the translations of its language have been put
/// over it. The new text always counts: `force` changes what a pull counts,
/// not what it writes.
pub fn merge_translations_with_structure(
    original: &JsonValue,
    translations: &FlatMap,
    force: bool,
) -> (tree: JsonValue)
    ensures
        tree@ == merge_tree(original@, entries_of(*translations)),
        tree@.unique_keys(),
{
    merge_with_flat(original, copy_flat(translations))
}

/// The files that a pull rewrites: those whose language has translations
/// coming in, in the order of `files`.
pub open spec fn files_to_merge(
    files: Seq<(Seq<char>, Seq<char>)>,
    incoming: Seq<Seq<char>>,
    n: nat,
) -> Seq<(Seq<char>, Seq<char>)>
    decreases n,
{
    if n == 0 || n > files.len() {
        Seq::empty()
    } else {
        let before = files_to_merge(files, incoming, (n - 1) as nat);
        if incoming.contains(files[n - 1].0) {
            before.push(files[n - 1])
        } else {
            before
        }
    }
}

/// Whether some file belongs to the language `code`.
pub open spec fn has_file(files: Seq<(Seq<char>, Seq<char>)>, code: Seq<char>) -> bool {
    exists|i: int| 0 <= i < files.len() && files[i].0 == code
}

/// The files that a pull creates among the first `n` languages: one for
/// each language that has keys coming in and no file yet, holding the tree
/// rebuilt from its keys.
pub open spec fn files_to_create(
    languages: LanguageEntries,
    files: Seq<(Seq<char>, Seq<char>)>,
    n: nat,
) -> Seq<(Seq<char>, Tree)>
    decreases n,
{
    if n == 0 || n > languages.len() {
        Seq::empty()
    } else {
        let before = files_to_create(languages, files, (n - 1) as nat);
        let language = languages[n - 1];
        if has_file(files, language.0) || language.1.len() == 0 {
            before
        } else {
            before.push((language.0, unflatten_tree(language.1)))
        }
    }
}

/// A pull that brings no language rewrites no file and creates none.
pub proof fn lemma_nothing_to_write(files: Seq<(Seq<char>, Seq<char>)>, n: nat)
    ensures
        files_to_merge(files, Seq::empty(), n) == Seq::<(Seq<char>, Seq<char>)>::empty(),
        files_to_create(Seq::empty(), files, 0) == Seq::<(Seq<char>, Tree)>::empty(),
    decreases n,
{
    if n > 0 && n <= files.len() {
        lemma_nothing_to_write(files, (n - 1) as nat);
    }
}

/// A file that a pull creates.
#[derive(Debug)]
pub struct NewLanguageFile {
    /// The language code, which names the directory to make below the root.
    pub language: String,
    /// The name of the file in that directory.
    pub file_name: String,
    /// What the file is to hold.
    pub tree: JsonValue,
}

/// The new files, each as its language and its tree.
pub open spec fn new_files_view(files: Seq<NewLanguageFile>) -> Seq<(Seq<char>, Tree)> {
    files.map_values(|f: NewLanguageFile| (f.language@, f.tree@))
}

/// What a pull writes.
#[derive(Debug)]
pub struct WritePlan {
    /// The files to read, merge and write back.
    pub merges: Vec<TranslationFile>,
    /// The files to create.
    pub creations: Vec<NewLanguageFile>,
}

/// Whether some file belongs to the language `code`.
fn language_has_file(files: &Vec<TranslationFile>, code: &String) -> (r: bool)
    ensures
        r == has_file(files_view(files@), code@),
{
    let mut i: usize = 0;
    while i < files.len()
        invariant
            i <= files.len(),
            forall|j: int| 0 <= j < i ==> files_view(files@)[j].0 != code@,
        decreases files.len() - i,
    {
        if files[i].language == *code {
            assert(files_view(files@)[i as int].0 == code@);
            return true;
        }
        i += 1;
    }
    false
}

/// The files that a pull creates for languages without files.
pub fn write_new_language_files(translations: &Translations, files: &Vec<TranslationFile>) -> (created:
    Vec<NewLanguageFile>)
    ensures
        new_files_view(created@) == files_to_create(
            languages_of(*translations),
            files_view(files@),
            translations.keys().len(),
        ),
        forall|i: int| 0 <= i < created@.len() ==> (#[trigger] created@[i]).file_name@ == SYNC_FILE_NAME@,
{
    let ghost languages = languages_of(*translations);
    let mut created: Vec<NewLanguageFile> = Vec::new();
    let n = translations.len();
    let mut i: usize = 0;
    assert(new_files_view(created@) =~= Seq::empty());
    while i < n
        invariant
            i <= n,
            n == translations.keys().len(),
            languages == languages_of(*translations),
            new_files_view(created@) == files_to_create(languages, files_view(files@), i as nat),
            forall|j: int|
                0 <= j < created@.len() ==> (#[trigger] created@[j]).file_name@ == SYNC_FILE_NAME@,
        decreases n - i,
    {
        let code = translations.key_at(i);
        let map = translations.value_at(i);
        if !language_has_file(files, code) && !map.is_empty() {
            let file = NewLanguageFile {
                language: code.clone(),
                file_name: SYNC_FILE_NAME.to_owned(),
                tree: unflatten_object(copy_flat(map)),
            };
            proof {
                assert(new_files_view(created@.push(file)) =~= new_files_view(created@).push(
                    (code@, file.tree@),
                ));
            }
            created.push(file);
        }
        i += 1;
    }
    created
}

/// What a pull of `translations` writes, given the files of the local scan:
/// every file whose language has translations coming in is merged, and
/// every language with keys and without a file gets a new one.
pub fn plan_writes(files: &Vec<TranslationFile>, translations: &Translations) -> (plan: WritePlan)
    ensures
        files_view(plan.merges@) == files_to_merge(
            files_view(files@),
            translations.keys(),
            files@.len(),
        ),
        new_files_view(plan.creations@) == files_to_create(
            languages_of(*translations),
            files_view(files@),
            translations.keys().len(),
        ),
        forall|i: int|
            0 <= i < plan.creations@.len() ==> (#[trigger] plan.creations@[i]).file_name@
                == SYNC_FILE_NAME@,
{
    let mut merges: Vec<TranslationFile> = Vec::new();
    let n = files.len();
    let mut i: usize = 0;
    assert(files_view(merges@) =~= Seq::empty());
    while i < n
        invariant
            i <= n,
            n == files@.len(),
            files_view(merges@) == files_to_merge(files_view(files@), translations.keys(), i as nat),
        decreases n - i,
    {
        proof {
            use_type_invariant(translations);
            translations.lemma_view();
            assert(translations@.dom().contains(files@[i as int].language@)
                <==> translations.keys().contains(files@[i as int].language@));
        }
        if translations.contains_key(files[i].language.as_str()) {
            let file = TranslationFile {
                language: files[i].language.clone(),
                path: files[i].path.clone(),
            };
            proof {
                assert(files_view(merges@.push(file)) =~= files_view(merges@).push(
                    files_view(files@)[i as int],
                ));
            }
            merges.push(file);
        }
        i += 1;
    }
    let creations = write_new_language_files(translations, files);
    WritePlan { merges, creations }
}

} // verus!
