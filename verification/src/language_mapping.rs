//! Translating between the language codes used in the local tree and those
//! of the remote store.

use crate::flatten::{entries_of, extend_flat, flat_keys, lemma_insert_entries, overlay, put, Flat, FlatMap};
use crate::str_map::StrMap;
use crate::text::{join, join_with, texts};
use crate::types::{
    copy_flat, entries_for, language_codes, languages_of, lemma_insert_language,
    lemma_language_lookup, put_language, LanguageEntries, Translations,
};
use vstd::prelude::*;

verus! {

/// The table that maps the second part of each entry to its first: remote
/// codes to local ones. Of two local codes with one remote code the later
/// counts.
pub open spec fn inverted(table: Flat, n: nat) -> Flat
    decreases n,
{
    if n == 0 || n > table.len() {
        Seq::empty()
    } else {
        put(inverted(table, (n - 1) as nat), table[n - 1].1, table[n - 1].0)
    }
}

/// The code that `table` gives for `code`, or `code` itself where the table
/// has none.
pub open spec fn mapped_code(table: Flat, code: Seq<char>) -> Seq<char> {
    if flat_keys(table).contains(code) {
        table[flat_keys(table).index_of(code)].1
    } else {
        code
    }
}

/// The first `n` languages under the codes that `table` gives them, in the
/// order in which those codes first occur. Languages that come under one
/// code are put together; where they share a key, the later language's text
/// counts.
pub open spec fn remapped(languages: LanguageEntries, table: Flat, n: nat) -> LanguageEntries
    decreases n,
{
    if n == 0 || n > languages.len() {
        Seq::empty()
    } else {
        let done = remapped(languages, table, (n - 1) as nat);
        let code = mapped_code(table, languages[n - 1].0);
        let entries = languages[n - 1].1;
        put_language(done, code, overlay(entries_for(done, code), entries, entries.len()))
    }
}

/// Without a table every language keeps its code and its entries: languages
/// with distinct codes, each with distinct keys, come out as they went in.
pub proof fn lemma_remap_without_table(languages: LanguageEntries, n: nat)
    requires
        n <= languages.len(),
        language_codes(languages).no_duplicates(),
        forall|i: int| 0 <= i < languages.len() ==> flat_keys((#[trigger] languages[i]).1).no_duplicates(),
    ensures
        remapped(languages, Seq::empty(), n) == languages.take(n as int),
    decreases n,
{
    let table = Seq::<(Seq<char>, Seq<char>)>::empty();
    if n == 0 {
        assert(languages.take(0) =~= Seq::empty());
    } else {
        lemma_remap_without_table(languages, (n - 1) as nat);
        let done = languages.take(n - 1);
        let code = languages[n - 1].0;
        let entries = languages[n - 1].1;
        assert(flat_keys(table) =~= Seq::<Seq<char>>::empty());
        assert(mapped_code(table, code) == code);
        assert(!language_codes(done).contains(code)) by {
            if language_codes(done).contains(code) {
                let j = language_codes(done).index_of(code);
                assert(language_codes(done)[j] == code);
                assert(language_codes(languages)[j] == language_codes(languages)[n - 1]);
            }
        }
        crate::flatten_laws::lemma_overlay_fresh(entries, entries.len());
        assert(entries.take(entries.len() as int) =~= entries);
        assert(done.push((code, entries)) =~= languages.take(n as int));
    }
}

/// The description of a table: each pair as `local → remote`, joined by
/// commas; a fixed text where the table is empty.
pub open spec fn description_of(table: Flat) -> Seq<char> {
    if table.len() == 0 {
        "No language mapping"@
    } else {
        "Language mapping: "@ + join_with(
            Seq::new(table.len(), |i: int| table[i].0 + " → "@ + table[i].1),
            ", "@,
        )
    }
}

/// A two-way table between local and remote language codes.
#[derive(Debug)]
pub struct LanguageMapper {
    local_to_backend: FlatMap,
    backend_to_local: FlatMap,
}

impl LanguageMapper {
    /// The table from local codes to remote ones.
    pub closed spec fn forward(&self) -> Flat {
        entries_of(self.local_to_backend)
    }

    /// The table from remote codes to local ones.
    pub closed spec fn backward(&self) -> Flat {
        entries_of(self.backend_to_local)
    }

    /// A mapper for `mapping`, which holds for each local code its remote
    /// code; without a mapping every code stands for itself.
    pub fn new(mapping: Option<FlatMap>) -> (mapper: LanguageMapper)
        ensures
            mapper.forward() == match mapping {
                Some(table) => entries_of(table),
                None => Seq::empty(),
            },
            mapper.backward() == inverted(mapper.forward(), mapper.forward().len()),
    {
        let mut local_to_backend: FlatMap = StrMap::new();
        let mut backend_to_local: FlatMap = StrMap::new();
        assert(entries_of(local_to_backend) =~= Seq::empty());
        assert(entries_of(backend_to_local) =~= Seq::empty());
        match mapping {
            None => {},
            Some(table) => {
                let n = table.len();
                let ghost all = entries_of(table);
                let mut i: usize = 0;
                assert(all.take(0) =~= Seq::empty());
                while i < n
                    invariant
                        i <= n,
                        n == table.keys().len(),
                        all == entries_of(table),
                        entries_of(local_to_backend) == all.take(i as int),
                        local_to_backend.keys() == table.keys().take(i as int),
                        entries_of(backend_to_local) == inverted(all, i as nat),
                    decreases n - i,
                {
                    let local = table.key_at(i);
                    let backend = table.value_at(i);
                    let ghost forward_before = local_to_backend;
                    let ghost backward_before = backend_to_local;
                    proof {
                        use_type_invariant(&table);
                        use_type_invariant(&local_to_backend);
                        use_type_invariant(&backend_to_local);
                        if forward_before.keys().contains(local@) {
                            let j = forward_before.keys().index_of(local@);
                            assert(table.keys()[j] == local@);
                        }
                    }
                    local_to_backend.insert(local.clone(), backend.clone());
                    backend_to_local.insert(backend.clone(), local.clone());
                    proof {
                        lemma_insert_entries(forward_before, local_to_backend, local@, *backend);
                        lemma_insert_entries(backward_before, backend_to_local, backend@, *local);
                        assert(flat_keys(all.take(i as int)) =~= forward_before.keys());
                        assert(entries_of(local_to_backend) =~= all.take(i + 1));
                        assert(local_to_backend.keys() =~= table.keys().take(i + 1));
                    }
                    i += 1;
                }
                assert(all.take(n as int) =~= all);
            },
        }
        LanguageMapper { local_to_backend, backend_to_local }
    }

    /// The remote code of a local one; the code itself where none is set.
    pub fn to_backend(&self, local_code: &str) -> (code: String)
        ensures
            code@ == mapped_code(self.forward(), local_code@),
    {
        lookup_code(&self.local_to_backend, local_code)
    }

    /// The local code of a remote one; the code itself where none is set.
    pub fn to_local(&self, backend_code: &str) -> (code: String)
        ensures
            code@ == mapped_code(self.backward(), backend_code@),
    {
        lookup_code(&self.backend_to_local, backend_code)
    }

    /// The translations under their remote codes.
    pub fn apply_to_translations(&self, translations: Translations) -> (result: Translations)
        ensures
            languages_of(result) == remapped(
                languages_of(translations),
                self.forward(),
                translations.keys().len(),
            ),
    {
        remap(&self.local_to_backend, &translations)
    }

    /// The translations under their local codes.
    pub fn reverse_translations(&self, translations: Translations) -> (result: Translations)
        ensures
            languages_of(result) == remapped(
                languages_of(translations),
                self.backward(),
                translations.keys().len(),
            ),
    {
        remap(&self.backend_to_local, &translations)
    }

    /// Whether any code is mapped.
    pub fn needs_mapping(&self) -> (r: bool)
        ensures
            r == (self.forward().len() > 0),
    {
        !self.local_to_backend.is_empty()
    }

    /// A line that names the mapped codes.
    pub fn get_description(&self) -> (text: String)
        ensures
            text@ == description_of(self.forward()),
    {
        if !self.needs_mapping() {
            return "No language mapping".to_owned();
        }
        let n = self.local_to_backend.len();
        let ghost table = self.forward();
        let ghost wanted = Seq::new(table.len(), |i: int| table[i].0 + " → "@ + table[i].1);
        let mut pairs: Vec<String> = Vec::new();
        let mut i: usize = 0;
        assert(texts(pairs@) =~= wanted.take(0));
        while i < n
            invariant
                i <= n,
                n == self.local_to_backend.keys().len(),
                table == self.forward(),
                wanted == Seq::new(table.len(), |i: int| table[i].0 + " → "@ + table[i].1),
                texts(pairs@) == wanted.take(i as int),
            decreases n - i,
        {
            let mut pair = self.local_to_backend.key_at(i).clone();
            pair.append(" → ");
            pair.append(self.local_to_backend.value_at(i).as_str());
            proof {
                assert(pair@ =~= wanted[i as int]);
                assert(texts(pairs@.push(pair)) =~= texts(pairs@).push(pair@));
                assert(wanted.take(i + 1) =~= wanted.take(i as int).push(wanted[i as int]));
            }
            pairs.push(pair);
            i += 1;
        }
        assert(wanted.take(n as int) =~= wanted);
        let mut text = "Language mapping: ".to_owned();
        text.append(join(&pairs, ", ").as_str());
        text
    }
}

/// The code that `table` gives for `code`, or `code` itself.
fn lookup_code(table: &FlatMap, code: &str) -> (r: String)
    ensures
        r@ == mapped_code(entries_of(*table), code@),
{
    proof {
        use_type_invariant(table);
        table.lemma_view();
        assert(flat_keys(entries_of(*table)) =~= table.keys());
        if table.keys().contains(code@) {
            let i = table.keys().index_of(code@);
            assert(table.keys()[i] == code@);
        }
    }
    match table.get(code) {
        Some(found) => found.clone(),
        None => code.to_owned(),
    }
}

/// The translations under the codes that `table` gives them.
fn remap(table: &FlatMap, translations: &Translations) -> (result: Translations)
    ensures
        languages_of(result) == remapped(
            languages_of(*translations),
            entries_of(*table),
            translations.keys().len(),
        ),
{
    let ghost languages = languages_of(*translations);
    let mut result: Translations = StrMap::new();
    let n = translations.len();
    let mut i: usize = 0;
    assert(languages_of(result) =~= Seq::empty());
    while i < n
        invariant
            i <= n,
            n == translations.keys().len(),
            languages == languages_of(*translations),
            languages_of(result) == remapped(languages, entries_of(*table), i as nat),
        decreases n - i,
    {
        let code = lookup_code(table, translations.key_at(i).as_str());
        let data = translations.value_at(i);
        let ghost before = result;
        proof {
            use_type_invariant(&result);
            lemma_language_lookup(result, code@);
        }
        let mut target: FlatMap = match result.get(code.as_str()) {
            Some(existing) => copy_flat(existing),
            None => {
                let fresh: FlatMap = StrMap::new();
                assert(entries_of(fresh) =~= Seq::empty());
                fresh
            },
        };
        assert(entries_of(target) == entries_for(languages_of(before), code@));
        extend_flat(&mut target, data);
        result.insert(code, target);
        proof {
            lemma_insert_language(before, result, code@, target);
        }
        i += 1;
    }
    result
}

/// A mapper for `mapping`.
pub fn create_language_mapper(mapping: Option<FlatMap>) -> (mapper: LanguageMapper)
    ensures
        mapper.forward() == match mapping {
            Some(table) => entries_of(table),
            None => Seq::empty(),
        },
        mapper.backward() == inverted(mapper.forward(), mapper.forward().len()),
{
    LanguageMapper::new(mapping)
}

} // verus!
