//! The snippet registry: declarations of one or more directories merged into
//! one mapping from description to snippet, where a description declared
//! twice is a fatal error naming both files.

use vstd::prelude::*;
use crate::text::{chars_of, ends_with_text, has_suffix, compare_text, text_lt, lemma_text_lt_irreflexive, lemma_text_lt_total, lemma_text_lt_transitive};
use crate::types::{CommandDef, CommandSnippet, DefModel, FileDef, clone_texts, copy_def, texts};

verus! {

/// The model of a registry: description to snippet.
pub type Catalog = Map<Seq<char>, DefModel>;

/// A description that two declarations share.
#[derive(Debug, Clone)]
pub struct DuplicateError {
    /// The shared description.
    pub description: String,
    /// The file of the declaration that was being added.
    pub defined_in: String,
    /// The file of the declaration that was there first.
    pub also_defined_in: String,
}

/// A duplicate description as character sequences: the description, the
/// file being added, the file that was there first.
pub type Dup = (Seq<char>, Seq<char>, Seq<char>);

impl View for DuplicateError {
    type V = Dup;

    open spec fn view(&self) -> Dup {
        (self.description@, self.defined_in@, self.also_defined_in@)
    }
}

/// The message for a duplicate description.
pub open spec fn duplicate_text(d: Dup) -> Seq<char> {
    "Duplicate command snippet name '"@ + d.0 + "' found.\n  Defined in: "@ + d.1
        + "\n  Also defined in: "@ + d.2
}

impl DuplicateError {
    /// The message naming the description and both files.
    pub fn message(&self) -> (r: String)
        ensures
            r@ == duplicate_text(self@),
    {
        let mut m = String::new();
        m.append("Duplicate command snippet name '");
        m.append(self.description.as_str());
        m.append("' found.\n  Defined in: ");
        m.append(self.defined_in.as_str());
        m.append("\n  Also defined in: ");
        m.append(self.also_defined_in.as_str());
        m
    }
}

/// The error for adding `new` where `old` has its description: the
/// description, the file of `new`, the file of `old`.
pub open spec fn duplicate_of(new: DefModel, old: DefModel) -> Dup {
    (new.description, new.source_file, old.source_file)
}

/// `s` is ordered by description, strictly, so no description repeats.
pub open spec fn strictly_sorted(s: Seq<CommandDef>) -> bool {
    forall|i: int, j: int|
        0 <= i < j < s.len() ==> text_lt(#[trigger] s[i].description@, #[trigger] s[j].description@)
}

/// `s` lists the snippets of `m`, each once under its own description.
pub open spec fn lists_exactly(s: Seq<CommandDef>, m: Catalog) -> bool {
    &&& forall|i: int|
        0 <= i < s.len() ==> #[trigger] m.contains_key(s[i].description@) && m[s[i].description@]
            == s[i]@
    &&& forall|k: Seq<char>|
        #[trigger] m.contains_key(k) ==> exists|i: int| 0 <= i < s.len() && s[i].description@ == k
}

/// The registry: its snippets kept in description order.
pub struct Registry {
    entries: Vec<CommandDef>,
    catalog: Ghost<Catalog>,
}

impl View for Registry {
    type V = Catalog;

    closed spec fn view(&self) -> Catalog {
        self.catalog@
    }
}

impl Registry {
    /// The representation invariant.
    pub closed spec fn wf(&self) -> bool {
        strictly_sorted(self.entries@) && lists_exactly(self.entries@, self.catalog@)
    }

    /// An empty registry.
    pub fn new() -> (r: Registry)
        ensures
            r.wf(),
            r@ == Catalog::empty(),
    {
        Registry { entries: Vec::new(), catalog: Ghost(Catalog::empty()) }
    }

    /// The snippets, ordered by description.
    pub fn entries(&self) -> (r: &Vec<CommandDef>)
        requires
            self.wf(),
        ensures
            strictly_sorted(r@),
            lists_exactly(r@, self@),
    {
        &self.entries
    }

    /// The number of snippets.
    pub fn len(&self) -> (r: usize)
        requires
            self.wf(),
        ensures
            r == self@.dom().len(),
    {
        proof {
            self.lemma_len();
        }
        self.entries.len()
    }

    proof fn lemma_len(&self)
        requires
            self.wf(),
        ensures
            self.entries@.len() == self@.dom().len(),
    {
        let s = self.entries@;
        let keys = s.map_values(|d: CommandDef| d.description@);
        assert forall|i: int, j: int| 0 <= i < keys.len() && 0 <= j < keys.len() && i != j implies keys[i] != keys[j] by {
            if i < j {
                assert(text_lt(s[i].description@, s[j].description@));
                lemma_text_lt_irreflexive(s[i].description@);
            } else {
                assert(text_lt(s[j].description@, s[i].description@));
                lemma_text_lt_irreflexive(s[j].description@);
            }
        }
        assert(keys.no_duplicates());
        assert(keys.to_set() =~= self@.dom()) by {
            assert forall|k: Seq<char>| self@.dom().contains(k) implies keys.to_set().contains(k) by {
                let i = choose|i: int| 0 <= i < s.len() && s[i].description@ == k;
                assert(keys[i] == k);
            }
        }
        keys.unique_seq_to_set();
    }

    /// Whether a snippet has this description.
    pub fn contains_key(&self, description: &str) -> (r: bool)
        requires
            self.wf(),
        ensures
            r == self@.contains_key(description@),
    {
        let mut i: usize = 0;
        while i < self.entries.len()
            invariant
                self.wf(),
                i <= self.entries.len(),
                forall|j: int| 0 <= j < i ==> self.entries@[j].description@ != description@,
            decreases self.entries.len() - i,
        {
            if compare_text(self.entries[i].description.as_str(), description) == 0 {
                return true;
            }
            i = i + 1;
        }
        proof {
            if self@.contains_key(description@) {
                let j = choose|j: int|
                    0 <= j < self.entries@.len() && self.entries@[j].description@ == description@;
                assert(self.entries@[j].description@ == description@);
            }
        }
        false
    }

    /// Adds `def` under its description; a description that is already
    /// there is an error naming both files, and the registry stays as it was.
    pub fn insert(&mut self, def: CommandDef) -> (r: Result<(), DuplicateError>)
        requires
            old(self).wf(),
        ensures
            final(self).wf(),
            match r {
                Ok(()) => !old(self)@.contains_key(def.description@) && final(self)@ == old(
                    self,
                )@.insert(def.description@, def@),
                Err(e) => old(self)@.contains_key(def.description@) && e@ == duplicate_of(
                    def@,
                    old(self)@[def.description@],
                ) && final(self)@ == old(self)@,
            },
    {
        let ghost k = def.description@;
        let ghost d = def;
        let ghost old_entries = self.entries@;
        let ghost old_cat = self.catalog@;
        let n = self.entries.len();
        let mut p: usize = 0;
        while p < n
            invariant
                n == self.entries.len(),
                p <= n,
                self.wf(),
                k == def.description@,
                forall|i: int| 0 <= i < p ==> text_lt(#[trigger] self.entries@[i].description@, k),
            ensures
                p <= n,
                forall|i: int| 0 <= i < p ==> text_lt(#[trigger] self.entries@[i].description@, k),
                p < n ==> !text_lt(self.entries@[p as int].description@, k),
            decreases n - p,
        {
            if compare_text(self.entries[p].description.as_str(), def.description.as_str()) != -1 {
                break;
            }
            p = p + 1;
        }
        if p < n {
            let c = compare_text(self.entries[p].description.as_str(), def.description.as_str());
            proof {
                lemma_text_lt_total(self.entries@[p as int].description@, k);
                assert(self.catalog@.contains_key(self.entries@[p as int].description@));
            }
            if c == 0 {
                let existing = self.entries[p].source_file.clone();
                return Err(
                    DuplicateError {
                        description: def.description,
                        defined_in: def.source_file,
                        also_defined_in: existing,
                    },
                );
            }
        }
        proof {
            // every description of the registry differs from `k`
            assert forall|i: int| 0 <= i < n implies (#[trigger] old_entries[i]).description@ != k by {
                if i < p {
                    lemma_text_lt_irreflexive(k);
                } else {
                    lemma_text_lt_transitive_from(old_entries, p as int, i, k);
                    lemma_text_lt_irreflexive(k);
                }
            }
            assert(!self.catalog@.contains_key(k)) by {
                if self.catalog@.contains_key(k) {
                    let i = choose|i: int| 0 <= i < n && old_entries[i].description@ == k;
                    assert(old_entries[i].description@ != k);
                }
            }
        }
        self.entries.insert(p, def);
        self.catalog = Ghost(self.catalog@.insert(k, d@));
        proof {
            let s = self.entries@;
            assert(s =~= old_entries.insert(p as int, d));
            assert forall|i: int, j: int| 0 <= i < j < s.len() implies text_lt(
                #[trigger] s[i].description@,
                #[trigger] s[j].description@,
            ) by {
                if j < p {
                } else if j == p {
                } else if i < p {
                    lemma_text_lt_transitive_from(old_entries, p as int, j - 1, k);
                    lemma_text_lt_transitive(s[i].description@, k, s[j].description@);
                } else if i == p {
                    lemma_text_lt_transitive_from(old_entries, p as int, j - 1, k);
                } else {
                }
            }
            assert forall|i: int| 0 <= i < s.len() implies #[trigger] self.catalog@.contains_key(
                s[i].description@,
            ) && self.catalog@[s[i].description@] == s[i]@ by {
                if i < p {
                    assert(s[i] == old_entries[i]);
                    assert(old_cat.contains_key(old_entries[i].description@));
                } else if i > p {
                    assert(s[i] == old_entries[i - 1]);
                    assert(old_cat.contains_key(old_entries[i - 1].description@));
                }
            }
            assert forall|key: Seq<char>| #[trigger] self.catalog@.contains_key(key) implies exists|
                i: int,
            | 0 <= i < s.len() && s[i].description@ == key by {
                if key == k {
                    assert(s[p as int].description@ == key);
                } else {
                    let i = choose|i: int|
                        0 <= i < old_entries.len() && old_entries[i].description@ == key;
                    if i < p {
                        assert(s[i] == old_entries[i]);
                    } else {
                        assert(s[i + 1] == old_entries[i]);
                    }
                }
            }
        }
        Ok(())
    }
}

/// One file of a snippet directory: its path and what parsing its text gave,
/// the declarations or the parser's message.
#[derive(Debug)]
pub struct SourceFile {
    /// The file's path, as shown in messages.
    pub path: String,
    /// The declarations, or why the text could not be read as snippets.
    pub parsed: Result<FileDef, String>,
}

/// The registry entry for a declaration of the file at `path`.
pub open spec fn snippet_def(path: Seq<char>, s: CommandSnippet) -> DefModel {
    DefModel {
        description: s.description@,
        command: s.command@,
        source_file: path,
        tags: texts(s.tags@),
    }
}

/// Every declaration of `fd` has a non-empty description, as the schema
/// requires.
pub open spec fn all_described(fd: FileDef) -> bool {
    forall|i: int| 0 <= i < fd.commands@.len() ==> (#[trigger] fd.commands@[i]).description@.len() > 0
}

/// Whether a file is accepted as a snippet source: it parsed, and each of
/// its declarations has a description.
pub open spec fn accepted(f: SourceFile) -> bool {
    match f.parsed {
        Ok(fd) => all_described(fd),
        Err(_) => false,
    }
}

/// The entries that a file contributes: none when it is not accepted.
pub open spec fn file_defs(f: SourceFile) -> Seq<DefModel> {
    match f.parsed {
        Ok(fd) => if all_described(fd) {
            fd.commands@.map_values(|s: CommandSnippet| snippet_def(f.path@, s))
        } else {
            Seq::empty()
        },
        Err(_) => Seq::empty(),
    }
}

/// Whether a declaration of `fd` lacks a description.
pub fn has_empty_description(fd: &FileDef) -> (r: bool)
    ensures
        r == !all_described(*fd),
{
    let mut i: usize = 0;
    while i < fd.commands.len()
        invariant
            i <= fd.commands.len(),
            forall|k: int| 0 <= k < i ==> (#[trigger] fd.commands@[k]).description@.len() > 0,
        decreases fd.commands.len() - i,
    {
        if chars_of(fd.commands[i].description.as_str()).len() == 0 {
            return true;
        }
        i = i + 1;
    }
    false
}

/// The entries of all `files`, file after file.
pub open spec fn source_defs(files: Seq<SourceFile>) -> Seq<DefModel>
    decreases files.len(),
{
    if files.len() == 0 {
        Seq::empty()
    } else {
        source_defs(files.drop_last()) + file_defs(files.last())
    }
}

/// Adds `defs` one after the other to `m`; the first one whose description
/// is already there stops it with an error.
pub open spec fn insert_all(m: Catalog, defs: Seq<DefModel>) -> Result<Catalog, Dup>
    decreases defs.len(),
{
    if defs.len() == 0 {
        Ok(m)
    } else {
        match insert_all(m, defs.drop_last()) {
            Err(e) => Err(e),
            Ok(m2) => {
                let d = defs.last();
                if m2.contains_key(d.description) {
                    Err(duplicate_of(d, m2[d.description]))
                } else {
                    Ok(m2.insert(d.description, d))
                }
            },
        }
    }
}

/// What loading one directory whose files are `files` gives.
pub open spec fn load_spec(files: Seq<SourceFile>) -> Result<Catalog, Dup> {
    insert_all(Catalog::empty(), source_defs(files))
}

/// What loading the directories `dirs` in turn gives: each directory is
/// loaded on its own, then its entries are added to those of the earlier ones.
pub open spec fn load_dirs_spec(dirs: Seq<Vec<SourceFile>>) -> Result<Catalog, Dup>
    decreases dirs.len(),
{
    if dirs.len() == 0 {
        Ok(Catalog::empty())
    } else {
        match load_dirs_spec(dirs.drop_last()) {
            Err(e) => Err(e),
            Ok(m) => match load_spec(dirs.last()@) {
                Err(e) => Err(e),
                Ok(_) => insert_all(m, source_defs(dirs.last()@)),
            },
        }
    }
}

/// The warning for a file whose text could not be parsed.
pub open spec fn warning_text(path: Seq<char>, reason: Seq<char>) -> Seq<char> {
    "Warning: Failed to parse TOML from file: "@ + path + ". Error: "@ + reason
}

/// Why a parsed file with an undescribed declaration is skipped.
pub open spec fn empty_description_reason() -> Seq<char> {
    "a snippet has an empty description"@
}

/// The warnings for the files of `files` that are not accepted, in order.
pub open spec fn parse_warnings(files: Seq<SourceFile>) -> Seq<Seq<char>>
    decreases files.len(),
{
    if files.len() == 0 {
        Seq::empty()
    } else {
        let f = files.last();
        match f.parsed {
            Ok(fd) => if all_described(fd) {
                parse_warnings(files.drop_last())
            } else {
                parse_warnings(files.drop_last()).push(
                    warning_text(f.path@, empty_description_reason()),
                )
            },
            Err(reason) => parse_warnings(files.drop_last()).push(warning_text(f.path@, reason@)),
        }
    }
}

/// The warnings of all directories, directory after directory.
pub open spec fn dir_warnings(dirs: Seq<Vec<SourceFile>>) -> Seq<Seq<char>>
    decreases dirs.len(),
{
    if dirs.len() == 0 {
        Seq::empty()
    } else {
        dir_warnings(dirs.drop_last()) + parse_warnings(dirs.last()@)
    }
}

/// A loaded registry, with a warning for each file that was skipped.
pub struct Loaded {
    /// The snippets that were loaded.
    pub registry: Registry,
    /// One message per source file that could not be parsed.
    pub warnings: Vec<String>,
}

fn warning_for(path: &String, reason: &String) -> (r: String)
    ensures
        r@ == warning_text(path@, reason@),
{
    let mut w = String::new();
    w.append("Warning: Failed to parse TOML from file: ");
    w.append(path.as_str());
    w.append(". Error: ");
    w.append(reason.as_str());
    w
}

/// Adds the entries of `files` to `registry`, in file order; the first
/// description that is already there ends it with an error.
pub fn add_files(registry: &mut Registry, files: &Vec<SourceFile>) -> (r: Result<(), DuplicateError>)
    requires
        old(registry).wf(),
    ensures
        final(registry).wf(),
        match r {
            Ok(()) => insert_all(old(registry)@, source_defs(files@)) == Ok::<Catalog, Dup>(
                final(registry)@,
            ),
            Err(e) => insert_all(old(registry)@, source_defs(files@)) == Err::<Catalog, Dup>(e@),
        },
{
    let ghost m0 = registry@;
    let mut i: usize = 0;
    while i < files.len()
        invariant
            i <= files.len(),
            m0 == old(registry)@,
            registry.wf(),
            insert_all(m0, source_defs(files@.take(i as int))) == Ok::<Catalog, Dup>(registry@),
        decreases files.len() - i,
    {
        let f = &files[i];
        assert(files@.take(i + 1).drop_last() =~= files@.take(i as int));
        match &f.parsed {
            Ok(fd) => if has_empty_description(fd) {
                assert(file_defs(*f) =~= Seq::<DefModel>::empty());
            } else {
                let mut j: usize = 0;
                while j < fd.commands.len()
                    invariant
                        0 <= i < files.len(),
                        f == files@[i as int],
                        f.parsed == Ok::<FileDef, String>(*fd),
                        all_described(*fd),
                        j <= fd.commands.len(),
                        m0 == old(registry)@,
                        registry.wf(),
                        insert_all(m0, source_defs(files@.take(i as int)) + file_defs(*f).take(j as int))
                            == Ok::<Catalog, Dup>(registry@),
                    decreases fd.commands.len() - j,
                {
                    let sn = &fd.commands[j];
                    let def = CommandDef {
                        description: sn.description.clone(),
                        command: sn.command.clone(),
                        source_file: f.path.clone(),
                        tags: clone_texts(&sn.tags),
                    };
                    let ghost before = source_defs(files@.take(i as int)) + file_defs(*f).take(j as int);
                    let ghost after = source_defs(files@.take(i as int)) + file_defs(*f).take(j + 1);
                    proof {
                        assert(files@.take(i + 1).drop_last() =~= files@.take(i as int));
                        assert(source_defs(files@.take(i + 1)) =~= source_defs(files@.take(i as int))
                            + file_defs(files@[i as int]));
                        assert(after.is_prefix_of(source_defs(files@.take(i + 1))));
                        lemma_source_defs_prefix(files@, i + 1);
                    }
                    assert(def@ == file_defs(*f)[j as int]);
                    assert(after =~= before.push(def@));
                    assert(after.drop_last() =~= before);
                    let ghost reg_before = registry@;
                    match registry.insert(def) {
                        Ok(()) => {},
                        Err(e) => {
                            proof {
                                assert(insert_all(m0, after) == Err::<Catalog, Dup>(e@));
                                let full = source_defs(files@);
                                let mid = source_defs(files@.take(i + 1));
                                assert(after.is_prefix_of(full)) by {
                                    assert forall|t: int| 0 <= t < after.len() implies after[t] == full[t] by {
                                        assert(after[t] == mid[t]);
                                    }
                                }
                                lemma_insert_all_stops(m0, after, source_defs(files@));
                            }
                            return Err(e);
                        },
                    }
                    j = j + 1;
                }
                assert(file_defs(*f).take(j as int) =~= file_defs(*f));
            },
            Err(_) => {
                assert(file_defs(*f) =~= Seq::<DefModel>::empty());
            },
        }
        assert(source_defs(files@.take(i + 1)) =~= source_defs(files@.take(i as int)) + file_defs(files@[i as int]));
        i = i + 1;
    }
    assert(files@.take(files.len() as int) =~= files@);
    Ok(())
}

/// The warnings for the files of `files` that could not be parsed.
pub fn collect_warnings(files: &Vec<SourceFile>) -> (r: Vec<String>)
    ensures
        texts(r@) == parse_warnings(files@),
{
    let mut r: Vec<String> = Vec::new();
    let mut i: usize = 0;
    while i < files.len()
        invariant
            i <= files.len(),
            texts(r@) == parse_warnings(files@.take(i as int)),
        decreases files.len() - i,
    {
        assert(files@.take(i + 1).drop_last() =~= files@.take(i as int));
        match &files[i].parsed {
            Ok(fd) => {
                if has_empty_description(fd) {
                    r.push(warning_for(&files[i].path, &"a snippet has an empty description".to_string()));
                }
            },
            Err(reason) => {
                r.push(warning_for(&files[i].path, reason));
            },
        }
        assert(texts(r@) =~= parse_warnings(files@.take(i + 1)));
        i = i + 1;
    }
    assert(files@.take(files.len() as int) =~= files@);
    r
}

/// Loads one directory, given its snippet files: every entry of the
/// accepted files, or the first description declared twice. Files that did
/// not parse, or that declare a snippet without a description, are skipped,
/// each with a warning.
pub fn load_commands(files: &Vec<SourceFile>) -> (r: Result<Loaded, DuplicateError>)
    ensures
        match r {
            Ok(l) => l.registry.wf() && load_spec(files@) == Ok::<Catalog, Dup>(l.registry@)
                && texts(l.warnings@) == parse_warnings(files@),
            Err(e) => load_spec(files@) == Err::<Catalog, Dup>(e@),
        },
{
    let mut registry = Registry::new();
    match add_files(&mut registry, files) {
        Ok(()) => Ok(Loaded { registry, warnings: collect_warnings(files) }),
        Err(e) => Err(e),
    }
}

/// Loads the directories in turn, the primary one first: each is loaded on
/// its own, then its entries join those of the earlier ones. A description
/// declared twice, in one directory or across two, is an error.
pub fn load_directories(dirs: &Vec<Vec<SourceFile>>) -> (r: Result<Loaded, DuplicateError>)
    ensures
        match r {
            Ok(l) => l.registry.wf() && load_dirs_spec(dirs@) == Ok::<Catalog, Dup>(l.registry@)
                && texts(l.warnings@) == dir_warnings(dirs@),
            Err(e) => load_dirs_spec(dirs@) == Err::<Catalog, Dup>(e@),
        },
{
    let mut registry = Registry::new();
    let mut warnings: Vec<String> = Vec::new();
    let mut i: usize = 0;
    while i < dirs.len()
        invariant
            i <= dirs.len(),
            registry.wf(),
            load_dirs_spec(dirs@.take(i as int)) == Ok::<Catalog, Dup>(registry@),
            texts(warnings@) == dir_warnings(dirs@.take(i as int)),
        decreases dirs.len() - i,
    {
        assert(dirs@.take(i + 1).drop_last() =~= dirs@.take(i as int));
        let ghost prev = registry@;
        match load_commands(&dirs[i]) {
            Err(e) => {
                proof {
                    lemma_load_dirs_stops(dirs@, i + 1);
                }
                return Err(e);
            },
            Ok(l) => {
                let mut w = l.warnings;
                let ghost w0 = warnings@;
                let ghost w1 = w@;
                warnings.append(&mut w);
                assert(texts(warnings@) =~= texts(w0) + texts(w1));
            },
        }
        match add_files(&mut registry, &dirs[i]) {
            Ok(()) => {},
            Err(e) => {
                proof {
                    lemma_load_dirs_stops(dirs@, i + 1);
                }
                return Err(e);
            },
        }
        i = i + 1;
    }
    assert(dirs@.take(dirs.len() as int) =~= dirs@);
    Ok(Loaded { registry, warnings })
}

/// Once loading the first `n` directories fails, loading all of them fails
/// the same way.
proof fn lemma_load_dirs_stops(dirs: Seq<Vec<SourceFile>>, n: int)
    requires
        0 <= n <= dirs.len(),
        load_dirs_spec(dirs.take(n)) is Err,
    ensures
        load_dirs_spec(dirs) == load_dirs_spec(dirs.take(n)),
    decreases dirs.len() - n,
{
    if n < dirs.len() {
        assert(dirs.take(n + 1).drop_last() =~= dirs.take(n));
        lemma_load_dirs_stops(dirs, n + 1);
    } else {
        assert(dirs.take(n) =~= dirs);
    }
}

/// Whether a directory entry with this file name is a snippet source: its
/// extension, the part after the last dot of a name that does not start
/// with that dot, is `toml`.
pub open spec fn is_source_name(name: Seq<char>) -> bool {
    name.len() > 5 && has_suffix(name, ".toml"@)
}

/// Whether a directory entry with this file name is a snippet source.
pub fn is_source_file_name(name: &str) -> (r: bool)
    ensures
        r == is_source_name(name@),
{
    proof {
        reveal_strlit(".toml");
    }
    let n = chars_of(name).len();
    n > 5 && ends_with_text(name, ".toml")
}

/// The directories to scan, in order: the primary one, then the extra ones
/// unless a directory was named on the command line.
pub fn get_scan_dirs(cli_dir: &Option<String>, primary: &String, extra_dirs: &Vec<String>) -> (r: Vec<String>)
    ensures
        r@ == (if cli_dir is None {
            seq![*primary] + extra_dirs@
        } else {
            seq![*primary]
        }),
{
    let mut dirs: Vec<String> = Vec::new();
    dirs.push(primary.clone());
    if cli_dir.is_none() {
        let mut i: usize = 0;
        while i < extra_dirs.len()
            invariant
                i <= extra_dirs.len(),
                dirs@ == seq![*primary] + extra_dirs@.take(i as int),
            decreases extra_dirs.len() - i,
        {
            dirs.push(extra_dirs[i].clone());
            assert(extra_dirs@.take(i + 1) =~= extra_dirs@.take(i as int).push(extra_dirs@[i as int]));
            i = i + 1;
        }
        assert(extra_dirs@.take(i as int) =~= extra_dirs@);
    }
    dirs
}

/// Whether a snippet with these tags carries one of `wanted`.
pub open spec fn has_any_tag(tags: Seq<Seq<char>>, wanted: Seq<Seq<char>>) -> bool {
    exists|i: int, j: int| 0 <= i < tags.len() && 0 <= j < wanted.len() && tags[i] == wanted[j]
}

fn carries_any_tag(tags: &Vec<String>, wanted: &Vec<String>) -> (r: bool)
    ensures
        r == has_any_tag(texts(tags@), texts(wanted@)),
{
    let mut i: usize = 0;
    while i < tags.len()
        invariant
            i <= tags.len(),
            forall|a: int, b: int| 0 <= a < i && 0 <= b < wanted.len() ==> tags@[a]@ != wanted@[b]@,
        decreases tags.len() - i,
    {
        let mut j: usize = 0;
        while j < wanted.len()
            invariant
                i < tags.len(),
                j <= wanted.len(),
                forall|a: int, b: int| 0 <= a < i && 0 <= b < wanted.len() ==> tags@[a]@ != wanted@[b]@,
                forall|b: int| 0 <= b < j ==> tags@[i as int]@ != wanted@[b]@,
            decreases wanted.len() - j,
        {
            if tags[i] == wanted[j] {
                assert(texts(tags@)[i as int] == texts(wanted@)[j as int]);
                return true;
            }
            j = j + 1;
        }
        i = i + 1;
    }
    false
}

/// The snippets that carry at least one of `tags`, in their order.
pub fn filter_by_tags(commands: &Vec<CommandDef>, tags: &Vec<String>) -> (r: Vec<CommandDef>)
    ensures
        r@.map_values(|d: CommandDef| d@) == commands@.map_values(|d: CommandDef| d@).filter(
            |d: DefModel| has_any_tag(d.tags, texts(tags@)),
        ),
{
    let ghost pred = |d: DefModel| has_any_tag(d.tags, texts(tags@));
    let mut r: Vec<CommandDef> = Vec::new();
    let mut i: usize = 0;
    while i < commands.len()
        invariant
            i <= commands.len(),
            pred == (|d: DefModel| has_any_tag(d.tags, texts(tags@))),
            r@.map_values(|d: CommandDef| d@) == commands@.take(i as int).map_values(|d: CommandDef| d@).filter(pred),
        decreases commands.len() - i,
    {
        let ghost before = commands@.take(i as int).map_values(|d: CommandDef| d@);
        assert(commands@.take(i + 1).map_values(|d: CommandDef| d@) =~= before.push(commands@[i as int]@));
        proof {
            before.lemma_filter_push(commands@[i as int]@, pred);
        }
        if carries_any_tag(&commands[i].tags, tags) {
            let ghost r0 = r@;
            r.push(copy_def(&commands[i]));
            assert(r@.map_values(|d: CommandDef| d@) =~= r0.map_values(|d: CommandDef| d@).push(commands@[i as int]@));
        }
        i = i + 1;
    }
    assert(commands@.take(i as int) =~= commands@);
    r
}

/// The entries of the first `n` files come before those of the others.
proof fn lemma_source_defs_prefix(files: Seq<SourceFile>, n: int)
    requires
        0 <= n <= files.len(),
    ensures
        source_defs(files.take(n)).is_prefix_of(source_defs(files)),
    decreases files.len() - n,
{
    if n < files.len() {
        lemma_source_defs_prefix(files, n + 1);
        assert(files.take(n + 1).drop_last() =~= files.take(n));
    } else {
        assert(files.take(n) =~= files);
    }
}

/// Once adding a prefix of `defs` fails, adding all of `defs` fails the same way.
proof fn lemma_insert_all_stops(m: Catalog, prefix: Seq<DefModel>, defs: Seq<DefModel>)
    requires
        prefix.is_prefix_of(defs),
        insert_all(m, prefix) is Err,
    ensures
        insert_all(m, defs) == insert_all(m, prefix),
    decreases defs.len(),
{
    if defs.len() > prefix.len() {
        assert(prefix.is_prefix_of(defs.drop_last()));
        lemma_insert_all_stops(m, prefix, defs.drop_last());
    } else {
        assert(prefix =~= defs);
    }
}

/// No two of `defs` share a description.
pub open spec fn unique_keys(defs: Seq<DefModel>) -> bool {
    forall|a: int, b: int|
        0 <= a < b < defs.len() ==> (#[trigger] defs[a]).description != (#[trigger] defs[b]).description
}

/// Whether one of `defs` has the description `k`.
pub open spec fn declares(defs: Seq<DefModel>, k: Seq<char>) -> bool {
    exists|a: int| 0 <= a < defs.len() && (#[trigger] defs[a]).description == k
}

/// The entries of all directories, directory after directory.
pub open spec fn all_defs(dirs: Seq<Vec<SourceFile>>) -> Seq<DefModel>
    decreases dirs.len(),
{
    if dirs.len() == 0 {
        Seq::empty()
    } else {
        all_defs(dirs.drop_last()) + source_defs(dirs.last()@)
    }
}

/// Adding `a + b` is adding `a`, then `b`.
proof fn lemma_insert_all_split(m: Catalog, a: Seq<DefModel>, b: Seq<DefModel>)
    ensures
        insert_all(m, a + b) == match insert_all(m, a) {
            Err(e) => Err(e),
            Ok(m2) => insert_all(m2, b),
        },
    decreases b.len(),
{
    if b.len() == 0 {
        assert(a + b =~= a);
    } else {
        lemma_insert_all_split(m, a, b.drop_last());
        assert((a + b).drop_last() =~= a + b.drop_last());
        assert((a + b).last() == b.last());
        if insert_all(m, a) is Err {
        }
    }
}

/// Adding entries whose descriptions are new and distinct succeeds, and
/// maps each description to its entry.
proof fn lemma_insert_all_fresh(m: Catalog, defs: Seq<DefModel>)
    requires
        unique_keys(defs),
        forall|a: int| 0 <= a < defs.len() ==> !m.contains_key((#[trigger] defs[a]).description),
    ensures
        insert_all(m, defs) is Ok,
        forall|k: Seq<char>|
            #[trigger] insert_all(m, defs)->Ok_0.contains_key(k) <==> m.contains_key(k) || declares(
                defs,
                k,
            ),
        forall|a: int|
            0 <= a < defs.len() ==> insert_all(m, defs)->Ok_0[(#[trigger] defs[a]).description]
                == defs[a],
        forall|k: Seq<char>| m.contains_key(k) ==> #[trigger] insert_all(m, defs)->Ok_0[k] == m[k],
    decreases defs.len(),
{
    if defs.len() > 0 {
        let p = defs.drop_last();
        let d = defs.last();
        assert forall|a: int, b: int| 0 <= a < b < p.len() implies (#[trigger] p[a]).description
            != (#[trigger] p[b]).description by {
            assert(p[a] == defs[a] && p[b] == defs[b]);
        }
        assert forall|a: int| 0 <= a < p.len() implies !m.contains_key((#[trigger] p[a]).description) by {
            assert(p[a] == defs[a]);
        }
        lemma_insert_all_fresh(m, p);
        let m2 = insert_all(m, p)->Ok_0;
        assert(!m2.contains_key(d.description)) by {
            if declares(p, d.description) {
                let a = choose|a: int| 0 <= a < p.len() && (#[trigger] p[a]).description == d.description;
                assert(defs[a].description != defs[defs.len() - 1].description);
            }
            assert(!m.contains_key(defs[defs.len() - 1].description));
        }
        let m3 = insert_all(m, defs)->Ok_0;
        assert(m3 == m2.insert(d.description, d));
        assert forall|k: Seq<char>| #[trigger] m3.contains_key(k) <==> m.contains_key(k) || declares(defs, k) by {
            if declares(defs, k) && k != d.description {
                let a = choose|a: int| 0 <= a < defs.len() && (#[trigger] defs[a]).description == k;
                assert(p[a] == defs[a]);
            }
            if declares(p, k) {
                let a = choose|a: int| 0 <= a < p.len() && (#[trigger] p[a]).description == k;
                assert(defs[a] == p[a]);
            }
            if k == d.description {
                assert(defs[defs.len() - 1] == d);
            }
        }
        assert forall|a: int| 0 <= a < defs.len() implies m3[(#[trigger] defs[a]).description] == defs[a] by {
            if a < defs.len() - 1 {
                assert(p[a] == defs[a]);
                assert(defs[a].description != defs[defs.len() - 1].description);
            }
        }
        assert forall|k: Seq<char>| m.contains_key(k) implies #[trigger] m3[k] == m[k] by {
            assert(k != d.description) by {
                assert(!m.contains_key(defs[defs.len() - 1].description));
            }
        }
    }
}

/// The first entry of `defs` whose description was there before, at `j`,
/// with `old` the entry it met, makes adding `defs` fail naming both.
proof fn lemma_insert_all_collides(m: Catalog, defs: Seq<DefModel>, j: int, old: DefModel)
    requires
        0 <= j < defs.len(),
        unique_keys(defs.take(j)),
        forall|a: int| 0 <= a < j ==> !m.contains_key((#[trigger] defs[a]).description),
        (m.contains_key(defs[j].description) && m[defs[j].description] == old) || exists|i: int|
            0 <= i < j && defs[i] == old && old.description == defs[j].description,
    ensures
        insert_all(m, defs) == Err::<Catalog, Dup>(duplicate_of(defs[j], old)),
{
    let p = defs.take(j);
    assert forall|a: int| 0 <= a < p.len() implies !m.contains_key((#[trigger] p[a]).description) by {
        assert(p[a] == defs[a]);
    }
    lemma_insert_all_fresh(m, p);
    let m2 = insert_all(m, p)->Ok_0;
    if !m.contains_key(defs[j].description) || m[defs[j].description] != old {
        let i = choose|i: int| 0 <= i < j && defs[i] == old && old.description == defs[j].description;
        assert(p[i] == defs[i]);
        assert(m2[p[i].description] == p[i]);
        assert(!m.contains_key(defs[i].description));
    }
    assert(m2.contains_key(defs[j].description) && m2[defs[j].description] == old);
    assert(defs.take(j + 1).drop_last() =~= p);
    assert(defs.take(j + 1).last() == defs[j]);
    assert(insert_all(m, defs.take(j + 1)) == Err::<Catalog, Dup>(duplicate_of(defs[j], old)));
    lemma_insert_all_stops(m, defs.take(j + 1), defs);
}

/// `defs` holds exactly one pair of entries, at `i` and `j`, that share a
/// description.
pub open spec fn only_pair(defs: Seq<DefModel>, i: int, j: int) -> bool {
    &&& 0 <= i < j < defs.len()
    &&& defs[i].description == defs[j].description
    &&& forall|a: int, b: int|
        0 <= a < b < defs.len() && (a != i || b != j) ==> (#[trigger] defs[a]).description
            != (#[trigger] defs[b]).description
}

/// Two declarations of one description in the files of a directory, in
/// whichever files and whichever order: loading fails, naming that
/// description and exactly the two files (the later one first).
pub proof fn lemma_duplicate_in_directory(files: Seq<SourceFile>, i: int, j: int)
    requires
        only_pair(source_defs(files), i, j),
    ensures
        load_spec(files) == Err::<Catalog, Dup>(
            duplicate_of(source_defs(files)[j], source_defs(files)[i]),
        ),
{
    let defs = source_defs(files);
    assert forall|a: int, b: int| 0 <= a < b < defs.take(j).len() implies (#[trigger] defs.take(j)[a]).description
        != (#[trigger] defs.take(j)[b]).description by {
        assert(defs.take(j)[a] == defs[a] && defs.take(j)[b] == defs[b]);
    }
    lemma_insert_all_collides(Catalog::empty(), defs, j, defs[i]);
}

/// When no description repeats across the directories, loading them in
/// turn is adding all their entries at once.
proof fn lemma_load_dirs_unique(dirs: Seq<Vec<SourceFile>>)
    requires
        unique_keys(all_defs(dirs)),
    ensures
        load_dirs_spec(dirs) == insert_all(Catalog::empty(), all_defs(dirs)),
    decreases dirs.len(),
{
    if dirs.len() > 0 {
        let prev = dirs.drop_last();
        let a = all_defs(prev);
        let b = source_defs(dirs.last()@);
        assert(all_defs(dirs) == a + b);
        assert forall|x: int, y: int| 0 <= x < y < a.len() implies (#[trigger] a[x]).description
            != (#[trigger] a[y]).description by {
            assert(a[x] == (a + b)[x] && a[y] == (a + b)[y]);
        }
        assert forall|x: int, y: int| 0 <= x < y < b.len() implies (#[trigger] b[x]).description
            != (#[trigger] b[y]).description by {
            assert(b[x] == (a + b)[a.len() + x] && b[y] == (a + b)[a.len() + y]);
        }
        lemma_load_dirs_unique(prev);
        lemma_insert_all_fresh(Catalog::empty(), b);
        lemma_insert_all_split(Catalog::empty(), a, b);
    }
}

/// Two declarations of one description anywhere in the directories (the
/// same one or two different ones, in whichever order): loading fails,
/// naming that description and exactly the two files (the later one first).
pub proof fn lemma_duplicate_reported(dirs: Seq<Vec<SourceFile>>, i: int, j: int)
    requires
        only_pair(all_defs(dirs), i, j),
    ensures
        load_dirs_spec(dirs) == Err::<Catalog, Dup>(
            duplicate_of(all_defs(dirs)[j], all_defs(dirs)[i]),
        ),
        set![load_dirs_spec(dirs)->Err_0.1, load_dirs_spec(dirs)->Err_0.2] == set![
            all_defs(dirs)[i].source_file,
            all_defs(dirs)[j].source_file,
        ],
    decreases dirs.len(),
{
    lemma_duplicate_reported_in_order(dirs, i, j);
    let defs = all_defs(dirs);
    assert(set![defs[j].source_file, defs[i].source_file] =~= set![defs[i].source_file, defs[j].source_file]);
}

/// The error of `lemma_duplicate_reported`, with the files in the order in
/// which they are met.
proof fn lemma_duplicate_reported_in_order(dirs: Seq<Vec<SourceFile>>, i: int, j: int)
    requires
        only_pair(all_defs(dirs), i, j),
    ensures
        load_dirs_spec(dirs) == Err::<Catalog, Dup>(
            duplicate_of(all_defs(dirs)[j], all_defs(dirs)[i]),
        ),
    decreases dirs.len(),
{
    let prev = dirs.drop_last();
    let a = all_defs(prev);
    let b = source_defs(dirs.last()@);
    let defs = all_defs(dirs);
    assert(defs == a + b);
    let n = a.len() as int;
    if j < n {
        assert forall|x: int, y: int| 0 <= x < y < a.len() && (x != i || y != j) implies (#[trigger] a[x]).description
            != (#[trigger] a[y]).description by {
            assert(a[x] == defs[x] && a[y] == defs[y]);
        }
        assert(a[i] == defs[i] && a[j] == defs[j]);
        lemma_duplicate_reported_in_order(prev, i, j);
    } else {
        assert forall|x: int, y: int| 0 <= x < y < a.len() implies (#[trigger] a[x]).description
            != (#[trigger] a[y]).description by {
            assert(a[x] == defs[x] && a[y] == defs[y]);
        }
        lemma_load_dirs_unique(prev);
        lemma_insert_all_fresh(Catalog::empty(), a);
        let m = insert_all(Catalog::empty(), a)->Ok_0;
        let jj = j - n;
        assert(b[jj] == defs[j]);
        assert forall|x: int, y: int| 0 <= x < y < b.take(jj).len() implies (#[trigger] b.take(jj)[x]).description
            != (#[trigger] b.take(jj)[y]).description by {
            assert(b.take(jj)[x] == defs[n + x] && b.take(jj)[y] == defs[n + y]);
        }
        if i >= n {
            let ii = i - n;
            assert(b[ii] == defs[i]);
            lemma_insert_all_collides(Catalog::empty(), b, jj, b[ii]);
        } else {
            // `b` alone has no repeated description
            assert forall|x: int, y: int| 0 <= x < y < b.len() implies (#[trigger] b[x]).description
                != (#[trigger] b[y]).description by {
                assert(b[x] == defs[n + x] && b[y] == defs[n + y]);
            }
            lemma_insert_all_fresh(Catalog::empty(), b);
            assert(a[i] == defs[i]);
            assert(m[a[i].description] == a[i]);
            assert forall|x: int| 0 <= x < jj implies !m.contains_key((#[trigger] b[x]).description) by {
                if m.contains_key(b[x].description) {
                    assert(declares(a, b[x].description));
                    let y = choose|y: int| 0 <= y < a.len() && (#[trigger] a[y]).description == b[x].description;
                    assert(a[y] == defs[y] && b[x] == defs[n + x]);
                }
            }
            lemma_insert_all_collides(m, b, jj, a[i]);
        }
    }
}

/// No entry of `x` shares its description with an entry of `y`.
pub open spec fn keys_apart(x: Seq<DefModel>, y: Seq<DefModel>) -> bool {
    forall|a: int, b: int|
        0 <= a < x.len() && 0 <= b < y.len() ==> (#[trigger] x[a]).description != (#[trigger] y[b]).description
}

/// No description repeats within a file of `files`, nor across two of them.
pub open spec fn files_apart(files: Seq<SourceFile>) -> bool {
    &&& forall|f: SourceFile| #[trigger] files.contains(f) ==> unique_keys(file_defs(f))
    &&& forall|f: SourceFile, g: SourceFile|
        #[trigger] files.contains(f) && #[trigger] files.contains(g) && f != g ==> keys_apart(
            file_defs(f),
            file_defs(g),
        )
}

proof fn lemma_unique_concat(x: Seq<DefModel>, y: Seq<DefModel>)
    ensures
        unique_keys(x + y) == (unique_keys(x) && unique_keys(y) && keys_apart(x, y)),
{
    let z = x + y;
    let n = x.len() as int;
    if unique_keys(z) {
        assert forall|a: int, b: int| 0 <= a < b < x.len() implies (#[trigger] x[a]).description
            != (#[trigger] x[b]).description by {
            assert(z[a] == x[a] && z[b] == x[b]);
        }
        assert forall|a: int, b: int| 0 <= a < b < y.len() implies (#[trigger] y[a]).description
            != (#[trigger] y[b]).description by {
            assert(z[n + a] == y[a] && z[n + b] == y[b]);
        }
        assert forall|a: int, b: int| 0 <= a < x.len() && 0 <= b < y.len() implies (#[trigger] x[a]).description
            != (#[trigger] y[b]).description by {
            assert(z[a] == x[a] && z[n + b] == y[b]);
        }
    }
    if unique_keys(x) && unique_keys(y) && keys_apart(x, y) {
        assert forall|a: int, b: int| 0 <= a < b < z.len() implies (#[trigger] z[a]).description
            != (#[trigger] z[b]).description by {
            if b < n {
                assert(z[a] == x[a] && z[b] == x[b]);
            } else if a < n {
                assert(z[a] == x[a] && z[b] == y[b - n]);
            } else {
                assert(z[a] == y[a - n] && z[b] == y[b - n]);
            }
        }
    }
}

/// An entry comes from the files exactly when one of them contributes it.
proof fn lemma_source_defs_contains(files: Seq<SourceFile>, x: DefModel)
    ensures
        source_defs(files).contains(x) <==> exists|f: SourceFile|
            #[trigger] files.contains(f) && file_defs(f).contains(x),
    decreases files.len(),
{
    if files.len() > 0 {
        let p = files.drop_last();
        let l = files.last();
        lemma_source_defs_contains(p, x);
        let a = source_defs(p);
        let b = file_defs(l);
        assert(source_defs(files) == a + b);
        if (a + b).contains(x) {
            let k = choose|k: int| 0 <= k < (a + b).len() && (a + b)[k] == x;
            if k < a.len() {
                assert(a[k] == x);
                assert(a.contains(x));
                let f = choose|f: SourceFile| #[trigger] p.contains(f) && file_defs(f).contains(x);
                let t = choose|t: int| 0 <= t < p.len() && p[t] == f;
                assert(files[t] == f);
                assert(files.contains(f));
            } else {
                assert(b[k - a.len()] == x);
                assert(b.contains(x));
                assert(files[files.len() - 1] == l);
                assert(files.contains(l));
            }
        }
        if exists|f: SourceFile| #[trigger] files.contains(f) && file_defs(f).contains(x) {
            let f = choose|f: SourceFile| #[trigger] files.contains(f) && file_defs(f).contains(x);
            let t = choose|t: int| 0 <= t < files.len() && files[t] == f;
            if t < files.len() - 1 {
                assert(p[t] == f);
                assert(p.contains(f));
                let k = choose|k: int| 0 <= k < a.len() && a[k] == x;
                assert((a + b)[k] == x);
                assert((a + b).contains(x));
            } else {
                assert(f == l);
                let k = choose|k: int| 0 <= k < b.len() && b[k] == x;
                assert((a + b)[a.len() + k] == x);
                assert((a + b).contains(x));
            }
        }
    }
}

/// For files listed once each, no description repeats among all their
/// entries exactly when none repeats within a file or across two.
proof fn lemma_unique_files(files: Seq<SourceFile>)
    requires
        files.no_duplicates(),
    ensures
        unique_keys(source_defs(files)) == files_apart(files),
    decreases files.len(),
{
    if files.len() == 0 {
        assert(source_defs(files) =~= Seq::<DefModel>::empty());
    } else {
        let p = files.drop_last();
        let l = files.last();
        assert(p.no_duplicates());
        lemma_unique_files(p);
        let a = source_defs(p);
        let b = file_defs(l);
        lemma_unique_concat(a, b);
        assert(!p.contains(l)) by {
            if p.contains(l) {
                let t = choose|t: int| 0 <= t < p.len() && p[t] == l;
                assert(files[t] == files[files.len() - 1]);
            }
        }
        assert forall|f: SourceFile| #[trigger] files.contains(f) implies f == l || p.contains(f) by {
            let t = choose|t: int| 0 <= t < files.len() && files[t] == f;
            if t < files.len() - 1 {
                assert(p[t] == f);
            }
        }
        assert forall|f: SourceFile| #[trigger] p.contains(f) implies files.contains(f) by {
            let t = choose|t: int| 0 <= t < p.len() && p[t] == f;
            assert(files[t] == f);
        }
        assert(files.contains(l)) by {
            assert(files[files.len() - 1] == l);
        }
        // the entries of `p` and of `l` are apart exactly when every file of
        // `p` is apart from `l`
        if keys_apart(a, b) {
            assert forall|f: SourceFile| #[trigger] p.contains(f) implies keys_apart(file_defs(f), b) by {
                assert forall|x: int, y: int| 0 <= x < file_defs(f).len() && 0 <= y < b.len() implies (#[trigger] file_defs(f)[x]).description
                    != (#[trigger] b[y]).description by {
                    lemma_source_defs_contains(p, file_defs(f)[x]);
                    assert(file_defs(f).contains(file_defs(f)[x]));
                    let k = choose|k: int| 0 <= k < a.len() && a[k] == file_defs(f)[x];
                    assert(a[k].description != b[y].description);
                }
            }
        }
        if forall|f: SourceFile| #[trigger] p.contains(f) ==> keys_apart(file_defs(f), b) {
            assert forall|x: int, y: int| 0 <= x < a.len() && 0 <= y < b.len() implies (#[trigger] a[x]).description
                != (#[trigger] b[y]).description by {
                lemma_source_defs_contains(p, a[x]);
                assert(a.contains(a[x]));
                let f = choose|f: SourceFile| #[trigger] p.contains(f) && file_defs(f).contains(a[x]);
                let k = choose|k: int| 0 <= k < file_defs(f).len() && file_defs(f)[k] == a[x];
                assert(keys_apart(file_defs(f), b));
                assert(file_defs(f)[k].description != b[y].description);
            }
        }
        // symmetry of being apart
        assert forall|x: Seq<DefModel>, y: Seq<DefModel>| keys_apart(x, y) implies #[trigger] keys_apart(y, x) by {
            assert forall|c: int, d: int| 0 <= c < y.len() && 0 <= d < x.len() implies (#[trigger] y[c]).description
                != (#[trigger] x[d]).description by {
                assert(x[d].description != y[c].description);
            }
        }
        if files_apart(files) {
            assert forall|f: SourceFile| #[trigger] p.contains(f) implies keys_apart(file_defs(f), b) by {
                assert(files.contains(f) && files.contains(l) && f != l);
            }
            assert forall|f: SourceFile, g: SourceFile| #[trigger] p.contains(f) && #[trigger] p.contains(g) && f != g implies keys_apart(
                file_defs(f),
                file_defs(g),
            ) by {
                assert(files.contains(f) && files.contains(g));
            }
        }
        if files_apart(p) && unique_keys(b) && (forall|f: SourceFile| #[trigger] p.contains(f) ==> keys_apart(file_defs(f), b)) {
            assert forall|f: SourceFile, g: SourceFile| #[trigger] files.contains(f) && #[trigger] files.contains(g) && f != g implies keys_apart(
                file_defs(f),
                file_defs(g),
            ) by {
                if f == l {
                    assert(p.contains(g));
                    assert(keys_apart(file_defs(g), b));
                } else if g == l {
                    assert(p.contains(f));
                } else {
                    assert(p.contains(f) && p.contains(g));
                }
            }
        }
    }
}

/// Loading a directory does not depend on the order in which its files are
/// listed: two listings of the same files, each file listed once, either
/// both load, to the same registry, or both fail. In particular loading an
/// unchanged directory twice gives the same registry.
pub proof fn lemma_load_order_independent(s1: Seq<SourceFile>, s2: Seq<SourceFile>)
    requires
        s1.no_duplicates(),
        s2.no_duplicates(),
        s1.to_set() == s2.to_set(),
    ensures
        load_spec(s1) is Ok <==> load_spec(s2) is Ok,
        load_spec(s1) is Ok ==> load_spec(s1) == load_spec(s2),
{
    assert forall|f: SourceFile| s1.contains(f) <==> s2.contains(f) by {
        assert(s1.to_set().contains(f) == s1.contains(f));
        assert(s2.to_set().contains(f) == s2.contains(f));
    }
    lemma_unique_files(s1);
    lemma_unique_files(s2);
    assert(files_apart(s1) == files_apart(s2));
    let d1 = source_defs(s1);
    let d2 = source_defs(s2);
    if unique_keys(d1) {
        lemma_insert_all_fresh(Catalog::empty(), d1);
        lemma_insert_all_fresh(Catalog::empty(), d2);
        let m1 = insert_all(Catalog::empty(), d1)->Ok_0;
        let m2 = insert_all(Catalog::empty(), d2)->Ok_0;
        assert forall|x: DefModel| d1.contains(x) <==> d2.contains(x) by {
            lemma_source_defs_contains(s1, x);
            lemma_source_defs_contains(s2, x);
        }
        assert forall|k: Seq<char>| declares(d1, k) <==> declares(d2, k) by {
            if declares(d1, k) {
                let a = choose|a: int| 0 <= a < d1.len() && (#[trigger] d1[a]).description == k;
                assert(d1.contains(d1[a]));
                let b = choose|b: int| 0 <= b < d2.len() && d2[b] == d1[a];
                assert(d2[b].description == k);
            }
            if declares(d2, k) {
                let a = choose|a: int| 0 <= a < d2.len() && (#[trigger] d2[a]).description == k;
                assert(d2.contains(d2[a]));
                let b = choose|b: int| 0 <= b < d1.len() && d1[b] == d2[a];
                assert(d1[b].description == k);
            }
        }
        assert forall|k: Seq<char>| #[trigger] m1.contains_key(k) implies m2.contains_key(k) && m1[k] == m2[k] by {
            let a = choose|a: int| 0 <= a < d1.len() && (#[trigger] d1[a]).description == k;
            assert(d1.contains(d1[a]));
            let b = choose|b: int| 0 <= b < d2.len() && d2[b] == d1[a];
            assert(m1[d1[a].description] == d1[a]);
            assert(m2[d2[b].description] == d2[b]);
        }
        assert(m1 =~= m2);
    }
    if !unique_keys(d1) {
        lemma_load_fails_on_repeat(d1);
        lemma_load_fails_on_repeat(d2);
    }
}

/// Adding entries to an empty catalog succeeds only when no description
/// repeats.
proof fn lemma_load_fails_on_repeat(defs: Seq<DefModel>)
    ensures
        insert_all(Catalog::empty(), defs) is Ok ==> unique_keys(defs),
    decreases defs.len(),
{
    if defs.len() > 0 && insert_all(Catalog::empty(), defs) is Ok {
        let p = defs.drop_last();
        lemma_load_fails_on_repeat(p);
        lemma_insert_all_fresh(Catalog::empty(), p);
        let m = insert_all(Catalog::empty(), p)->Ok_0;
        assert(!m.contains_key(defs.last().description));
        assert forall|a: int, b: int| 0 <= a < b < defs.len() implies (#[trigger] defs[a]).description
            != (#[trigger] defs[b]).description by {
            if b < defs.len() - 1 {
                assert(p[a] == defs[a] && p[b] == defs[b]);
            } else {
                assert(p[a] == defs[a]);
                assert(declares(p, p[a].description));
            }
        }
    }
}

/// Every description in a loaded registry is non-empty.
pub proof fn lemma_loaded_descriptions_non_empty(files: Seq<SourceFile>)
    ensures
        load_spec(files) is Ok ==> forall|k: Seq<char>|
            #[trigger] load_spec(files)->Ok_0.contains_key(k) ==> k.len() > 0,
{
    let defs = source_defs(files);
    if load_spec(files) is Ok {
        lemma_load_fails_on_repeat(defs);
        lemma_insert_all_fresh(Catalog::empty(), defs);
        assert forall|k: Seq<char>| #[trigger] load_spec(files)->Ok_0.contains_key(k) implies k.len() > 0 by {
            let a = choose|a: int| 0 <= a < defs.len() && (#[trigger] defs[a]).description == k;
            assert(defs.contains(defs[a]));
            lemma_source_defs_contains(files, defs[a]);
            let f = choose|f: SourceFile| #[trigger] files.contains(f) && file_defs(f).contains(defs[a]);
            let b = choose|b: int| 0 <= b < file_defs(f).len() && file_defs(f)[b] == defs[a];
            if let Ok(fd) = f.parsed {
                assert(fd.commands@[b].description@.len() > 0);
            }
        }
    }
}

/// The accepted files of `files`, in order.
pub open spec fn accepted_only(files: Seq<SourceFile>) -> Seq<SourceFile> {
    files.filter(|f: SourceFile| accepted(f))
}

proof fn lemma_source_defs_accepted_only(files: Seq<SourceFile>)
    ensures
        source_defs(files) == source_defs(accepted_only(files)),
    decreases files.len(),
{
    if files.len() > 0 {
        let p = files.drop_last();
        lemma_source_defs_accepted_only(p);
        p.lemma_filter_push(files.last(), |f: SourceFile| accepted(f));
        assert(p.push(files.last()) =~= files);
        if accepted(files.last()) {
            let q = accepted_only(p).push(files.last());
            assert(q.drop_last() =~= accepted_only(p));
        } else {
            assert(file_defs(files.last()) =~= Seq::<DefModel>::empty());
            assert(source_defs(files) =~= source_defs(p));
        }
    } else {
        assert(accepted_only(files) =~= files) by {
            reveal(Seq::filter);
        }
    }
}

/// A malformed file (one that did not parse, or declares a snippet without
/// a description) never keeps the entries of other files from loading:
/// loading a directory gives what loading only its accepted files gives.
pub proof fn lemma_malformed_file_skipped(files: Seq<SourceFile>)
    ensures
        load_spec(files) == load_spec(accepted_only(files)),
{
    lemma_source_defs_accepted_only(files);
}

/// The same holds across directories: loading directories gives what
/// loading only their accepted files gives.
pub proof fn lemma_malformed_files_skipped(dirs: Seq<Vec<SourceFile>>, parsed: Seq<Vec<SourceFile>>)
    requires
        parsed.len() == dirs.len(),
        forall|d: int| 0 <= d < dirs.len() ==> (#[trigger] parsed[d])@ == accepted_only(dirs[d]@),
    ensures
        load_dirs_spec(dirs) == load_dirs_spec(parsed),
    decreases dirs.len(),
{
    if dirs.len() > 0 {
        let d = dirs.len() - 1;
        assert(parsed[d]@ == accepted_only(dirs[d]@));
        lemma_source_defs_accepted_only(dirs[d]@);
        lemma_malformed_files_skipped(dirs.drop_last(), parsed.drop_last());
    }
}

/// In a strictly sorted `s`, a text below `s[p]` is below every later element.
proof fn lemma_text_lt_transitive_from(s: Seq<CommandDef>, p: int, i: int, k: Seq<char>)
    requires
        strictly_sorted(s),
        0 <= p <= i < s.len(),
        text_lt(k, s[p].description@),
    ensures
        text_lt(k, s[i].description@),
{
    if i > p {
        lemma_text_lt_transitive(k, s[p].description@, s[i].description@);
    }
}

} // verus!
