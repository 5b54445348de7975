//! A model of the dependency tables of a manifest, as far as setting a
//! dependency's version reads and changes them.

use crate::text::same_text;
use vstd::prelude::*;
use vstd::string::*;

verus! {

/// A value under a key of an inline table.
#[derive(Debug)]
pub enum TableValue {
    /// A string.
    Text(String),
    /// A boolean.
    Flag(bool),
    /// Anything else, as it is written in the manifest.
    Raw(String),
}

/// What a dependency table says of one dependency.
#[derive(Debug)]
pub enum DepEntry {
    /// A bare version, as in `foo = "0.1.0"`.
    Version(String),
    /// A table, written inline as in `foo = { version = "0.1.0" }` or under
    /// a header of its own as in `[dependencies.foo]`: its keys with their
    /// values, in order.
    Table(Vec<(String, TableValue)>),
    /// Any other form, such as an array. It is never changed.
    Other,
}

/// The mathematical value of a `TableValue`.
pub enum ValueModel {
    Text(Seq<char>),
    Flag(bool),
    Raw(Seq<char>),
}

/// The mathematical value of a `DepEntry`.
pub enum EntryModel {
    Version(Seq<char>),
    Table(Seq<(Seq<char>, ValueModel)>),
    Other,
}

impl View for TableValue {
    type V = ValueModel;

    open spec fn view(&self) -> ValueModel {
        match self {
            TableValue::Text(s) => ValueModel::Text(s@),
            TableValue::Flag(b) => ValueModel::Flag(*b),
            TableValue::Raw(s) => ValueModel::Raw(s@),
        }
    }
}

/// The keys and values of an inline table.
pub open spec fn table_model(pairs: Seq<(String, TableValue)>) -> Seq<(Seq<char>, ValueModel)> {
    Seq::new(pairs.len(), |i: int| (pairs[i].0@, pairs[i].1@))
}

impl View for DepEntry {
    type V = EntryModel;

    open spec fn view(&self) -> EntryModel {
        match self {
            DepEntry::Version(s) => EntryModel::Version(s@),
            DepEntry::Table(pairs) => EntryModel::Table(table_model(pairs@)),
            DepEntry::Other => EntryModel::Other,
        }
    }
}

/// The characters of the key `version`.
pub open spec fn version_key() -> Seq<char> {
    seq!['v', 'e', 'r', 's', 'i', 'o', 'n']
}

/// The table has a key `version`.
pub open spec fn has_version_key(table: Seq<(Seq<char>, ValueModel)>) -> bool {
    exists|i: int| 0 <= i < table.len() && (#[trigger] table[i]).0 == version_key()
}

/// The table with the string `version` under every key `version`, all else as
/// it was.
pub open spec fn table_with_version(table: Seq<(Seq<char>, ValueModel)>, version: Seq<char>) -> Seq<
    (Seq<char>, ValueModel),
> {
    Seq::new(
        table.len(),
        |i: int|
            if table[i].0 == version_key() {
                (table[i].0, ValueModel::Text(version))
            } else {
                table[i]
            },
    )
}

impl EntryModel {
    /// The entry after its version was set to `version`: a bare version is
    /// replaced, a table gets the version under its key `version` if
    /// it has that key, and every other entry stays as it is.
    pub open spec fn with_version(self, version: Seq<char>) -> EntryModel {
        match self {
            EntryModel::Version(_) => EntryModel::Version(version),
            EntryModel::Table(table) => EntryModel::Table(table_with_version(table, version)),
            EntryModel::Other => EntryModel::Other,
        }
    }

    /// Setting the version writes something: the entry is a bare version, or
    /// a table with a key `version`.
    pub open spec fn takes_version(self) -> bool {
        match self {
            EntryModel::Version(_) => true,
            EntryModel::Table(table) => has_version_key(table),
            EntryModel::Other => false,
        }
    }
}

/// Setting a version a second time changes nothing.
pub proof fn lemma_set_version_idempotent(entry: EntryModel, version: Seq<char>)
    ensures
        entry.with_version(version).with_version(version) == entry.with_version(version),
        entry.with_version(version).takes_version() == entry.takes_version(),
{
    match entry {
        EntryModel::Table(table) => {
            let once = table_with_version(table, version);
            let twice = table_with_version(once, version);
            assert(twice =~= once);
            if has_version_key(table) {
                let i = choose|i: int| 0 <= i < table.len() && (#[trigger] table[i]).0 == version_key();
                assert(once[i].0 == version_key());
            }
            if has_version_key(once) {
                let i = choose|i: int| 0 <= i < once.len() && (#[trigger] once[i]).0 == version_key();
                assert(table[i].0 == version_key());
            }
        },
        _ => {},
    }
}

/// Setting the version of an inline table keeps the keys in their places and
/// the value under every key but `version`.
pub proof fn lemma_set_version_keeps_other_keys(table: Seq<(Seq<char>, ValueModel)>, version: Seq<char>, i: int)
    requires
        0 <= i < table.len(),
    ensures
        EntryModel::Table(table).with_version(version) matches EntryModel::Table(after) && after.len()
            == table.len() && after[i].0 == table[i].0 && (table[i].0 != version_key() ==> after[i] == table[i])
            && (table[i].0 == version_key() ==> after[i].1 == ValueModel::Text(version)),
{
}

impl DepEntry {
    /// Sets the version of this dependency to `version`, where the entry has
    /// a place for it, and tells whether it wrote anything.
    pub fn set_version(&mut self, version: &str) -> (changed: bool)
        ensures
            final(self)@ == old(self)@.with_version(version@),
            changed == old(self)@.takes_version(),
    {
        proof {
            reveal_strlit("version");
            assert("version"@ =~= version_key());
        }
        match self {
            DepEntry::Version(s) => {
                *s = version.to_owned();
                true
            },
            DepEntry::Table(pairs) => {
                let ghost before = table_model(pairs@);
                let mut changed = false;
                let mut i: usize = 0;
                while i < pairs.len()
                    invariant
                        i <= pairs.len(),
                        pairs.len() == before.len(),
                        "version"@ == version_key(),
                        forall|k: int| 0 <= k < i ==> (#[trigger] table_model(pairs@)[k]) == table_with_version(before, version@)[k],
                        forall|k: int| i <= k < pairs.len() ==> (#[trigger] table_model(pairs@)[k]) == before[k],
                        changed <==> exists|k: int| 0 <= k < i && (#[trigger] before[k]).0 == version_key(),
                    decreases pairs.len() - i,
                {
                    let ghost now = table_model(pairs@);
                    assert(now[i as int] == before[i as int]);
                    if same_text(pairs[i].0.as_str(), "version") {
                        let ghost prev = pairs@;
                        pairs[i].1 = TableValue::Text(version.to_owned());
                        changed = true;
                        proof {
                            assert forall|k: int| 0 <= k < pairs.len() && k != i implies (#[trigger] table_model(pairs@)[k])
                                == now[k] by {
                                assert(pairs@[k] == prev[k]);
                            }
                            assert(pairs@[i as int].0 == prev[i as int].0);
                            assert(before[i as int].0 == version_key());
                        }
                    }
                    proof {
                        assert forall|k: int| 0 <= k < i + 1 implies (#[trigger] table_model(pairs@)[k])
                            == table_with_version(before, version@)[k] by {
                            if k < i {
                                assert(now[k] == table_with_version(before, version@)[k]);
                            }
                        }
                    }
                    i += 1;
                }
                assert(table_model(pairs@) =~= table_with_version(before, version@));
                changed
            },
            DepEntry::Other => false,
        }
    }
}

/// The names and entries of a dependency table.
pub open spec fn section_model(entries: Seq<(String, DepEntry)>) -> Seq<(Seq<char>, EntryModel)> {
    Seq::new(entries.len(), |i: int| (entries[i].0@, entries[i].1@))
}

/// The table with the version of the dependency `dep` set to `version`.
pub open spec fn section_with_version(
    section: Seq<(Seq<char>, EntryModel)>,
    dep: Seq<char>,
    version: Seq<char>,
) -> Seq<(Seq<char>, EntryModel)> {
    Seq::new(
        section.len(),
        |i: int|
            if section[i].0 == dep {
                (section[i].0, section[i].1.with_version(version))
            } else {
                section[i]
            },
    )
}

/// The table has an entry for `dep` with a place for a version.
pub open spec fn section_takes_version(section: Seq<(Seq<char>, EntryModel)>, dep: Seq<char>) -> bool {
    exists|i: int| 0 <= i < section.len() && (#[trigger] section[i]).0 == dep && section[i].1.takes_version()
}

/// Setting a dependency's version in a table a second time changes nothing,
/// and no entry of another dependency is ever touched.
pub proof fn lemma_section_update_idempotent(
    section: Seq<(Seq<char>, EntryModel)>,
    dep: Seq<char>,
    version: Seq<char>,
)
    ensures
        section_with_version(section_with_version(section, dep, version), dep, version) == section_with_version(
            section,
            dep,
            version,
        ),
        forall|i: int|
            0 <= i < section.len() && (#[trigger] section[i]).0 != dep ==> section_with_version(
                section,
                dep,
                version,
            )[i] == section[i],
{
    let once = section_with_version(section, dep, version);
    let twice = section_with_version(once, dep, version);
    assert forall|i: int| 0 <= i < once.len() implies twice[i] == once[i] by {
        lemma_set_version_idempotent(section[i].1, version);
    }
    assert(twice =~= once);
}

/// Sets the version of the dependency `dep` in a dependency table and tells
/// whether it wrote anything.
pub fn update_section(entries: &mut Vec<(String, DepEntry)>, dep: &str, version: &str) -> (changed: bool)
    ensures
        section_model(final(entries)@) == section_with_version(section_model(old(entries)@), dep@, version@),
        changed == section_takes_version(section_model(old(entries)@), dep@),
{
    let ghost before = section_model(entries@);
    let ghost goal = section_with_version(before, dep@, version@);
    let mut changed = false;
    let mut i: usize = 0;
    while i < entries.len()
        invariant
            i <= entries.len(),
            entries.len() == before.len(),
            goal == section_with_version(before, dep@, version@),
            forall|k: int| 0 <= k < i ==> (#[trigger] section_model(entries@)[k]) == goal[k],
            forall|k: int| i <= k < entries.len() ==> (#[trigger] section_model(entries@)[k]) == before[k],
            changed <==> exists|k: int| 0 <= k < i && (#[trigger] before[k]).0 == dep@ && before[k].1.takes_version(),
        decreases entries.len() - i,
    {
        let ghost now = section_model(entries@);
        assert(now[i as int] == before[i as int]);
        if same_text(entries[i].0.as_str(), dep) {
            let ghost prev = entries@;
            let wrote = entries[i].1.set_version(version);
            if wrote {
                changed = true;
            }
            proof {
                assert forall|k: int| 0 <= k < entries.len() && k != i implies (#[trigger] section_model(entries@)[k])
                    == now[k] by {
                    assert(entries@[k] == prev[k]);
                }
                assert(entries@[i as int].0 == prev[i as int].0);
            }
        }
        proof {
            assert forall|k: int| 0 <= k < i + 1 implies (#[trigger] section_model(entries@)[k]) == goal[k] by {
                if k < i {
                    assert(now[k] == goal[k]);
                }
            }
        }
        i += 1;
    }
    assert(section_model(entries@) =~= goal);
    changed
}

/// The three dependency tables of a manifest; a table that the manifest does
/// not have is `None`.
#[derive(Debug)]
pub struct ManifestDeps {
    pub dependencies: Option<Vec<(String, DepEntry)>>,
    pub dev_dependencies: Option<Vec<(String, DepEntry)>>,
    pub build_dependencies: Option<Vec<(String, DepEntry)>>,
}

/// The entries of a table that may be missing.
pub open spec fn table_or_empty(table: Option<Vec<(String, DepEntry)>>) -> Seq<(Seq<char>, EntryModel)> {
    match table {
        Some(entries) => section_model(entries@),
        None => Seq::empty(),
    }
}

fn update_optional(table: &mut Option<Vec<(String, DepEntry)>>, dep: &str, version: &str) -> (changed: bool)
    ensures
        (*final(table) is Some) == (*old(table) is Some),
        table_or_empty(*final(table)) == section_with_version(table_or_empty(*old(table)), dep@, version@),
        changed == section_takes_version(table_or_empty(*old(table)), dep@),
{
    match table {
        Some(entries) => update_section(entries, dep, version),
        None => {
            assert(section_with_version(Seq::empty(), dep@, version@) =~= Seq::empty());
            false
        },
    }
}

/// Sets the version of the dependency `dep` wherever one of the three tables
/// of `manifest` has a place for it, and tells whether anything was written:
/// only then does the manifest have to be stored again.
pub fn update_deps(manifest: &mut ManifestDeps, dep: &str, version: &str) -> (changed: bool)
    ensures
        (final(manifest).dependencies is Some) == (old(manifest).dependencies is Some),
        (final(manifest).dev_dependencies is Some) == (old(manifest).dev_dependencies is Some),
        (final(manifest).build_dependencies is Some) == (old(manifest).build_dependencies is Some),
        table_or_empty(final(manifest).dependencies) == section_with_version(
            table_or_empty(old(manifest).dependencies),
            dep@,
            version@,
        ),
        table_or_empty(final(manifest).dev_dependencies) == section_with_version(
            table_or_empty(old(manifest).dev_dependencies),
            dep@,
            version@,
        ),
        table_or_empty(final(manifest).build_dependencies) == section_with_version(
            table_or_empty(old(manifest).build_dependencies),
            dep@,
            version@,
        ),
        changed == (section_takes_version(table_or_empty(old(manifest).dependencies), dep@)
            || section_takes_version(table_or_empty(old(manifest).dev_dependencies), dep@)
            || section_takes_version(table_or_empty(old(manifest).build_dependencies), dep@)),
{
    let a = update_optional(&mut manifest.dependencies, dep, version);
    let b = update_optional(&mut manifest.dev_dependencies, dep, version);
    let c = update_optional(&mut manifest.build_dependencies, dep, version);
    a || b || c
}

} // verus!
