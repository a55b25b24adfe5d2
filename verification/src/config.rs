//! Configuration (the contents of `product.json`). Every field missing from
//! the file falls back to its default, so a fresh install with no file still
//! works. Reading and parsing the file is the caller's business; this module
//! holds the values and the merge with the defaults.
use vstd::prelude::*;

verus! {

/// A read-only configuration snapshot.
#[derive(Debug)]
pub struct Config {
    dict_data_path: String,
    dict_sqlite_path: Option<String>,
    dict_seed_on_first_open: bool,
    history_max_entries: usize,
    notes_persist: bool,
    lookup_prefer_notes_over_dict: bool,
}

/// The default path of the dictionary's JSON seed file.
pub open spec fn default_data_path() -> Seq<char> {
    "./Dict/data/seed_en_cn.json"@
}

pub open spec fn opt_string_view(o: Option<String>) -> Option<Seq<char>> {
    match o {
        Some(s) => Some(s@),
        None => None,
    }
}

fn copy_string(s: &String) -> (r: String)
    ensures
        r@ == s@,
{
    s.clone()
}

impl Config {
    pub closed spec fn spec_dict_data_path(&self) -> Seq<char> {
        self.dict_data_path@
    }

    pub closed spec fn spec_dict_sqlite_path(&self) -> Option<Seq<char>> {
        opt_string_view(self.dict_sqlite_path)
    }

    pub closed spec fn spec_dict_seed_on_first_open(&self) -> bool {
        self.dict_seed_on_first_open
    }

    pub closed spec fn spec_history_max_entries(&self) -> usize {
        self.history_max_entries
    }

    pub closed spec fn spec_notes_persist(&self) -> bool {
        self.notes_persist
    }

    pub closed spec fn spec_lookup_prefer_notes_over_dict(&self) -> bool {
        self.lookup_prefer_notes_over_dict
    }

    /// The defaults: the repository's seed file, no explicit sqlite path,
    /// seeding on first open, 50 history entries, notes not persisted, notes
    /// preferred over the dictionary.
    pub fn defaults() -> (r: Self)
        ensures
            r.spec_dict_data_path() == default_data_path(),
            r.spec_dict_sqlite_path() is None,
            r.spec_dict_seed_on_first_open(),
            r.spec_history_max_entries() == 50,
            !r.spec_notes_persist(),
            r.spec_lookup_prefer_notes_over_dict(),
            config_view(r) == default_view(),
    {
        Config {
            dict_data_path: String::from_str("./Dict/data/seed_en_cn.json"),
            dict_sqlite_path: None,
            dict_seed_on_first_open: true,
            history_max_entries: 50,
            notes_persist: false,
            lookup_prefer_notes_over_dict: true,
        }
    }

    /// A copy of this configuration.
    pub fn duplicate(&self) -> (r: Self)
        ensures
            r.spec_dict_data_path() == self.spec_dict_data_path(),
            r.spec_dict_sqlite_path() == self.spec_dict_sqlite_path(),
            r.spec_dict_seed_on_first_open() == self.spec_dict_seed_on_first_open(),
            r.spec_history_max_entries() == self.spec_history_max_entries(),
            r.spec_notes_persist() == self.spec_notes_persist(),
            r.spec_lookup_prefer_notes_over_dict() == self.spec_lookup_prefer_notes_over_dict(),
    {
        Config {
            dict_data_path: copy_string(&self.dict_data_path),
            dict_sqlite_path: match &self.dict_sqlite_path {
                Some(p) => Some(copy_string(p)),
                None => None,
            },
            dict_seed_on_first_open: self.dict_seed_on_first_open,
            history_max_entries: self.history_max_entries,
            notes_persist: self.notes_persist,
            lookup_prefer_notes_over_dict: self.lookup_prefer_notes_over_dict,
        }
    }

    /// Path to the JSON seed file the dictionary loads from.
    pub fn dict_data_path(&self) -> (r: &str)
        ensures
            r@ == self.spec_dict_data_path(),
    {
        self.dict_data_path.as_str()
    }

    /// The explicit sqlite path, if any; without one, callers pick a
    /// platform-conventional location.
    pub fn dict_sqlite_path(&self) -> (r: Option<&str>)
        ensures
            match r {
                Some(p) => self.spec_dict_sqlite_path() == Some(p@),
                None => self.spec_dict_sqlite_path() is None,
            },
    {
        match &self.dict_sqlite_path {
            Some(p) => Some(p.as_str()),
            None => None,
        }
    }

    /// Whether the sqlite file is seeded on first open.
    pub fn dict_seed_on_first_open(&self) -> (r: bool)
        ensures
            r == self.spec_dict_seed_on_first_open(),
    {
        self.dict_seed_on_first_open
    }

    /// Capacity of the runtime history.
    pub fn history_max_entries(&self) -> (r: usize)
        ensures
            r == self.spec_history_max_entries(),
    {
        self.history_max_entries
    }

    /// Whether notes are persisted.
    pub fn notes_persist(&self) -> (r: bool)
        ensures
            r == self.spec_notes_persist(),
    {
        self.notes_persist
    }

    /// Whether a lookup checks the user's notes before the dictionary.
    pub fn lookup_prefer_notes_over_dict(&self) -> (r: bool)
        ensures
            r == self.spec_lookup_prefer_notes_over_dict(),
    {
        self.lookup_prefer_notes_over_dict
    }
}

/// The `dict` section of the file; every field optional.
#[derive(Debug, Default)]
pub struct RawDict {
    pub data_path: Option<String>,
    pub sqlite_path: Option<String>,
    pub seed_on_first_open: Option<bool>,
}

/// The `core.history` section.
#[derive(Debug, Default)]
pub struct RawHistory {
    pub max_entries: Option<usize>,
}

/// The `core.notes` section.
#[derive(Debug, Default)]
pub struct RawNotes {
    pub persist: Option<bool>,
}

/// The `core.lookup` section.
#[derive(Debug, Default)]
pub struct RawLookup {
    pub prefer_notes_over_dict: Option<bool>,
}

/// The `core` section.
#[derive(Debug, Default)]
pub struct RawCore {
    pub history: RawHistory,
    pub notes: RawNotes,
    pub lookup: RawLookup,
}

/// The file as read: each field present or missing.
#[derive(Debug, Default)]
pub struct RawConfig {
    pub dict: RawDict,
    pub core: RawCore,
}

/// A configuration as plain values.
pub struct ConfigView {
    pub dict_data_path: Seq<char>,
    pub dict_sqlite_path: Option<Seq<char>>,
    pub dict_seed_on_first_open: bool,
    pub history_max_entries: nat,
    pub notes_persist: bool,
    pub lookup_prefer_notes_over_dict: bool,
}

/// The plain values of a configuration.
pub open spec fn config_view(c: Config) -> ConfigView {
    ConfigView {
        dict_data_path: c.spec_dict_data_path(),
        dict_sqlite_path: c.spec_dict_sqlite_path(),
        dict_seed_on_first_open: c.spec_dict_seed_on_first_open(),
        history_max_entries: c.spec_history_max_entries() as nat,
        notes_persist: c.spec_notes_persist(),
        lookup_prefer_notes_over_dict: c.spec_lookup_prefer_notes_over_dict(),
    }
}

/// The defaults (see [`Config::defaults`]).
pub open spec fn default_view() -> ConfigView {
    ConfigView {
        dict_data_path: default_data_path(),
        dict_sqlite_path: None,
        dict_seed_on_first_open: true,
        history_max_entries: 50,
        notes_persist: false,
        lookup_prefer_notes_over_dict: true,
    }
}

/// The configuration a file gives: each field as read, or its default when
/// missing.
pub open spec fn merged_view(raw: RawConfig) -> ConfigView {
    let d = default_view();
    ConfigView {
        dict_data_path: match raw.dict.data_path {
            Some(p) => p@,
            None => d.dict_data_path,
        },
        dict_sqlite_path: match raw.dict.sqlite_path {
            Some(p) => Some(p@),
            None => d.dict_sqlite_path,
        },
        dict_seed_on_first_open: match raw.dict.seed_on_first_open {
            Some(b) => b,
            None => d.dict_seed_on_first_open,
        },
        history_max_entries: match raw.core.history.max_entries {
            Some(n) => n as nat,
            None => d.history_max_entries,
        },
        notes_persist: match raw.core.notes.persist {
            Some(b) => b,
            None => d.notes_persist,
        },
        lookup_prefer_notes_over_dict: match raw.core.lookup.prefer_notes_over_dict {
            Some(b) => b,
            None => d.lookup_prefer_notes_over_dict,
        },
    }
}

impl RawConfig {
    /// The configuration: each field read from the file, or its default when
    /// missing.
    pub fn into_config(self) -> (r: Config)
        ensures
            r.spec_dict_data_path() == match self.dict.data_path {
                Some(p) => p@,
                None => default_data_path(),
            },
            r.spec_dict_sqlite_path() == opt_string_view(self.dict.sqlite_path),
            r.spec_dict_seed_on_first_open() == match self.dict.seed_on_first_open {
                Some(b) => b,
                None => true,
            },
            r.spec_history_max_entries() == match self.core.history.max_entries {
                Some(n) => n,
                None => 50,
            },
            r.spec_notes_persist() == match self.core.notes.persist {
                Some(b) => b,
                None => false,
            },
            r.spec_lookup_prefer_notes_over_dict() == match self.core.lookup.prefer_notes_over_dict {
                Some(b) => b,
                None => true,
            },
            config_view(r) == merged_view(self),
    {
        let defaults = Config::defaults();
        Config {
            dict_data_path: match self.dict.data_path {
                Some(p) => p,
                None => defaults.dict_data_path,
            },
            dict_sqlite_path: match self.dict.sqlite_path {
                Some(p) => Some(p),
                None => defaults.dict_sqlite_path,
            },
            dict_seed_on_first_open: match self.dict.seed_on_first_open {
                Some(b) => b,
                None => defaults.dict_seed_on_first_open,
            },
            history_max_entries: match self.core.history.max_entries {
                Some(n) => n,
                None => defaults.history_max_entries,
            },
            notes_persist: match self.core.notes.persist {
                Some(b) => b,
                None => defaults.notes_persist,
            },
            lookup_prefer_notes_over_dict: match self.core.lookup.prefer_notes_over_dict {
                Some(b) => b,
                None => defaults.lookup_prefer_notes_over_dict,
            },
        }
    }
}

/// A file with no field at all gives exactly the defaults: the configuration
/// [`RawConfig::into_config`] makes of it is the one [`Config::defaults`]
/// makes.
pub proof fn law_empty_file_gives_defaults(raw: RawConfig)
    requires
        raw.dict.data_path is None,
        raw.dict.sqlite_path is None,
        raw.dict.seed_on_first_open is None,
        raw.core.history.max_entries is None,
        raw.core.notes.persist is None,
        raw.core.lookup.prefer_notes_over_dict is None,
    ensures
        merged_view(raw) == default_view(),
{
}

} // verus!
