//! Backend configuration: which storage backend to use, and the plain
//! key-value settings handed to it.
//!
//! The surrounding program does the reading and writing of configuration
//! files; this module owns the decisions: which backend a name selects,
//! what the default settings are, and where the state file lives.

use vstd::prelude::*;
use crate::text::str_eq;

verus! {

/// The storage backends a configuration can name.
#[derive(Debug, Clone, Copy, PartialEq, Eq, Structural)]
pub enum BackendKind {
    File,
}

/// One key-value setting.
#[derive(Debug, Clone, PartialEq)]
pub struct ConfigEntry {
    pub key: String,
    pub value: String,
}

/// Mathematical model of a [`ConfigEntry`].
pub struct ConfigEntryModel {
    pub key: Seq<char>,
    pub value: Seq<char>,
}

impl View for ConfigEntry {
    type V = ConfigEntryModel;

    open spec fn view(&self) -> ConfigEntryModel {
        ConfigEntryModel { key: self.key@, value: self.value@ }
    }
}

/// A backend's name and its settings.
#[derive(Debug, Clone, PartialEq)]
pub struct BackendConfig {
    pub name: String,
    pub config: Vec<ConfigEntry>,
}

/// Mathematical model of a [`BackendConfig`].
pub struct BackendConfigModel {
    pub name: Seq<char>,
    pub config: Seq<ConfigEntryModel>,
}

impl View for BackendConfig {
    type V = BackendConfigModel;

    open spec fn view(&self) -> BackendConfigModel {
        BackendConfigModel {
            name: self.name@,
            config: self.config@.map_values(|e: ConfigEntry| e@),
        }
    }
}

/// First position of the entry keyed `key`, or the number of entries.
pub open spec fn find_key(s: Seq<ConfigEntryModel>, key: Seq<char>) -> int
    decreases s.len(),
{
    if s.len() == 0 {
        0
    } else if s[0].key == key {
        0
    } else {
        1 + find_key(s.skip(1), key)
    }
}

/// The first hit of a scan for `key` is exactly `find_key`.
proof fn lemma_find_key_at(s: Seq<ConfigEntryModel>, key: Seq<char>, i: int)
    requires
        0 <= i <= s.len(),
        forall|k: int| 0 <= k < i ==> (#[trigger] s[k]).key != key,
        i < s.len() ==> s[i].key == key,
    ensures
        find_key(s, key) == i,
    decreases i,
{
    if i > 0 {
        lemma_find_key_at(s.skip(1), key, i - 1);
    }
}

impl BackendConfig {
    /// The default configuration: the file backend, with no settings yet.
    pub fn new() -> (r: BackendConfig)
        ensures
            r@.name == "file"@,
            r@.config == Seq::<ConfigEntryModel>::empty(),
    {
        let r = BackendConfig { name: String::from_str("file"), config: Vec::new() };
        proof {
            assert(r@.config =~= Seq::<ConfigEntryModel>::empty());
        }
        r
    }

    /// The backend this configuration selects. An unknown name falls back
    /// to the file backend.
    pub fn backend(&self) -> (r: BackendKind)
        ensures
            r == BackendKind::File,
    {
        if str_eq(self.name.as_str(), "file") {
            BackendKind::File
        } else {
            BackendKind::File
        }
    }

    /// The value stored under `key`, if any.
    pub fn lookup(&self, key: &str) -> (r: Option<&String>)
        ensures
            match r {
                Some(v) => find_key(self@.config, key@) < self@.config.len() && v@
                    == self@.config[find_key(self@.config, key@)].value,
                None => find_key(self@.config, key@) == self@.config.len(),
            },
    {
        let mut i: usize = 0;
        while i < self.config.len()
            invariant
                i <= self@.config.len(),
                forall|k: int| 0 <= k < i ==> (#[trigger] self@.config[k]).key != key@,
            decreases self@.config.len() - i,
    {
            if str_eq(self.config[i].key.as_str(), key) {
                proof {
                    lemma_find_key_at(self@.config, key@, i as int);
                }
                return Some(&self.config[i].value);
            }
            i = i + 1;
        }
        proof {
            lemma_find_key_at(self@.config, key@, self@.config.len() as int);
        }
        None
    }

    /// Fill in the default settings for the file backend: a missing `dir`
    /// entry becomes the given directory.
    pub fn init_default(&mut self, dir: &str)
        ensures
            find_key(old(self)@.config, "dir"@) < old(self)@.config.len() ==> final(self)@ == old(
                self,
            )@,
            find_key(old(self)@.config, "dir"@) == old(self)@.config.len() ==> final(self)@.name
                == old(self)@.name && final(self)@.config == old(self)@.config.push(
                ConfigEntryModel { key: "dir"@, value: dir@ },
            ),
    {
        match self.lookup("dir") {
            Some(_) => {},
            None => {
                let ghost before = self@.config;
                self.config.push(
                    ConfigEntry { key: String::from_str("dir"), value: dir.to_owned() },
                );
                proof {
                    assert(self@.config =~= before.push(
                        ConfigEntryModel { key: "dir"@, value: dir@ },
                    ));
                }
            },
        }
    }

    /// Prepare the settings the selected backend needs, given the default
    /// state directory.
    pub fn init(&mut self, dir: &str)
        ensures
            find_key(old(self)@.config, "dir"@) < old(self)@.config.len() ==> final(self)@ == old(
                self,
            )@,
            find_key(old(self)@.config, "dir"@) == old(self)@.config.len() ==> final(self)@.name
                == old(self)@.name && final(self)@.config == old(self)@.config.push(
                ConfigEntryModel { key: "dir"@, value: dir@ },
            ),
    {
        let kind = self.backend();
        match kind {
            BackendKind::File => self.init_default(dir),
        }
    }

    /// The path of the backend's state file: `state.json` under the
    /// configured directory, or nothing when no directory is configured.
    pub fn state_file(&self) -> (r: Option<String>)
        ensures
            match r {
                Some(p) => find_key(self@.config, "dir"@) < self@.config.len() && p@
                    == self@.config[find_key(self@.config, "dir"@)].value + "/state.json"@,
                None => find_key(self@.config, "dir"@) == self@.config.len(),
            },
    {
        match self.lookup("dir") {
            Some(dir) => Some(dir.clone().concat("/state.json")),
            None => None,
        }
    }
}

} // verus!
