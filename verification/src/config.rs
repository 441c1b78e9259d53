//! Workspace and module configuration, as read from `tyto.yaml` and from the
//! `<module>.yaml` file of each module.

use vstd::prelude::*;

verus! {

/// The global configuration of a workspace.
#[derive(Debug, Clone)]
pub struct GlobalConfig {
    pub workspace_dir: String,
    /// Formatter command per target language.
    pub formatters: Option<Vec<(String, String)>>,
}

/// The configuration of one module.
#[derive(Debug, Clone)]
pub struct LocalConfig {
    pub source: String,
    /// Output settings per target language, one entry per language; the order
    /// is whatever order the entries were read in, which carries no meaning.
    pub targets: Vec<(String, TargetConfig)>,
}

/// Output settings of one target language.
#[derive(Debug, Clone)]
pub struct TargetConfig {
    pub out_dir: String,
}

/// No key occurs twice among the entries, as in the map that the file describes.
pub open spec fn keys_distinct<V>(entries: Seq<(String, V)>) -> bool {
    forall|i: int, j: int|
        0 <= i < j < entries.len() ==> (#[trigger] entries[i]).0@ != (#[trigger] entries[j]).0@
}

impl GlobalConfig {
    /// Each language has at most one formatter.
    pub open spec fn well_formed(&self) -> bool {
        match self.formatters {
            Some(fs) => keys_distinct(fs@),
            None => true,
        }
    }
}

impl LocalConfig {
    /// Each language has at most one target entry.
    pub open spec fn well_formed(&self) -> bool {
        keys_distinct(self.targets@)
    }
}

/// The index of the first entry keyed `key`.
pub open spec fn first_key<V>(entries: Seq<(String, V)>, key: Seq<char>) -> Option<int>
    decreases entries.len(),
{
    if entries.len() == 0 {
        None
    } else if entries[0].0@ == key {
        Some(0)
    } else {
        match first_key(entries.drop_first(), key) {
            Some(i) => Some(i + 1),
            None => None,
        }
    }
}

pub(crate) proof fn lemma_first_key<V>(entries: Seq<(String, V)>, key: Seq<char>)
    ensures
        match first_key(entries, key) {
            Some(i) => 0 <= i < entries.len() && entries[i].0@ == key && forall|k: int|
                0 <= k < i ==> (#[trigger] entries[k]).0@ != key,
            None => forall|k: int| 0 <= k < entries.len() ==> (#[trigger] entries[k]).0@ != key,
        },
    decreases entries.len(),
{
    if entries.len() > 0 && entries[0].0@ != key {
        lemma_first_key(entries.drop_first(), key);
        assert forall|k: int| 0 < k < entries.len() implies entries[k] == entries.drop_first()[k - 1] by {}
    }
}

/// The index of the first entry keyed `key`, found by scanning.
fn find_key<V>(entries: &Vec<(String, V)>, key: &str) -> (r: Option<usize>)
    ensures
        match r {
            Some(i) => first_key(entries@, key@) == Some(i as int),
            None => first_key(entries@, key@) is None,
        },
{
    let wanted = key.to_owned();
    let mut i: usize = 0;
    while i < entries.len()
        invariant
            0 <= i <= entries@.len(),
            wanted@ == key@,
            forall|k: int| 0 <= k < i ==> (#[trigger] entries@[k]).0@ != key@,
        decreases entries@.len() - i,
    {
        if entries[i].0 == wanted {
            proof { lemma_first_key(entries@, key@); }
            return Some(i);
        }
        i = i + 1;
    }
    proof { lemma_first_key(entries@, key@); }
    None
}

impl LocalConfig {
    /// The output settings for a target language.
    pub fn target(&self, lang: &str) -> (r: Option<&TargetConfig>)
        ensures
            match first_key(self.targets@, lang@) {
                Some(i) => r == Some(&self.targets@[i].1),
                None => r is None,
            },
            self.well_formed() ==> forall|i: int|
                0 <= i < self.targets@.len() && (#[trigger] self.targets@[i]).0@ == lang@ ==> r
                    == Some(&self.targets@[i].1),
    {
        proof { lemma_first_key(self.targets@, lang@); }
        match find_key(&self.targets, lang) {
            Some(i) => Some(&self.targets[i].1),
            None => None,
        }
    }
}

/// The formatter command configured for a target language.
pub fn formatter_for<'a>(formatters: &'a Option<Vec<(String, String)>>, lang: &str) -> (r: Option<
    &'a String,
>)
    ensures
        match formatters {
            Some(fs) => match first_key(fs@, lang@) {
                Some(i) => r == Some(&fs@[i].1),
                None => r is None,
            },
            None => r is None,
        },
{
    match formatters {
        Some(fs) => match find_key(fs, lang) {
            Some(i) => {
                proof { lemma_first_key(fs@, lang@); }
                Some(&fs[i].1)
            },
            None => None,
        },
        None => None,
    }
}

impl GlobalConfig {
    /// The formatter command for a target language.
    pub fn formatter(&self, lang: &str) -> (r: Option<&String>)
        ensures
            match self.formatters {
                Some(fs) => match first_key(fs@, lang@) {
                    Some(i) => r == Some(&fs@[i].1),
                    None => r is None,
                },
                None => r is None,
            },
            self.well_formed() ==> match self.formatters {
                Some(fs) => forall|i: int|
                    0 <= i < fs@.len() && (#[trigger] fs@[i]).0@ == lang@ ==> r == Some(&fs@[i].1),
                None => true,
            },
    {
        proof {
            if let Some(fs) = &self.formatters {
                lemma_first_key(fs@, lang@);
            }
        }
        formatter_for(&self.formatters, lang)
    }
}

} // verus!
