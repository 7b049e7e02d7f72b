//! The filter stage: which files stay candidates.

use crate::file::{referents, FileRecord};
use crate::path::{extension, extension_of, text_view, texts_of};
use crate::sequences::{lemma_filter_member, lemma_filter_push};
use regex::Regex;
use vstd::prelude::*;

verus! {

/// Whether `regex::Regex::new` accepts `pattern`.
pub uninterp spec fn pattern_compiles(pattern: Seq<char>) -> bool;

/// Whether the regular expression that `regex::Regex::new` builds from
/// `pattern` has a match anywhere in `text`, as `regex::Regex::is_match`
/// reports it.
pub uninterp spec fn pattern_matches(pattern: Seq<char>, text: Seq<char>) -> bool;

/// The bounds and patterns that a file has to meet to stay a candidate.
///
/// `regex` is the source text of a regular expression that the path has to
/// match somewhere; `allowed_extensions` lists the extensions that a path may
/// have. Either may be absent, and then asks nothing.
#[derive(Clone, Debug)]
pub struct FilterConfig {
    pub min_size: u64,
    pub max_size: u64,
    pub regex: Option<String>,
    pub allowed_extensions: Option<Vec<String>>,
}

/// Why a configuration cannot be used.
#[derive(Clone, Copy, Debug, PartialEq, Eq, Structural)]
pub enum ConfigError {
    /// The upper size bound lies below the lower one.
    InvertedBounds,
    /// The pattern is no regular expression.
    InvalidPattern,
}

/// What a configuration asks, as plain mathematics. The extensions form a
/// set: how often and where one is listed does not matter.
pub struct FilterView {
    pub min_size: nat,
    pub max_size: nat,
    pub pattern: Option<Seq<char>>,
    pub extensions: Option<Set<Seq<char>>>,
}

impl FilterView {
    /// The size is known and lies within the bounds, both inclusive.
    pub open spec fn size_allowed(&self, size: Option<u64>) -> bool {
        size matches Some(s) && self.min_size <= s <= self.max_size
    }

    /// No pattern is set, or the pattern is a regular expression that
    /// matches the path.
    pub open spec fn path_allowed(&self, path: Seq<char>) -> bool {
        self.pattern matches Some(p) ==> pattern_compiles(p) && pattern_matches(p, path)
    }

    /// No extension set is given, or the path has an extension and the set
    /// holds exactly that extension.
    pub open spec fn extension_allowed(&self, path: Seq<char>) -> bool {
        self.extensions matches Some(allowed) ==> (extension_of(path) matches Some(e)
            && allowed.contains(e))
    }

    /// The filter keeps `file`.
    pub open spec fn retains(&self, file: FileRecord) -> bool {
        &&& self.size_allowed(file.size)
        &&& self.path_allowed(file.path@)
        &&& self.extension_allowed(file.path@)
    }

    /// The bounds are in order and the pattern, if any, is a regular expression.
    pub open spec fn valid(&self) -> bool {
        &&& self.min_size <= self.max_size
        &&& (self.pattern matches Some(p) ==> pattern_compiles(p))
    }
}

/// The test that `filter` keeps a file.
pub open spec fn kept_by(filter: FilterView) -> spec_fn(FileRecord) -> bool {
    |f: FileRecord| filter.retains(f)
}

impl View for FilterConfig {
    type V = FilterView;

    open spec fn view(&self) -> FilterView {
        FilterView {
            min_size: self.min_size as nat,
            max_size: self.max_size as nat,
            pattern: text_view(self.regex),
            extensions: match self.allowed_extensions {
                Some(exts) => Some(texts_of(exts@).to_set()),
                None => None,
            },
        }
    }
}

impl FilterConfig {
    /// Reports what is wrong with the configuration, the bounds first.
    pub fn validate(&self) -> (outcome: Result<(), ConfigError>)
        ensures
            outcome is Ok <==> self@.valid(),
            outcome == Err::<(), ConfigError>(ConfigError::InvertedBounds) <==> self.min_size
                > self.max_size,
    {
        if self.min_size > self.max_size {
            return Err(ConfigError::InvertedBounds);
        }
        match &self.regex {
            Some(p) => {
                if match_pattern(p.as_str(), "").is_none() {
                    return Err(ConfigError::InvalidPattern);
                }
            },
            None => {},
        }
        Ok(())
    }

    /// Whether the filter keeps `file`. The cheap tests come first: the
    /// size, then the extension, and the pattern last.
    pub fn accepts(&self, file: &FileRecord) -> (keep: bool)
        ensures
            keep == self@.retains(*file),
    {
        match file.size {
            Some(size) => {
                if size < self.min_size || size > self.max_size {
                    return false;
                }
            },
            None => {
                return false;
            },
        }
        match &self.allowed_extensions {
            Some(exts) => {
                match extension(file.path.as_str()) {
                    Some(ext) => {
                        if !listed(exts, &ext) {
                            return false;
                        }
                    },
                    None => {
                        return false;
                    },
                }
            },
            None => {},
        }
        match &self.regex {
            Some(p) => match_pattern(p.as_str(), file.path.as_str()) == Some(true),
            None => true,
        }
    }
}

/// Compiles `pattern` with `regex::Regex::new` and, where that succeeds,
/// searches `text` with `regex::Regex::is_match`. The result is `None` exactly
/// when the pattern is refused, and otherwise tells whether a match exists.
///
/// Taken on trust: that both depend on the pattern and the text alone. What
/// a pattern means is left to the regex engine: `pattern_compiles` and
/// `pattern_matches` only give its answers a name.
#[verifier::external_body]
fn match_pattern(pattern: &str, text: &str) -> (verdict: Option<bool>)
    ensures
        verdict == (if pattern_compiles(pattern@) {
            Some(pattern_matches(pattern@, text@))
        } else {
            None
        }),
{
    match Regex::new(pattern) {
        Ok(re) => Some(re.is_match(text)),
        Err(_) => None,
    }
}

/// Whether `items` holds `wanted`, compared character by character.
fn listed(items: &Vec<String>, wanted: &String) -> (found: bool)
    ensures
        found == texts_of(items@).contains(wanted@),
{
    let mut i: usize = 0;
    while i < items.len()
        invariant
            i <= items.len(),
            forall|k: int| 0 <= k < i ==> items[k]@ != wanted@,
        decreases items.len() - i,
    {
        if items[i] == *wanted {
            assert(texts_of(items@)[i as int] == wanted@);
            return true;
        }
        i += 1;
    }
    false
}

/// Keeps the files that the configuration retains, in their order.
///
/// A file stays if and only if its size is known and within the bounds, the
/// pattern (if set) matches its path, and its extension (if a list is set) is
/// in the list.
pub fn filter_files<'a>(files: &'a Vec<FileRecord>, config: &FilterConfig) -> (kept: Vec<
    &'a FileRecord,
>)
    ensures
        referents(kept@) == files@.filter(kept_by(config@)),
{
    let mut kept: Vec<&'a FileRecord> = Vec::new();
    let ghost keep = kept_by(config@);
    let mut i: usize = 0;
    while i < files.len()
        invariant
            i <= files.len(),
            keep == kept_by(config@),
            referents(kept@) == files@.take(i as int).filter(keep),
        decreases files.len() - i,
    {
        let file = &files[i];
        let ghost before = files@.take(i as int);
        let ghost kept_before = kept@;
        proof {
            assert(files@.take(i + 1) == before.push(*file));
            lemma_filter_push(before, *file, keep);
        }
        if config.accepts(file) {
            kept.push(file);
            assert(referents(kept@) == referents(kept_before).push(*file));
        }
        i += 1;
    }
    assert(files@.take(files.len() as int) == files@);
    kept
}

/// A file is among those that a filter keeps of `files` exactly when it is
/// among `files`, its size is known and within the bounds, the pattern (if
/// set) matches its path, and its extension (if a set is given) is in the set.
pub proof fn lemma_kept_exactly(files: Seq<FileRecord>, filter: FilterView, file: FileRecord)
    ensures
        files.filter(kept_by(filter)).contains(file) <==> {
            &&& files.contains(file)
            &&& filter.size_allowed(file.size)
            &&& filter.path_allowed(file.path@)
            &&& filter.extension_allowed(file.path@)
        },
{
    lemma_filter_member(files, kept_by(filter));
}

} // verus!
