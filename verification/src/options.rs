//! The settings of a check.

use vstd::prelude::*;
use crate::table::Table;
use crate::words::WordSet;

verus! {

/// Number of characters above which a chunk is finished, unless another
/// number is set.
pub const DEFAULT_CHUNK_SIZE: usize = 1000;

/// Which checker to use.
#[derive(Clone, Debug, PartialEq, Eq)]
pub enum BackendOptions {
    /// The checker that comes with the program.
    Bundle,
    /// A checker in an archive at the given place.
    Jar { jar_location: String },
    /// A checker that runs as a server.
    Remote { host: String, port: String },
}

/// Mathematical counterpart of [`BackendOptions`].
pub ghost enum BackendView {
    Bundle,
    Jar { jar_location: Seq<char> },
    Remote { host: Seq<char>, port: Seq<char> },
}

impl View for BackendOptions {
    type V = BackendView;

    open spec fn view(&self) -> BackendView {
        match self {
            BackendOptions::Bundle => BackendView::Bundle,
            BackendOptions::Jar { jar_location } => BackendView::Jar {
                jar_location: jar_location@,
            },
            BackendOptions::Remote { host, port } => BackendView::Remote {
                host: host@,
                port: port@,
            },
        }
    }
}

/// The settings of a check.
#[derive(Debug)]
pub struct LanguageToolOptions {
    /// Root of the project.
    pub root: Option<String>,
    /// Main file of the project.
    pub main: Option<String>,
    /// Number of characters above which a chunk is finished.
    pub chunk_size: usize,
    /// Which checker to use.
    pub backend: Option<BackendOptions>,
    /// Long language codes by short code.
    pub languages: Table<String>,
    /// Words that the spelling check accepts, by language.
    pub dictionary: Table<Vec<String>>,
    /// Rules that are switched off, by language.
    pub disabled_checks: Table<Vec<String>>,
    /// Functions whose calls are not reported on.
    pub ignore_functions: WordSet,
}

/// The text of `value`, if there is one.
pub open spec fn text_of(value: Option<String>) -> Option<Seq<char>> {
    match value {
        Some(text) => Some(text@),
        None => None,
    }
}

/// The view of `value`, if there is one.
pub open spec fn backend_of(value: Option<BackendOptions>) -> Option<BackendView> {
    match value {
        Some(backend) => Some(backend@),
        None => None,
    }
}

/// Mathematical counterpart of [`LanguageToolOptions`].
pub ghost struct OptionsView {
    pub root: Option<Seq<char>>,
    pub main: Option<Seq<char>>,
    pub chunk_size: usize,
    pub backend: Option<BackendView>,
    pub languages: Map<Seq<char>, String>,
    pub dictionary: Map<Seq<char>, Vec<String>>,
    pub disabled_checks: Map<Seq<char>, Vec<String>>,
    pub ignore_functions: Set<Seq<char>>,
}

impl View for LanguageToolOptions {
    type V = OptionsView;

    open spec fn view(&self) -> OptionsView {
        OptionsView {
            root: text_of(self.root),
            main: text_of(self.main),
            chunk_size: self.chunk_size,
            backend: backend_of(self.backend),
            languages: self.languages@,
            dictionary: self.dictionary@,
            disabled_checks: self.disabled_checks@,
            ignore_functions: self.ignore_functions@,
        }
    }
}

/// `first` if it holds a value, else `second`.
pub open spec fn first_of<T>(first: Option<T>, second: Option<T>) -> Option<T> {
    if first is Some {
        first
    } else {
        second
    }
}

impl OptionsView {
    /// The settings that hold unless others are given: chunks of a
    /// thousand characters, no checker, and no reports on calls of
    /// `lorem`, `bibliography` and `cite`.
    pub open spec fn initial() -> OptionsView {
        OptionsView {
            root: None,
            main: None,
            chunk_size: DEFAULT_CHUNK_SIZE,
            backend: None,
            languages: Map::empty(),
            dictionary: Map::empty(),
            disabled_checks: Map::empty(),
            ignore_functions: Set::empty().insert("lorem"@).insert("bibliography"@).insert(
                "cite"@,
            ),
        }
    }

    /// These settings with `other` laid over them: what `other` sets
    /// counts, the tables and the ignored functions are joined, and a
    /// chunk size of `other` that is the usual one leaves the chunk size
    /// as it is.
    pub open spec fn overwritten(self, other: OptionsView) -> OptionsView {
        OptionsView {
            root: first_of(other.root, self.root),
            main: first_of(other.main, self.main),
            chunk_size: if other.chunk_size == DEFAULT_CHUNK_SIZE {
                self.chunk_size
            } else {
                other.chunk_size
            },
            backend: first_of(other.backend, self.backend),
            languages: self.languages.union_prefer_right(other.languages),
            dictionary: self.dictionary.union_prefer_right(other.dictionary),
            disabled_checks: self.disabled_checks.union_prefer_right(other.disabled_checks),
            ignore_functions: self.ignore_functions.union(other.ignore_functions),
        }
    }
}

impl Default for LanguageToolOptions {
    fn default() -> (options: LanguageToolOptions)
        ensures
            options@ == OptionsView::initial(),
    {
        let mut ignore_functions = WordSet::new();
        ignore_functions.insert("lorem".to_owned());
        ignore_functions.insert("bibliography".to_owned());
        ignore_functions.insert("cite".to_owned());
        LanguageToolOptions {
            root: None,
            main: None,
            chunk_size: DEFAULT_CHUNK_SIZE,
            backend: None,
            languages: Table::new(),
            dictionary: Table::new(),
            disabled_checks: Table::new(),
            ignore_functions,
        }
    }
}

impl LanguageToolOptions {
    /// These settings with `other` laid over them.
    pub fn overwrite(self, other: LanguageToolOptions) -> (merged: LanguageToolOptions)
        ensures
            merged@ == self@.overwritten(other@),
    {
        let mut base = self;
        base.dictionary.extend(other.dictionary);
        base.disabled_checks.extend(other.disabled_checks);
        base.languages.extend(other.languages);
        base.ignore_functions.extend(other.ignore_functions);
        LanguageToolOptions {
            root: match other.root {
                Some(root) => Some(root),
                None => base.root,
            },
            main: match other.main {
                Some(main) => Some(main),
                None => base.main,
            },
            chunk_size: if other.chunk_size == DEFAULT_CHUNK_SIZE {
                base.chunk_size
            } else {
                other.chunk_size
            },
            backend: match other.backend {
                Some(backend) => Some(backend),
                None => base.backend,
            },
            languages: base.languages,
            dictionary: base.dictionary,
            disabled_checks: base.disabled_checks,
            ignore_functions: base.ignore_functions,
        }
    }
}

} // verus!
