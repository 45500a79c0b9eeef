//! The language registry and the detector that resolves a file path to a
//! language by its extension.

use vstd::prelude::*;
use vstd::hash_map::StringHashMap;
use crate::builtin::{
    c, cpp, css, go, html, java, javascript, python, ruby, rust, shell, sql, toml, typescript,
    with_builtin_languages, yaml,
};
use crate::language::{opt_text, Language, LanguageView};
use crate::path::{components, name_of};
use crate::text::matches_at;

verus! {

/// The mathematical value of a [`LanguageDetector`].
pub struct Registry {
    /// The registered languages by key.
    pub languages: Map<Seq<char>, LanguageView>,
    /// The key that each extension is linked to.
    pub extensions: Map<Seq<char>, Seq<char>>,
    /// The language key that each overridden extension is sent to.
    pub overrides: Map<Seq<char>, Seq<char>>,
}

impl Registry {
    /// The registry that holds nothing.
    pub open spec fn empty() -> Registry {
        Registry { languages: Map::empty(), extensions: Map::empty(), overrides: Map::empty() }
    }

    /// The registry after `language` was registered under `key`: the key
    /// holds the language, and every extension that the language declares is
    /// linked to the key. Links of other extensions stay as they are.
    pub open spec fn add_language(self, key: Seq<char>, language: LanguageView) -> Registry {
        Registry {
            languages: self.languages.insert(key, language),
            extensions: Map::new(
                |e: Seq<char>| language.extensions.contains(e) || self.extensions.contains_key(e),
                |e: Seq<char>|
                    if language.extensions.contains(e) {
                        key
                    } else {
                        self.extensions[e]
                    },
            ),
            overrides: self.overrides,
        }
    }

    /// The registry after `extension` was overridden to `language`.
    pub open spec fn add_override(self, extension: Seq<char>, language: Seq<char>) -> Registry {
        Registry {
            languages: self.languages,
            extensions: self.extensions,
            overrides: self.overrides.insert(extension, language),
        }
    }

    /// The registry after the entries from index `from` on were registered
    /// in order.
    pub open spec fn load(self, entries: Seq<(Seq<char>, LanguageView)>, from: int) -> Registry
        decreases entries.len() - from,
    {
        if from < 0 || from >= entries.len() {
            self
        } else {
            self.add_language(entries[from].0, entries[from].1).load(entries, from + 1)
        }
    }

    /// What `resolve` makes of an extension that a path may or may not have.
    pub open spec fn resolve_optional(self, extension: Option<Seq<char>>) -> Option<LanguageView> {
        match extension {
            Some(e) => self.resolve(e),
            None => None,
        }
    }

    /// The language that a file with the given extension is counted as. An
    /// override decides alone: where its language is not registered, there
    /// is no language. Without an override the extension's link decides.
    pub open spec fn resolve(self, extension: Seq<char>) -> Option<LanguageView> {
        if self.overrides.contains_key(extension) {
            self.languages.get(self.overrides[extension])
        } else if self.extensions.contains_key(extension) {
            self.languages.get(self.extensions[extension])
        } else {
            None
        }
    }
}

/// The keys and views of a list of registry entries.
pub open spec fn entry_views(entries: Seq<(String, Language)>) -> Seq<(Seq<char>, LanguageView)> {
    Seq::new(entries.len(), |i: int| (entries[i].0@, entries[i].1@))
}

/// Whether `ext` can be the extension of `path`: it stands directly behind
/// a dot of `path` and holds no dot itself.
pub open spec fn extension_candidate(path: Seq<char>, ext: Seq<char>) -> bool {
    &&& !ext.contains('.')
    &&& exists|i: int| 0 <= i < path.len() && path[i] == '.' && #[trigger] matches_at(path, ext, i + 1)
}

/// What can be said of the extension of `path` without reading the path as
/// the platform does: one that is there is a candidate.
pub open spec fn extension_of(path: Seq<char>, extension: Option<Seq<char>>) -> bool {
    extension matches Some(e) ==> extension_candidate(path, e)
}

/// The view of an optional language.
pub open spec fn language_view(language: Option<&Language>) -> Option<LanguageView> {
    match language {
        Some(l) => Some(l@),
        None => None,
    }
}

/// Whether every platform reads `path` alike: it is a relative path whose
/// names are separated by slashes, and holds no backslash and no colon.
pub open spec fn reads_alike(path: Seq<char>) -> bool {
    &&& !path.contains('\\')
    &&& !path.contains(':')
    &&& !(path.len() > 0 && path[0] == '/')
}

/// The index of the last dot of `s`.
pub open spec fn last_dot(s: Seq<char>) -> Option<int>
    decreases s.len(),
{
    if s.len() == 0 {
        None
    } else if s[s.len() - 1] == '.' {
        Some(s.len() - 1)
    } else {
        last_dot(s.drop_last())
    }
}

/// The extension of a plain file name: the text behind its last dot, if
/// it has a dot that is not its first character.
pub open spec fn plain_extension(name: Seq<char>) -> Option<Seq<char>> {
    match last_dot(name) {
        Some(i) => if i > 0 {
            Some(name.skip(i + 1))
        } else {
            None
        },
        None => None,
    }
}

/// The extension of the final component of a path, if that component is a
/// name: the text behind the last dot of the name, if the name has a dot
/// that is not its first character. Empty pieces and single dots between
/// slashes are no components, so `a/b.rs/` and `a/b.rs/.` end in `b.rs`.
pub open spec fn component_extension(path: Seq<char>) -> Option<Seq<char>> {
    let parts = components(path);
    if parts.len() > 0 && parts.last() is Normal {
        plain_extension(name_of(parts.last()))
    } else {
        None
    }
}

/// The extension of a path, by `std::path::Path::extension`: the part of the
/// final component behind its last dot, if the component has one that is
/// not its first character. Of every path the contract claims that an
/// extension stands behind a dot of the path and holds no dot; of a path
/// that every platform reads alike it claims the extension.
#[verifier::external_body]
pub(crate) fn path_extension(path: &str) -> (ext: Option<String>)
    ensures
        ext matches Some(e) ==> extension_candidate(path@, e@),
        reads_alike(path@) ==> opt_text(ext) == component_extension(path@),
{
    let extension = std::path::Path::new(path).extension()?;
    Some(extension.to_str()?.to_owned())
}

/// Resolves file paths to languages.
pub struct LanguageDetector {
    languages: StringHashMap<Language>,
    extension_map: StringHashMap<String>,
    overrides: StringHashMap<String>,
}

impl View for LanguageDetector {
    type V = Registry;

    closed spec fn view(&self) -> Registry {
        Registry {
            languages: self.languages@.map_values(|l: Language| l@),
            extensions: self.extension_map@.map_values(|s: String| s@),
            overrides: self.overrides@.map_values(|s: String| s@),
        }
    }
}

impl LanguageDetector {
    /// A detector that knows the built-in languages.
    pub fn new() -> (detector: Self)
        ensures
            detector@ == with_builtin_languages(Registry::empty()),
    {
        let mut detector = LanguageDetector {
            languages: StringHashMap::new(),
            extension_map: StringHashMap::new(),
            overrides: StringHashMap::new(),
        };
        proof {
            assert(detector@.languages =~= Map::empty());
            assert(detector@.extensions =~= Map::empty());
            assert(detector@.overrides =~= Map::empty());
        }
        detector.load_default_languages();
        detector
    }

    /// Registers each entry in order, as `add_language` does.
    pub fn load_from_config(&mut self, languages: Vec<(String, Language)>)
        ensures
            final(self)@ == old(self)@.load(entry_views(languages@), 0),
    {
        let mut languages = languages;
        let ghost all = entry_views(languages@);
        let ghost total = languages@.len();
        let ghost mut done: int = 0;
        while languages.len() > 0
            invariant
                total == all.len(),
                0 <= done,
                done + languages@.len() == total,
                entry_views(languages@) =~= all.skip(done),
                old(self)@.load(all, 0) == self@.load(all, done),
            decreases languages@.len(),
        {
            let ghost before = entry_views(languages@);
            let (key, language) = languages.remove(0);
            proof {
                assert(before[0] == all.skip(done)[0]);
                assert forall|i: int| 0 <= i < languages@.len() implies entry_views(languages@)[i]
                    == all.skip(done + 1)[i] by {
                    assert(entry_views(languages@)[i] == before[i + 1]);
                    assert(before[i + 1] == all.skip(done)[i + 1]);
                }
            }
            self.add_language(key, language);
            proof {
                done = done + 1;
            }
        }
    }

    /// Sends files with `extension` to the language registered under
    /// `language`, whatever the extension is linked to. The language need
    /// not be registered yet.
    pub fn add_override(&mut self, extension: String, language: String)
        ensures
            final(self)@ == old(self)@.add_override(extension@, language@),
    {
        self.overrides.insert(extension, language);
        proof {
            assert(self@.overrides =~= old(self)@.overrides.insert(extension@, language@));
        }
    }

    /// The language of the file at `path`, by its extension: what
    /// `detect_extension` makes of the extension where the path has one, and
    /// no language where it has none. Of a path that every platform reads
    /// alike (relative, without backslash and colon) the extension is that
    /// of its final component; of any other path it is some extension that
    /// the path can have, or none.
    pub fn detect(&self, path: &str) -> (found: Option<&Language>)
        ensures
            exists|extension: Option<Seq<char>>|
                extension_of(path@, extension) && language_view(found)
                    == #[trigger] self@.resolve_optional(extension),
            reads_alike(path@) ==> language_view(found) == self@.resolve_optional(
                component_extension(path@),
            ),
    {
        match path_extension(path) {
            Some(ext) => {
                let found = self.detect_extension(ext.as_str());
                proof {
                    assert(extension_of(path@, Some(ext@)));
                    assert(language_view(found) == self@.resolve_optional(Some(ext@)));
                }
                found
            },
            None => {
                proof {
                    assert(extension_of(path@, None));
                    assert(language_view(None) == self@.resolve_optional(None));
                }
                None
            },
        }
    }

    /// The language of a file with the given extension.
    pub fn detect_extension(&self, extension: &str) -> (found: Option<&Language>)
        ensures
            match found {
                Some(l) => self@.resolve(extension@) == Some(l@),
                None => self@.resolve(extension@) is None,
            },
    {
        match self.overrides.get(extension) {
            Some(name) => self.languages.get(name.as_str()),
            None => match self.extension_map.get(extension) {
                Some(key) => self.languages.get(key.as_str()),
                None => None,
            },
        }
    }

    /// Registers `language` under `key` and links every extension that it
    /// declares to `key`.
    pub fn add_language(&mut self, key: String, language: Language)
        ensures
            final(self)@ == old(self)@.add_language(key@, language@),
    {
        let n: usize = language.extensions.len();
        let mut i: usize = 0;
        while i < n
            invariant
                i <= n,
                n == language.extensions@.len(),
                self.languages@ == old(self).languages@,
                self.overrides@ == old(self).overrides@,
                forall|e: Seq<char>|
                    self@.extensions.contains_key(e) <==> (language@.extensions.take(i as int).contains(e)
                        || old(self)@.extensions.contains_key(e)),
                forall|e: Seq<char>| #[trigger]
                    self@.extensions.contains_key(e) ==> self@.extensions[e] == (if language@.extensions.take(
                        i as int,
                    ).contains(e) {
                        key@
                    } else {
                        old(self)@.extensions[e]
                    }),
            decreases n - i,
        {
            let ghost before = self@.extensions;
            let ghost ext = language@.extensions[i as int];
            self.extension_map.insert(language.extensions[i].clone(), key.clone());
            proof {
                assert(self@.extensions =~= before.insert(ext, key@));
                let shorter = language@.extensions.take(i as int);
                let longer = language@.extensions.take(i + 1);
                assert(longer =~= shorter.push(ext));
                assert forall|e: Seq<char>| longer.contains(e) <==> (shorter.contains(e) || e == ext) by {
                    if shorter.contains(e) {
                        let j = choose|j: int| 0 <= j < shorter.len() && shorter[j] == e;
                        assert(longer[j] == e);
                    }
                    if e == ext {
                        assert(longer[i as int] == e);
                    }
                }
            }
            i += 1;
        }
        let ghost linked = self@.extensions;
        self.languages.insert(key, language);
        proof {
            assert(language@.extensions.take(n as int) =~= language@.extensions);
            assert(self@.extensions == linked);
            assert(self@.languages =~= old(self)@.languages.insert(key@, language@));
            assert(self@.extensions =~= old(self)@.add_language(key@, language@).extensions);
        }
    }

    /// Registers the built-in languages.
    pub fn load_default_languages(&mut self)
        ensures
            final(self)@ == with_builtin_languages(old(self)@),
    {
        self.add_language("rust".to_owned(), rust());
        self.add_language("c".to_owned(), c());
        self.add_language("cpp".to_owned(), cpp());
        self.add_language("python".to_owned(), python());
        self.add_language("javascript".to_owned(), javascript());
        self.add_language("typescript".to_owned(), typescript());
        self.add_language("java".to_owned(), java());
        self.add_language("go".to_owned(), go());
        self.add_language("ruby".to_owned(), ruby());
        self.add_language("shell".to_owned(), shell());
        self.add_language("sql".to_owned(), sql());
        self.add_language("html".to_owned(), html());
        self.add_language("css".to_owned(), css());
        self.add_language("yaml".to_owned(), yaml());
        self.add_language("toml".to_owned(), toml());
    }
}

} // verus!
