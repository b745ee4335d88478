//! Ignore rules: which paths the watcher and the scanner never see.
//!
//! The layers, highest precedence first: built-in patterns, which no
//! configuration can switch off; the `.tlignore` file; the `.gitignore` file;
//! additional patterns from the configuration.

use vstd::prelude::*;
use vstd::string::StringSliceAdditionalSpecFns;
use crate::store::{
    has_component, names_dir, path_has_component, path_names_dir, DIR_GIT, DIR_JJ, DIR_TL, SLASH,
};

verus! {

/// A compiled set of gitignore patterns of the `ignore` crate; what it holds
/// is not seen here.
#[verifier::external_type_specification]
#[verifier::external_body]
pub struct ExGitignore(ignore::gitignore::Gitignore);

/// `.swp`
pub const SUFFIX_SWP: [u8; 4] = ['.' as u8, 's' as u8, 'w' as u8, 'p' as u8];

/// `.swo`
pub const SUFFIX_SWO: [u8; 4] = ['.' as u8, 's' as u8, 'w' as u8, 'o' as u8];

/// `.swn`
pub const SUFFIX_SWN: [u8; 4] = ['.' as u8, 's' as u8, 'w' as u8, 'n' as u8];

/// `.swm`
pub const SUFFIX_SWM: [u8; 4] = ['.' as u8, 's' as u8, 'w' as u8, 'm' as u8];

/// `~`
pub const TILDE: [u8; 1] = ['~' as u8];

/// `#`
pub const HASH_SIGN: [u8; 1] = ['#' as u8];

/// `.#`
pub const LOCK_PREFIX: [u8; 2] = ['.' as u8, '#' as u8];

/// `.DS_Store`
pub const DS_STORE: [u8; 9] = ['.' as u8, 'D' as u8, 'S' as u8, '_' as u8, 'S' as u8, 't' as u8, 'o' as u8, 'r' as u8, 'e' as u8];

/// `._`
pub const RESOURCE_FORK_PREFIX: [u8; 2] = ['.' as u8, '_' as u8];

/// `Thumbs.db`
pub const THUMBS_DB: [u8; 9] = ['T' as u8, 'h' as u8, 'u' as u8, 'm' as u8, 'b' as u8, 's' as u8, '.' as u8, 'd' as u8, 'b' as u8];

/// `desktop.ini`
pub const DESKTOP_INI: [u8; 11] = ['d' as u8, 'e' as u8, 's' as u8, 'k' as u8, 't' as u8, 'o' as u8, 'p' as u8, '.' as u8, 'i' as u8, 'n' as u8, 'i' as u8];

/// `.code-workspace`
pub const SUFFIX_CODE_WORKSPACE: [u8; 15] = ['.' as u8, 'c' as u8, 'o' as u8, 'd' as u8, 'e' as u8, '-' as u8, 'w' as u8, 'o' as u8, 'r' as u8, 'k' as u8, 's' as u8, 'p' as u8, 'a' as u8, 'c' as u8, 'e' as u8];

/// `.iml`
pub const SUFFIX_IML: [u8; 4] = ['.' as u8, 'i' as u8, 'm' as u8, 'l' as u8];

/// `.pyc`
pub const SUFFIX_PYC: [u8; 4] = ['.' as u8, 'p' as u8, 'y' as u8, 'c' as u8];

/// `.vscode`
pub const DIR_VSCODE: [u8; 7] = ['.' as u8, 'v' as u8, 's' as u8, 'c' as u8, 'o' as u8, 'd' as u8, 'e' as u8];

/// `.idea`
pub const DIR_IDEA: [u8; 5] = ['.' as u8, 'i' as u8, 'd' as u8, 'e' as u8, 'a' as u8];

/// `node_modules`
pub const DIR_NODE_MODULES: [u8; 12] = ['n' as u8, 'o' as u8, 'd' as u8, 'e' as u8, '_' as u8, 'm' as u8, 'o' as u8, 'd' as u8, 'u' as u8, 'l' as u8, 'e' as u8, 's' as u8];

/// `__pycache__`
pub const DIR_PYCACHE: [u8; 11] = ['_' as u8, '_' as u8, 'p' as u8, 'y' as u8, 'c' as u8, 'a' as u8, 'c' as u8, 'h' as u8, 'e' as u8, '_' as u8, '_' as u8];

/// `.venv`
pub const DIR_DOT_VENV: [u8; 5] = ['.' as u8, 'v' as u8, 'e' as u8, 'n' as u8, 'v' as u8];

/// `venv`
pub const DIR_VENV: [u8; 4] = ['v' as u8, 'e' as u8, 'n' as u8, 'v' as u8];

/// `target`
pub const DIR_TARGET: [u8; 6] = ['t' as u8, 'a' as u8, 'r' as u8, 'g' as u8, 'e' as u8, 't' as u8];

/// `*`
pub const STAR: u8 = 42;

/// `s` starts with `p`.
pub open spec fn starts_with(s: Seq<u8>, p: Seq<u8>) -> bool {
    p.len() <= s.len() && s.subrange(0, p.len() as int) == p
}

/// `s` ends with `p`.
pub open spec fn ends_with(s: Seq<u8>, p: Seq<u8>) -> bool {
    p.len() <= s.len() && s.subrange(s.len() - p.len(), s.len() as int) == p
}

/// `p` stands in `s` at `i`.
pub open spec fn occurs_at(s: Seq<u8>, p: Seq<u8>, i: int) -> bool {
    0 <= i && i + p.len() <= s.len() && s.subrange(i, i + p.len()) == p
}

/// `p` stands somewhere in `s`.
pub open spec fn contains(s: Seq<u8>, p: Seq<u8>) -> bool {
    exists|i: int| #[trigger] occurs_at(s, p, i)
}

/// Where the last component of a path starts, looking at its first `n` bytes:
/// behind the last separator, or at 0.
pub open spec fn name_start(p: Seq<u8>, n: int) -> int
    decreases n,
{
    if n <= 0 {
        0
    } else if p[n - 1] == SLASH {
        n
    } else {
        name_start(p, n - 1)
    }
}

/// Where the last component of a path ends, looking at its first `n`
/// bytes: before the separators at the end, if there are any.
pub open spec fn name_end(p: Seq<u8>, n: int) -> int
    decreases n,
{
    if n <= 0 {
        0
    } else if p[n - 1] == SLASH {
        name_end(p, n - 1)
    } else {
        n
    }
}

/// The last component of a path: what stands between its last separator
/// and its end, separators at the end left aside.
pub open spec fn file_name(p: Seq<u8>) -> Seq<u8> {
    let end = name_end(p, p.len() as int);
    p.subrange(name_start(p, end), end)
}

/// The path lies in a metadata directory at any depth: one of its
/// components is `.tl`, `.git` or `.jj`.
pub open spec fn in_repo_metadata(p: Seq<u8>) -> bool {
    has_component(p, DIR_TL@) || has_component(p, DIR_GIT@) || has_component(p, DIR_JJ@)
}

/// The file name is that of an editor's temporary file, of an artefact of
/// the operating system, of IDE data or of Python bytecode.
pub open spec fn is_temp_name(name: Seq<u8>) -> bool {
    ||| ends_with(name, SUFFIX_SWP@)
    ||| ends_with(name, SUFFIX_SWO@)
    ||| ends_with(name, SUFFIX_SWN@)
    ||| ends_with(name, SUFFIX_SWM@)
    ||| ends_with(name, TILDE@)
    ||| (starts_with(name, HASH_SIGN@) && ends_with(name, HASH_SIGN@))
    ||| starts_with(name, LOCK_PREFIX@)
    ||| name == DS_STORE@
    ||| starts_with(name, RESOURCE_FORK_PREFIX@)
    ||| name == THUMBS_DB@
    ||| name == DESKTOP_INI@
    ||| ends_with(name, SUFFIX_CODE_WORKSPACE@)
    ||| ends_with(name, SUFFIX_IML@)
    ||| ends_with(name, SUFFIX_PYC@)
}

/// The path lies in a directory of IDE data or of build output, at any
/// depth, or is such a directory. A file that only has such a name is not
/// meant; `is_dir` says whether the path is a directory.
pub open spec fn in_tool_dir(p: Seq<u8>, is_dir: bool) -> bool {
    ||| names_dir(p, DIR_VSCODE@, is_dir)
    ||| names_dir(p, DIR_IDEA@, is_dir)
    ||| names_dir(p, DIR_NODE_MODULES@, is_dir)
    ||| names_dir(p, DIR_PYCACHE@, is_dir)
    ||| names_dir(p, DIR_DOT_VENV@, is_dir)
    ||| names_dir(p, DIR_VENV@, is_dir)
    ||| names_dir(p, DIR_TARGET@, is_dir)
}

/// The editor and tool patterns among the built-ins.
pub open spec fn editor_temp(p: Seq<u8>, is_dir: bool) -> bool {
    is_temp_name(file_name(p)) || in_tool_dir(p, is_dir)
}

/// The built-in patterns.
pub open spec fn builtin_ignored(p: Seq<u8>, is_dir: bool) -> bool {
    in_repo_metadata(p) || editor_temp(p, is_dir)
}

/// The number of `*` in the first `n` bytes of a pattern.
pub open spec fn star_count(pattern: Seq<u8>, n: int) -> nat
    decreases n,
{
    if n <= 0 {
        0
    } else if pattern[n - 1] == STAR {
        1 + star_count(pattern, n - 1)
    } else {
        star_count(pattern, n - 1)
    }
}

/// A pattern of the configuration matches a path. A pattern without `*`
/// matches where it occurs in the path; one with a single `*` matches where
/// the path starts with what stands before the star and ends with what
/// stands behind it; one with more stars matches nothing.
pub open spec fn glob_matches(path: Seq<u8>, pattern: Seq<u8>) -> bool {
    let stars = star_count(pattern, pattern.len() as int);
    if stars == 0 {
        contains(path, pattern)
    } else if stars == 1 {
        exists|k: int|
            0 <= k < pattern.len() && #[trigger] pattern[k] == STAR && starts_with(
                path,
                pattern.subrange(0, k),
            ) && ends_with(path, pattern.subrange(k + 1, pattern.len() as int))
    } else {
        false
    }
}

/// Whether `p` stands in `s` at `i`.
fn bytes_at(s: &[u8], p: &[u8], i: usize) -> (r: bool)
    ensures
        r == occurs_at(s@, p@, i as int),
{
    let n = p.len();
    let total = s.len();
    if i > total || total - i < n {
        return false;
    }
    let mut k: usize = 0;
    while k < n
        invariant
            k <= n,
            n == p@.len(),
            total == s@.len(),
            i + n <= total,
            forall|j: int| 0 <= j < k ==> s@[i + j] == p@[j],
        decreases n - k,
    {
        if s[i + k] != p[k] {
            assert(s@.subrange(i as int, i + n)[k as int] == s@[i + k]);
            return false;
        }
        k = k + 1;
    }
    assert(s@.subrange(i as int, i + n) =~= p@);
    true
}

/// Whether `s` starts with `p`.
pub fn bytes_start_with(s: &[u8], p: &[u8]) -> (r: bool)
    ensures
        r == starts_with(s@, p@),
{
    bytes_at(s, p, 0)
}

/// Whether `s` ends with `p`.
pub fn bytes_end_with(s: &[u8], p: &[u8]) -> (r: bool)
    ensures
        r == ends_with(s@, p@),
{
    if p.len() > s.len() {
        return false;
    }
    bytes_at(s, p, s.len() - p.len())
}

/// Whether `p` stands somewhere in `s`.
pub fn bytes_contain(s: &[u8], p: &[u8]) -> (r: bool)
    ensures
        r == contains(s@, p@),
{
    let total = s.len();
    let mut i: usize = 0;
    while i < total
        invariant
            total == s@.len(),
            i <= total,
            forall|j: int| 0 <= j < i ==> !occurs_at(s@, p@, j),
        decreases total - i,
    {
        if bytes_at(s, p, i) {
            return true;
        }
        i = i + 1;
    }
    if bytes_at(s, p, total) {
        return true;
    }
    assert forall|j: int| !occurs_at(s@, p@, j) by {
        if 0 <= j <= total {
        }
    }
    false
}

/// The last component of a path.
pub fn path_file_name(p: &[u8]) -> (name: &[u8])
    ensures
        name@ == file_name(p@),
{
    let mut end: usize = p.len();
    while end > 0 && p[end - 1] == SLASH
        invariant
            end <= p@.len(),
            name_end(p@, p@.len() as int) == name_end(p@, end as int),
        decreases end,
    {
        end = end - 1;
    }
    let mut k: usize = end;
    while k > 0 && p[k - 1] != SLASH
        invariant
            k <= end <= p@.len(),
            name_start(p@, end as int) == name_start(p@, k as int),
        decreases k,
    {
        k = k - 1;
    }
    vstd::slice::slice_subrange(p, k, end)
}

/// What a pattern file says of a path.
#[derive(Clone, Copy, Debug, PartialEq, Eq, Structural)]
pub enum Verdict {
    /// No pattern of the file matches.
    Silent,
    /// The last pattern that matches ignores the path.
    Ignore,
    /// The last pattern that matches is a negation: the path is kept.
    Whitelist,
}

/// What a set of gitignore patterns says of a path, which is or is not a directory.
pub uninterp spec fn pattern_verdict(patterns: ignore::gitignore::Gitignore, path: Seq<char>, is_dir: bool) -> Verdict;

/// `Gitignore::matched`: the verdict of the last glob of the set that
/// matches the path, a function of the set, the path and `is_dir` alone.
#[verifier::external_body]
fn gitignore_verdict(patterns: &ignore::gitignore::Gitignore, path: &str, is_dir: bool) -> (v: Verdict)
    ensures
        v == pattern_verdict(*patterns, path@, is_dir),
{
    match patterns.matched(path, is_dir) {
        ignore::Match::None => Verdict::Silent,
        ignore::Match::Ignore(_) => Verdict::Ignore,
        ignore::Match::Whitelist(_) => Verdict::Whitelist,
    }
}

/// The decision of the layers, highest precedence first: a built-in match
/// ignores; else the first pattern file that says anything decides; else the
/// additional patterns do.
pub open spec fn layered(builtin: bool, tlignore: Verdict, gitignore: Verdict, additional: bool) -> bool {
    if builtin {
        true
    } else if tlignore != Verdict::Silent {
        tlignore == Verdict::Ignore
    } else if gitignore != Verdict::Silent {
        gitignore == Verdict::Ignore
    } else {
        additional
    }
}

/// Decides from what each layer says of a path whether the path is ignored.
pub fn layered_decision(builtin: bool, tlignore: Verdict, gitignore: Verdict, additional: bool) -> (r: bool)
    ensures
        r == layered(builtin, tlignore, gitignore, additional),
        builtin ==> r,
{
    if builtin {
        return true;
    }
    match tlignore {
        Verdict::Ignore => true,
        Verdict::Whitelist => false,
        Verdict::Silent => match gitignore {
            Verdict::Ignore => true,
            Verdict::Whitelist => false,
            Verdict::Silent => additional,
        },
    }
}

/// Which pattern sources are consulted.
#[derive(Debug, Clone, PartialEq, Eq)]
pub struct IgnoreConfig {
    /// Use `.gitignore` patterns (default: true)
    pub use_gitignore: bool,
    /// Use `.tlignore` patterns (default: true)
    pub use_tlignore: bool,
    /// Additional patterns: a substring, or a glob with one `*`
    pub additional_patterns: Vec<String>,
}

impl Default for IgnoreConfig {
    fn default() -> (c: Self)
        ensures
            c.use_gitignore,
            c.use_tlignore,
            c.additional_patterns@.len() == 0,
    {
        IgnoreConfig { use_gitignore: true, use_tlignore: true, additional_patterns: Vec::new() }
    }
}

/// The value of a switch that a configuration file leaves out.
pub fn default_true() -> (r: bool)
    ensures
        r,
{
    true
}

/// Some additional pattern among the first `n` matches the path.
pub open spec fn any_pattern_matches(path: Seq<u8>, patterns: Seq<String>, n: int) -> bool {
    exists|i: int| 0 <= i < n && glob_matches(path, text_bytes((#[trigger] patterns[i])@))
}

/// The bytes of a text.
pub open spec fn text_bytes(text: Seq<char>) -> Seq<u8> {
    vstd::utf8::encode_utf8(text)
}

/// The ignore rules of one repository.
pub struct IgnoreRules {
    repo_root: String,
    gitignore: Option<ignore::gitignore::Gitignore>,
    tlignore: Option<ignore::gitignore::Gitignore>,
    config: IgnoreConfig,
}

impl IgnoreRules {
    /// The patterns of `.gitignore` in use, if any.
    pub closed spec fn gitignore(&self) -> Option<ignore::gitignore::Gitignore> {
        self.gitignore
    }

    /// The patterns of `.tlignore` in use, if any.
    pub closed spec fn tlignore(&self) -> Option<ignore::gitignore::Gitignore> {
        self.tlignore
    }

    /// The configuration in use.
    pub closed spec fn config(&self) -> IgnoreConfig {
        self.config
    }

    /// The repository root that the rules were made for.
    pub closed spec fn root(&self) -> String {
        self.repo_root
    }

    /// What a pattern file, if in use, says of a path.
    pub open spec fn file_verdict(file: Option<ignore::gitignore::Gitignore>, path: Seq<char>, is_dir: bool) -> Verdict {
        match file {
            Some(patterns) => pattern_verdict(patterns, path, is_dir),
            None => Verdict::Silent,
        }
    }

    /// Whether the rules ignore a path, which is or is not a directory.
    pub open spec fn ignores(&self, path: Seq<char>, is_dir: bool) -> bool {
        layered(
            builtin_ignored(text_bytes(path), is_dir),
            Self::file_verdict(self.tlignore(), path, is_dir),
            Self::file_verdict(self.gitignore(), path, is_dir),
            any_pattern_matches(
                text_bytes(path),
                self.config().additional_patterns@,
                self.config().additional_patterns@.len() as int,
            ),
        )
    }

    /// The rules for a repository, with the pattern files that were found
    /// in it. A file that the configuration switches off is not used.
    pub fn load(
        repo_root: &str,
        config: IgnoreConfig,
        gitignore: Option<ignore::gitignore::Gitignore>,
        tlignore: Option<ignore::gitignore::Gitignore>,
    ) -> (rules: Self)
        ensures
            rules.root()@ == repo_root@,
            rules.config() == config,
            rules.gitignore() == (if config.use_gitignore {
                gitignore
            } else {
                None
            }),
            rules.tlignore() == (if config.use_tlignore {
                tlignore
            } else {
                None
            }),
    {
        let mut rules = IgnoreRules {
            repo_root: repo_root.to_owned(),
            gitignore: None,
            tlignore: None,
            config,
        };
        rules.reload_ignore_files(gitignore, tlignore);
        rules
    }

    /// Takes the pattern files as they are now on disk, in place of those
    /// in use. A file that the configuration switches off is not used.
    pub fn reload_ignore_files(
        &mut self,
        gitignore: Option<ignore::gitignore::Gitignore>,
        tlignore: Option<ignore::gitignore::Gitignore>,
    )
        ensures
            final(self).root() == old(self).root(),
            final(self).config() == old(self).config(),
            final(self).gitignore() == (if old(self).config().use_gitignore {
                gitignore
            } else {
                None
            }),
            final(self).tlignore() == (if old(self).config().use_tlignore {
                tlignore
            } else {
                None
            }),
    {
        if self.config.use_gitignore {
            self.gitignore = gitignore;
        } else {
            self.gitignore = None;
        }
        if self.config.use_tlignore {
            self.tlignore = tlignore;
        } else {
            self.tlignore = None;
        }
    }

    /// Whether a path is ignored. `is_dir` says whether the path is a
    /// directory, which decides patterns that end in a slash.
    pub fn should_ignore(&self, path: &str, is_dir: bool) -> (r: bool)
        ensures
            r == self.ignores(path@, is_dir),
            builtin_ignored(text_bytes(path@), is_dir) ==> r,
    {
        let bytes = path.as_bytes();
        if Self::is_builtin_ignored(bytes, is_dir) {
            return true;
        }
        let tl = match &self.tlignore {
            Some(patterns) => gitignore_verdict(patterns, path, is_dir),
            None => Verdict::Silent,
        };
        let git = match &self.gitignore {
            Some(patterns) => gitignore_verdict(patterns, path, is_dir),
            None => Verdict::Silent,
        };
        let additional = self.matches_additional(bytes);
        layered_decision(false, tl, git, additional)
    }

    /// Whether some additional pattern of the configuration matches the path.
    pub fn matches_additional(&self, path: &[u8]) -> (r: bool)
        ensures
            r == any_pattern_matches(
                path@,
                self.config().additional_patterns@,
                self.config().additional_patterns@.len() as int,
            ),
    {
        let n = self.config.additional_patterns.len();
        let mut i: usize = 0;
        while i < n
            invariant
                n == self.config.additional_patterns@.len(),
                i <= n,
                !any_pattern_matches(path@, self.config.additional_patterns@, i as int),
            decreases n - i,
        {
            let pattern = self.config.additional_patterns[i].as_str().as_bytes();
            assert(pattern@ == text_bytes(self.config.additional_patterns@[i as int]@));
            if Self::matches_glob_pattern(path, pattern) {
                return true;
            }
            i = i + 1;
        }
        false
    }

    /// Whether a built-in pattern matches the path. No configuration
    /// switches these off.
    pub fn is_builtin_ignored(path: &[u8], is_dir: bool) -> (r: bool)
        ensures
            r == builtin_ignored(path@, is_dir),
    {
        if path_has_component(path, DIR_TL.as_slice()) || path_has_component(
            path,
            DIR_GIT.as_slice(),
        ) || path_has_component(path, DIR_JJ.as_slice()) {
            return true;
        }
        Self::matches_editor_temp(path, is_dir)
    }

    /// Whether the path is an editor's temporary file, an artefact of the
    /// operating system, IDE data, Python bytecode, or lies in a directory
    /// of IDE data or build output.
    pub fn matches_editor_temp(path: &[u8], is_dir: bool) -> (r: bool)
        ensures
            r == editor_temp(path@, is_dir),
    {
        let name = path_file_name(path);
        if bytes_end_with(name, SUFFIX_SWP.as_slice()) || bytes_end_with(name, SUFFIX_SWO.as_slice())
            || bytes_end_with(name, SUFFIX_SWN.as_slice()) || bytes_end_with(
            name,
            SUFFIX_SWM.as_slice(),
        ) {
            return true;
        }
        if bytes_end_with(name, TILDE.as_slice()) {
            return true;
        }
        if bytes_start_with(name, HASH_SIGN.as_slice()) && bytes_end_with(name, HASH_SIGN.as_slice()) {
            return true;
        }
        if bytes_start_with(name, LOCK_PREFIX.as_slice()) {
            return true;
        }
        if crate::path_order::same_bytes(name, DS_STORE.as_slice()) || bytes_start_with(
            name,
            RESOURCE_FORK_PREFIX.as_slice(),
        ) {
            return true;
        }
        if crate::path_order::same_bytes(name, THUMBS_DB.as_slice()) || crate::path_order::same_bytes(
            name,
            DESKTOP_INI.as_slice(),
        ) {
            return true;
        }
        if bytes_end_with(name, SUFFIX_CODE_WORKSPACE.as_slice()) || bytes_end_with(
            name,
            SUFFIX_IML.as_slice(),
        ) {
            return true;
        }
        if bytes_end_with(name, SUFFIX_PYC.as_slice()) {
            return true;
        }
        path_names_dir(path, DIR_VSCODE.as_slice(), is_dir)
            || path_names_dir(path, DIR_IDEA.as_slice(), is_dir)
            || path_names_dir(path, DIR_NODE_MODULES.as_slice(), is_dir)
            || path_names_dir(path, DIR_PYCACHE.as_slice(), is_dir)
            || path_names_dir(path, DIR_DOT_VENV.as_slice(), is_dir)
            || path_names_dir(path, DIR_VENV.as_slice(), is_dir)
            || path_names_dir(path, DIR_TARGET.as_slice(), is_dir)
    }

    /// Whether an additional pattern matches the path.
    pub fn matches_glob_pattern(path: &[u8], pattern: &[u8]) -> (r: bool)
        ensures
            r == glob_matches(path@, pattern@),
    {
        let n = pattern.len();
        let mut stars: usize = 0;
        let mut first: usize = 0;
        let mut i: usize = 0;
        while i < n
            invariant
                n == pattern@.len(),
                i <= n,
                stars == star_count(pattern@, i as int),
                stars <= i,
                stars == 0 ==> forall|k: int| 0 <= k < i ==> pattern@[k] != STAR,
                stars > 0 ==> first < i && pattern@[first as int] == STAR,
                stars == 1 ==> forall|k: int| 0 <= k < i && pattern@[k] == STAR ==> k == first,
            decreases n - i,
        {
            if pattern[i] == STAR {
                if stars == 0 {
                    first = i;
                }
                stars = stars + 1;
            }
            i = i + 1;
        }
        if stars == 0 {
            bytes_contain(path, pattern)
        } else if stars == 1 {
            let prefix = vstd::slice::slice_subrange(pattern, 0, first);
            let suffix = vstd::slice::slice_subrange(pattern, first + 1, n);
            bytes_start_with(path, prefix) && bytes_end_with(path, suffix)
        } else {
            false
        }
    }

    /// The number of pattern sources in use: the built-ins, each pattern
    /// file in use, and the additional patterns if there are any.
    pub fn active_sources(&self) -> (n: usize)
        ensures
            n == 1 + (if self.gitignore() is Some { 1int } else { 0int }) + (if self.tlignore() is Some {
                1int
            } else {
                0int
            }) + (if self.config().additional_patterns@.len() > 0 { 1int } else { 0int }),
    {
        let mut count: usize = 1;
        if self.gitignore.is_some() {
            count = count + 1;
        }
        if self.tlignore.is_some() {
            count = count + 1;
        }
        if self.config.additional_patterns.len() > 0 {
            count = count + 1;
        }
        count
    }

    /// The repository root.
    pub fn repo_root(&self) -> (root: &str)
        ensures
            root@ == self.root()@,
    {
        self.repo_root.as_str()
    }

    /// Takes a new configuration and the pattern files as they are now on disk.
    pub fn update_config(
        &mut self,
        config: IgnoreConfig,
        gitignore: Option<ignore::gitignore::Gitignore>,
        tlignore: Option<ignore::gitignore::Gitignore>,
    )
        ensures
            final(self).root() == old(self).root(),
            final(self).config() == config,
            final(self).gitignore() == (if config.use_gitignore {
                gitignore
            } else {
                None
            }),
            final(self).tlignore() == (if config.use_tlignore {
                tlignore
            } else {
                None
            }),
    {
        self.config = config;
        self.reload_ignore_files(gitignore, tlignore);
    }
}

/// The rules ignore everything under `.tl`, `.git` and `.jj`, whatever the
/// configuration and the pattern files say.
pub proof fn lemma_metadata_is_always_ignored(rules: IgnoreRules, path: Seq<char>, is_dir: bool)
    requires
        in_repo_metadata(text_bytes(path)),
    ensures
        rules.ignores(path, is_dir),
{
}

} // verus!
