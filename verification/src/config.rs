use vstd::prelude::*;
use vstd::string::StrSliceExecFns;
use vstd::string::StringExecFns;

use crate::paths::join_spec;
use crate::paths::join_path;
use crate::paths::normalize;
use crate::paths::normalize_spec;

verus! {

/// The mathematical shape of a dependency declaration.
pub ghost enum DepView {
    /// An edge to another application in the same run, by name.
    App(Seq<char>),
    /// An edge to an arbitrary file or directory, by absolute path.
    Path(Seq<char>),
}

/// The mathematical shape of an exclusion rule.
pub ghost enum PatView {
    /// A bare name, excluded wherever it appears as a path component.
    Name(Seq<char>),
    /// An absolute path, excluding that file or directory and everything
    /// nested under it.
    AbsolutePath(Seq<char>),
}

/// The mathematical shape of an application.
pub ghost struct AppView {
    pub name: Seq<char>,
    pub dir: Seq<char>,
    pub dependencies: Seq<DepView>,
    pub exclude_patterns: Seq<PatView>,
}

/// Dependency type
#[derive(Debug, Clone, PartialEq, Eq, Hash)]
pub enum Dependency {
    /// Dependency on another application
    App(String),
    /// Dependency on a file or directory
    Path(String),
}

impl View for Dependency {
    type V = DepView;

    open spec fn view(&self) -> DepView {
        match self {
            Dependency::App(name) => DepView::App(name@),
            Dependency::Path(path) => DepView::Path(path@),
        }
    }
}

impl DeepView for Dependency {
    type V = DepView;

    open spec fn deep_view(&self) -> DepView {
        self.view()
    }
}

/// Exclusion pattern
#[derive(Debug, Clone)]
pub enum ExcludePattern {
    /// Simple name (node_modules) - excluded wherever it appears
    Name(String),
    /// Absolute path - excludes specific file/directory
    AbsolutePath(String),
}

impl View for ExcludePattern {
    type V = PatView;

    open spec fn view(&self) -> PatView {
        match self {
            ExcludePattern::Name(name) => PatView::Name(name@),
            ExcludePattern::AbsolutePath(path) => PatView::AbsolutePath(path@),
        }
    }
}

impl DeepView for ExcludePattern {
    type V = PatView;

    open spec fn deep_view(&self) -> PatView {
        self.view()
    }
}

/// One application: a directory, the dependencies it declares, and the
/// exclusion rules that apply when its contents are hashed.
#[derive(Debug, Clone)]
pub struct App {
    pub name: String,
    pub dir: String,
    pub dependencies: Vec<Dependency>,
    pub exclude_patterns: Vec<ExcludePattern>,
}

impl View for App {
    type V = AppView;

    open spec fn view(&self) -> AppView {
        AppView {
            name: self.name@,
            dir: self.dir@,
            dependencies: self.dependencies.deep_view(),
            exclude_patterns: self.exclude_patterns.deep_view(),
        }
    }
}

impl DeepView for App {
    type V = AppView;

    open spec fn deep_view(&self) -> AppView {
        self.view()
    }
}

/// A declaration is read as a path when it contains a separator or begins
/// with a relative-path marker; otherwise it names another application.
pub open spec fn is_path_declaration(s: Seq<char>) -> bool {
    s.contains('/') || (s.len() > 0 && s[0] == '.')
}

/// What `Dependency::parse` returns for a declaration string.
pub open spec fn parse_dep_spec(s: Seq<char>, dir: Seq<char>) -> DepView {
    if is_path_declaration(s) {
        DepView::Path(join_spec(dir, s))
    } else {
        DepView::App(s)
    }
}

/// What `ExcludePattern::parse` returns for a pattern string: an absolute
/// path is resolved against the directory and normalized lexically, so
/// that `.` and `..` steps written in a config cannot dodge a match.
pub open spec fn parse_pattern_spec(s: Seq<char>, dir: Seq<char>) -> PatView {
    if is_path_declaration(s) {
        PatView::AbsolutePath(normalize_spec(join_spec(dir, s)))
    } else {
        PatView::Name(s)
    }
}

/// Tests the syntactic rule that separates path declarations from
/// application names.
fn is_path_declaration_exec(s: &str) -> (r: bool)
    ensures
        r == is_path_declaration(s@),
{
    let n = s.unicode_len();
    if n > 0 && s.get_char(0) == '.' {
        return true;
    }
    let mut i: usize = 0;
    while i < n
        invariant
            0 <= i <= n,
            n == s@.len(),
            forall|j: int| 0 <= j < i ==> s@[j] != '/',
        decreases n - i,
    {
        if s.get_char(i) == '/' {
            proof {
                assert(s@[i as int] == '/');
            }
            return true;
        }
        i = i + 1;
    }
    proof {
        assert(!s@.contains('/'));
    }
    false
}

impl Dependency {
    /// Parses dependency string and determines its type: a string with a
    /// path separator or a leading `.` is a path resolved against the
    /// application directory, anything else names another application.
    pub fn parse(dep_str: &str, app_dir: &str) -> (r: Self)
        ensures
            r@ == parse_dep_spec(dep_str@, app_dir@),
    {
        if is_path_declaration_exec(dep_str) {
            Dependency::Path(join_path(app_dir, dep_str))
        } else {
            Dependency::App(String::from_str(dep_str))
        }
    }

    /// The application name, when this is an application edge.
    pub fn as_app(&self) -> (r: Option<&str>)
        ensures
            match r {
                Some(name) => self@ == DepView::App(name@),
                None => self@ is Path,
            },
    {
        match self {
            Dependency::App(name) => Some(name.as_str()),
            Dependency::Path(_) => None,
        }
    }

    /// The target path, when this is a filesystem edge.
    pub fn as_path(&self) -> (r: Option<&String>)
        ensures
            match r {
                Some(path) => self@ == DepView::Path(path@),
                None => self@ is App,
            },
    {
        match self {
            Dependency::Path(path) => Some(path),
            Dependency::App(_) => None,
        }
    }
}

impl ExcludePattern {
    /// Parses an exclusion pattern: a string with a path separator or a
    /// leading `.` is an absolute path resolved against the application
    /// directory, anything else is a bare name.
    pub fn parse(pattern: &str, app_dir: &str) -> (r: Self)
        ensures
            r@ == parse_pattern_spec(pattern@, app_dir@),
    {
        if is_path_declaration_exec(pattern) {
            let joined = join_path(app_dir, pattern);
            ExcludePattern::AbsolutePath(normalize(joined.as_str()))
        } else {
            ExcludePattern::Name(String::from_str(pattern))
        }
    }
}

/// The raw contents of one application's config file.
#[derive(Debug, Clone)]
pub struct AppConfig {
    pub app: AppInfo,
}

/// The `[app]` table of a config file: dependency declarations and
/// exclusion patterns, as written.
#[derive(Debug, Clone)]
pub struct AppInfo {
    pub dependencies: Vec<String>,
    pub exclude: Vec<String>,
}

/// Builds an [`App`] from its discovered name and directory and the raw
/// declarations of its config file, resolving each declaration against the
/// directory.
pub fn build_app(name: String, dir: String, config: &AppConfig) -> (r: App)
    ensures
        r@.name == name@,
        r@.dir == dir@,
        r@.dependencies == Seq::new(
            config.app.dependencies.deep_view().len(),
            |i: int| parse_dep_spec(config.app.dependencies.deep_view()[i], dir@),
        ),
        r@.exclude_patterns == Seq::new(
            config.app.exclude.deep_view().len(),
            |i: int| parse_pattern_spec(config.app.exclude.deep_view()[i], dir@),
        ),
{
    let mut dependencies: Vec<Dependency> = Vec::new();
    let mut i: usize = 0;
    let n = config.app.dependencies.len();
    while i < n
        invariant
            0 <= i <= n,
            n == config.app.dependencies.len(),
            dependencies.deep_view() =~= Seq::new(
                i as nat,
                |k: int| parse_dep_spec(config.app.dependencies.deep_view()[k], dir@),
            ),
        decreases n - i,
    {
        let ghost pre = dependencies.deep_view();
        let dep = Dependency::parse(config.app.dependencies[i].as_str(), dir.as_str());
        proof {
            assert(config.app.dependencies.deep_view()[i as int] == config.app.dependencies[i
                as int]@);
        }
        dependencies.push(dep);
        proof {
            assert(dependencies.deep_view() =~= pre.push(dep.deep_view()));
        }
        i = i + 1;
    }
    let mut exclude_patterns: Vec<ExcludePattern> = Vec::new();
    let mut j: usize = 0;
    let m = config.app.exclude.len();
    while j < m
        invariant
            0 <= j <= m,
            m == config.app.exclude.len(),
            exclude_patterns.deep_view() =~= Seq::new(
                j as nat,
                |k: int| parse_pattern_spec(config.app.exclude.deep_view()[k], dir@),
            ),
        decreases m - j,
    {
        let ghost pre = exclude_patterns.deep_view();
        let pat = ExcludePattern::parse(config.app.exclude[j].as_str(), dir.as_str());
        proof {
            assert(config.app.exclude.deep_view()[j as int] == config.app.exclude[j as int]@);
        }
        exclude_patterns.push(pat);
        proof {
            assert(exclude_patterns.deep_view() =~= pre.push(pat.deep_view()));
        }
        j = j + 1;
    }
    App { name, dir, dependencies, exclude_patterns }
}

/// Where a run starts: the root directory under which applications are
/// discovered.
#[derive(Debug, Clone)]
pub struct Config {
    pub root: String,
}

impl Config {
    /// Starts building a [`Config`].
    pub fn builder() -> (r: ConfigBuilder)
        ensures
            r.root is None,
    {
        ConfigBuilder { root: None }
    }
}

/// Step-by-step construction of a [`Config`].
pub struct ConfigBuilder {
    pub root: Option<String>,
}

impl ConfigBuilder {
    /// Sets the root directory.
    pub fn root(self, root: String) -> (r: Self)
        ensures
            r.root == Some(root),
    {
        ConfigBuilder { root: Some(root) }
    }

    /// Finishes the configuration; a missing root defaults to the current
    /// directory.
    pub fn build(self) -> (r: Result<Config, crate::error::YethError>)
        ensures
            match r {
                Ok(c) => c.root@ == match self.root {
                    Some(p) => p@,
                    None => seq!['.'],
                },
                Err(_) => false,
            },
    {
        proof {
            reveal_strlit(".");
        }
        match self.root {
            Some(p) => Ok(Config { root: p }),
            None => Ok(Config { root: String::from_str(".") }),
        }
    }
}

} // verus!
