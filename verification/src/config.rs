//! Configuration surface of the completion engine.
use vstd::prelude::*;
use crate::text::{chars_of, ends_with_char, join2, string_of};

verus! {

/// The text views of a sequence of strings.
pub open spec fn string_views(s: Seq<String>) -> Seq<Seq<char>> {
    s.map_values(|x: String| x@)
}

/// Trait abstracting the configuration surface needed by the completion engine.
pub trait CompletionConfig {
    /// The configured result limit.
    spec fn spec_max_results(&self) -> usize;

    /// Whether path completions are configured.
    spec fn spec_index_path(&self) -> bool;

    /// The configured fish completion directories.
    spec fn spec_fish_completion_dirs(&self) -> Seq<Seq<char>>;

    /// The configured cache directory.
    spec fn spec_cache_dir(&self) -> Seq<char>;

    /// Maximum number of results to return per query.
    fn max_results(&self) -> (r: usize)
        ensures
            r == self.spec_max_results(),
    ;

    /// Whether to include filesystem path completions.
    fn index_path(&self) -> (r: bool)
        ensures
            r == self.spec_index_path(),
    ;

    /// Directories to scan for fish completion files.
    fn fish_completion_dirs(&self) -> (r: &[String])
        ensures
            string_views(r@) == self.spec_fish_completion_dirs(),
    ;

    /// Base directory for cache artifacts.
    fn cache_dir(&self) -> (r: &str)
        ensures
            r@ == self.spec_cache_dir(),
    ;
}

/// Production configuration.
#[derive(Debug, Clone)]
pub struct Config {
    pub cache_dir: String,
    pub fish_completion_dirs: Vec<String>,
    pub max_results: usize,
    pub index_man_pages: bool,
    pub index_help_flags: bool,
    pub index_path: bool,
}

/// The user's cache directory as the `dirs` crate reports it, converted lossily
/// to text.
#[verifier::external_body]
fn user_cache_dir() -> (r: Option<String>) {
    match dirs::cache_dir() {
        Some(d) => Some(d.to_string_lossy().into_owned()),
        None => None,
    }
}

/// `base` joined with the relative component `name`, as `Path::join` does:
/// a separator is put between them unless `base` is empty or already ends with one.
pub open spec fn join_path(base: Seq<char>, name: Seq<char>) -> Seq<char> {
    if base.len() == 0 || ends_with_char(base, '/') {
        base + name
    } else {
        base + seq!['/'] + name
    }
}

/// The cache directory derived from the user's cache directory, if known.
pub open spec fn cache_dir_for(user_cache: Option<Seq<char>>) -> Seq<char> {
    match user_cache {
        Some(d) => join_path(d, "bm-complete"@),
        None => "$HOME/.cache/bm-complete"@,
    }
}

/// Joins `name` to `base` as a path component.
pub fn path_join(base: &str, name: &str) -> (r: String)
    ensures
        r@ == join_path(base@, name@),
{
    let b = chars_of(base);
    let n = chars_of(name);
    if b.len() == 0 || b[b.len() - 1] == '/' {
        let j = join2(b.as_slice(), n.as_slice());
        string_of(j.as_slice())
    } else {
        let mut bs = b;
        bs.push('/');
        let j = join2(bs.as_slice(), n.as_slice());
        string_of(j.as_slice())
    }
}

/// The text view of an optional string slice.
pub open spec fn opt_str_view(o: Option<&str>) -> Option<Seq<char>> {
    match o {
        Some(s) => Some(s@),
        None => None,
    }
}

/// The cache directory for a given user cache directory: `bm-complete` under it,
/// or `$HOME/.cache/bm-complete` when it is unknown.
pub fn cache_dir_from(user_cache: Option<&str>) -> (r: String)
    ensures
        r@ == cache_dir_for(opt_str_view(user_cache)),
{
    match user_cache {
        Some(d) => path_join(d, "bm-complete"),
        None => "$HOME/.cache/bm-complete".to_owned(),
    }
}

/// The default cache directory: [`cache_dir_from`] the user's cache directory as
/// the `dirs` crate reports it.
pub fn default_cache_dir() -> (r: String)
    ensures
        exists|user_cache: Option<Seq<char>>| r@ == cache_dir_for(user_cache),
{
    let user = user_cache_dir();
    match &user {
        Some(d) => {
            let r = cache_dir_from(Some(d.as_str()));
            assert(r@ == cache_dir_for(Some(d@)));
            r
        },
        None => {
            let r = cache_dir_from(None);
            assert(r@ == cache_dir_for(None));
            r
        },
    }
}

/// The default result limit.
pub fn default_max_results() -> (r: usize)
    ensures
        r == 50,
{
    50
}

/// The default for the boolean switches.
pub fn default_true() -> (r: bool)
    ensures
        r,
{
    true
}

impl Default for Config {
    fn default() -> (r: Self)
        ensures
            exists|user_cache: Option<Seq<char>>| r.cache_dir@ == cache_dir_for(user_cache),
            string_views(r.fish_completion_dirs@) == seq![
                "/usr/share/fish/completions"@,
                "/usr/local/share/fish/completions"@,
            ],
            r.max_results == 50,
            r.index_man_pages,
            r.index_help_flags,
            r.index_path,
    {
        let mut dirs: Vec<String> = Vec::new();
        dirs.push("/usr/share/fish/completions".to_owned());
        dirs.push("/usr/local/share/fish/completions".to_owned());
        assert(string_views(dirs@) =~= seq![
            "/usr/share/fish/completions"@,
            "/usr/local/share/fish/completions"@,
        ]);
        Config {
            cache_dir: default_cache_dir(),
            fish_completion_dirs: dirs,
            max_results: 50,
            index_man_pages: true,
            index_help_flags: true,
            index_path: true,
        }
    }
}

impl CompletionConfig for Config {
    open spec fn spec_max_results(&self) -> usize {
        self.max_results
    }

    open spec fn spec_index_path(&self) -> bool {
        self.index_path
    }

    open spec fn spec_fish_completion_dirs(&self) -> Seq<Seq<char>> {
        string_views(self.fish_completion_dirs@)
    }

    open spec fn spec_cache_dir(&self) -> Seq<char> {
        self.cache_dir@
    }

    fn max_results(&self) -> (r: usize) {
        self.max_results
    }

    fn index_path(&self) -> (r: bool) {
        self.index_path
    }

    fn fish_completion_dirs(&self) -> (r: &[String]) {
        self.fish_completion_dirs.as_slice()
    }

    fn cache_dir(&self) -> (r: &str) {
        self.cache_dir.as_str()
    }
}

/// Lightweight configuration for tests — all fields are public.
#[derive(Debug, Clone)]
pub struct TestConfig {
    pub max_results: usize,
    pub index_path: bool,
    pub fish_completion_dirs: Vec<String>,
    pub cache_dir: String,
}

impl Default for TestConfig {
    fn default() -> (r: Self)
        ensures
            r.max_results == 50,
            r.index_path,
            r.fish_completion_dirs@.len() == 0,
            r.cache_dir@ == "/tmp/bm-complete-test"@,
    {
        TestConfig {
            max_results: 50,
            index_path: true,
            fish_completion_dirs: Vec::new(),
            cache_dir: "/tmp/bm-complete-test".to_owned(),
        }
    }
}

impl CompletionConfig for TestConfig {
    open spec fn spec_max_results(&self) -> usize {
        self.max_results
    }

    open spec fn spec_index_path(&self) -> bool {
        self.index_path
    }

    open spec fn spec_fish_completion_dirs(&self) -> Seq<Seq<char>> {
        string_views(self.fish_completion_dirs@)
    }

    open spec fn spec_cache_dir(&self) -> Seq<char> {
        self.cache_dir@
    }

    fn max_results(&self) -> (r: usize) {
        self.max_results
    }

    fn index_path(&self) -> (r: bool) {
        self.index_path
    }

    fn fish_completion_dirs(&self) -> (r: &[String]) {
        self.fish_completion_dirs.as_slice()
    }

    fn cache_dir(&self) -> (r: &str) {
        self.cache_dir.as_str()
    }
}

} // verus!
