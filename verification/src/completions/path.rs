//! Path completion — directory listing, tilde expansion, filtering.
use vstd::prelude::*;
use vstd::std_specs::cmp::PartialEqSpecImpl;
use crate::error::BmError;
use crate::order::{lemma_sort_permutes, lemma_sort_sorted, sort_by_completion, sort_entries, sorted_by_completion};
use crate::store::{lemma_filter_take_step, truncate, views, CompletionEntry, EntryView};
use crate::text::{
    sub_chars, chars_of, ends_with_char, has_prefix, join2, pieces, same_chars, split_pieces, starts_with,
    starts_with_char, string_of, Sep,
};

verus! {

broadcast use {vstd::seq_lib::group_filter_ensures, vstd::seq_lib::group_to_multiset_ensures};

/// A single directory entry returned by [`PathProvider::list_dir`].
#[derive(Debug)]
pub struct DirEntry {
    pub name: String,
    pub is_dir: bool,
}

/// The text and kind of a [`DirEntry`].
pub struct DirEntryView {
    pub name: Seq<char>,
    pub is_dir: bool,
}

impl View for DirEntry {
    type V = DirEntryView;

    open spec fn view(&self) -> DirEntryView {
        DirEntryView { name: self.name@, is_dir: self.is_dir }
    }
}

/// The views of a sequence of directory entries.
pub open spec fn dir_views(s: Seq<DirEntry>) -> Seq<DirEntryView> {
    s.map_values(|e: DirEntry| e@)
}

impl Clone for DirEntry {
    fn clone(&self) -> (r: Self)
        ensures
            r@ == self@,
    {
        DirEntry { name: self.name.clone(), is_dir: self.is_dir }
    }
}

impl PartialEq for DirEntry {
    fn eq(&self, other: &Self) -> (r: bool) {
        self.name == other.name && self.is_dir == other.is_dir
    }
}

impl PartialEqSpecImpl for DirEntry {
    open spec fn obeys_eq_spec() -> bool {
        true
    }

    open spec fn eq_spec(&self, other: &Self) -> bool {
        self@ == other@
    }
}

impl Eq for DirEntry {

}

/// Abstraction over filesystem operations needed by path completion.
///
/// Implementations provide directory listing, existence checks, and home
/// directory resolution.
pub trait PathProvider {
    /// List entries in a directory. Returns an error if the directory
    /// cannot be read (does not exist, permission denied, etc.).
    fn list_dir(&self, dir: &str) -> Result<Vec<DirEntry>, BmError>;

    /// Check whether a path exists.
    fn path_exists(&self, path: &str) -> bool;

    /// Check whether a path is a directory.
    fn is_dir(&self, path: &str) -> bool;

    /// Return the user's home directory, if known.
    fn home_dir(&self) -> Option<String>;
}

// ── Path identity ─────────────────────────────────────────────────

/// A single `.` component.
pub open spec fn is_dot(p: Seq<char>) -> bool {
    p == seq!['.']
}

/// Pieces other than `.`.
pub open spec fn not_dot() -> spec_fn(Seq<char>) -> bool {
    |p: Seq<char>| !is_dot(p)
}

/// The components of a path after its root: the non-empty `/`-separated pieces,
/// without `.` pieces except a leading `.` of a relative path.
pub open spec fn normal_components(s: Seq<char>) -> Seq<Seq<char>> {
    let ps = pieces(s, Sep::Slash);
    if !starts_with_char(s, '/') && ps.len() > 0 && is_dot(ps[0]) {
        seq![ps[0]] + ps.drop_first().filter(not_dot())
    } else {
        ps.filter(not_dot())
    }
}

/// Two paths name the same place, compared component by component as `Path` does.
pub open spec fn same_path(a: Seq<char>, b: Seq<char>) -> bool {
    starts_with_char(a, '/') == starts_with_char(b, '/') && normal_components(a)
        == normal_components(b)
}

/// Drops the `.` pieces of `ps`.
fn drop_dots(ps: &[Vec<char>]) -> (r: Vec<Vec<char>>)
    ensures
        r.deep_view() == ps.deep_view().filter(not_dot()),
{
    let ghost all = ps.deep_view();
    let mut out: Vec<Vec<char>> = Vec::new();
    let n = ps.len();
    for i in 0..n
        invariant
            n == ps@.len(),
            all == ps.deep_view(),
            out.deep_view() == all.take(i as int).filter(not_dot()),
    {
        proof {
            lemma_filter_take_step(all, not_dot(), i as int);
        }
        let p = &ps[i];
        let dot = p.len() == 1 && p[0] == '.';
        assert(dot == is_dot(all[i as int])) by {
            assert(all[i as int] == p@);
            if p@.len() == 1 && p@[0] == '.' {
                assert(p@ =~= seq!['.']);
            }
        }
        if !dot {
            let ghost before = out.deep_view();
            let q = p.clone();
            assert(q.deep_view() =~= q@);
            out.push(q);
            assert(out.deep_view() =~= before.push(all[i as int]));
        }
    }
    assert(all.take(n as int) =~= all);
    out
}

/// The components of `s` after its root.
fn components_of(s: &[char]) -> (r: Vec<Vec<char>>)
    ensures
        r.deep_view() == normal_components(s@),
{
    let ps = split_pieces(s, Sep::Slash);
    let rooted = s.len() > 0 && s[0] == '/';
    if !rooted && ps.len() > 0 && ps[0].len() == 1 && ps[0][0] == '.' {
        let ghost all = ps.deep_view();
        assert(all[0] =~= seq!['.']);
        let mut rest: Vec<Vec<char>> = Vec::new();
        let n = ps.len();
        for i in 1..n
            invariant
                n == ps@.len(),
                all == ps.deep_view(),
                rest.deep_view() == all.drop_first().take(i - 1),
        {
            let ghost before = rest.deep_view();
            let q = ps[i].clone();
            assert(q.deep_view() =~= q@);
            rest.push(q);
            assert(rest.deep_view() =~= before.push(all[i as int]));
            assert(all.drop_first().take(i as int) =~= all.drop_first().take(i - 1).push(
                all[i as int],
            ));
        }
        assert(all.drop_first().take(n - 1) =~= all.drop_first());
        let tail = drop_dots(rest.as_slice());
        let mut out: Vec<Vec<char>> = Vec::new();
        let first = ps[0].clone();
        assert(first.deep_view() =~= first@);
        out.push(first);
        let m = tail.len();
        for j in 0..m
            invariant
                m == tail@.len(),
                out.deep_view() == seq![all[0]] + tail.deep_view().take(j as int),
        {
            let ghost before = out.deep_view();
            let q = tail[j].clone();
            assert(q.deep_view() =~= q@);
            out.push(q);
            assert(out.deep_view() =~= before.push(tail.deep_view()[j as int]));
            assert(tail.deep_view().take(j + 1) =~= tail.deep_view().take(j as int).push(
                tail.deep_view()[j as int],
            ));
        }
        assert(tail.deep_view().take(m as int) =~= tail.deep_view());
        out
    } else {
        proof {
            if !rooted && ps@.len() > 0 {
                let p0 = ps.deep_view()[0];
                if is_dot(p0) {
                    assert(p0.len() == 1 && p0[0] == '.');
                }
            }
        }
        drop_dots(ps.as_slice())
    }
}

/// Whether two component lists are equal.
fn same_components(a: &[Vec<char>], b: &[Vec<char>]) -> (r: bool)
    ensures
        r == (a.deep_view() == b.deep_view()),
{
    if a.len() != b.len() {
        assert(a.deep_view().len() != b.deep_view().len());
        return false;
    }
    let n = a.len();
    for i in 0..n
        invariant
            n == a@.len(),
            n == b@.len(),
            a.deep_view().take(i as int) == b.deep_view().take(i as int),
    {
        assert(a@[i as int].deep_view() =~= a@[i as int]@);
        assert(b@[i as int].deep_view() =~= b@[i as int]@);
        if !same_chars(a[i].as_slice(), b[i].as_slice()) {
            assert(a.deep_view()[i as int] != b.deep_view()[i as int]);
            return false;
        }
        assert(a.deep_view().take(i + 1) =~= a.deep_view().take(i as int).push(
            a.deep_view()[i as int],
        ));
        assert(b.deep_view().take(i + 1) =~= b.deep_view().take(i as int).push(
            b.deep_view()[i as int],
        ));
    }
    assert(a.deep_view().take(n as int) =~= a.deep_view());
    assert(b.deep_view().take(n as int) =~= b.deep_view());
    true
}

/// Whether `a` and `b` name the same path.
pub fn paths_equal(a: &str, b: &str) -> (r: bool)
    ensures
        r == same_path(a@, b@),
{
    let ca = chars_of(a);
    let cb = chars_of(b);
    let ra = ca.len() > 0 && ca[0] == '/';
    let rb = cb.len() > 0 && cb[0] == '/';
    if ra != rb {
        return false;
    }
    let xa = components_of(ca.as_slice());
    let xb = components_of(cb.as_slice());
    same_components(xa.as_slice(), xb.as_slice())
}

// ── Mock provider ─────────────────────────────────────────────────

/// In-memory [`PathProvider`]: a list of directories with their entries, and an
/// optional home directory.
pub struct MockPathProvider {
    pub entries: Vec<(String, Vec<DirEntry>)>,
    pub home: Option<String>,
}

/// The directory and listing of one row of a mock provider.
pub open spec fn mock_row(row: (String, Vec<DirEntry>)) -> (Seq<char>, Seq<DirEntryView>) {
    (row.0@, dir_views(row.1@))
}

/// The listing recorded for the first row whose directory is the same path as `dir`.
pub open spec fn mock_lookup(rows: Seq<(Seq<char>, Seq<DirEntryView>)>, dir: Seq<char>) -> Option<
    Seq<DirEntryView>,
>
    decreases rows.len(),
{
    if rows.len() == 0 {
        None
    } else if same_path(rows[0].0, dir) {
        Some(rows[0].1)
    } else {
        mock_lookup(rows.drop_first(), dir)
    }
}

impl MockPathProvider {
    /// The rows of the provider.
    pub open spec fn rows(&self) -> Seq<(Seq<char>, Seq<DirEntryView>)> {
        self.entries@.map_values(|row: (String, Vec<DirEntry>)| mock_row(row))
    }

    /// The index of the first row for `dir`, if any.
    fn find(&self, dir: &str) -> (r: Option<usize>)
        ensures
            match r {
                Some(i) => i < self.entries@.len() && mock_lookup(self.rows(), dir@) == Some(
                    self.rows()[i as int].1,
                ),
                None => mock_lookup(self.rows(), dir@) is None,
            },
    {
        let ghost rows = self.rows();
        assert(rows.skip(0) =~= rows);
        let n = self.entries.len();
        for i in 0..n
            invariant
                n == self.entries@.len(),
                rows == self.rows(),
                mock_lookup(rows, dir@) == mock_lookup(rows.skip(i as int), dir@),
        {
            assert(rows.skip(i as int)[0] == rows[i as int]);
            assert(rows.skip(i as int).drop_first() =~= rows.skip(i + 1));
            if paths_equal(self.entries[i].0.as_str(), dir) {
                return Some(i);
            }
        }
        assert(rows.skip(n as int).len() == 0);
        None
    }
}

impl PathProvider for MockPathProvider {
    fn list_dir(&self, dir: &str) -> (r: Result<Vec<DirEntry>, BmError>)
        ensures
            match mock_lookup(self.rows(), dir@) {
                Some(listing) => r is Ok && dir_views(r->Ok_0@) == listing,
                None => r is Err,
            },
    {
        match self.find(dir) {
            Some(i) => {
                let src = &self.entries[i].1;
                let mut out: Vec<DirEntry> = Vec::new();
                let n = src.len();
                for k in 0..n
                    invariant
                        n == src@.len(),
                        dir_views(out@) == dir_views(src@).take(k as int),
                {
                    let ghost before = dir_views(out@);
                    out.push(src[k].clone());
                    assert(dir_views(out@) =~= before.push(src@[k as int]@));
                    assert(dir_views(src@).take(k + 1) =~= dir_views(src@).take(k as int).push(
                        src@[k as int]@,
                    ));
                }
                assert(dir_views(src@).take(n as int) =~= dir_views(src@));
                Ok(out)
            },
            None => {
                let a = chars_of("no such directory: ");
                let b = chars_of(dir);
                let m = join2(a.as_slice(), b.as_slice());
                Err(BmError::Io(string_of(m.as_slice())))
            },
        }
    }

    fn path_exists(&self, path: &str) -> (r: bool)
        ensures
            r == mock_lookup(self.rows(), path@) is Some,
    {
        self.find(path).is_some()
    }

    fn is_dir(&self, path: &str) -> (r: bool)
        ensures
            r == mock_lookup(self.rows(), path@) is Some,
    {
        self.find(path).is_some()
    }

    fn home_dir(&self) -> (r: Option<String>)
        ensures
            r == self.home,
    {
        match &self.home {
            Some(h) => Some(h.clone()),
            None => None,
        }
    }
}

// ── Path completion ───────────────────────────────────────────────

/// The text view of an optional string.
pub open spec fn opt_view(o: Option<String>) -> Option<Seq<char>> {
    match o {
        Some(s) => Some(s@),
        None => None,
    }
}

/// `prefix` with a leading `~` replaced by the home directory, when one is known.
pub open spec fn expand_home(prefix: Seq<char>, home: Option<Seq<char>>) -> Seq<char> {
    if starts_with_char(prefix, '~') && home is Some {
        home->0 + prefix.drop_first()
    } else {
        prefix
    }
}

/// The index of the last `/` of `s`, or -1 when there is none.
pub open spec fn last_slash(s: Seq<char>) -> int
    decreases s.len(),
{
    if s.len() == 0 {
        -1
    } else if s.last() == '/' {
        s.len() - 1
    } else {
        last_slash(s.drop_last())
    }
}

/// The directory to list, the filter on names and the text put before each name:
///   `"src/"` lists `src/` unfiltered, `"src/ma"` lists `src/` filtered by `"ma"`,
///   `"fo"` lists `.` filtered by `"fo"`.
pub open spec fn request_for(p: Seq<char>) -> (Seq<char>, Seq<char>, Seq<char>) {
    if ends_with_char(p, '/') {
        (p, seq![], p)
    } else if last_slash(p) >= 0 {
        let k = last_slash(p);
        (p.take(k + 1), p.skip(k + 1), p.take(k + 1))
    } else {
        (seq!['.'], p, seq![])
    }
}

/// What to list for a path prefix, and how to present what is found.
#[derive(Debug)]
pub struct PathRequest {
    /// The directory to list.
    pub dir: String,
    /// The filter on entry names.
    pub file_prefix: String,
    /// The text put before each entry name.
    pub base: String,
}

/// The text of a [`PathRequest`].
pub open spec fn request_view(r: PathRequest) -> (Seq<char>, Seq<char>, Seq<char>) {
    (r.dir@, r.file_prefix@, r.base@)
}

/// The index of the last `/` of `v`, if any.
fn find_last_slash(v: &[char]) -> (r: Option<usize>)
    ensures
        match r {
            Some(k) => k < v@.len() && last_slash(v@) == k,
            None => last_slash(v@) == -1,
        },
{
    let mut i = v.len();
    assert(v@.take(i as int) =~= v@);
    while i > 0
        invariant
            i <= v@.len(),
            last_slash(v@) == last_slash(v@.take(i as int)),
        decreases i,
    {
        assert(v@.take(i as int).drop_last() =~= v@.take(i - 1));
        if v[i - 1] == '/' {
            return Some(i - 1);
        }
        i = i - 1;
    }
    assert(v@.take(0) =~= Seq::<char>::empty());
    None
}

/// Works out what to list for `prefix`, expanding a leading `~` with `home`.
pub fn path_request(prefix: &str, home: Option<String>) -> (r: PathRequest)
    ensures
        request_view(r) == request_for(expand_home(prefix@, opt_view(home))),
{
    let p = chars_of(prefix);
    let ghost e = expand_home(prefix@, opt_view(home));
    let x: Vec<char> = if p.len() > 0 && p[0] == '~' {
        match home {
            Some(h) => {
                let hc = chars_of(h.as_str());
                let rest = sub_chars(p.as_slice(), 1, p.len());
                assert(rest@ =~= p@.drop_first());
                join2(hc.as_slice(), rest.as_slice())
            },
            None => p,
        }
    } else {
        p
    };
    assert(x@ == e);
    if x.len() > 0 && x[x.len() - 1] == '/' {
        let d = string_of(x.as_slice());
        let b = string_of(x.as_slice());
        PathRequest { dir: d, file_prefix: String::new(), base: b }
    } else {
        match find_last_slash(x.as_slice()) {
            Some(k) => {
                let dir_part = sub_chars(x.as_slice(), 0, k + 1);
                let name_part = sub_chars(x.as_slice(), k + 1, x.len());
                assert(dir_part@ =~= x@.take(k + 1));
                assert(name_part@ =~= x@.skip(k + 1));
                PathRequest {
                    dir: string_of(dir_part.as_slice()),
                    file_prefix: string_of(name_part.as_slice()),
                    base: string_of(dir_part.as_slice()),
                }
            },
            None => {
                let mut dot = String::new();
                dot.push('.');
                assert(dot@ =~= seq!['.']);
                PathRequest { dir: dot, file_prefix: string_of(x.as_slice()), base: String::new() }
            },
        }
    }
}

/// The directory entries offered for a filter: hidden names only when the filter
/// starts with `.`, names starting with the filter, and only directories when asked.
pub open spec fn keeps(file_prefix: Seq<char>, dirs_only: bool) -> spec_fn(DirEntryView) -> bool {
    |e: DirEntryView|
        (!starts_with_char(e.name, '.') || starts_with_char(file_prefix, '.')) && (file_prefix.len()
            == 0 || has_prefix(e.name, file_prefix)) && (!dirs_only || e.is_dir)
}

/// The completion offered for a directory entry: the base, the name, and `/` after
/// a directory.
pub open spec fn render(e: DirEntryView, base: Seq<char>) -> EntryView {
    EntryView {
        command: seq![],
        completion: base + e.name + (if e.is_dir {
            seq!['/']
        } else {
            seq![]
        }),
        description: if e.is_dir {
            "directory"@
        } else {
            "file"@
        },
        source: "path"@,
    }
}

/// [`render`] with a fixed base.
pub open spec fn renderer(base: Seq<char>) -> spec_fn(DirEntryView) -> EntryView {
    |e: DirEntryView| render(e, base)
}

/// The completions for a directory listing: the first `limit` entries kept by the
/// filter, rendered, sorted by completion text.
pub open spec fn path_results_spec(
    entries: Seq<DirEntryView>,
    file_prefix: Seq<char>,
    base: Seq<char>,
    limit: nat,
    dirs_only: bool,
) -> Seq<EntryView> {
    sort_by_completion(
        truncate(entries.filter(keeps(file_prefix, dirs_only)), limit).map_values(renderer(base)),
    )
}

/// Path completions for `prefix`, given the home directory the provider reported
/// (asked only for a `~` prefix) and the listing of the requested directory (`None`
/// when it could not be read).
pub open spec fn path_outcome(
    prefix: Seq<char>,
    home: Option<Seq<char>>,
    listing: Option<Seq<DirEntryView>>,
    limit: nat,
    dirs_only: bool,
) -> Seq<EntryView> {
    match listing {
        None => seq![],
        Some(l) => {
            let req = request_for(expand_home(prefix, home));
            path_results_spec(l, req.1, req.2, limit, dirs_only)
        },
    }
}

/// Whether the entry is offered for the filter.
fn entry_kept(e: &DirEntry, file_prefix: &[char], dirs_only: bool) -> (r: bool)
    ensures
        r == keeps(file_prefix@, dirs_only)(e@),
{
    let name = chars_of(e.name.as_str());
    let hidden = name.len() > 0 && name[0] == '.';
    let dot_filter = file_prefix.len() > 0 && file_prefix[0] == '.';
    if hidden && !dot_filter {
        return false;
    }
    if file_prefix.len() > 0 && !starts_with(name.as_slice(), file_prefix) {
        return false;
    }
    !dirs_only || e.is_dir
}

/// The completion for one directory entry.
fn render_entry(e: &DirEntry, base: &[char]) -> (r: CompletionEntry)
    ensures
        r@ == render(e@, base@),
{
    let name = chars_of(e.name.as_str());
    let mut text = join2(base, name.as_slice());
    if e.is_dir {
        text.push('/');
    }
    assert(text@ =~= render(e@, base@).completion);
    CompletionEntry {
        command: String::new(),
        completion: string_of(text.as_slice()),
        description: if e.is_dir {
            "directory".to_owned()
        } else {
            "file".to_owned()
        },
        source: "path".to_owned(),
    }
}

/// One more element before truncation.
proof fn lemma_truncate_push<A>(f: Seq<A>, x: A, limit: nat)
    ensures
        truncate(f.push(x), limit) == (if f.len() < limit {
            f.push(x)
        } else {
            truncate(f, limit)
        }),
{
    if f.len() >= limit {
        assert(f.push(x).take(limit as int) =~= f.take(limit as int));
    }
}

/// The completions for the listing `entries` of the directory that `req` names.
pub fn path_results(entries: &[DirEntry], req: &PathRequest, limit: usize, dirs_only: bool) -> (r: Vec<
    CompletionEntry,
>)
    ensures
        views(r@) == path_results_spec(
            dir_views(entries@),
            req.file_prefix@,
            req.base@,
            limit as nat,
            dirs_only,
        ),
{
    let ghost all = dir_views(entries@);
    let ghost keep = keeps(req.file_prefix@, dirs_only);
    let ghost rend = renderer(req.base@);
    let fp = chars_of(req.file_prefix.as_str());
    let base = chars_of(req.base.as_str());
    let mut out: Vec<CompletionEntry> = Vec::new();
    let n = entries.len();
    for i in 0..n
        invariant
            n == entries@.len(),
            all == dir_views(entries@),
            keep == keeps(req.file_prefix@, dirs_only),
            rend == renderer(req.base@),
            fp@ == req.file_prefix@,
            base@ == req.base@,
            views(out@) == truncate(all.take(i as int).filter(keep), limit as nat).map_values(rend),
            out@.len() <= limit,
    {
        let ghost f = all.take(i as int).filter(keep);
        proof {
            lemma_filter_take_step(all, keep, i as int);
            lemma_truncate_push(f, all[i as int], limit as nat);
        }
        let e = &entries[i];
        if entry_kept(e, fp.as_slice(), dirs_only) {
            if out.len() < limit {
                let ghost before = views(out@);
                let c = render_entry(e, base.as_slice());
                assert(before.len() == out@.len());
                assert(truncate(f, limit as nat).map_values(rend).len() == truncate(
                    f,
                    limit as nat,
                ).len());
                proof {
                    if f.len() > limit {
                        assert(truncate(f, limit as nat).len() == limit);
                    }
                }
                assert(truncate(f, limit as nat) == f);
                assert(c@ == rend(all[i as int]));
                out.push(c);
                let ghost x = all[i as int];
                assert(truncate(f.push(x), limit as nat) == f.push(x));
                assert(f.push(x).map_values(rend) =~= f.map_values(rend).push(rend(x)));
                assert(views(out@) =~= before.push(c@));
                assert(views(out@) =~= truncate(f.push(x), limit as nat).map_values(rend));
            }
        }
    }
    assert(all.take(n as int) =~= all);
    sort_entries(out)
}

/// The provider's own `home_dir`.
pub(crate) fn home_dir_of<P: PathProvider>(paths: &P) -> (r: Option<String>)
    ensures
        call_ensures(P::home_dir, (paths,), r),
{
    let home_dir = P::home_dir;
    home_dir(paths)
}

/// The provider's own `list_dir`.
pub(crate) fn list_dir_of<P: PathProvider>(paths: &P, dir: &str) -> (r: Result<
    Vec<DirEntry>,
    BmError,
>)
    ensures
        call_ensures(P::list_dir, (paths, dir), r),
{
    let list_dir = P::list_dir;
    list_dir(paths, dir)
}

/// The listing that a `list_dir` answer gives: its entries, or none when it failed.
pub open spec fn listing_of(listed: Result<Vec<DirEntry>, BmError>) -> Option<Seq<DirEntryView>> {
    match listed {
        Ok(entries) => Some(dir_views(entries@)),
        Err(_) => None,
    }
}

/// `out` is what path completion of `prefix` gives with `paths`: the home directory
/// is the provider's `home_dir` answer when the prefix starts with `~`, and unknown
/// otherwise; the directory asked for is the one that the expanded prefix names; and
/// the listing is the provider's `list_dir` answer for it (nothing when that failed).
pub open spec fn path_answer<P: PathProvider>(
    paths: &P,
    prefix: Seq<char>,
    limit: nat,
    dirs_only: bool,
    out: Seq<EntryView>,
) -> bool {
    exists|home: Option<String>, dir: &str, listed: Result<Vec<DirEntry>, BmError>|
        #![trigger call_ensures(P::list_dir, (paths, dir), listed), opt_view(home)]
        {
            &&& if starts_with_char(prefix, '~') {
                call_ensures(P::home_dir, (paths,), home)
            } else {
                home is None
            }
            &&& dir@ == request_for(expand_home(prefix, opt_view(home))).0
            &&& call_ensures(P::list_dir, (paths, dir), listed)
            &&& out == path_outcome(prefix, opt_view(home), listing_of(listed), limit, dirs_only)
        }
}

/// Path completion with progressive directory traversal: lists the directory that
/// the prefix names and offers its entries that match the rest of the prefix.
pub fn path_completions<P: PathProvider>(
    prefix: &str,
    limit: usize,
    dirs_only: bool,
    paths: &P,
) -> (r: Vec<CompletionEntry>)
    ensures
        path_answer(paths, prefix@, limit as nat, dirs_only, views(r@)),
{
    let p = chars_of(prefix);
    let home = if p.len() > 0 && p[0] == '~' {
        home_dir_of(paths)
    } else {
        None
    };
    let ghost h = home;
    let req = path_request(prefix, home);
    let dir = req.dir.as_str();
    let listed = list_dir_of(paths, dir);
    let ghost lg = listed;
    let r = match listed {
        Ok(entries) => path_results(entries.as_slice(), &req, limit, dirs_only),
        Err(_) => Vec::new(),
    };
    proof {
        assert(views(r@) =~= path_outcome(prefix@, opt_view(h), listing_of(lg), limit as nat, dirs_only));
        assert(dir@ == request_for(expand_home(prefix@, opt_view(h))).0);
        if starts_with_char(prefix@, '~') {
            assert(call_ensures(P::home_dir, (paths,), h));
        }
    }
    r
}

/// `x` renders an entry of `entries` that the filter keeps.
pub open spec fn renders_kept(
    entries: Seq<DirEntryView>,
    file_prefix: Seq<char>,
    base: Seq<char>,
    dirs_only: bool,
    x: EntryView,
) -> bool {
    exists|k: int|
        0 <= k < entries.len() && keeps(file_prefix, dirs_only)(#[trigger] entries[k]) && x == render(
            entries[k],
            base,
        )
}

/// Path completions are sorted by completion text and at most `limit` of them; each
/// one renders an entry of the listing that the filter keeps (so hidden entries only
/// for a filter starting with `.`, only directories with `dirs_only`, and a trailing
/// `/` and the description "directory" exactly for directories), from source "path".
pub proof fn lemma_path_results(
    entries: Seq<DirEntryView>,
    file_prefix: Seq<char>,
    base: Seq<char>,
    limit: nat,
    dirs_only: bool,
)
    ensures
        sorted_by_completion(path_results_spec(entries, file_prefix, base, limit, dirs_only)),
        path_results_spec(entries, file_prefix, base, limit, dirs_only).len() <= limit,
        forall|i: int|
            0 <= i < path_results_spec(entries, file_prefix, base, limit, dirs_only).len()
                ==> renders_kept(
                entries,
                file_prefix,
                base,
                dirs_only,
                #[trigger] path_results_spec(entries, file_prefix, base, limit, dirs_only)[i],
            ),
        forall|i: int|
            0 <= i < path_results_spec(entries, file_prefix, base, limit, dirs_only).len()
                ==> (#[trigger] path_results_spec(entries, file_prefix, base, limit, dirs_only)[i]).source
                == "path"@,
{
    let keep = keeps(file_prefix, dirs_only);
    let f = entries.filter(keep);
    let tf = truncate(f, limit);
    let t = tf.map_values(renderer(base));
    let r = path_results_spec(entries, file_prefix, base, limit, dirs_only);
    lemma_sort_sorted(t);
    lemma_sort_permutes(t);
    assert forall|i: int| 0 <= i < r.len() implies renders_kept(
        entries,
        file_prefix,
        base,
        dirs_only,
        #[trigger] r[i],
    ) by {
        assert(r.contains(r[i]));
        assert(t.to_multiset().count(r[i]) > 0);
        assert(t.contains(r[i]));
        let j = choose|j: int| 0 <= j < t.len() && t[j] == r[i];
        assert(tf[j] == f[j]);
        assert(keep(f[j]));
        assert(f.contains(f[j]));
        entries.lemma_filter_contains_rev(keep, f[j]);
        let k = choose|k: int| 0 <= k < entries.len() && entries[k] == f[j];
        assert(r[i] == render(entries[k], base));
    }
    assert forall|i: int| 0 <= i < r.len() implies (#[trigger] r[i]).source == "path"@ by {
        assert(renders_kept(entries, file_prefix, base, dirs_only, r[i]));
        let k = choose|k: int|
            0 <= k < entries.len() && keeps(file_prefix, dirs_only)(entries[k]) && r[i] == render(
                entries[k],
                base,
            );
    }
}


/// `last_slash` finds the last `/`: there is none after it.
proof fn lemma_last_slash(s: Seq<char>)
    ensures
        -1 <= last_slash(s) < s.len(),
        last_slash(s) >= 0 ==> s[last_slash(s)] == '/',
        forall|j: int| last_slash(s) < j < s.len() ==> s[j] != '/',
    decreases s.len(),
{
    if s.len() > 0 && s.last() != '/' {
        lemma_last_slash(s.drop_last());
        assert forall|j: int| last_slash(s) < j < s.len() implies s[j] != '/' by {
            if j < s.len() - 1 {
                assert(s[j] == s.drop_last()[j]);
            }
        }
    }
}

/// A path prefix is split into the text put before each offered name and the
/// filter on names: the two make up the prefix again, the filter holds no `/`, the
/// text before ends with `/` (or is empty), and the directory listed is that text,
/// or `.` when it is empty.
pub proof fn lemma_request_splits_prefix(p: Seq<char>)
    ensures
        ({
            let (dir, file_prefix, base) = request_for(p);
            &&& base + file_prefix == p
            &&& !file_prefix.contains('/')
            &&& base.len() == 0 || base.last() == '/'
            &&& dir == (if base.len() == 0 {
                seq!['.']
            } else {
                base
            })
        }),
{
    lemma_last_slash(p);
    let (dir, fp, base) = request_for(p);
    if ends_with_char(p, '/') {
        assert(base + fp =~= p);
    } else if last_slash(p) >= 0 {
        let k = last_slash(p);
        assert(base + fp =~= p);
        assert forall|i: int| 0 <= i < fp.len() implies fp[i] != '/' by {
            assert(fp[i] == p[k + 1 + i]);
        }
    } else {
        assert(base + fp =~= p);
        assert forall|i: int| 0 <= i < fp.len() implies fp[i] != '/' by {
            assert(fp[i] == p[i]);
        }
    }
}

/// Path completion offers kept entries up to the limit: it gives as many
/// completions as the listing has entries that the filter keeps, but at most
/// `limit`; and when no more than `limit` are kept, each of them is offered.
pub proof fn lemma_path_results_count(
    entries: Seq<DirEntryView>,
    file_prefix: Seq<char>,
    base: Seq<char>,
    limit: nat,
    dirs_only: bool,
)
    ensures
        path_results_spec(entries, file_prefix, base, limit, dirs_only).len() == (if entries.filter(
            keeps(file_prefix, dirs_only),
        ).len() < limit {
            entries.filter(keeps(file_prefix, dirs_only)).len()
        } else {
            limit
        }),
        entries.filter(keeps(file_prefix, dirs_only)).len() <= limit ==> forall|k: int|
            0 <= k < entries.len() && keeps(file_prefix, dirs_only)(#[trigger] entries[k])
                ==> path_results_spec(entries, file_prefix, base, limit, dirs_only).contains(
                render(entries[k], base),
            ),
{
    let keep = keeps(file_prefix, dirs_only);
    let f = entries.filter(keep);
    let tf = truncate(f, limit);
    let t = tf.map_values(renderer(base));
    let r = path_results_spec(entries, file_prefix, base, limit, dirs_only);
    lemma_sort_sorted(t);
    lemma_sort_permutes(t);
    if f.len() <= limit {
        assert forall|k: int|
            0 <= k < entries.len() && keep(#[trigger] entries[k]) implies r.contains(
            render(entries[k], base),
        ) by {
            entries.lemma_filter_contains(keep, k);
            let j = choose|j: int| 0 <= j < f.len() && f[j] == entries[k];
            assert(tf == f);
            assert(t[j] == render(entries[k], base));
            assert(t.to_multiset().count(t[j]) > 0);
            assert(r.to_multiset().count(t[j]) > 0);
        }
    }
}

/// No two rows of a mock provider name the same directory.
pub open spec fn distinct_dirs(rows: Seq<(Seq<char>, Seq<DirEntryView>)>) -> bool {
    forall|i: int, j: int|
        0 <= i < j < rows.len() ==> !same_path(#[trigger] rows[i].0, #[trigger] rows[j].0)
}

/// When no two rows name the same directory, a directory is looked up as in a map:
/// the listing is that of the one row that names it.
pub proof fn lemma_mock_lookup_row(rows: Seq<(Seq<char>, Seq<DirEntryView>)>, dir: Seq<char>, k: int)
    requires
        distinct_dirs(rows),
        0 <= k < rows.len(),
        same_path(rows[k].0, dir),
    ensures
        mock_lookup(rows, dir) == Some(rows[k].1),
    decreases rows.len(),
{
    if k > 0 {
        assert(!same_path(rows[0].0, rows[k].0));
        let d = rows.drop_first();
        assert forall|i: int, j: int| 0 <= i < j < d.len() implies !same_path(
            #[trigger] d[i].0,
            #[trigger] d[j].0,
        ) by {
            assert(d[i] == rows[i + 1] && d[j] == rows[j + 1]);
        }
        assert(d[k - 1] == rows[k]);
        lemma_mock_lookup_row(d, dir, k - 1);
    }
}

/// With the in-memory provider, path completion is exact: the home directory is the
/// provider's (for a `~` prefix), and the listing is the one recorded for the
/// directory that the expanded prefix names, or nothing when none is recorded.
pub proof fn lemma_mock_path_answer(
    paths: &MockPathProvider,
    prefix: Seq<char>,
    limit: nat,
    dirs_only: bool,
    out: Seq<EntryView>,
)
    requires
        path_answer(paths, prefix, limit, dirs_only, out),
    ensures
        ({
            let home = if starts_with_char(prefix, '~') {
                opt_view(paths.home)
            } else {
                None
            };
            out == path_outcome(
                prefix,
                home,
                mock_lookup(paths.rows(), request_for(expand_home(prefix, home)).0),
                limit,
                dirs_only,
            )
        }),
{
    let (h, d, l) = choose|home: Option<String>, dir: &str, listed: Result<Vec<DirEntry>, BmError>|
        #![trigger call_ensures(MockPathProvider::list_dir, (paths, dir), listed), opt_view(home)]
        {
            &&& if starts_with_char(prefix, '~') {
                call_ensures(MockPathProvider::home_dir, (paths,), home)
            } else {
                home is None
            }
            &&& dir@ == request_for(expand_home(prefix, opt_view(home))).0
            &&& call_ensures(MockPathProvider::list_dir, (paths, dir), listed)
            &&& out == path_outcome(prefix, opt_view(home), listing_of(listed), limit, dirs_only)
        };
    match mock_lookup(paths.rows(), d@) {
        Some(listing) => {
            assert(listing_of(l) == Some(listing));
        },
        None => {
            assert(listing_of(l) is None);
        },
    }
}
} // verus!
