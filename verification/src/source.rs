//! Completion sources, and the reader of fish completion files.
use vstd::prelude::*;
use crate::config::string_views;
use crate::error::BmError;
use crate::store::{views, CompletionEntry, EntryView};
use crate::text::{
    chars_of, has_prefix, join2, pieces, same_chars, split_pieces, split_words, starts_with,
    string_of, sub_chars, trim, trim_char, trim_matching, trim_ws, words, Sep,
};

verus! {

/// Pluggable completion source — each implementation knows how to
/// extract completions from one system (fish, man, --help, etc.).
pub trait CompletionSource {
    /// Human-readable name for this source.
    fn name(&self) -> &str;

    /// Extract all completion entries from this source.
    fn entries(&self) -> Result<Vec<CompletionEntry>, BmError>;
}

/// The directories where fish keeps completion files, in the order they are
/// searched; which of them exist is for the caller to find out.
pub fn fish_dir_candidates() -> (r: Vec<String>)
    ensures
        string_views(r@) == seq![
            "/usr/share/fish/completions"@,
            "/usr/local/share/fish/completions"@,
            "/opt/homebrew/share/fish/completions"@,
        ],
{
    let mut dirs: Vec<String> = Vec::new();
    dirs.push("/usr/share/fish/completions".to_owned());
    dirs.push("/usr/local/share/fish/completions".to_owned());
    dirs.push("/opt/homebrew/share/fish/completions".to_owned());
    assert(string_views(dirs@) =~= seq![
        "/usr/share/fish/completions"@,
        "/usr/local/share/fish/completions"@,
        "/opt/homebrew/share/fish/completions"@,
    ]);
    dirs
}

/// The source's own `entries`.
pub(crate) fn entries_of<Src: CompletionSource>(src: &Src) -> (r: Result<
    Vec<CompletionEntry>,
    BmError,
>)
    ensures
        call_ensures(Src::entries, (src,), r),
{
    let entries = Src::entries;
    entries(src)
}

/// All the entries of the answers, in order.
pub open spec fn all_entries(answers: Seq<Vec<CompletionEntry>>) -> Seq<CompletionEntry>
    decreases answers.len(),
{
    if answers.len() == 0 {
        seq![]
    } else {
        all_entries(answers.drop_last()) + answers.last()@
    }
}

/// One more answer adds its entries at the end.
pub proof fn lemma_all_entries_push(answers: Seq<Vec<CompletionEntry>>, v: Vec<CompletionEntry>)
    ensures
        all_entries(answers.push(v)) == all_entries(answers) + v@,
{
    assert(answers.push(v).drop_last() =~= answers);
}

/// Completion source that hands out fixed entries.
pub struct MockSource {
    pub name: String,
    pub data: Vec<CompletionEntry>,
}

/// Copies the entries.
pub fn clone_entries(v: &[CompletionEntry]) -> (r: Vec<CompletionEntry>)
    ensures
        views(r@) == views(v@),
{
    let mut out: Vec<CompletionEntry> = Vec::new();
    let n = v.len();
    for i in 0..n
        invariant
            n == v@.len(),
            views(out@) == views(v@).take(i as int),
    {
        let ghost before = views(out@);
        out.push(v[i].clone());
        assert(views(out@) =~= before.push(v@[i as int]@));
        assert(views(v@).take(i + 1) =~= views(v@).take(i as int).push(v@[i as int]@));
    }
    assert(views(v@).take(n as int) =~= views(v@));
    out
}

impl CompletionSource for MockSource {
    fn name(&self) -> (r: &str)
        ensures
            r@ == self.name@,
    {
        self.name.as_str()
    }

    fn entries(&self) -> (r: Result<Vec<CompletionEntry>, BmError>)
        ensures
            r is Ok,
            views(r->Ok_0@) == views(self.data@),
    {
        Ok(clone_entries(self.data.as_slice()))
    }
}

// ── File names ────────────────────────────────────────────────────

/// The index of the last `.` of `s`, or -1 when there is none.
pub open spec fn last_dot(s: Seq<char>) -> int
    decreases s.len(),
{
    if s.len() == 0 {
        -1
    } else if s.last() == '.' {
        s.len() - 1
    } else {
        last_dot(s.drop_last())
    }
}

/// The stem of a file name, as `Path::file_stem` gives it: the name before its last
/// `.`, or the whole name when that `.` is the first character, absent, or the name is `..`.
pub open spec fn file_stem(name: Seq<char>) -> Seq<char> {
    if name == ".."@ || last_dot(name) <= 0 {
        name
    } else {
        name.take(last_dot(name))
    }
}

/// The extension of a file name, as `Path::extension` gives it.
pub open spec fn file_extension(name: Seq<char>) -> Option<Seq<char>> {
    if name == ".."@ || last_dot(name) <= 0 {
        None
    } else {
        Some(name.skip(last_dot(name) + 1))
    }
}

/// The index of the last `.` of `v`, if any.
fn find_last_dot(v: &[char]) -> (r: Option<usize>)
    ensures
        match r {
            Some(k) => k < v@.len() && last_dot(v@) == k,
            None => last_dot(v@) == -1,
        },
{
    let mut i = v.len();
    assert(v@.take(i as int) =~= v@);
    while i > 0
        invariant
            i <= v@.len(),
            last_dot(v@) == last_dot(v@.take(i as int)),
        decreases i,
    {
        assert(v@.take(i as int).drop_last() =~= v@.take(i - 1));
        if v[i - 1] == '.' {
            return Some(i - 1);
        }
        i = i - 1;
    }
    assert(v@.take(0) =~= Seq::<char>::empty());
    None
}

/// Whether a file is a fish completion file: its extension is `fish`.
pub fn is_fish_file(file_name: &str) -> (r: bool)
    ensures
        r == (file_extension(file_name@) == Some("fish"@)),
{
    let n = chars_of(file_name);
    if same_chars(n.as_slice(), chars_of("..").as_slice()) {
        return false;
    }
    match find_last_dot(n.as_slice()) {
        Some(k) => {
            if k == 0 {
                return false;
            }
            assert(k < n.len());
            let ext = sub_chars(n.as_slice(), k + 1, n.len());
            assert(ext@ =~= n@.skip(k + 1));
            same_chars(ext.as_slice(), chars_of("fish").as_slice())
        },
        None => false,
    }
}

/// The command a fish completion file completes: the stem of its name, when it is
/// not empty.
pub fn fish_command_for(file_name: &str) -> (r: Option<String>)
    ensures
        match r {
            Some(c) => c@ == file_stem(file_name@) && c@.len() > 0,
            None => file_stem(file_name@).len() == 0,
        },
{
    let n = chars_of(file_name);
    let stem = if same_chars(n.as_slice(), chars_of("..").as_slice()) {
        n
    } else {
        match find_last_dot(n.as_slice()) {
            Some(k) => {
                if k == 0 {
                    n
                } else {
                    let s = sub_chars(n.as_slice(), 0, k);
                    assert(s@ =~= n@.take(k as int));
                    s
                }
            },
            None => n,
        }
    };
    if stem.len() == 0 {
        None
    } else {
        Some(string_of(stem.as_slice()))
    }
}

// ── Fish completion lines ─────────────────────────────────────────

/// An entry read from a fish completion file.
pub open spec fn fish_entry(command: Seq<char>, completion: Seq<char>, description: Seq<char>) -> EntryView {
    EntryView { command, completion, description, source: "fish"@ }
}

/// The entry for one `-a` argument value.
pub open spec fn arg_entry(command: Seq<char>) -> spec_fn(Seq<char>) -> EntryView {
    |v: Seq<char>| fish_entry(command, v, seq![])
}

/// The words joined with single spaces, as `join(" ")` gives them.
pub open spec fn join_with_spaces(ps: Seq<Seq<char>>) -> Seq<char>
    decreases ps.len(),
{
    if ps.len() == 0 {
        seq![]
    } else if ps.len() == 1 {
        ps[0]
    } else {
        join_with_spaces(ps.drop_last()) + seq![' '] + ps.last()
    }
}

/// The index of the first `c` in `s`, or -1 when there is none.
pub open spec fn first_index_of(s: Seq<char>, c: char) -> int
    decreases s.len(),
{
    if s.len() == 0 {
        -1
    } else if s[0] == c {
        0
    } else {
        let k = first_index_of(s.drop_first(), c);
        if k < 0 {
            -1
        } else {
            k + 1
        }
    }
}

/// A quote character that may open a description.
pub open spec fn is_quote(c: char) -> bool {
    c == '\'' || c == '"'
}

/// The description given by the words from `k` on: when they start with a quote,
/// the text up to the next matching quote (or `previous` when it is not closed);
/// otherwise the single word at `k`.
pub open spec fn description_at(parts: Seq<Seq<char>>, k: int, previous: Seq<char>) -> Seq<char> {
    let rest = join_with_spaces(parts.skip(k));
    if rest.len() > 0 && is_quote(rest[0]) {
        let inner = rest.drop_first();
        let end = first_index_of(inner, rest[0]);
        if end >= 0 {
            inner.take(end)
        } else {
            previous
        }
    } else {
        parts[k]
    }
}

/// The first `q` after a text without `q` is the one right after it.
proof fn lemma_first_index_after(text: Seq<char>, q: char, after: Seq<char>)
    requires
        !text.contains(q),
    ensures
        first_index_of(text + seq![q] + after, q) == text.len(),
    decreases text.len(),
{
    let s = text + seq![q] + after;
    if text.len() == 0 {
        assert(s[0] == q);
    } else {
        assert(s[0] == text[0]);
        assert(text[0] != q) by {
            assert(text.contains(text[0]));
        }
        let d = text.drop_first();
        assert(!d.contains(q)) by {
            if d.contains(q) {
                let i = choose|i: int| 0 <= i < d.len() && d[i] == q;
                assert(text[i + 1] == q);
            }
        }
        assert(s.drop_first() =~= d + seq![q] + after);
        lemma_first_index_after(d, q, after);
    }
}

/// A description that opens with a single or a double quote and closes it again is
/// the text between the two quotes, whatever follows.
pub proof fn lemma_quoted_description(
    parts: Seq<Seq<char>>,
    k: int,
    previous: Seq<char>,
    q: char,
    text: Seq<char>,
    after: Seq<char>,
)
    requires
        q == '\'' || q == '"',
        !text.contains(q),
        join_with_spaces(parts.skip(k)) == seq![q] + text + seq![q] + after,
    ensures
        description_at(parts, k, previous) == text,
{
    let rest = join_with_spaces(parts.skip(k));
    assert(rest[0] == q);
    assert(rest.drop_first() =~= text + seq![q] + after);
    lemma_first_index_after(text, q, after);
    assert((text + seq![q] + after).take(text.len() as int) =~= text);
}

/// The values of an `-a` argument: the word without surrounding `'` and then `"`,
/// split at whitespace.
pub open spec fn argument_values(part: Seq<char>) -> Seq<Seq<char>> {
    words(trim_char(trim_char(part, '\''), '"'))
}

/// Reads the words of a `complete` line from index `i` on, with the flag, the
/// description and the argument entries found so far: `-s x` and `-l x` set the
/// flag to `-x` / `--x`, `-a v` adds entries for the values of `v`, `-d` takes the
/// description from the rest of the line and ends it; other words are skipped.
pub open spec fn scan(
    command: Seq<char>,
    parts: Seq<Seq<char>>,
    i: int,
    completion: Seq<char>,
    description: Seq<char>,
    found: Seq<EntryView>,
) -> (Seq<char>, Seq<char>, Seq<EntryView>)
    decreases parts.len() - i,
{
    if i < 0 || i >= parts.len() {
        (completion, description, found)
    } else if parts[i] == "-s"@ && i + 1 < parts.len() {
        scan(command, parts, i + 2, seq!['-'] + parts[i + 1], description, found)
    } else if parts[i] == "-l"@ && i + 1 < parts.len() {
        scan(command, parts, i + 2, seq!['-', '-'] + parts[i + 1], description, found)
    } else if parts[i] == "-a"@ && i + 1 < parts.len() {
        scan(
            command,
            parts,
            i + 2,
            completion,
            description,
            found + argument_values(parts[i + 1]).map_values(arg_entry(command)),
        )
    } else if parts[i] == "-d"@ && i + 1 < parts.len() {
        (completion, description_at(parts, i + 1, description), found)
    } else {
        scan(command, parts, i + 1, completion, description, found)
    }
}

/// The entries of one line of a fish completion file for `command`: none unless the
/// trimmed line starts with `complete`; else the `-a` entries, then the flag entry
/// when a flag was given.
pub open spec fn line_entries(command: Seq<char>, line: Seq<char>) -> Seq<EntryView> {
    let t = trim_ws(line);
    if !has_prefix(t, "complete"@) {
        seq![]
    } else {
        let st = scan(command, words(t), 0, seq![], seq![], seq![]);
        if st.0.len() > 0 {
            st.2.push(fish_entry(command, st.0, st.1))
        } else {
            st.2
        }
    }
}

/// The entries of the lines, in order.
pub open spec fn lines_entries(command: Seq<char>, lines: Seq<Seq<char>>) -> Seq<EntryView>
    decreases lines.len(),
{
    if lines.len() == 0 {
        seq![]
    } else {
        lines_entries(command, lines.drop_last()) + line_entries(command, lines.last())
    }
}

/// The entries of a fish completion file's text for `command`. Lines are the
/// `\n`-separated pieces; empty lines yield no entries, so they are left out, and a
/// line's trailing `\r` is whitespace that trimming removes.
pub open spec fn fish_entries(command: Seq<char>, content: Seq<char>) -> Seq<EntryView> {
    lines_entries(command, pieces(content, Sep::Newline))
}

/// Joins `parts[k..]` with single spaces.
fn join_from(parts: &[Vec<char>], k: usize) -> (r: Vec<char>)
    requires
        k <= parts@.len(),
    ensures
        r@ == join_with_spaces(parts.deep_view().skip(k as int)),
{
    let ghost ps = parts.deep_view();
    let mut acc: Vec<char> = Vec::new();
    let n = parts.len();
    for j in k..n
        invariant
            k <= n,
            n == parts@.len(),
            ps == parts.deep_view(),
            acc@ == join_with_spaces(ps.subrange(k as int, j as int)),
    {
        assert(parts@[j as int].deep_view() =~= parts@[j as int]@);
        let ghost t = ps.subrange(k as int, j + 1);
        assert(t.drop_last() =~= ps.subrange(k as int, j as int));
        if j == k {
            acc = sub_chars(parts[j].as_slice(), 0, parts[j].len());
            assert(acc@ =~= parts@[j as int]@);
        } else {
            acc.push(' ');
            acc = join2(acc.as_slice(), parts[j].as_slice());
        }
    }
    assert(ps.subrange(k as int, n as int) =~= ps.skip(k as int));
    acc
}

/// Where `c` first occurs in `s`.
proof fn lemma_first_index(s: Seq<char>, c: char, k: int)
    requires
        -1 <= k <= s.len(),
        forall|m: int| 0 <= m < k ==> s[m] != c,
        k == -1 ==> forall|m: int| 0 <= m < s.len() ==> s[m] != c,
        0 <= k ==> k < s.len() && s[k] == c,
    ensures
        first_index_of(s, c) == k,
    decreases s.len(),
{
    if s.len() > 0 && k != 0 {
        let k2 = if k == -1 {
            -1
        } else {
            k - 1
        };
        assert forall|m: int| 0 <= m < k2 implies s.drop_first()[m] != c by {
            assert(s.drop_first()[m] == s[m + 1]);
        }
        if k == -1 {
            assert forall|m: int| 0 <= m < s.drop_first().len() implies s.drop_first()[m] != c by {
                assert(s.drop_first()[m] == s[m + 1]);
            }
        }
        lemma_first_index(s.drop_first(), c, k2);
        assert(s[0] != c);
    }
}

/// The index of the first `c` in `s`, if any.
fn find_first(s: &[char], c: char) -> (r: Option<usize>)
    ensures
        match r {
            Some(k) => k < s@.len() && first_index_of(s@, c) == k,
            None => first_index_of(s@, c) == -1,
        },
{
    let n = s.len();
    for i in 0..n
        invariant
            n == s@.len(),
            forall|m: int| 0 <= m < i ==> s@[m] != c,
    {
        if s[i] == c {
            proof {
                lemma_first_index(s@, c, i as int);
            }
            return Some(i);
        }
    }
    proof {
        lemma_first_index(s@, c, -1);
    }
    None
}

/// The description given by the words from `k` on.
fn description_from(parts: &[Vec<char>], k: usize, previous: Vec<char>) -> (r: Vec<char>)
    requires
        k < parts@.len(),
    ensures
        r@ == description_at(parts.deep_view(), k as int, previous@),
{
    let rest = join_from(parts, k);
    if rest.len() > 0 && (rest[0] == '\'' || rest[0] == '"') {
        let quote = rest[0];
        let inner = sub_chars(rest.as_slice(), 1, rest.len());
        assert(inner@ =~= rest@.drop_first());
        match find_first(inner.as_slice(), quote) {
            Some(end) => {
                let d = sub_chars(inner.as_slice(), 0, end);
                assert(d@ =~= inner@.take(end as int));
                d
            },
            None => previous,
        }
    } else {
        assert(parts@[k as int].deep_view() =~= parts@[k as int]@);
        sub_chars(parts[k].as_slice(), 0, parts[k].len())
    }
}

/// A fish entry with the given texts.
fn make_fish_entry(command: &[char], completion: &[char], description: &[char]) -> (r: CompletionEntry)
    ensures
        r@ == fish_entry(command@, completion@, description@),
{
    CompletionEntry {
        command: string_of(command),
        completion: string_of(completion),
        description: string_of(description),
        source: "fish".to_owned(),
    }
}

/// Appends the entries for the values of an `-a` argument.
fn push_argument_entries(found: &mut Vec<CompletionEntry>, command: &[char], part: &[char])
    ensures
        views(final(found)@) == views(old(found)@) + argument_values(part@).map_values(
            arg_entry(command@),
        ),
{
    let a = trim_matching(part, '\'');
    let b = trim_matching(a.as_slice(), '"');
    let vals = split_words(b.as_slice());
    let ghost vs = vals.deep_view();
    let ghost start = views(found@);
    let n = vals.len();
    for j in 0..n
        invariant
            n == vals@.len(),
            vs == vals.deep_view(),
            vs == argument_values(part@),
            views(found@) == start + vs.take(j as int).map_values(arg_entry(command@)),
    {
        assert(vals@[j as int].deep_view() =~= vals@[j as int]@);
        let empty: Vec<char> = Vec::new();
        let e = make_fish_entry(command, vals[j].as_slice(), empty.as_slice());
        assert(empty@ =~= Seq::<char>::empty());
        assert(e@ == arg_entry(command@)(vs[j as int]));
        let ghost before = views(found@);
        found.push(e);
        assert(views(found@) =~= before.push(e@));
        assert(vs.take(j + 1).map_values(arg_entry(command@)) =~= vs.take(j as int).map_values(
            arg_entry(command@),
        ).push(e@));
    }
    assert(vs.take(n as int) =~= vs);
}

/// The entries of one line of a fish completion file.
pub fn parse_fish_line(command: &[char], line: &[char]) -> (r: Vec<CompletionEntry>)
    ensures
        views(r@) == line_entries(command@, line@),
{
    let t = trim(line);
    if !starts_with(t.as_slice(), chars_of("complete").as_slice()) {
        return Vec::new();
    }
    let parts = split_words(t.as_slice());
    let ghost ps = parts.deep_view();
    let short = chars_of("-s");
    let long = chars_of("-l");
    let arg = chars_of("-a");
    let desc = chars_of("-d");
    let mut completion: Vec<char> = Vec::new();
    let mut description: Vec<char> = Vec::new();
    let mut found: Vec<CompletionEntry> = Vec::new();
    let n = parts.len();
    let mut i: usize = 0;
    assert(views(found@) =~= Seq::<EntryView>::empty());
    while i < n
        invariant
            n == parts@.len(),
            ps == parts.deep_view(),
            ps == words(t@),
            short@ == "-s"@,
            long@ == "-l"@,
            arg@ == "-a"@,
            desc@ == "-d"@,
            i <= n,
            scan(command@, ps, 0, seq![], seq![], seq![]) == scan(
                command@,
                ps,
                i as int,
                completion@,
                description@,
                views(found@),
            ),
        decreases n - i,
    {
        let p = &parts[i];
        assert(parts@[i as int].deep_view() =~= parts@[i as int]@);
        let has_next = i + 1 < n;
        if has_next {
            assert(parts@[i + 1].deep_view() =~= parts@[i + 1]@);
        }
        if same_chars(p.as_slice(), short.as_slice()) && has_next {
            let mut c: Vec<char> = Vec::new();
            c.push('-');
            completion = join2(c.as_slice(), parts[i + 1].as_slice());
            assert(completion@ =~= seq!['-'] + ps[i + 1]);
            i = i + 2;
        } else if same_chars(p.as_slice(), long.as_slice()) && has_next {
            let mut c: Vec<char> = Vec::new();
            c.push('-');
            c.push('-');
            completion = join2(c.as_slice(), parts[i + 1].as_slice());
            assert(completion@ =~= seq!['-', '-'] + ps[i + 1]);
            i = i + 2;
        } else if same_chars(p.as_slice(), arg.as_slice()) && has_next {
            push_argument_entries(&mut found, command, parts[i + 1].as_slice());
            i = i + 2;
        } else if same_chars(p.as_slice(), desc.as_slice()) && has_next {
            description = description_from(parts.as_slice(), i + 1, description);
            i = n;
        } else {
            i = i + 1;
        }
    }
    if completion.len() > 0 {
        let e = make_fish_entry(command, completion.as_slice(), description.as_slice());
        let ghost before = views(found@);
        found.push(e);
        assert(views(found@) =~= before.push(e@));
    }
    found
}

/// The entries of a fish completion file's text, for the command it completes.
pub fn parse_fish_completions(command: &str, content: &str) -> (r: Vec<CompletionEntry>)
    ensures
        views(r@) == fish_entries(command@, content@),
{
    let cmd = chars_of(command);
    let text = chars_of(content);
    let lines = split_pieces(text.as_slice(), Sep::Newline);
    let ghost ls = lines.deep_view();
    let mut out: Vec<CompletionEntry> = Vec::new();
    let n = lines.len();
    for i in 0..n
        invariant
            n == lines@.len(),
            ls == lines.deep_view(),
            ls == pieces(content@, Sep::Newline),
            cmd@ == command@,
            views(out@) == lines_entries(command@, ls.take(i as int)),
    {
        assert(lines@[i as int].deep_view() =~= lines@[i as int]@);
        let es = parse_fish_line(cmd.as_slice(), lines[i].as_slice());
        let ghost before = views(out@);
        let m = es.len();
        for j in 0..m
            invariant
                m == es@.len(),
                views(out@) == before + views(es@).take(j as int),
        {
            let ghost b2 = views(out@);
            out.push(es[j].clone());
            assert(views(out@) =~= b2.push(es@[j as int]@));
            assert(views(es@).take(j + 1) =~= views(es@).take(j as int).push(es@[j as int]@));
        }
        assert(views(es@).take(m as int) =~= views(es@));
        assert(ls.take(i + 1).drop_last() =~= ls.take(i as int));
    }
    assert(ls.take(n as int) =~= ls);
    out
}

/// Every entry is for `command` and comes from source "fish".
pub open spec fn all_fish_for(s: Seq<EntryView>, command: Seq<char>) -> bool {
    forall|i: int| 0 <= i < s.len() ==> (#[trigger] s[i]).command == command && s[i].source == "fish"@
}

proof fn lemma_scan_fish(
    command: Seq<char>,
    parts: Seq<Seq<char>>,
    i: int,
    completion: Seq<char>,
    description: Seq<char>,
    found: Seq<EntryView>,
)
    requires
        all_fish_for(found, command),
    ensures
        all_fish_for(scan(command, parts, i, completion, description, found).2, command),
    decreases parts.len() - i,
{
    if i < 0 || i >= parts.len() {
    } else if parts[i] == "-s"@ && i + 1 < parts.len() {
        lemma_scan_fish(command, parts, i + 2, seq!['-'] + parts[i + 1], description, found);
    } else if parts[i] == "-l"@ && i + 1 < parts.len() {
        lemma_scan_fish(command, parts, i + 2, seq!['-', '-'] + parts[i + 1], description, found);
    } else if parts[i] == "-a"@ && i + 1 < parts.len() {
        let more = argument_values(parts[i + 1]).map_values(arg_entry(command));
        let f2 = found + more;
        assert forall|k: int| 0 <= k < f2.len() implies (#[trigger] f2[k]).command == command
            && f2[k].source == "fish"@ by {
            if k >= found.len() {
                assert(f2[k] == more[k - found.len()]);
            }
        }
        lemma_scan_fish(command, parts, i + 2, completion, description, f2);
    } else if parts[i] == "-d"@ && i + 1 < parts.len() {
    } else {
        lemma_scan_fish(command, parts, i + 1, completion, description, found);
    }
}

/// Every entry read from a fish completion file is for the command the file
/// completes and comes from source "fish".
pub proof fn lemma_fish_entries_tagged(command: Seq<char>, content: Seq<char>)
    ensures
        all_fish_for(fish_entries(command, content), command),
{
    lemma_lines_fish(command, pieces(content, Sep::Newline));
}

proof fn lemma_lines_fish(command: Seq<char>, lines: Seq<Seq<char>>)
    ensures
        all_fish_for(lines_entries(command, lines), command),
    decreases lines.len(),
{
    if lines.len() > 0 {
        lemma_lines_fish(command, lines.drop_last());
        let t = trim_ws(lines.last());
        if has_prefix(t, "complete"@) {
            lemma_scan_fish(command, words(t), 0, seq![], seq![], seq![]);
        }
        let a = lines_entries(command, lines.drop_last());
        let b = line_entries(command, lines.last());
        assert forall|k: int| 0 <= k < (a + b).len() implies (#[trigger] (a + b)[k]).command
            == command && (a + b)[k].source == "fish"@ by {
            if k >= a.len() {
                assert((a + b)[k] == b[k - a.len()]);
            }
        }
    }
}

} // verus!
