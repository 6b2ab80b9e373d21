//! Completion logic: context classification and the completion entry point.
pub mod path;

pub use path::{path_completions, DirEntry, MockPathProvider, PathProvider};

use vstd::prelude::*;
use crate::completions::path::{
    expand_home, lemma_path_results, listing_of, opt_view, path_answer, path_outcome, request_for,
};
use crate::config::CompletionConfig;
use crate::error::BmError;
use crate::source::{all_entries, entries_of, lemma_all_entries_push, CompletionSource};
use crate::order::sort_by_completion;
use crate::store::{
    count_of, insert_all, mem_query, query_match, query_of, truncate, views, CompletionEntry, EntryView,
    MemStore, Store,
};
use crate::text::{before_cursor, chars_before, lemma_before_cursor_prefix, lemma_before_cursor_whole, lemma_last_piece, Sep, chars_of, has_prefix, is_whitespace, is_ws, same_chars, split_words, starts_with, starts_with_char, string_of, words};

verus! {

/// Context classification for completion behavior.
#[derive(Debug, Clone, Copy, PartialEq, Eq, Hash, Structural)]
pub enum CompletionContext {
    /// cd, pushd, popd, z — directory-only results
    DirectoryNav,
    /// Prefix looks like a path (starts with /, ~, ./)
    PathCompletion,
    /// Prefix starts with - (flag completion)
    FlagCompletion,
    /// General command argument
    CommandArg,
}

/// Commands that navigate directories.
pub open spec fn is_dir_nav_command(c: Seq<char>) -> bool {
    ||| c == "cd"@
    ||| c == "pushd"@
    ||| c == "popd"@
    ||| c == "z"@
    ||| c == "zoxide"@
    ||| c == "j"@
    ||| c == "autojump"@
}

/// A prefix shaped like a path: starts with `/`, `~`, `./` or `../`.
pub open spec fn is_path_shaped(prefix: Seq<char>) -> bool {
    ||| starts_with_char(prefix, '/')
    ||| starts_with_char(prefix, '~')
    ||| has_prefix(prefix, "./"@)
    ||| has_prefix(prefix, "../"@)
}

/// The context of a command and the word being completed: directory navigation
/// first, then path shape, then flag shape.
pub open spec fn context_of(command: Seq<char>, prefix: Seq<char>) -> CompletionContext {
    if is_dir_nav_command(command) {
        CompletionContext::DirectoryNav
    } else if is_path_shaped(prefix) {
        CompletionContext::PathCompletion
    } else if starts_with_char(prefix, '-') {
        CompletionContext::FlagCompletion
    } else {
        CompletionContext::CommandArg
    }
}

/// Whether `c` names a directory navigation command.
fn dir_nav_command(c: &[char]) -> (r: bool)
    ensures
        r == is_dir_nav_command(c@),
{
    same_chars(c, chars_of("cd").as_slice()) || same_chars(c, chars_of("pushd").as_slice())
        || same_chars(c, chars_of("popd").as_slice()) || same_chars(c, chars_of("z").as_slice())
        || same_chars(c, chars_of("zoxide").as_slice()) || same_chars(
        c,
        chars_of("j").as_slice(),
    ) || same_chars(c, chars_of("autojump").as_slice())
}

/// Classify the completion context for a command + prefix.
pub fn classify_context(command: &str, prefix: &str) -> (r: CompletionContext)
    ensures
        r == context_of(command@, prefix@),
{
    let c = chars_of(command);
    if dir_nav_command(c.as_slice()) {
        return CompletionContext::DirectoryNav;
    }
    let p = chars_of(prefix);
    if (p.len() > 0 && p[0] == '/') || (p.len() > 0 && p[0] == '~') || starts_with(
        p.as_slice(),
        chars_of("./").as_slice(),
    ) || starts_with(p.as_slice(), chars_of("../").as_slice()) {
        return CompletionContext::PathCompletion;
    }
    if p.len() > 0 && p[0] == '-' {
        return CompletionContext::FlagCompletion;
    }
    CompletionContext::CommandArg
}

/// What a buffer asks for.
pub enum CompletionPlan {
    /// An empty buffer: nothing to complete.
    Nothing,
    /// Path completion of `prefix`, directories only or all entries.
    Paths { prefix: Seq<char>, dirs_only: bool },
    /// The stored completions of `command` for `prefix`.
    Stored { command: Seq<char>, prefix: Seq<char> },
}

/// The word being completed: empty after trailing whitespace or when only the
/// command is typed, else the last word.
pub open spec fn word_to_complete(buffer: Seq<char>) -> Seq<char> {
    let w = words(buffer);
    if (buffer.len() > 0 && is_ws(buffer.last())) || w.len() <= 1 {
        seq![]
    } else {
        w.last()
    }
}

/// How a buffer is completed: directory navigation and path-shaped words go to path
/// completion when paths are enabled; everything else asks the store.
pub open spec fn completion_plan(buffer: Seq<char>, index_path: bool) -> CompletionPlan {
    let w = words(buffer);
    if w.len() == 0 {
        CompletionPlan::Nothing
    } else {
        let command = w[0];
        let prefix = word_to_complete(buffer);
        let ctx = context_of(command, prefix);
        if ctx == CompletionContext::DirectoryNav && index_path {
            CompletionPlan::Paths { prefix, dirs_only: true }
        } else if ctx == CompletionContext::PathCompletion && index_path {
            CompletionPlan::Paths { prefix, dirs_only: false }
        } else {
            CompletionPlan::Stored { command, prefix }
        }
    }
}

/// `out` answers stored completions `found`: them, or, when there are none and paths
/// are enabled, path completions of the word by `paths`.
pub open spec fn stored_answer<P: PathProvider>(
    paths: &P,
    found: Seq<EntryView>,
    prefix: Seq<char>,
    limit: nat,
    index_path: bool,
    out: Seq<EntryView>,
) -> bool {
    if found.len() == 0 && index_path {
        path_answer(paths, prefix, limit, false, out)
    } else {
        out == found
    }
}

/// Finishes a stored-completion answer: falls back to path completion when the
/// store found nothing and paths are enabled.
pub fn finish_stored<P: PathProvider>(
    found: Vec<CompletionEntry>,
    prefix: &str,
    limit: usize,
    index_path: bool,
    paths: &P,
) -> (r: Vec<CompletionEntry>)
    ensures
        stored_answer(paths, views(found@), prefix@, limit as nat, index_path, views(r@)),
{
    if found.len() == 0 && index_path {
        path_completions(prefix, limit, false, paths)
    } else {
        found
    }
}

/// What `complete` answers for a plan: nothing for an empty buffer; path
/// completions of the word by `paths`; or, for a stored plan, the store's own
/// `query` for the command, the word and the limit: its error, or its answer
/// finished by [`finish_stored`].
pub open spec fn completion_answers<S: Store, P: PathProvider>(
    plan: CompletionPlan,
    store: &S,
    paths: &P,
    limit: usize,
    index_path: bool,
    r: Result<Vec<CompletionEntry>, BmError>,
) -> bool {
    match plan {
        CompletionPlan::Nothing => r is Ok && r->Ok_0@.len() == 0,
        CompletionPlan::Paths { prefix, dirs_only } => r is Ok && path_answer(
            paths,
            prefix,
            limit as nat,
            dirs_only,
            views(r->Ok_0@),
        ),
        CompletionPlan::Stored { command, prefix } => exists|
            c: &str,
            p: &str,
            q: Result<Vec<CompletionEntry>, BmError>,
        |
            #![trigger call_ensures(S::query, (store, c, p, limit), q)]
            {
                &&& c@ == command
                &&& p@ == prefix
                &&& call_ensures(S::query, (store, c, p, limit), q)
                &&& match q {
                    Err(e) => r == Err::<Vec<CompletionEntry>, BmError>(e),
                    Ok(found) => r is Ok && stored_answer(
                        paths,
                        views(found@),
                        prefix,
                        limit as nat,
                        index_path,
                        views(r->Ok_0@),
                    ),
                }
            },
    }
}

/// The store's own `query` never answers more than `limit` entries when asked for
/// at most `limit`.
pub open spec fn store_within<S: Store>(store: &S, limit: usize) -> bool {
    forall|c: &str, p: &str, q: Result<Vec<CompletionEntry>, BmError>|
        #[trigger] call_ensures(S::query, (store, c, p, limit), q) && q is Ok ==> q->Ok_0@.len()
            <= limit
}

/// Path completion never answers more than the limit.
proof fn lemma_path_answer_within<P: PathProvider>(
    paths: &P,
    prefix: Seq<char>,
    limit: nat,
    dirs_only: bool,
    out: Seq<EntryView>,
)
    requires
        path_answer(paths, prefix, limit, dirs_only, out),
    ensures
        out.len() <= limit,
{
    let (h, d, l) = choose|home: Option<String>, dir: &str, listed: Result<Vec<DirEntry>, BmError>|
        #![trigger call_ensures(P::list_dir, (paths, dir), listed), opt_view(home)]
        {
            &&& if starts_with_char(prefix, '~') {
                call_ensures(P::home_dir, (paths,), home)
            } else {
                home is None
            }
            &&& dir@ == request_for(expand_home(prefix, opt_view(home))).0
            &&& call_ensures(P::list_dir, (paths, dir), listed)
            &&& out == path_outcome(prefix, opt_view(home), listing_of(listed), limit, dirs_only)
        };
    match listing_of(l) {
        Some(entries) => {
            let req = request_for(expand_home(prefix, opt_view(h)));
            lemma_path_results(entries, req.1, req.2, limit, dirs_only);
        },
        None => {},
    }
}

/// No answer of `complete` holds more entries than the result limit, when the
/// store's own answers keep to the limit they are asked for.
pub proof fn lemma_answers_within_limit<S: Store, P: PathProvider>(
    plan: CompletionPlan,
    store: &S,
    paths: &P,
    limit: usize,
    index_path: bool,
    r: Result<Vec<CompletionEntry>, BmError>,
)
    requires
        completion_answers(plan, store, paths, limit, index_path, r),
        store_within(store, limit),
    ensures
        r is Ok ==> r->Ok_0@.len() <= limit,
{
    if r is Ok {
        let out = views(r->Ok_0@);
        match plan {
            CompletionPlan::Nothing => {},
            CompletionPlan::Paths { prefix, dirs_only } => {
                lemma_path_answer_within(paths, prefix, limit as nat, dirs_only, out);
            },
            CompletionPlan::Stored { command, prefix } => {
                let (c, p, q) = choose|
                    c: &str,
                    p: &str,
                    q: Result<Vec<CompletionEntry>, BmError>,
                |
                    #![trigger call_ensures(S::query, (store, c, p, limit), q)]
                    {
                        &&& c@ == command
                        &&& p@ == prefix
                        &&& call_ensures(S::query, (store, c, p, limit), q)
                        &&& match q {
                            Err(e) => r == Err::<Vec<CompletionEntry>, BmError>(e),
                            Ok(found) => r is Ok && stored_answer(
                                paths,
                                views(found@),
                                prefix,
                                limit as nat,
                                index_path,
                                views(r->Ok_0@),
                            ),
                        }
                    };
                if q is Ok {
                    if q->Ok_0@.len() == 0 && index_path {
                        lemma_path_answer_within(paths, prefix, limit as nat, false, out);
                    }
                }
            },
        }
    }
}

/// The in-memory store keeps to the limit it is asked for.
pub proof fn lemma_mem_store_within(store: &MemStore, limit: usize)
    ensures
        store_within(store, limit),
{
    assert forall|c: &str, p: &str, q: Result<Vec<CompletionEntry>, BmError>|
        #[trigger] call_ensures(MemStore::query, (store, c, p, limit), q) && q is Ok implies q->Ok_0@.len()
            <= limit by {
        let s = sort_by_completion(store@.filter(query_match(c@, p@)));
        assert(views(q->Ok_0@).len() == q->Ok_0@.len());
        assert(truncate(s, limit as nat).len() <= limit);
    }
}

/// With the in-memory store, a buffer that asks the store is answered from what the
/// store holds: the matching rows, sorted, at most `limit` of them, or path
/// completions of the word when there are none and paths are enabled.
pub proof fn lemma_complete_mem_store<P: PathProvider>(
    store: &MemStore,
    paths: &P,
    command: Seq<char>,
    prefix: Seq<char>,
    limit: usize,
    index_path: bool,
    r: Result<Vec<CompletionEntry>, BmError>,
)
    requires
        completion_answers(
            CompletionPlan::Stored { command, prefix },
            store,
            paths,
            limit,
            index_path,
            r,
        ),
    ensures
        r is Ok,
        stored_answer(
            paths,
            mem_query(store@, command, prefix, limit as nat),
            prefix,
            limit as nat,
            index_path,
            views(r->Ok_0@),
        ),
{
}

/// Text after the cursor does not change what a buffer asks for: with the cursor
/// just after `pre`, the buffer `pre + rest` is completed as `pre` alone, whatever
/// `rest` holds (so `complete(buffer, position)` and `complete(&buffer[..position],
/// position)` ask the same).
pub proof fn lemma_text_after_cursor(pre: Seq<char>, rest: Seq<char>, index_path: bool)
    ensures
        completion_plan(
            before_cursor(pre + rest, vstd::utf8::encode_utf8(pre).len() as int),
            index_path,
        ) == completion_plan(pre, index_path),
        completion_plan(before_cursor(pre, vstd::utf8::encode_utf8(pre).len() as int), index_path)
            == completion_plan(pre, index_path),
{
    lemma_before_cursor_prefix(pre, rest);
    lemma_before_cursor_whole(pre, vstd::utf8::encode_utf8(pre).len() as int);
}

/// A cursor at the end of the buffer (its length in bytes, where a request without
/// a position puts it) completes the whole buffer. (The length of every `str` in
/// memory fits in `usize`.)
pub proof fn lemma_cursor_at_end(buffer: &str, index_path: bool)
    requires
        vstd::utf8::encode_utf8(buffer@).len() <= usize::MAX,
    ensures
        completion_plan(before_cursor(buffer@, buffer.len() as int), index_path) == completion_plan(
            buffer@,
            index_path,
        ),
{
    lemma_before_cursor_whole(buffer@, buffer.len() as int);
}

/// After whitespace at the cursor the word being completed is empty: a line that
/// ends in whitespace asks the store, or path completion, about the empty word.
pub proof fn lemma_trailing_space_empty_word(line: Seq<char>, index_path: bool)
    requires
        line.len() > 0,
        is_ws(line.last()),
    ensures
        completion_plan(line, index_path) matches CompletionPlan::Stored { prefix, .. }
            ==> prefix.len() == 0,
        completion_plan(line, index_path) matches CompletionPlan::Paths { prefix, .. }
            ==> prefix.len() == 0,
{
}

/// Without whitespace at the cursor, and with more than the command typed, the word
/// being completed is the whole run of non-whitespace characters that ends at the
/// cursor.
pub proof fn lemma_word_ends_at_cursor(line: Seq<char>, index_path: bool)
    requires
        line.len() > 0,
        !is_ws(line.last()),
        words(line).len() >= 2,
    ensures
        ({
            let w = word_to_complete(line);
            &&& 0 < w.len() <= line.len()
            &&& line.subrange(line.len() - w.len(), line.len() as int) == w
            &&& forall|i: int| 0 <= i < w.len() ==> !is_ws(#[trigger] w[i])
            &&& line.len() > w.len() ==> is_ws(line[line.len() - w.len() - 1])
        }),
        completion_plan(line, index_path) matches CompletionPlan::Stored { prefix, .. } ==> prefix
            == word_to_complete(line),
        completion_plan(line, index_path) matches CompletionPlan::Paths { prefix, .. } ==> prefix
            == word_to_complete(line),
{
    lemma_last_piece(line, Sep::Whitespace);
}

/// With path completion switched off, no buffer is answered from the filesystem first.
pub proof fn lemma_no_paths_when_disabled(buffer: Seq<char>)
    ensures
        !(completion_plan(buffer, false) is Paths),
{
}

/// A buffer without words is answered with nothing; one with words asks about its
/// first word.
pub proof fn lemma_plan_command(buffer: Seq<char>, index_path: bool)
    ensures
        words(buffer).len() == 0 <==> completion_plan(buffer, index_path) is Nothing,
        completion_plan(buffer, index_path) matches CompletionPlan::Stored { command, prefix }
            ==> command == words(buffer)[0] && prefix == word_to_complete(buffer),
{
}

/// Complete a command line at the given cursor position, a byte offset: the text
/// before the cursor is completed (the characters that lie wholly before it, so a
/// position past the end takes the whole buffer). An empty line gets nothing; a directory navigation command
/// or a path-shaped word gets path completions when paths are enabled; anything else
/// gets the store's own answer for the command, the word and the result limit, its
/// error passed on, or path completions of the word when it found nothing.
pub fn complete<S: Store, C: CompletionConfig, P: PathProvider>(
    buffer: &str,
    position: usize,
    store: &S,
    cfg: &C,
    paths: &P,
) -> (r: Result<Vec<CompletionEntry>, BmError>)
    ensures
        completion_answers(
            completion_plan(before_cursor(buffer@, position as int), cfg.spec_index_path()),
            store,
            paths,
            cfg.spec_max_results(),
            cfg.spec_index_path(),
            r,
        ),
{
    let all = chars_of(buffer);
    let b = chars_before(all.as_slice(), position);
    let ghost line = before_cursor(buffer@, position as int);
    let ws = split_words(b.as_slice());
    if ws.len() == 0 {
        return Ok(Vec::new());
    }
    let ghost wv = ws.deep_view();
    assert(ws@[0].deep_view() =~= ws@[0]@);
    let command = string_of(ws[0].as_slice());
    let trailing_space = b.len() > 0 && is_whitespace(b[b.len() - 1]);
    let prefix = if trailing_space || ws.len() <= 1 {
        String::new()
    } else {
        assert(ws@[ws.len() - 1].deep_view() =~= ws@[ws.len() - 1]@);
        string_of(ws[ws.len() - 1].as_slice())
    };
    assert(prefix@ == word_to_complete(line));
    assert(command@ == words(line)[0]);
    let ctx = classify_context(command.as_str(), prefix.as_str());
    let index_path = cfg.index_path();
    let max = cfg.max_results();
    let ghost plan = completion_plan(line, cfg.spec_index_path());
    match ctx {
        CompletionContext::DirectoryNav => {
            if index_path {
                let r = path_completions(prefix.as_str(), max, true, paths);
                let res: Result<Vec<CompletionEntry>, BmError> = Ok(r);
                assert(res->Ok_0 == r);
                return res;
            }
        },
        CompletionContext::PathCompletion => {
            if index_path {
                let r = path_completions(prefix.as_str(), max, false, paths);
                let res: Result<Vec<CompletionEntry>, BmError> = Ok(r);
                assert(res->Ok_0 == r);
                return res;
            }
        },
        _ => {},
    }
    assert(plan == CompletionPlan::Stored { command: command@, prefix: prefix@ });
    let c = command.as_str();
    let p = prefix.as_str();
    let q = query_of(store, c, p, max);
    let ghost qg = q;
    match q {
        Err(e) => {
            let res: Result<Vec<CompletionEntry>, BmError> = Err(e);
            assert(qg == Err::<Vec<CompletionEntry>, BmError>(e));
            res
        },
        Ok(results) => {
            let r = finish_stored(results, p, max, index_path, paths);
            let res: Result<Vec<CompletionEntry>, BmError> = Ok(r);
            assert(res->Ok_0 == r);
            assert(qg == Ok::<Vec<CompletionEntry>, BmError>(results));
            res
        },
    }
}

/// Index all given completion sources into the store, source by source and entry by
/// entry, and report how many entries the store then holds. The sources' own
/// `entries` answered `answers` for the first sources; calls `ms` of the store's
/// `insert` took it through the states `st`, one entry of those answers after the
/// other. Either every source answered, all entries went in and the answer is what
/// the store's `count` gives; or all entries of the answers went in and the next
/// source failed with the answer's error; or the first `q` entries went in and
/// the insert of entry `q`, of the last source that answered, failed with it.
pub fn index_sources<S: Store, Src: CompletionSource>(store: &mut S, sources: &[&Src]) -> (r: Result<
    usize,
    BmError,
>)
    ensures
        exists|answers: Seq<Vec<CompletionEntry>>, st: Seq<S>, ms: Seq<&mut S>, q: int|
            #![trigger st[q], answers.len(), ms.len()]
            {
                &&& answers.len() <= sources@.len()
                &&& 0 <= q <= all_entries(answers).len()
                &&& forall|i: int| 0 <= i < answers.len() ==> call_ensures(
                    Src::entries,
                    (sources@[i],),
                    Ok(#[trigger] answers[i]),
                )
                &&& st.len() == q + 1
                &&& st[0] == *old(store)
                &&& forall|i: int|
                    0 <= i < q ==> {
                        &&& call_ensures(S::insert, (#[trigger] ms[i], &all_entries(answers)[i]), Ok(()))
                        &&& mut_ref_current(ms[i]) == st[i]
                        &&& mut_ref_future(ms[i]) == st[i + 1]
                    }
                &&& if q == all_entries(answers).len() {
                    &&& ms.len() == q
                    &&& *final(store) == st[q]
                    &&& if answers.len() == sources@.len() {
                        call_ensures(S::count, (&st[q],), r)
                    } else {
                        &&& r is Err
                        &&& call_ensures(
                            Src::entries,
                            (sources@[answers.len() as int],),
                            Err(r->Err_0),
                        )
                    }
                } else {
                    &&& answers.len() > 0
                    &&& all_entries(answers.drop_last()).len() <= q
                    &&& ms.len() == q + 1
                    &&& r is Err
                    &&& call_ensures(S::insert, (ms[q], &all_entries(answers)[q]), Err(r->Err_0))
                    &&& mut_ref_current(ms[q]) == st[q]
                    &&& mut_ref_future(ms[q]) == *final(store)
                }
            },
{
    let n = sources.len();
    let ghost mut answers: Seq<Vec<CompletionEntry>> = seq![];
    proof {
        let st0: Seq<S> = seq![*store];
        let ms0: Seq<&mut S> = seq![];
        assert(st0.len() == 1 && ms0.len() == 0);
        assert(st0.last() == *store);
    }
    let mut i: usize = 0;
    while i < n
        invariant
            n == sources@.len(),
            i <= n,
            answers.len() == i,
            forall|k: int| 0 <= k < answers.len() ==> call_ensures(
                Src::entries,
                (sources@[k],),
                Ok(#[trigger] answers[k]),
            ),
            exists|st: Seq<S>, ms: Seq<&mut S>|
                #![trigger st.len(), ms.len()]
                {
                    &&& st.len() == all_entries(answers).len() + 1
                    &&& ms.len() == all_entries(answers).len()
                    &&& st[0] == *old(store)
                    &&& st.last() == *store
                    &&& forall|k: int|
                        0 <= k < all_entries(answers).len() ==> {
                            &&& call_ensures(S::insert, (#[trigger] ms[k], &all_entries(answers)[k]), Ok(()))
                            &&& mut_ref_current(ms[k]) == st[k]
                            &&& mut_ref_future(ms[k]) == st[k + 1]
                        }
                },
        decreases n - i,
    {
        let ghost flat = all_entries(answers);
        let got = entries_of(sources[i]);
        match got {
            Err(e) => {
                let r: Result<usize, BmError> = Err(e);
                proof {
                    let (st0, ms0) = choose|st: Seq<S>, ms: Seq<&mut S>|
                        #![trigger st.len(), ms.len()]
                        {
                            &&& st.len() == all_entries(answers).len() + 1
                            &&& ms.len() == all_entries(answers).len()
                            &&& st[0] == *old(store)
                            &&& st.last() == *store
                            &&& forall|k: int|
                                0 <= k < all_entries(answers).len() ==> {
                                    &&& call_ensures(S::insert, (#[trigger] ms[k], &all_entries(answers)[k]), Ok(()))
                                    &&& mut_ref_current(ms[k]) == st[k]
                                    &&& mut_ref_future(ms[k]) == st[k + 1]
                                }
                        };
                    assert(*final(store) == *store);
                    assert(got == Err::<Vec<CompletionEntry>, BmError>(r->Err_0));
                    let q = flat.len() as int;
                    assert(st0[q] == *store);
                    assert(ms0.len() == q);
                }
                return r;
            },
            Ok(v) => {
                let ghost pre = *store;
                let inserted = insert_all(store, v.as_slice());
                proof {
                    let (st0, ms0) = choose|st: Seq<S>, ms: Seq<&mut S>|
                        #![trigger st.len(), ms.len()]
                        {
                            &&& st.len() == all_entries(answers).len() + 1
                            &&& ms.len() == all_entries(answers).len()
                            &&& st[0] == *old(store)
                            &&& st.last() == pre
                            &&& forall|k: int|
                                0 <= k < all_entries(answers).len() ==> {
                                    &&& call_ensures(S::insert, (#[trigger] ms[k], &all_entries(answers)[k]), Ok(()))
                                    &&& mut_ref_current(ms[k]) == st[k]
                                    &&& mut_ref_future(ms[k]) == st[k + 1]
                                }
                        };
                    let (st2, ms2, k2) = choose|st2: Seq<S>, ms2: Seq<&mut S>, k2: int|
                        #![trigger st2[k2], ms2.len()]
                        {
                            &&& 0 <= k2 <= v@.len()
                            &&& st2.len() == k2 + 1
                            &&& st2[0] == pre
                            &&& forall|i: int|
                                0 <= i < k2 ==> {
                                    &&& call_ensures(S::insert, (#[trigger] ms2[i], &v@[i]), Ok(()))
                                    &&& mut_ref_current(ms2[i]) == st2[i]
                                    &&& mut_ref_future(ms2[i]) == st2[i + 1]
                                }
                            &&& if k2 == v@.len() {
                                &&& ms2.len() == k2
                                &&& inserted is Ok
                                &&& *store == st2[k2]
                            } else {
                                &&& ms2.len() == k2 + 1
                                &&& inserted is Err
                                &&& call_ensures(S::insert, (ms2[k2], &v@[k2]), inserted)
                                &&& mut_ref_current(ms2[k2]) == st2[k2]
                                &&& mut_ref_future(ms2[k2]) == *store
                            }
                        };
                    lemma_all_entries_push(answers, v);
                    let answers2 = answers.push(v);
                    let flat2 = all_entries(answers2);
                    assert(flat2 == flat + v@);
                    assert(answers2.drop_last() =~= answers);
                    let st3 = st0 + st2.drop_first();
                    let ms3 = ms0 + ms2;
                    let q = flat.len() + k2;
                    assert(st3.len() == q + 1);
                    assert forall|k: int| 0 <= k < answers2.len() implies call_ensures(
                        Src::entries,
                        (sources@[k],),
                        Ok(#[trigger] answers2[k]),
                    ) by {
                        if k < answers.len() {
                            assert(answers2[k] == answers[k]);
                        } else {
                            assert(got == Ok::<Vec<CompletionEntry>, BmError>(v));
                        }
                    }
                    assert forall|k: int|
                        0 <= k < q implies {
                            &&& call_ensures(S::insert, (#[trigger] ms3[k], &flat2[k]), Ok(()))
                            &&& mut_ref_current(ms3[k]) == st3[k]
                            &&& mut_ref_future(ms3[k]) == st3[k + 1]
                        } by {
                        if k < flat.len() {
                            assert(ms3[k] == ms0[k]);
                            assert(flat2[k] == flat[k]);
                            assert(st3[k] == st0[k]);
                            if k + 1 < st0.len() {
                                assert(st3[k + 1] == st0[k + 1]);
                            }
                        } else {
                            let t = k - flat.len();
                            assert(ms3[k] == ms2[t]);
                            assert(flat2[k] == v@[t]);
                            assert(st3[k + 1] == st2[t + 1]);
                            if t == 0 {
                                assert(st3[k] == st0[flat.len() as int]);
                                assert(st2[0] == pre);
                            } else {
                                assert(st3[k] == st2[t]);
                            }
                        }
                    }
                    if inserted is Err {
                        assert(k2 < v@.len());
                        assert(k2 == 0 ==> st3[q] == st0[flat.len() as int]);
                        assert(k2 > 0 ==> st3[q] == st2[k2]);
                        assert(st3[q] == st2[k2]);
                        assert(ms3[q] == ms2[k2]);
                        assert(flat2[q] == v@[k2]);
                        assert(all_entries(answers2.drop_last()).len() <= q);
                        assert(ms3.len() == q + 1);
                        assert(inserted == Err::<(), BmError>(inserted->Err_0));
                    } else {
                        assert(k2 == v@.len());
                        assert(k2 == 0 ==> st3.last() == st0.last());
                        assert(k2 > 0 ==> st3.last() == st2.last());
                        assert(st3.last() == *store);
                        assert(ms3.len() == flat2.len());
                        assert(st3[0] == *old(store));
                    }
                }
                match inserted {
                    Err(e) => {
                        assert(*final(store) == *store);
                        return Err(e);
                    },
                    Ok(()) => {},
                }
                proof {
                    answers = answers.push(v);
                }
            },
        }
        i = i + 1;
    }
    let r = count_of(store);
    proof {
        let flat = all_entries(answers);
        let (st0, ms0) = choose|st: Seq<S>, ms: Seq<&mut S>|
            #![trigger st.len(), ms.len()]
            {
                &&& st.len() == all_entries(answers).len() + 1
                &&& ms.len() == all_entries(answers).len()
                &&& st[0] == *old(store)
                &&& st.last() == *store
                &&& forall|k: int|
                    0 <= k < all_entries(answers).len() ==> {
                        &&& call_ensures(S::insert, (#[trigger] ms[k], &all_entries(answers)[k]), Ok(()))
                        &&& mut_ref_current(ms[k]) == st[k]
                        &&& mut_ref_future(ms[k]) == st[k + 1]
                    }
            };
        assert(*final(store) == *store);
        let q = flat.len() as int;
        assert(st0[q] == *store);
        assert(ms0.len() == q);
    }
    r
}

/// Gathers the entries of all sources, in order, stopping at the first source that
/// fails. The sources' own `entries` answered `answers` for the first sources: either
/// every source answered and the result holds all their entries in order, or the next
/// source failed and its answer is the result.
pub fn gather_entries<Src: CompletionSource>(sources: &[&Src]) -> (r: Result<
    Vec<CompletionEntry>,
    BmError,
>)
    ensures
        exists|answers: Seq<Vec<CompletionEntry>>|
            #![trigger answers.len()]
            {
                &&& answers.len() <= sources@.len()
                &&& forall|i: int| 0 <= i < answers.len() ==> call_ensures(
                    Src::entries,
                    (sources@[i],),
                    Ok(#[trigger] answers[i]),
                )
                &&& if answers.len() == sources@.len() {
                    r is Ok && r->Ok_0@ == all_entries(answers)
                } else {
                    r is Err && call_ensures(Src::entries, (sources@[answers.len() as int],), r)
                }
            },
{
    let n = sources.len();
    let mut all: Vec<CompletionEntry> = Vec::new();
    let ghost mut answers: Seq<Vec<CompletionEntry>> = seq![];
    for i in 0..n
        invariant
            n == sources@.len(),
            answers.len() == i,
            forall|k: int| 0 <= k < answers.len() ==> call_ensures(
                Src::entries,
                (sources@[k],),
                Ok(#[trigger] answers[k]),
            ),
            all@ == all_entries(answers),
    {
        let got = entries_of(sources[i]);
        let ghost gg = got;
        match got {
            Err(e) => {
                let r: Result<Vec<CompletionEntry>, BmError> = Err(e);
                assert(gg == r);
                assert(answers.len() == i);
                return r;
            },
            Ok(v) => {
                let ghost vg = v;
                let mut v = v;
                all.append(&mut v);
                proof {
                    lemma_all_entries_push(answers, vg);
                    let a2 = answers.push(vg);
                    assert forall|k: int| 0 <= k < a2.len() implies call_ensures(
                        Src::entries,
                        (sources@[k],),
                        Ok(#[trigger] a2[k]),
                    ) by {
                        if k < answers.len() {
                            assert(a2[k] == answers[k]);
                        }
                    }
                    answers = a2;
                }
            },
        }
    }
    assert(answers.len() == n);
    Ok(all)
}

/// Insert every entry into the store, in order, and report how many entries the
/// store then holds. Calls `ms` of the store's `insert` took it through the states
/// `st`, one entry after the other: either all entries went in and the answer is
/// what the store's `count` gives after them, or the first `k` went in and the
/// insert of entry `k` failed with the answer's error.
pub fn store_entries<S: Store>(store: &mut S, entries: &[CompletionEntry]) -> (r: Result<
    usize,
    BmError,
>)
    ensures
        exists|st: Seq<S>, ms: Seq<&mut S>, k: int|
            #![trigger st[k], ms.len()]
            {
                &&& 0 <= k <= entries@.len()
                &&& st.len() == k + 1
                &&& st[0] == *old(store)
                &&& forall|i: int|
                    0 <= i < k ==> {
                        &&& call_ensures(S::insert, (#[trigger] ms[i], &entries@[i]), Ok(()))
                        &&& mut_ref_current(ms[i]) == st[i]
                        &&& mut_ref_future(ms[i]) == st[i + 1]
                    }
                &&& if k == entries@.len() {
                    &&& ms.len() == k
                    &&& *final(store) == st[k]
                    &&& call_ensures(S::count, (&st[k],), r)
                } else {
                    &&& ms.len() == k + 1
                    &&& r is Err
                    &&& call_ensures(S::insert, (ms[k], &entries@[k]), Err(r->Err_0))
                    &&& mut_ref_current(ms[k]) == st[k]
                    &&& mut_ref_future(ms[k]) == *final(store)
                }
            },
{
    let inserted = insert_all(store, entries);
    match inserted {
        Err(e) => {
            let r: Result<usize, BmError> = Err(e);
            proof {
                let (st, ms, k) = choose|st: Seq<S>, ms: Seq<&mut S>, k: int|
                    #![trigger st[k], ms.len()]
                    {
                        &&& 0 <= k <= entries@.len()
                        &&& st.len() == k + 1
                        &&& st[0] == *old(store)
                        &&& forall|i: int|
                            0 <= i < k ==> {
                                &&& call_ensures(S::insert, (#[trigger] ms[i], &entries@[i]), Ok(()))
                                &&& mut_ref_current(ms[i]) == st[i]
                                &&& mut_ref_future(ms[i]) == st[i + 1]
                            }
                        &&& if k == entries@.len() {
                            &&& ms.len() == k
                            &&& inserted is Ok
                            &&& *final(store) == st[k]
                        } else {
                            &&& ms.len() == k + 1
                            &&& inserted is Err
                            &&& call_ensures(S::insert, (ms[k], &entries@[k]), inserted)
                            &&& mut_ref_current(ms[k]) == st[k]
                            &&& mut_ref_future(ms[k]) == *final(store)
                        }
                    };
                assert(inserted == Err::<(), BmError>(r->Err_0));
                assert(st[k] == st[k] && ms.len() == k + 1);
            }
            r
        },
        Ok(()) => {
            let ghost mid = *store;
            let r = count_of(store);
            proof {
                let (st, ms, k) = choose|st: Seq<S>, ms: Seq<&mut S>, k: int|
                    #![trigger st[k], ms.len()]
                    {
                        &&& 0 <= k <= entries@.len()
                        &&& st.len() == k + 1
                        &&& st[0] == *old(store)
                        &&& forall|i: int|
                            0 <= i < k ==> {
                                &&& call_ensures(S::insert, (#[trigger] ms[i], &entries@[i]), Ok(()))
                                &&& mut_ref_current(ms[i]) == st[i]
                                &&& mut_ref_future(ms[i]) == st[i + 1]
                            }
                        &&& if k == entries@.len() {
                            &&& ms.len() == k
                            &&& inserted is Ok
                            &&& *final(store) == st[k]
                        } else {
                            &&& ms.len() == k + 1
                            &&& inserted is Err
                            &&& call_ensures(S::insert, (ms[k], &entries@[k]), inserted)
                            &&& mut_ref_current(ms[k]) == st[k]
                            &&& mut_ref_future(ms[k]) == *final(store)
                        }
                    };
                assert(k == entries@.len());
                assert(*final(store) == *store);
                assert(st[k] == *store && ms.len() == k);
            }
            r
        },
    }
}

} // verus!
