//! Completion entries and the storage abstraction, with the in-memory store.
use vstd::prelude::*;
use vstd::std_specs::cmp::PartialEqSpecImpl;
use crate::error::BmError;
use crate::order::{lex_lt, lemma_sort_permutes, lemma_sort_sorted, sort_by_completion, sort_entries, sorted_by_completion};
use crate::text::{chars_of, has_prefix, same_chars, starts_with};

verus! {

broadcast use {vstd::seq_lib::group_filter_ensures, vstd::seq_lib::group_to_multiset_ensures};

/// One completion candidate for a command.
#[derive(Debug)]
pub struct CompletionEntry {
    pub command: String,
    pub completion: String,
    pub description: String,
    /// Where the entry comes from: "fish", "man", "help", "path", "custom".
    pub source: String,
}

/// The text of a [`CompletionEntry`], field by field.
pub struct EntryView {
    pub command: Seq<char>,
    pub completion: Seq<char>,
    pub description: Seq<char>,
    pub source: Seq<char>,
}

impl View for CompletionEntry {
    type V = EntryView;

    open spec fn view(&self) -> EntryView {
        EntryView {
            command: self.command@,
            completion: self.completion@,
            description: self.description@,
            source: self.source@,
        }
    }
}

/// The views of a sequence of entries.
pub open spec fn views(s: Seq<CompletionEntry>) -> Seq<EntryView> {
    s.map_values(|e: CompletionEntry| e@)
}

impl Clone for CompletionEntry {
    fn clone(&self) -> (r: Self)
        ensures
            r@ == self@,
    {
        CompletionEntry {
            command: self.command.clone(),
            completion: self.completion.clone(),
            description: self.description.clone(),
            source: self.source.clone(),
        }
    }
}

impl PartialEq for CompletionEntry {
    fn eq(&self, other: &Self) -> (r: bool) {
        self.command == other.command && self.completion == other.completion && self.description
            == other.description && self.source == other.source
    }
}

impl PartialEqSpecImpl for CompletionEntry {
    open spec fn obeys_eq_spec() -> bool {
        true
    }

    open spec fn eq_spec(&self, other: &Self) -> bool {
        self@ == other@
    }
}

impl Default for CompletionEntry {
    fn default() -> (r: Self)
        ensures
            r@.command == Seq::<char>::empty(),
            r@.completion == Seq::<char>::empty(),
            r@.description == Seq::<char>::empty(),
            r@.source == "custom"@,
    {
        CompletionEntry {
            command: String::new(),
            completion: String::new(),
            description: String::new(),
            source: "custom".to_owned(),
        }
    }
}

/// Abstraction over completion storage backends.
pub trait Store {
    /// Insert (or replace) a single completion entry.
    fn insert(&mut self, entry: &CompletionEntry) -> Result<(), BmError>;

    /// Query completions for `command` whose completion text starts with `prefix`.
    fn query(&self, command: &str, prefix: &str, limit: usize) -> Result<
        Vec<CompletionEntry>,
        BmError,
    >;

    /// Total number of stored entries.
    fn count(&self) -> Result<usize, BmError>;
}

/// Inserts `entry` with the store's own `insert`: the store goes from its value
/// before to its value after along a call of `insert` that answered `r`.
pub(crate) fn insert_into<S: Store>(store: &mut S, entry: &CompletionEntry) -> (r: Result<
    (),
    BmError,
>)
    ensures
        exists|m: &mut S|
            #[trigger] call_ensures(S::insert, (m, entry), r) && mut_ref_current(m) == *old(
                store,
            ) && mut_ref_future(m) == *final(store),
{
    let insert = S::insert;
    insert(store, entry)
}

/// Inserts the entries in order with the store's own `insert`, stopping at the
/// first failure. Calls `ms` of `insert` took the store through the states `st`:
/// either every entry went in and the answer is `Ok`, or the first `k` went in and
/// the insert of entry `k`, the last call, failed with the answer.
pub(crate) fn insert_all<S: Store>(store: &mut S, entries: &[CompletionEntry]) -> (r: Result<
    (),
    BmError,
>)
    ensures
        exists|st: Seq<S>, ms: Seq<&mut S>, k: int|
            #![trigger st[k], ms.len()]
            {
                &&& 0 <= k <= entries@.len()
                &&& st.len() == k + 1
                &&& st[0] == *old(store)
                &&& forall|i: int|
                    0 <= i < k ==> {
                        &&& call_ensures(S::insert, (#[trigger] ms[i], &entries@[i]), Ok(()))
                        &&& mut_ref_current(ms[i]) == st[i]
                        &&& mut_ref_future(ms[i]) == st[i + 1]
                    }
                &&& if k == entries@.len() {
                    &&& ms.len() == k
                    &&& r is Ok
                    &&& *final(store) == st[k]
                } else {
                    &&& ms.len() == k + 1
                    &&& r is Err
                    &&& call_ensures(S::insert, (ms[k], &entries@[k]), r)
                    &&& mut_ref_current(ms[k]) == st[k]
                    &&& mut_ref_future(ms[k]) == *final(store)
                }
            },
{
    let n = entries.len();
    let ghost mut st: Seq<S> = seq![*store];
    let mut j: usize = 0;
    proof {
        let ms0: Seq<&mut S> = seq![];
        assert(ms0.len() == 0);
    }
    while j < n
        invariant
            n == entries@.len(),
            j <= n,
            st.len() == j + 1,
            st[0] == *old(store),
            st[j as int] == *store,
            exists|ms: Seq<&mut S>|
                #![trigger ms.len()]
                ms.len() == j && forall|i: int|
                    0 <= i < j ==> {
                        &&& call_ensures(S::insert, (#[trigger] ms[i], &entries@[i]), Ok(()))
                        &&& mut_ref_current(ms[i]) == st[i]
                        &&& mut_ref_future(ms[i]) == st[i + 1]
                    },
        decreases n - j,
    {
        let e = &entries[j];
        let res = insert_into(store, e);
        match res {
            Err(err) => {
                proof {
                    let ms0 = choose|ms: Seq<&mut S>|
                        #![trigger ms.len()]
                        ms.len() == j && forall|i: int|
                            0 <= i < j ==> {
                                &&& call_ensures(S::insert, (#[trigger] ms[i], &entries@[i]), Ok(()))
                                &&& mut_ref_current(ms[i]) == st[i]
                                &&& mut_ref_future(ms[i]) == st[i + 1]
                            };
                    let m = choose|m: &mut S|
                        #[trigger] call_ensures(S::insert, (m, &entries@[j as int]), res)
                            && mut_ref_current(m) == st[j as int] && mut_ref_future(m) == *store;
                    let ms2 = ms0.push(m);
                    assert(ms2[j as int] == m);
                    assert(forall|i: int| 0 <= i < j ==> ms2[i] == ms0[i]);
                    assert(*final(store) == *store);
                    assert(ms2.len() == j + 1);
                }
                return Err(err);
            },
            Ok(()) => {},
        }
        proof {
            let ms0 = choose|ms: Seq<&mut S>|
                #![trigger ms.len()]
                ms.len() == j && forall|i: int|
                    0 <= i < j ==> {
                        &&& call_ensures(S::insert, (#[trigger] ms[i], &entries@[i]), Ok(()))
                        &&& mut_ref_current(ms[i]) == st[i]
                        &&& mut_ref_future(ms[i]) == st[i + 1]
                    };
            let m = choose|m: &mut S|
                #[trigger] call_ensures(S::insert, (m, &entries@[j as int]), res)
                    && mut_ref_current(m) == st[j as int] && mut_ref_future(m) == *store;
            let st2 = st.push(*store);
            let ms2 = ms0.push(m);
            assert(ms2[j as int] == m);
            assert forall|i: int|
                0 <= i < j + 1 implies {
                    &&& call_ensures(S::insert, (#[trigger] ms2[i], &entries@[i]), Ok(()))
                    &&& mut_ref_current(ms2[i]) == st2[i]
                    &&& mut_ref_future(ms2[i]) == st2[i + 1]
                } by {
                if i < j {
                    assert(ms2[i] == ms0[i]);
                    assert(st2[i] == st[i] && st2[i + 1] == st[i + 1]);
                } else {
                    assert(res is Ok);
                    assert(res == Ok::<(), BmError>(res->Ok_0));
                    assert(res == Ok::<(), BmError>(()));
                }
            }
            assert(ms2.len() == j + 1);
            st = st2;
        }
        j = j + 1;
    }
    assert(st[j as int] == *store);
    assert(*final(store) == *store);
    Ok(())
}

/// The store's own `count`.
pub(crate) fn count_of<S: Store>(store: &S) -> (r: Result<usize, BmError>)
    ensures
        call_ensures(S::count, (store,), r),
{
    let count = S::count;
    count(store)
}

/// The store's own `query`.
pub(crate) fn query_of<S: Store>(store: &S, command: &str, prefix: &str, limit: usize) -> (r:
    Result<Vec<CompletionEntry>, BmError>)
    ensures
        call_ensures(S::query, (store, command, prefix, limit), r),
{
    let query = S::query;
    query(store, command, prefix, limit)
}

/// Two entries are the same stored row: same command, completion and source.
pub open spec fn same_key(a: EntryView, b: EntryView) -> bool {
    a.command == b.command && a.completion == b.completion && a.source == b.source
}

/// Entries that are not the same row as `e`.
pub open spec fn other_key(e: EntryView) -> spec_fn(EntryView) -> bool {
    |x: EntryView| !same_key(x, e)
}

/// Storing `e`: every row with its key is dropped and `e` is added last.
pub open spec fn upsert(s: Seq<EntryView>, e: EntryView) -> Seq<EntryView> {
    s.filter(other_key(e)).push(e)
}

/// No two rows share a key.
pub open spec fn keys_unique(s: Seq<EntryView>) -> bool {
    forall|i: int, j: int| 0 <= i < j < s.len() ==> !same_key(#[trigger] s[i], #[trigger] s[j])
}

/// `s` holds a row with the key of `e`.
pub open spec fn has_key(s: Seq<EntryView>, e: EntryView) -> bool {
    exists|i: int| 0 <= i < s.len() && same_key(#[trigger] s[i], e)
}

/// Entries for `command` whose completion starts with `prefix`.
pub open spec fn query_match(command: Seq<char>, prefix: Seq<char>) -> spec_fn(EntryView) -> bool {
    |x: EntryView| x.command == command && has_prefix(x.completion, prefix)
}

/// The first `n` elements of `s`, or all of it when it is shorter.
pub open spec fn truncate<A>(s: Seq<A>, n: nat) -> Seq<A> {
    if s.len() <= n {
        s
    } else {
        s.take(n as int)
    }
}

/// What the in-memory store answers: the matching rows, sorted by completion,
/// at most `limit` of them.
pub open spec fn mem_query(s: Seq<EntryView>, command: Seq<char>, prefix: Seq<char>, limit: nat) -> Seq<
    EntryView,
> {
    truncate(sort_by_completion(s.filter(query_match(command, prefix))), limit)
}

/// One step of a left-to-right filter.
pub proof fn lemma_filter_take_step<A>(s: Seq<A>, p: spec_fn(A) -> bool, i: int)
    requires
        0 <= i < s.len(),
    ensures
        s.take(i + 1).filter(p) == (if p(s[i]) {
            s.take(i).filter(p).push(s[i])
        } else {
            s.take(i).filter(p)
        }),
{
    reveal_with_fuel(Seq::<_>::filter, 1);
    assert(s.take(i + 1).drop_last() =~= s.take(i));
}

/// Filtering a sequence with unique keys keeps the keys unique.
proof fn lemma_filter_keys_unique(s: Seq<EntryView>, p: spec_fn(EntryView) -> bool)
    requires
        keys_unique(s),
    ensures
        keys_unique(s.filter(p)),
    decreases s.len(),
{
    reveal_with_fuel(Seq::<_>::filter, 1);
    if s.len() > 0 {
        let d = s.drop_last();
        assert(keys_unique(d)) by {
            assert forall|i: int, j: int| 0 <= i < j < d.len() implies !same_key(
                #[trigger] d[i],
                #[trigger] d[j],
            ) by {
                assert(d[i] == s[i] && d[j] == s[j]);
            }
        }
        lemma_filter_keys_unique(d, p);
        let f = d.filter(p);
        if p(s.last()) {
            let g = f.push(s.last());
            assert forall|i: int, j: int| 0 <= i < j < g.len() implies !same_key(
                #[trigger] g[i],
                #[trigger] g[j],
            ) by {
                if j == g.len() - 1 {
                    assert(f.contains(g[i]));
                    d.lemma_filter_contains_rev(p, g[i]);
                    let k = choose|k: int| 0 <= k < d.len() && d[k] == g[i];
                    assert(s[k] == d[k]);
                    assert(!same_key(s[k], s[s.len() - 1]));
                } else {
                    assert(g[i] == f[i] && g[j] == f[j]);
                }
            }
        }
    }
}

/// The number of rows `s` has besides those with the key of `e`.
proof fn lemma_filter_other_len(s: Seq<EntryView>, e: EntryView)
    requires
        keys_unique(s),
    ensures
        has_key(s, e) ==> s.filter(other_key(e)).len() == s.len() - 1,
        !has_key(s, e) ==> s.filter(other_key(e)).len() == s.len(),
    decreases s.len(),
{
    reveal_with_fuel(Seq::<_>::filter, 1);
    if s.len() > 0 {
        let d = s.drop_last();
        assert(keys_unique(d)) by {
            assert forall|i: int, j: int| 0 <= i < j < d.len() implies !same_key(
                #[trigger] d[i],
                #[trigger] d[j],
            ) by {
                assert(d[i] == s[i] && d[j] == s[j]);
            }
        }
        lemma_filter_other_len(d, e);
        if has_key(d, e) {
            let k = choose|k: int| 0 <= k < d.len() && same_key(#[trigger] d[k], e);
            assert(s[k] == d[k]);
            assert(!same_key(s[k], s[s.len() - 1]));
            assert(has_key(s, e));
        } else if same_key(s.last(), e) {
            assert(has_key(s, e));
        } else {
            assert forall|i: int| 0 <= i < s.len() implies !same_key(#[trigger] s[i], e) by {
                if i < s.len() - 1 {
                    assert(s[i] == d[i]);
                }
            }
        }
    }
}

/// Storing an entry keeps the keys of the rows unique.
pub proof fn lemma_upsert_keys_unique(s: Seq<EntryView>, e: EntryView)
    requires
        keys_unique(s),
    ensures
        keys_unique(upsert(s, e)),
{
    let f = s.filter(other_key(e));
    lemma_filter_keys_unique(s, other_key(e));
    let g = f.push(e);
    assert forall|i: int, j: int| 0 <= i < j < g.len() implies !same_key(
        #[trigger] g[i],
        #[trigger] g[j],
    ) by {
        if j == g.len() - 1 {
            assert(other_key(e)(f[i]));
        } else {
            assert(g[i] == f[i] && g[j] == f[j]);
        }
    }
}

/// Storing an entry replaces the row with its key, or adds one row when there is none.
pub proof fn lemma_upsert_count(s: Seq<EntryView>, e: EntryView)
    requires
        keys_unique(s),
    ensures
        has_key(s, e) ==> upsert(s, e).len() == s.len(),
        !has_key(s, e) ==> upsert(s, e).len() == s.len() + 1,
{
    lemma_filter_other_len(s, e);
}

/// After storing `e`, `e` is the only row with its key.
pub proof fn lemma_upsert_replaces(s: Seq<EntryView>, e: EntryView)
    ensures
        upsert(s, e).contains(e),
        forall|i: int|
            0 <= i < upsert(s, e).len() && same_key(#[trigger] upsert(s, e)[i], e) ==> upsert(
                s,
                e,
            )[i] == e,
{
    let f = s.filter(other_key(e));
    assert(upsert(s, e)[f.len() as int] == e);
    assert forall|i: int|
        0 <= i < upsert(s, e).len() && same_key(#[trigger] upsert(s, e)[i], e) implies upsert(
        s,
        e,
    )[i] == e by {
        if i < f.len() {
            assert(other_key(e)(f[i]));
        }
    }
}

/// Storing `e` leaves every row with another key as it was.
pub proof fn lemma_upsert_keeps_others(s: Seq<EntryView>, e: EntryView, x: EntryView)
    requires
        !same_key(x, e),
    ensures
        upsert(s, e).contains(x) <==> s.contains(x),
{
    let f = s.filter(other_key(e));
    if upsert(s, e).contains(x) {
        let k = choose|k: int| 0 <= k < upsert(s, e).len() && upsert(s, e)[k] == x;
        assert(k < f.len());
        assert(f.contains(x));
        s.lemma_filter_contains_rev(other_key(e), x);
    }
    if s.contains(x) {
        let k = choose|k: int| 0 <= k < s.len() && s[k] == x;
        s.lemma_filter_contains(other_key(e), k);
        let m = choose|m: int| 0 <= m < f.len() && f[m] == x;
        assert(upsert(s, e)[m] == x);
    }
}

/// What the in-memory store answers holds only stored rows for the command whose
/// completion starts with the prefix, sorted by completion, at most `limit` of them.
pub proof fn lemma_query_results(s: Seq<EntryView>, command: Seq<char>, prefix: Seq<char>, limit: nat)
    ensures
        mem_query(s, command, prefix, limit).len() <= limit,
        sorted_by_completion(mem_query(s, command, prefix, limit)),
        forall|i: int|
            0 <= i < mem_query(s, command, prefix, limit).len() ==> {
                let x = #[trigger] mem_query(s, command, prefix, limit)[i];
                &&& s.contains(x)
                &&& x.command == command
                &&& has_prefix(x.completion, prefix)
            },
{
    let f = s.filter(query_match(command, prefix));
    let t = sort_by_completion(f);
    lemma_sort_sorted(f);
    lemma_sort_permutes(f);
    let r = mem_query(s, command, prefix, limit);
    assert forall|i: int| 0 <= i < r.len() implies {
        let x = #[trigger] r[i];
        &&& s.contains(x)
        &&& x.command == command
        &&& has_prefix(x.completion, prefix)
    } by {
        assert(r[i] == t[i]);
        assert(t.contains(t[i]));
        assert(t.to_multiset().count(t[i]) > 0);
        assert(f.contains(t[i]));
        let k = choose|k: int| 0 <= k < f.len() && f[k] == t[i];
        assert(query_match(command, prefix)(f[k]));
        s.lemma_filter_contains_rev(query_match(command, prefix), t[i]);
    }
}

/// A stored entry is found again by a query for its command with any prefix of its
/// completion, when the limit leaves room for every row.
pub proof fn lemma_query_after_insert(s: Seq<EntryView>, e: EntryView, prefix: Seq<char>, limit: nat)
    requires
        has_prefix(e.completion, prefix),
        limit > s.len(),
    ensures
        mem_query(upsert(s, e), e.command, prefix, limit).contains(e),
{
    let u = upsert(s, e);
    let q = query_match(e.command, prefix);
    lemma_upsert_replaces(s, e);
    let k = choose|k: int| 0 <= k < u.len() && u[k] == e;
    u.lemma_filter_contains(q, k);
    let f = u.filter(q);
    lemma_sort_permutes(f);
    lemma_sort_sorted(f);
    let t = sort_by_completion(f);
    assert(f.to_multiset().count(e) > 0);
    assert(t.contains(e));
    assert(s.filter(other_key(e)).len() <= s.len());
}

/// Storing `e` never touches a row that differs from it in command, completion or
/// source: such a row is stored afterwards exactly when it was stored before.
pub proof fn lemma_upsert_other_rows(s: Seq<EntryView>, e: EntryView, x: EntryView)
    requires
        x.command != e.command || x.completion != e.completion || x.source != e.source,
    ensures
        upsert(s, e).contains(x) <==> s.contains(x),
{
    lemma_upsert_keeps_others(s, e, x);
}

/// The in-memory store answers the first `limit` matching rows in completion
/// order: as many as match, up to `limit`, and a matching row that sorts strictly
/// before a returned row is returned too.
pub proof fn lemma_query_first_in_order(
    s: Seq<EntryView>,
    command: Seq<char>,
    prefix: Seq<char>,
    limit: nat,
)
    ensures
        mem_query(s, command, prefix, limit).len() == (if s.filter(
            query_match(command, prefix),
        ).len() < limit {
            s.filter(query_match(command, prefix)).len()
        } else {
            limit
        }),
        forall|x: EntryView, y: EntryView|
            #![trigger s.contains(x), mem_query(s, command, prefix, limit).contains(y)]
            s.contains(x) && x.command == command && has_prefix(x.completion, prefix) && mem_query(
                s,
                command,
                prefix,
                limit,
            ).contains(y) && lex_lt(x.completion, y.completion) ==> mem_query(
                s,
                command,
                prefix,
                limit,
            ).contains(x),
{
    let q = query_match(command, prefix);
    let f = s.filter(q);
    let t = sort_by_completion(f);
    let r = mem_query(s, command, prefix, limit);
    lemma_sort_sorted(f);
    lemma_sort_permutes(f);
    assert forall|x: EntryView, y: EntryView|
        #![trigger s.contains(x), r.contains(y)]
        s.contains(x) && x.command == command && has_prefix(x.completion, prefix) && r.contains(y)
            && lex_lt(x.completion, y.completion) implies r.contains(x) by {
        let k = choose|k: int| 0 <= k < s.len() && s[k] == x;
        s.lemma_filter_contains(q, k);
        assert(f.to_multiset().count(x) > 0);
        assert(t.to_multiset().count(x) > 0);
        assert(t.contains(x));
        let i = choose|i: int| 0 <= i < t.len() && t[i] == x;
        let j = choose|j: int| 0 <= j < r.len() && r[j] == y;
        assert(r[j] == t[j]);
        if j < i {
            assert(!lex_lt(t[i].completion, t[j].completion));
        }
        if i < j {
            assert(r[i] == t[i]);
        }
    }
}

/// Simple in-memory store, for tests and embedding.
pub struct MemStore {
    entries: Vec<CompletionEntry>,
}

impl View for MemStore {
    type V = Seq<EntryView>;

    closed spec fn view(&self) -> Seq<EntryView> {
        views(self.entries@)
    }
}

impl MemStore {
    /// No two stored rows share a key.
    #[verifier::type_invariant]
    spec fn keys_are_unique(self) -> bool {
        keys_unique(views(self.entries@))
    }

    /// An empty store.
    pub fn new() -> (r: Self)
        ensures
            r@ == Seq::<EntryView>::empty(),
    {
        let r = MemStore { entries: Vec::new() };
        assert(r@ =~= Seq::<EntryView>::empty());
        r
    }
}

impl Default for MemStore {
    fn default() -> (r: Self)
        ensures
            r@ == Seq::<EntryView>::empty(),
    {
        Self::new()
    }
}

/// Whether `x` is the same stored row as `e`.
fn same_row(x: &CompletionEntry, e: &CompletionEntry) -> (r: bool)
    ensures
        r == same_key(x@, e@),
{
    x.command == e.command && x.completion == e.completion && x.source == e.source
}

impl Store for MemStore {
    fn insert(&mut self, entry: &CompletionEntry) -> (r: Result<(), BmError>)
        ensures
            r is Ok,
            final(self)@ == upsert(old(self)@, entry@),
            keys_unique(final(self)@),
    {
        proof {
            use_type_invariant(&*self);
        }
        let ghost all = self@;
        let mut kept: Vec<CompletionEntry> = Vec::new();
        let n = self.entries.len();
        for i in 0..n
            invariant
                n == self.entries@.len(),
                all == views(self.entries@),
                views(kept@) == all.take(i as int).filter(other_key(entry@)),
        {
            let x = &self.entries[i];
            proof {
                lemma_filter_take_step(all, other_key(entry@), i as int);
            }
            if !same_row(x, entry) {
                let ghost before = views(kept@);
                kept.push(x.clone());
                assert(views(kept@) =~= before.push(all[i as int]));
            }
        }
        assert(all.take(n as int) =~= all);
        let ghost before = views(kept@);
        kept.push(entry.clone());
        assert(views(kept@) =~= before.push(entry@));
        proof {
            lemma_upsert_keys_unique(all, entry@);
        }
        self.entries = kept;
        proof {
            use_type_invariant(&*self);
        }
        Ok(())
    }

    fn query(&self, command: &str, prefix: &str, limit: usize) -> (r: Result<
        Vec<CompletionEntry>,
        BmError,
    >)
        ensures
            r is Ok,
            views(r->Ok_0@) == mem_query(self@, command@, prefix@, limit as nat),
    {
        let ghost all = self@;
        let ghost q = query_match(command@, prefix@);
        let cmd = chars_of(command);
        let pre = chars_of(prefix);
        let mut hits: Vec<CompletionEntry> = Vec::new();
        let n = self.entries.len();
        for i in 0..n
            invariant
                n == self.entries@.len(),
                all == views(self.entries@),
                cmd@ == command@,
                pre@ == prefix@,
                q == query_match(command@, prefix@),
                views(hits@) == all.take(i as int).filter(q),
        {
            let x = &self.entries[i];
            proof {
                lemma_filter_take_step(all, q, i as int);
            }
            let xc = chars_of(x.command.as_str());
            let xs = chars_of(x.completion.as_str());
            if same_chars(xc.as_slice(), cmd.as_slice()) && starts_with(xs.as_slice(), pre.as_slice()) {
                let ghost before = views(hits@);
                hits.push(x.clone());
                assert(views(hits@) =~= before.push(all[i as int]));
            }
        }
        assert(all.take(n as int) =~= all);
        let mut sorted = sort_entries(hits);
        let ghost full = views(sorted@);
        sorted.truncate(limit);
        assert(views(sorted@) =~= truncate(full, limit as nat));
        Ok(sorted)
    }

    fn count(&self) -> (r: Result<usize, BmError>)
        ensures
            r is Ok,
            r->Ok_0 == self@.len(),
    {
        Ok(self.entries.len())
    }
}

} // verus!
