//! Shared test utilities — builders, validators, fixture data.
use vstd::prelude::*;
use crate::completions::{context_of, is_dir_nav_command, is_path_shaped, CompletionContext};
use crate::error::BmError;
use crate::store::{insert_into, query_of, CompletionEntry, EntryView, Store};

verus! {

/// Fluent builder for [`CompletionEntry`].
pub struct CompletionEntryBuilder {
    command: String,
    completion: String,
    description: String,
    source: String,
}

impl View for CompletionEntryBuilder {
    type V = EntryView;

    closed spec fn view(&self) -> EntryView {
        EntryView {
            command: self.command@,
            completion: self.completion@,
            description: self.description@,
            source: self.source@,
        }
    }
}

impl CompletionEntryBuilder {
    /// A builder with empty texts and source "mock".
    pub fn new() -> (r: Self)
        ensures
            r@ == (EntryView {
                command: Seq::empty(),
                completion: Seq::empty(),
                description: Seq::empty(),
                source: "mock"@,
            }),
    {
        CompletionEntryBuilder {
            command: String::new(),
            completion: String::new(),
            description: String::new(),
            source: "mock".to_owned(),
        }
    }

    /// Sets the command.
    pub fn command(self, cmd: &str) -> (r: Self)
        ensures
            r@ == (EntryView { command: cmd@, ..self@ }),
    {
        CompletionEntryBuilder { command: cmd.to_owned(), ..self }
    }

    /// Sets the completion text.
    pub fn completion(self, comp: &str) -> (r: Self)
        ensures
            r@ == (EntryView { completion: comp@, ..self@ }),
    {
        CompletionEntryBuilder { completion: comp.to_owned(), ..self }
    }

    /// Sets the description.
    pub fn description(self, desc: &str) -> (r: Self)
        ensures
            r@ == (EntryView { description: desc@, ..self@ }),
    {
        CompletionEntryBuilder { description: desc.to_owned(), ..self }
    }

    /// Sets the source.
    pub fn source(self, src: &str) -> (r: Self)
        ensures
            r@ == (EntryView { source: src@, ..self@ }),
    {
        CompletionEntryBuilder { source: src.to_owned(), ..self }
    }

    /// The entry with the texts set so far.
    pub fn build(self) -> (r: CompletionEntry)
        ensures
            r@ == self@,
    {
        CompletionEntry {
            command: self.command,
            completion: self.completion,
            description: self.description,
            source: self.source,
        }
    }
}

impl Default for CompletionEntryBuilder {
    fn default() -> (r: Self)
        ensures
            r@ == (EntryView {
                command: Seq::empty(),
                completion: Seq::empty(),
                description: Seq::empty(),
                source: "mock"@,
            }),
    {
        Self::new()
    }
}

/// The entry that the round-trip check stores.
pub open spec fn roundtrip_entry() -> EntryView {
    EntryView {
        command: "git"@,
        completion: "commit"@,
        description: "Record changes"@,
        source: "fish"@,
    }
}

/// A query answer that is exactly the fixture entry.
pub open spec fn is_roundtrip_answer(q: Result<Vec<CompletionEntry>, BmError>) -> bool {
    q is Ok && q->Ok_0@.len() == 1 && q->Ok_0@[0]@ == roundtrip_entry()
}

/// Whether a query answer is exactly the one entry `expected`.
pub fn answer_is_only(results: &[CompletionEntry], expected: &CompletionEntry) -> (r: bool)
    ensures
        r == (results@.len() == 1 && results@[0]@ == expected@),
{
    results.len() == 1 && results[0] == *expected
}

/// Inserts the fixture entry (git / commit / "Record changes" / fish) and queries it
/// back with command "git", prefix "co" and limit 10. The store must pass: whatever
/// its own `insert` of the fixture leaves, the insert answered `Ok` and every answer
/// of its own `query` on the store it left is exactly the fixture entry. The calls
/// made are that insert, on the store as given, and that query, on the store it left.
pub fn validate_store_roundtrip<S: Store>(store: &mut S)
    requires
        forall|m: &mut S, e: CompletionEntry, ins: Result<(), BmError>|
            #![trigger call_ensures(S::insert, (m, &e), ins)]
            mut_ref_current(m) == *old(store) && e@ == roundtrip_entry() && call_ensures(
                S::insert,
                (m, &e),
                ins,
            ) ==> ins is Ok && forall|q: Result<Vec<CompletionEntry>, BmError>|
                #[trigger] call_ensures(S::query, (&mut_ref_future(m), "git", "co", 10usize), q)
                    ==> is_roundtrip_answer(q),
    ensures
        exists|m: &mut S, e: CompletionEntry, q: Result<Vec<CompletionEntry>, BmError>|
            #![trigger call_ensures(S::insert, (m, &e), Ok(())), is_roundtrip_answer(q)]
            {
                &&& e@ == roundtrip_entry()
                &&& call_ensures(S::insert, (m, &e), Ok(()))
                &&& mut_ref_current(m) == *old(store)
                &&& mut_ref_future(m) == *final(store)
                &&& call_ensures(S::query, (&*final(store), "git", "co", 10usize), q)
                &&& is_roundtrip_answer(q)
            },
{
    let entry = CompletionEntryBuilder::new().command("git").completion("commit").description(
        "Record changes",
    ).source("fish").build();
    assert(entry@ == roundtrip_entry());
    let ins = insert_into(store, &entry);
    proof {
        let m = choose|m: &mut S|
            #[trigger] call_ensures(S::insert, (m, &entry), ins) && mut_ref_current(m) == *old(
                store,
            ) && mut_ref_future(m) == *store;
        assert(ins is Ok);
    }
    if ins.is_err() {
        proof {
            assert(false);
        }
        return;
    }
    let q = query_of(store, "git", "co", 10);
    proof {
        assert(is_roundtrip_answer(q));
        assert(ins == Ok::<(), BmError>(ins->Ok_0));
        assert(*final(store) == *store);
    }
    match &q {
        Ok(results) => {
            if !answer_is_only(results.as_slice(), &entry) {
                proof {
                    assert(false);
                }
            }
        },
        Err(_) => {
            proof {
                assert(false);
            }
        },
    }
}

/// Commands of other lengths, or of the same length with another first letter,
/// are not directory navigation commands.
proof fn lemma_not_dir_nav(c: Seq<char>)
    requires
        c.len() == 2 ==> c[0] != 'c',
        c.len() == 5 ==> c[0] != 'p',
        c.len() == 4 ==> c[0] != 'p',
        c.len() == 1 ==> c[0] != 'z' && c[0] != 'j',
        c.len() == 6 ==> c[0] != 'z',
        c.len() == 8 ==> c[0] != 'a',
    ensures
        !is_dir_nav_command(c),
{
    reveal_strlit("cd");
    reveal_strlit("pushd");
    reveal_strlit("popd");
    reveal_strlit("z");
    reveal_strlit("zoxide");
    reveal_strlit("j");
    reveal_strlit("autojump");
    assert("cd"@[0] == 'c');
    assert("pushd"@[0] == 'p');
    assert("popd"@[0] == 'p');
    assert("z"@[0] == 'z');
    assert("zoxide"@[0] == 'z');
    assert("j"@[0] == 'j');
    assert("autojump"@[0] == 'a');
}

/// A prefix that does not begin with `/`, `~` or `.` is not path-shaped.
proof fn lemma_not_path_shaped(p: Seq<char>)
    requires
        p.len() > 0 ==> p[0] != '/' && p[0] != '~' && p[0] != '.',
    ensures
        !is_path_shaped(p),
{
    reveal_strlit("./");
    reveal_strlit("../");
    assert("./"@[0] == '.');
    assert("../"@[0] == '.');
    if p.len() >= 2 {
        assert(p.subrange(0, 2)[0] == p[0]);
    }
    if p.len() >= 3 {
        assert(p.subrange(0, 3)[0] == p[0]);
    }
}

/// A prefix beginning with `./` is path-shaped.
proof fn lemma_dot_slash_prefix(p: Seq<char>)
    requires
        p.len() >= 2,
        p[0] == '.',
        p[1] == '/',
    ensures
        is_path_shaped(p),
{
    reveal_strlit("./");
    assert(p.subrange(0, 2) =~= "./"@);
}

/// A prefix beginning with `../` is path-shaped.
proof fn lemma_dot_dot_slash_prefix(p: Seq<char>)
    requires
        p.len() >= 3,
        p[0] == '.',
        p[1] == '.',
        p[2] == '/',
    ensures
        is_path_shaped(p),
{
    reveal_strlit("../");
    assert(p.subrange(0, 3) =~= "../"@);
}

/// The (command, prefix, context) tuples of the classification suite: seven
/// directory navigation commands, four path-shaped prefixes, three flags and four
/// plain arguments.
pub open spec fn context_suite() -> Seq<(Seq<char>, Seq<char>, CompletionContext)> {
    seq![
        ("cd"@, ""@, CompletionContext::DirectoryNav),
        ("pushd"@, "foo"@, CompletionContext::DirectoryNav),
        ("popd"@, ""@, CompletionContext::DirectoryNav),
        ("z"@, "pro"@, CompletionContext::DirectoryNav),
        ("zoxide"@, ""@, CompletionContext::DirectoryNav),
        ("j"@, "src"@, CompletionContext::DirectoryNav),
        ("autojump"@, "~"@, CompletionContext::DirectoryNav),
        ("ls"@, "/etc"@, CompletionContext::PathCompletion),
        ("cat"@, "~/doc"@, CompletionContext::PathCompletion),
        ("vim"@, "./src"@, CompletionContext::PathCompletion),
        ("rm"@, "../old"@, CompletionContext::PathCompletion),
        ("git"@, "--verbose"@, CompletionContext::FlagCompletion),
        ("ls"@, "-l"@, CompletionContext::FlagCompletion),
        ("cargo"@, "-p"@, CompletionContext::FlagCompletion),
        ("git"@, "commit"@, CompletionContext::CommandArg),
        ("kubectl"@, "get"@, CompletionContext::CommandArg),
        ("cargo"@, "build"@, CompletionContext::CommandArg),
        ("ls"@, ""@, CompletionContext::CommandArg),
    ]
}

/// The text of the suite's tuples.
pub open spec fn suite_view(s: Seq<(&'static str, &'static str, CompletionContext)>) -> Seq<
    (Seq<char>, Seq<char>, CompletionContext),
> {
    s.map_values(|t: (&'static str, &'static str, CompletionContext)| (t.0@, t.1@, t.2))
}

/// Every tuple of the suite is classified as it lists.
pub proof fn lemma_context_suite_classified()
    ensures
        forall|i: int|
            0 <= i < context_suite().len() ==> context_of(
                (#[trigger] context_suite()[i]).0,
                context_suite()[i].1,
            ) == context_suite()[i].2,
{
    reveal_strlit("");
    reveal_strlit("--verbose");
    reveal_strlit("-l");
    reveal_strlit("-p");
    reveal_strlit("../old");
    reveal_strlit("./src");
    reveal_strlit("/etc");
    reveal_strlit("autojump");
    reveal_strlit("build");
    reveal_strlit("cargo");
    reveal_strlit("cat");
    reveal_strlit("cd");
    reveal_strlit("commit");
    reveal_strlit("foo");
    reveal_strlit("get");
    reveal_strlit("git");
    reveal_strlit("j");
    reveal_strlit("kubectl");
    reveal_strlit("ls");
    reveal_strlit("popd");
    reveal_strlit("pro");
    reveal_strlit("pushd");
    reveal_strlit("rm");
    reveal_strlit("src");
    reveal_strlit("vim");
    reveal_strlit("z");
    reveal_strlit("zoxide");
    reveal_strlit("~");
    reveal_strlit("~/doc");
    lemma_not_dir_nav("ls"@);
    lemma_not_dir_nav("cat"@);
    lemma_not_dir_nav("vim"@);
    lemma_not_dir_nav("rm"@);
    lemma_not_dir_nav("git"@);
    lemma_not_dir_nav("cargo"@);
    lemma_not_dir_nav("kubectl"@);
    lemma_not_path_shaped("--verbose"@);
    lemma_not_path_shaped("-l"@);
    lemma_not_path_shaped("-p"@);
    lemma_not_path_shaped("commit"@);
    lemma_not_path_shaped("get"@);
    lemma_not_path_shaped("build"@);
    lemma_not_path_shaped(""@);
    lemma_dot_slash_prefix("./src"@);
    lemma_dot_dot_slash_prefix("../old"@);
}

/// Exhaustive set of (command, prefix, expected context) tuples covering every
/// variant of [`CompletionContext`]: exactly [`context_suite`].
pub fn classify_context_suite() -> (r: Vec<(&'static str, &'static str, CompletionContext)>)
    ensures
        suite_view(r@) == context_suite(),
        forall|i: int| 0 <= i < r@.len() ==> context_of(r@[i].0@, r@[i].1@) == #[trigger] r@[i].2,
{
    let mut v: Vec<(&'static str, &'static str, CompletionContext)> = Vec::new();
    v.push(("cd", "", CompletionContext::DirectoryNav));
    v.push(("pushd", "foo", CompletionContext::DirectoryNav));
    v.push(("popd", "", CompletionContext::DirectoryNav));
    v.push(("z", "pro", CompletionContext::DirectoryNav));
    v.push(("zoxide", "", CompletionContext::DirectoryNav));
    v.push(("j", "src", CompletionContext::DirectoryNav));
    v.push(("autojump", "~", CompletionContext::DirectoryNav));
    v.push(("ls", "/etc", CompletionContext::PathCompletion));
    v.push(("cat", "~/doc", CompletionContext::PathCompletion));
    v.push(("vim", "./src", CompletionContext::PathCompletion));
    v.push(("rm", "../old", CompletionContext::PathCompletion));
    v.push(("git", "--verbose", CompletionContext::FlagCompletion));
    v.push(("ls", "-l", CompletionContext::FlagCompletion));
    v.push(("cargo", "-p", CompletionContext::FlagCompletion));
    v.push(("git", "commit", CompletionContext::CommandArg));
    v.push(("kubectl", "get", CompletionContext::CommandArg));
    v.push(("cargo", "build", CompletionContext::CommandArg));
    v.push(("ls", "", CompletionContext::CommandArg));
    assert(suite_view(v@) =~= context_suite());
    proof {
        lemma_context_suite_classified();
        assert forall|i: int| 0 <= i < v@.len() implies context_of(v@[i].0@, v@[i].1@)
            == #[trigger] v@[i].2 by {
            assert(suite_view(v@)[i] == context_suite()[i]);
        }
    }
    v
}

} // verus!
