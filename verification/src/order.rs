//! Ordering of completion texts and the stable sort by completion text.
//!
//! `String`'s order compares UTF-8 bytes lexicographically, which is the same
//! as comparing the characters lexicographically by their scalar values.
use vstd::prelude::*;
use crate::store::{CompletionEntry, EntryView, views};
use crate::text::chars_of;

verus! {

broadcast use vstd::seq_lib::group_to_multiset_ensures;

/// `a` comes strictly before `b` in lexicographic order of scalar values.
pub open spec fn lex_lt(a: Seq<char>, b: Seq<char>) -> bool
    decreases a.len(),
{
    if a.len() == 0 {
        b.len() > 0
    } else if b.len() == 0 {
        false
    } else if a[0] != b[0] {
        (a[0] as int) < (b[0] as int)
    } else {
        lex_lt(a.drop_first(), b.drop_first())
    }
}

/// No text comes before itself.
pub proof fn lemma_lex_irreflexive(a: Seq<char>)
    ensures
        !lex_lt(a, a),
    decreases a.len(),
{
    if a.len() > 0 {
        lemma_lex_irreflexive(a.drop_first());
    }
}

/// The order is transitive.
pub proof fn lemma_lex_transitive(a: Seq<char>, b: Seq<char>, c: Seq<char>)
    requires
        lex_lt(a, b),
        lex_lt(b, c),
    ensures
        lex_lt(a, c),
    decreases a.len(),
{
    if a.len() > 0 && b.len() > 0 && c.len() > 0 && a[0] == b[0] && b[0] == c[0] {
        lemma_lex_transitive(a.drop_first(), b.drop_first(), c.drop_first());
    }
}

/// Of two different texts, one comes before the other.
pub proof fn lemma_lex_total(a: Seq<char>, b: Seq<char>)
    ensures
        a != b ==> lex_lt(a, b) || lex_lt(b, a),
    decreases a.len(),
{
    if a.len() > 0 && b.len() > 0 && a[0] == b[0] {
        lemma_lex_total(a.drop_first(), b.drop_first());
        if a.drop_first() == b.drop_first() {
            assert(a =~= seq![a[0]] + a.drop_first());
            assert(b =~= seq![b[0]] + b.drop_first());
        }
    } else if a.len() == 0 && b.len() == 0 {
        assert(a =~= b);
    } else if a.len() > 0 && b.len() > 0 {
        assert((a[0] as int) != (b[0] as int));
    }
}

/// The order is asymmetric.
pub proof fn lemma_lex_asymmetric(a: Seq<char>, b: Seq<char>)
    ensures
        lex_lt(a, b) ==> !lex_lt(b, a),
    decreases a.len(),
{
    if a.len() > 0 && b.len() > 0 && a[0] == b[0] {
        lemma_lex_asymmetric(a.drop_first(), b.drop_first());
    }
}

/// Whether `a` comes strictly before `b`.
pub fn chars_lt(a: &[char], b: &[char]) -> (r: bool)
    ensures
        r == lex_lt(a@, b@),
{
    let mut i: usize = 0;
    assert(a@.skip(0) =~= a@);
    assert(b@.skip(0) =~= b@);
    while i < a.len() && i < b.len()
        invariant
            i <= a@.len(),
            i <= b@.len(),
            lex_lt(a@, b@) == lex_lt(a@.skip(i as int), b@.skip(i as int)),
        decreases a@.len() - i,
    {
        if a[i] != b[i] {
            assert(a@.skip(i as int)[0] == a@[i as int]);
            assert(b@.skip(i as int)[0] == b@[i as int]);
            return a[i] < b[i];
        }
        assert(a@.skip(i as int).drop_first() =~= a@.skip(i + 1));
        assert(b@.skip(i as int).drop_first() =~= b@.skip(i + 1));
        i = i + 1;
    }
    i < b.len()
}

/// Inserts `e` into `s` after every entry whose completion does not sort after it.
pub open spec fn insert_in_order(s: Seq<EntryView>, e: EntryView) -> Seq<EntryView>
    decreases s.len(),
{
    if s.len() == 0 {
        seq![e]
    } else if lex_lt(e.completion, s.last().completion) {
        insert_in_order(s.drop_last(), e).push(s.last())
    } else {
        s.push(e)
    }
}

/// The stable sort of `s` by completion text (what `sort_by` on the completion yields).
pub open spec fn sort_by_completion(s: Seq<EntryView>) -> Seq<EntryView>
    decreases s.len(),
{
    if s.len() == 0 {
        s
    } else {
        insert_in_order(sort_by_completion(s.drop_last()), s.last())
    }
}

/// No entry sorts strictly before an earlier one.
pub open spec fn sorted_by_completion(s: Seq<EntryView>) -> bool {
    forall|i: int, j: int|
        0 <= i < j < s.len() ==> !lex_lt(#[trigger] s[j].completion, #[trigger] s[i].completion)
}

/// Where `insert_in_order` places its entry: after the prefix `s.take(j)`.
proof fn lemma_insert_at(s: Seq<EntryView>, e: EntryView, j: int)
    requires
        0 <= j <= s.len(),
        forall|k: int| j <= k < s.len() ==> lex_lt(e.completion, #[trigger] s[k].completion),
        j == 0 || !lex_lt(e.completion, s[j - 1].completion),
    ensures
        insert_in_order(s, e) == s.take(j).push(e) + s.skip(j),
    decreases s.len(),
{
    if s.len() == 0 {
        assert(s.take(j).push(e) + s.skip(j) =~= seq![e]);
    } else if j == s.len() {
        assert(s.take(j).push(e) + s.skip(j) =~= s.push(e));
    } else {
        let d = s.drop_last();
        assert(lex_lt(e.completion, s.last().completion));
        assert forall|k: int| j <= k < d.len() implies lex_lt(e.completion, #[trigger] d[k].completion) by {
            assert(d[k] == s[k]);
        }
        if j > 0 {
            assert(d[j - 1] == s[j - 1]);
        }
        lemma_insert_at(d, e, j);
        assert(d.take(j).push(e) + d.skip(j) + seq![s.last()] =~= s.take(j).push(e) + s.skip(j));
    }
}

/// Inserting keeps the multiset of entries, plus the new one.
proof fn lemma_insert_multiset(s: Seq<EntryView>, e: EntryView)
    ensures
        insert_in_order(s, e).to_multiset() == s.to_multiset().insert(e),
    decreases s.len(),
{
    broadcast use vstd::multiset::group_multiset_axioms;

    if s.len() == 0 {
        assert(seq![e] =~= s.push(e));
    } else if lex_lt(e.completion, s.last().completion) {
        lemma_insert_multiset(s.drop_last(), e);
        assert(s =~= s.drop_last().push(s.last()));
        assert(insert_in_order(s, e).to_multiset() =~= s.to_multiset().insert(e));
    }
}

/// Inserting into a sorted sequence keeps it sorted.
proof fn lemma_insert_sorted(s: Seq<EntryView>, e: EntryView)
    requires
        sorted_by_completion(s),
    ensures
        sorted_by_completion(insert_in_order(s, e)),
        insert_in_order(s, e).len() == s.len() + 1,
    decreases s.len(),
{
    if s.len() == 0 {
    } else if lex_lt(e.completion, s.last().completion) {
        let d = s.drop_last();
        lemma_insert_sorted(d, e);
        lemma_insert_multiset(d, e);
        let t = insert_in_order(d, e);
        let r = t.push(s.last());
        assert forall|i: int, j: int| 0 <= i < j < r.len() implies !lex_lt(
            #[trigger] r[j].completion,
            #[trigger] r[i].completion,
        ) by {
            if j == r.len() - 1 {
                // r[i] is either e or an entry of d
                assert(t.to_multiset().count(t[i]) > 0);
                assert(d.to_multiset().insert(e).count(t[i]) > 0);
                if t[i] == e {
                    lemma_lex_asymmetric(e.completion, s.last().completion);
                } else {
                    assert(d.to_multiset().count(t[i]) > 0);
                    assert(d.contains(t[i]));
                    let k = choose|k: int| 0 <= k < d.len() && d[k] == t[i];
                    assert(s[k] == d[k]);
                    assert(!lex_lt(s[s.len() - 1].completion, s[k].completion));
                }
            }
        }
    } else {
        let r = s.push(e);
        assert forall|i: int, j: int| 0 <= i < j < r.len() implies !lex_lt(
            #[trigger] r[j].completion,
            #[trigger] r[i].completion,
        ) by {
            if j == r.len() - 1 && i < s.len() - 1 {
                // e does not sort before the last entry, which does not sort before s[i]
                if lex_lt(e.completion, s[i].completion) {
                    lemma_lex_total(s.last().completion, s[i].completion);
                    if s.last().completion == s[i].completion {
                    } else {
                        assert(!lex_lt(s[s.len() - 1].completion, s[i].completion));
                        lemma_lex_transitive(e.completion, s[i].completion, s.last().completion);
                    }
                }
            }
        }
    }
}

/// The sort yields a sequence sorted by completion text.
pub proof fn lemma_sort_sorted(s: Seq<EntryView>)
    ensures
        sorted_by_completion(sort_by_completion(s)),
        sort_by_completion(s).len() == s.len(),
    decreases s.len(),
{
    if s.len() > 0 {
        lemma_sort_sorted(s.drop_last());
        lemma_insert_sorted(sort_by_completion(s.drop_last()), s.last());
    }
}

/// The sort keeps exactly the entries it was given.
pub proof fn lemma_sort_permutes(s: Seq<EntryView>)
    ensures
        sort_by_completion(s).to_multiset() == s.to_multiset(),
    decreases s.len(),
{
    if s.len() > 0 {
        lemma_sort_permutes(s.drop_last());
        lemma_insert_multiset(sort_by_completion(s.drop_last()), s.last());
        assert(s =~= s.drop_last().push(s.last()));
    }
}

/// Sorts the entries by completion text, keeping the order of entries with equal text.
pub fn sort_entries(v: Vec<CompletionEntry>) -> (r: Vec<CompletionEntry>)
    ensures
        views(r@) == sort_by_completion(views(v@)),
{
    let ghost src = views(v@);
    let mut out: Vec<CompletionEntry> = Vec::new();
    let n = v.len();
    let rest = v;
    // Walk the input front to back, moving each entry into place.
    let mut idx: usize = 0;
    while idx < n
        invariant
            n == src.len(),
            rest@.len() == n,
            views(rest@) == src,
            idx <= n,
            views(out@) == sort_by_completion(src.take(idx as int)),
        decreases n - idx,
    {
        let e = rest[idx].clone();
        let key = chars_of(e.completion.as_str());
        let ghost cur = views(out@);
        proof {
            lemma_sort_sorted(src.take(idx as int));
        }
        let mut j = out.len();
        let mut placed = false;
        while j > 0 && !placed
            invariant
                j <= out@.len(),
                cur == views(out@),
                key@ == e@.completion,
                forall|k: int| j <= k < cur.len() ==> lex_lt(e@.completion, #[trigger] cur[k].completion),
                placed ==> j > 0 && !lex_lt(e@.completion, cur[j - 1].completion),
            decreases 2 * j + (if placed { 0int } else { 1int }),
        {
            let other = chars_of(out[j - 1].completion.as_str());
            if chars_lt(key.as_slice(), other.as_slice()) {
                j = j - 1;
            } else {
                placed = true;
            }
        }
        proof {
            lemma_insert_at(cur, e@, j as int);
        }
        out.insert(j, e);
        proof {
            assert(views(out@) =~= cur.take(j as int).push(e@) + cur.skip(j as int));
            let t = src.take(idx + 1);
            assert(t.drop_last() =~= src.take(idx as int));
            assert(t.last() == e@);
        }
        idx = idx + 1;
    }
    assert(src.take(n as int) =~= src);
    out
}

} // verus!
