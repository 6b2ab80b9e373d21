//! Character-level text helpers: whitespace, splitting into pieces, prefixes.
//!
//! Text is modelled as `Seq<char>`, the view vstd gives to `str` and `String`.
use vstd::prelude::*;

verus! {

/// `String::push` appends one character to the string.
pub assume_specification[ String::push ](s: &mut String, ch: char)
    ensures
        final(s)@ == old(s)@.push(ch),
;

/// The Unicode `White_Space` property, which `char::is_whitespace` tests.
pub open spec fn is_ws(c: char) -> bool {
    let u = c as u32;
    ||| 0x09 <= u <= 0x0D
    ||| u == 0x20
    ||| u == 0x85
    ||| u == 0xA0
    ||| u == 0x1680
    ||| 0x2000 <= u <= 0x200A
    ||| u == 0x2028
    ||| u == 0x2029
    ||| u == 0x202F
    ||| u == 0x205F
    ||| u == 0x3000
}

/// Whether `c` is Unicode whitespace (the test behind `split_whitespace` and `trim`).
pub fn is_whitespace(c: char) -> (r: bool)
    ensures
        r == is_ws(c),
{
    let u = c as u32;
    (0x09 <= u && u <= 0x0D) || u == 0x20 || u == 0x85 || u == 0xA0 || u == 0x1680 || (0x2000
        <= u && u <= 0x200A) || u == 0x2028 || u == 0x2029 || u == 0x202F || u == 0x205F || u
        == 0x3000
}

/// Which characters separate the pieces of a text.
#[derive(Clone, Copy, Debug, PartialEq, Eq)]
pub enum Sep {
    /// Unicode whitespace, as in `str::split_whitespace`.
    Whitespace,
    /// The path separator `/`.
    Slash,
    /// The line feed `\n`.
    Newline,
}

pub open spec fn is_sep(sep: Sep, c: char) -> bool {
    match sep {
        Sep::Whitespace => is_ws(c),
        Sep::Slash => c == '/',
        Sep::Newline => c == '\n',
    }
}

fn is_sep_exec(sep: Sep, c: char) -> (r: bool)
    ensures
        r == is_sep(sep, c),
{
    match sep {
        Sep::Whitespace => is_whitespace(c),
        Sep::Slash => c == '/',
        Sep::Newline => c == '\n',
    }
}

/// The maximal runs of non-separator characters of `s`, left to right.
/// With `Sep::Whitespace` these are the words that `split_whitespace` yields.
pub open spec fn pieces(s: Seq<char>, sep: Sep) -> Seq<Seq<char>>
    decreases s.len(),
{
    if s.len() == 0 {
        seq![]
    } else {
        let before = pieces(s.drop_last(), sep);
        let c = s.last();
        if is_sep(sep, c) {
            before
        } else if s.len() >= 2 && !is_sep(sep, s[s.len() - 2]) {
            before.update(before.len() - 1, before.last().push(c))
        } else {
            before.push(seq![c])
        }
    }
}

/// A text that ends in a non-separator ends with its last piece: that piece is the
/// whole run of non-separators at the end of the text.
pub proof fn lemma_last_piece(s: Seq<char>, sep: Sep)
    requires
        s.len() > 0,
        !is_sep(sep, s.last()),
    ensures
        pieces(s, sep).len() > 0,
        ({
            let w = pieces(s, sep).last();
            &&& 0 < w.len() <= s.len()
            &&& s.subrange(s.len() - w.len(), s.len() as int) == w
            &&& forall|i: int| 0 <= i < w.len() ==> !is_sep(sep, #[trigger] w[i])
            &&& s.len() > w.len() ==> is_sep(sep, s[s.len() - w.len() - 1])
        }),
    decreases s.len(),
{
    let d = s.drop_last();
    let c = s.last();
    if s.len() >= 2 && !is_sep(sep, s[s.len() - 2]) {
        assert(d.last() == s[s.len() - 2]);
        lemma_last_piece(d, sep);
        let wd = pieces(d, sep).last();
        let w = pieces(s, sep).last();
        assert(w == wd.push(c));
        assert(s.subrange(s.len() - w.len(), s.len() as int) =~= d.subrange(
            d.len() - wd.len(),
            d.len() as int,
        ).push(c));
        assert forall|i: int| 0 <= i < w.len() implies !is_sep(sep, #[trigger] w[i]) by {
            if i < wd.len() {
                assert(w[i] == wd[i]);
            }
        }
        if s.len() > w.len() {
            assert(s[s.len() - w.len() - 1] == d[d.len() - wd.len() - 1]);
        }
    } else {
        let w = pieces(s, sep).last();
        assert(w == seq![c]);
        assert(s.subrange(s.len() - 1, s.len() as int) =~= seq![c]);
    }
}

/// The whitespace-separated words of `s`.
pub open spec fn words(s: Seq<char>) -> Seq<Seq<char>> {
    pieces(s, Sep::Whitespace)
}

/// `p` is a prefix of `s`.
pub open spec fn has_prefix(s: Seq<char>, p: Seq<char>) -> bool {
    p.len() <= s.len() && s.subrange(0, p.len() as int) == p
}

/// `s` is non-empty and begins with `c`.
pub open spec fn starts_with_char(s: Seq<char>, c: char) -> bool {
    s.len() > 0 && s[0] == c
}

/// `s` is non-empty and ends with `c`.
pub open spec fn ends_with_char(s: Seq<char>, c: char) -> bool {
    s.len() > 0 && s.last() == c
}

/// The characters of `s`, in order.
pub fn chars_of(s: &str) -> (r: Vec<char>)
    ensures
        r@ == s@,
{
    let mut out: Vec<char> = Vec::new();
    proof {
        vstd::string::axiom_spec_iter(s);
    }
    for c in it: s.chars()
        invariant
            it.seq() == s@,
            out@ == s@.take(it.index() as int),
    {
        out.push(c);
    }
    assert(out@ == s@.take(s@.len() as int));
    out
}

/// A `String` holding exactly the characters of `v`.
pub fn string_of(v: &[char]) -> (r: String)
    ensures
        r@ == v@,
{
    let mut out = String::new();
    let n = v.len();
    for i in 0..n
        invariant
            n == v@.len(),
            out@ == v@.take(i as int),
    {
        out.push(v[i]);
        assert(v@.take(i + 1) == v@.take(i as int).push(v@[i as int]));
    }
    assert(v@.take(n as int) == v@);
    out
}

/// The concatenation of `a` and `b`.
pub fn join2(a: &[char], b: &[char]) -> (r: Vec<char>)
    ensures
        r@ == a@ + b@,
{
    let mut out: Vec<char> = Vec::new();
    let n = a.len();
    for i in 0..n
        invariant
            n == a@.len(),
            out@ == a@.take(i as int),
    {
        out.push(a[i]);
        assert(a@.take(i + 1) == a@.take(i as int).push(a@[i as int]));
    }
    let m = b.len();
    for j in 0..m
        invariant
            n == a@.len(),
            m == b@.len(),
            out@ == a@ + b@.take(j as int),
    {
        out.push(b[j]);
        assert(b@.take(j + 1) == b@.take(j as int).push(b@[j as int]));
    }
    assert(a@.take(n as int) == a@);
    assert(b@.take(m as int) == b@);
    out
}

/// The characters of `v` from index `from` up to (not including) `to`.
pub fn sub_chars(v: &[char], from: usize, to: usize) -> (r: Vec<char>)
    requires
        from <= to <= v@.len(),
    ensures
        r@ == v@.subrange(from as int, to as int),
{
    let mut out: Vec<char> = Vec::new();
    for i in from..to
        invariant
            from <= to <= v@.len(),
            out@ == v@.subrange(from as int, i as int),
    {
        out.push(v[i]);
        assert(v@.subrange(from as int, i + 1) =~= v@.subrange(from as int, i as int).push(
            v@[i as int],
        ));
    }
    out
}

/// Whether the two character sequences are equal.
pub fn same_chars(a: &[char], b: &[char]) -> (r: bool)
    ensures
        r == (a@ == b@),
{
    if a.len() != b.len() {
        return false;
    }
    let n = a.len();
    for i in 0..n
        invariant
            n == a@.len(),
            n == b@.len(),
            a@.take(i as int) == b@.take(i as int),
    {
        if a[i] != b[i] {
            return false;
        }
        assert(a@.take(i + 1) == a@.take(i as int).push(a@[i as int]));
        assert(b@.take(i + 1) == b@.take(i as int).push(b@[i as int]));
    }
    assert(a@.take(n as int) == a@);
    assert(b@.take(n as int) == b@);
    true
}

/// Whether `p` is a prefix of `s`.
pub fn starts_with(s: &[char], p: &[char]) -> (r: bool)
    ensures
        r == has_prefix(s@, p@),
{
    if p.len() > s.len() {
        return false;
    }
    let n = p.len();
    for i in 0..n
        invariant
            n == p@.len(),
            n <= s@.len(),
            s@.take(i as int) == p@.take(i as int),
    {
        if s[i] != p[i] {
            assert(s@.subrange(0, n as int)[i as int] != p@[i as int]);
            return false;
        }
        assert(s@.take(i + 1) == s@.take(i as int).push(s@[i as int]));
        assert(p@.take(i + 1) == p@.take(i as int).push(p@[i as int]));
    }
    assert(p@.take(n as int) == p@);
    assert(s@.take(n as int) == s@.subrange(0, n as int));
    true
}

/// Splits `s` into its maximal runs of non-separator characters.
pub fn split_pieces(s: &[char], sep: Sep) -> (r: Vec<Vec<char>>)
    ensures
        r.deep_view() == pieces(s@, sep),
{
    let mut out: Vec<Vec<char>> = Vec::new();
    let mut cur: Vec<char> = Vec::new();
    let n = s.len();
    for i in 0..n
        invariant
            n == s@.len(),
            cur@.len() > 0 <==> (i > 0 && !is_sep(sep, s@[i - 1])),
            pieces(s@.take(i as int), sep) == (if cur@.len() > 0 {
                out.deep_view().push(cur@)
            } else {
                out.deep_view()
            }),
    {
        let c = s[i];
        let ghost t = s@.take(i + 1);
        assert(t.drop_last() == s@.take(i as int));
        assert(t.last() == c);
        if is_sep_exec(sep, c) {
            if cur.len() > 0 {
                let ghost before = out.deep_view();
                let finished = cur;
                cur = Vec::new();
                assert(finished.deep_view() =~= finished@);
                out.push(finished);
                assert(out.deep_view() =~= before.push(finished@));
            }
        } else {
            let ghost old_cur = cur@;
            if cur.len() > 0 {
                assert(t[t.len() - 2] == s@[i - 1]);
            }
            cur.push(c);
            proof {
                if old_cur.len() > 0 {
                    assert(pieces(t, sep) =~= out.deep_view().push(cur@));
                } else {
                    assert(cur@ =~= seq![c]);
                    assert(pieces(t, sep) =~= out.deep_view().push(cur@));
                }
            }
        }
    }
    if cur.len() > 0 {
        let ghost before = out.deep_view();
        assert(cur.deep_view() =~= cur@);
        out.push(cur);
        assert(out.deep_view() =~= before.push(cur@));
    }
    assert(s@.take(n as int) == s@);
    out
}

/// `s` without its leading whitespace.
pub open spec fn trim_start_ws(s: Seq<char>) -> Seq<char>
    decreases s.len(),
{
    if s.len() > 0 && is_ws(s[0]) {
        trim_start_ws(s.drop_first())
    } else {
        s
    }
}

/// `s` without its trailing whitespace.
pub open spec fn trim_end_ws(s: Seq<char>) -> Seq<char>
    decreases s.len(),
{
    if s.len() > 0 && is_ws(s.last()) {
        trim_end_ws(s.drop_last())
    } else {
        s
    }
}

/// `s` without leading and trailing whitespace, as `str::trim` gives it.
pub open spec fn trim_ws(s: Seq<char>) -> Seq<char> {
    trim_end_ws(trim_start_ws(s))
}

/// `s` without leading and trailing occurrences of `c`, as `str::trim_matches(c)` gives it.
pub open spec fn trim_char(s: Seq<char>, c: char) -> Seq<char> {
    trim_end_char(trim_start_char(s, c), c)
}

/// `s` without its leading occurrences of `c`.
pub open spec fn trim_start_char(s: Seq<char>, c: char) -> Seq<char>
    decreases s.len(),
{
    if s.len() > 0 && s[0] == c {
        trim_start_char(s.drop_first(), c)
    } else {
        s
    }
}

/// `s` without its trailing occurrences of `c`.
pub open spec fn trim_end_char(s: Seq<char>, c: char) -> Seq<char>
    decreases s.len(),
{
    if s.len() > 0 && s.last() == c {
        trim_end_char(s.drop_last(), c)
    } else {
        s
    }
}

/// Removes leading and trailing whitespace.
pub fn trim(s: &[char]) -> (r: Vec<char>)
    ensures
        r@ == trim_ws(s@),
{
    let mut a: usize = 0;
    assert(s@.subrange(0, s@.len() as int) =~= s@);
    while a < s.len() && is_whitespace(s[a])
        invariant
            a <= s@.len(),
            trim_start_ws(s@) == trim_start_ws(s@.subrange(a as int, s@.len() as int)),
        decreases s@.len() - a,
    {
        assert(s@.subrange(a as int, s@.len() as int).drop_first() =~= s@.subrange(
            a + 1,
            s@.len() as int,
        ));
        a = a + 1;
    }
    let ghost st = s@.subrange(a as int, s@.len() as int);
    assert(trim_start_ws(s@) == st);
    let mut b: usize = s.len();
    assert(st.subrange(0, (b - a) as int) =~= st);
    while b > a && is_whitespace(s[b - 1])
        invariant
            a <= b <= s@.len(),
            st == s@.subrange(a as int, s@.len() as int),
            trim_end_ws(st) == trim_end_ws(s@.subrange(a as int, b as int)),
        decreases b,
    {
        assert(s@.subrange(a as int, b as int).drop_last() =~= s@.subrange(a as int, b - 1));
        b = b - 1;
    }
    sub_chars(s, a, b)
}

/// Removes leading and trailing occurrences of `c`.
pub fn trim_matching(s: &[char], c: char) -> (r: Vec<char>)
    ensures
        r@ == trim_char(s@, c),
{
    let mut a: usize = 0;
    assert(s@.subrange(0, s@.len() as int) =~= s@);
    while a < s.len() && s[a] == c
        invariant
            a <= s@.len(),
            trim_start_char(s@, c) == trim_start_char(s@.subrange(a as int, s@.len() as int), c),
        decreases s@.len() - a,
    {
        assert(s@.subrange(a as int, s@.len() as int).drop_first() =~= s@.subrange(
            a + 1,
            s@.len() as int,
        ));
        a = a + 1;
    }
    let ghost st = s@.subrange(a as int, s@.len() as int);
    assert(trim_start_char(s@, c) == st);
    let mut b: usize = s.len();
    assert(st.subrange(0, (b - a) as int) =~= st);
    while b > a && s[b - 1] == c
        invariant
            a <= b <= s@.len(),
            st == s@.subrange(a as int, s@.len() as int),
            trim_end_char(st, c) == trim_end_char(s@.subrange(a as int, b as int), c),
        decreases b,
    {
        assert(s@.subrange(a as int, b as int).drop_last() =~= s@.subrange(a as int, b - 1));
        b = b - 1;
    }
    sub_chars(s, a, b)
}

/// Splits `s` at whitespace, as `str::split_whitespace` does.
pub fn split_words(s: &[char]) -> (r: Vec<Vec<char>>)
    ensures
        r.deep_view() == words(s@),
{
    split_pieces(s, Sep::Whitespace)
}


/// The number of bytes of the UTF-8 encoding of `c`.
pub open spec fn char_bytes(c: char) -> nat {
    vstd::utf8::encode_scalar(c as u32).len()
}

/// The characters of `s` that lie wholly before byte offset `position` of its
/// UTF-8 encoding: at a character boundary this is the text `&s[..position]`.
pub open spec fn before_cursor(s: Seq<char>, position: int) -> Seq<char>
    decreases s.len(),
{
    if s.len() == 0 || position < char_bytes(s[0]) {
        seq![]
    } else {
        seq![s[0]] + before_cursor(s.drop_first(), position - char_bytes(s[0]))
    }
}

/// Every character takes at least one byte.
proof fn lemma_char_bytes_positive(c: char)
    ensures
        1 <= char_bytes(c) <= 4,
{
    vstd::utf8::char_is_scalar(c);
}

/// A cursor at or past the end of the text leaves all of it before the cursor.
pub proof fn lemma_before_cursor_whole(s: Seq<char>, position: int)
    requires
        vstd::utf8::encode_utf8(s).len() <= position,
    ensures
        before_cursor(s, position) == s,
    decreases s.len(),
{
    if s.len() > 0 {
        lemma_before_cursor_whole(s.drop_first(), position - char_bytes(s[0]));
        assert(s =~= seq![s[0]] + s.drop_first());
    }
}

/// A cursor just after `pre` has exactly `pre` before it, whatever follows.
pub proof fn lemma_before_cursor_prefix(pre: Seq<char>, rest: Seq<char>)
    ensures
        before_cursor(pre + rest, vstd::utf8::encode_utf8(pre).len() as int) == pre,
    decreases pre.len(),
{
    if pre.len() == 0 {
        assert(pre + rest =~= rest);
        if rest.len() > 0 {
            lemma_char_bytes_positive(rest[0]);
        }
    } else {
        let s = pre + rest;
        assert(s[0] == pre[0]);
        assert(s.drop_first() =~= pre.drop_first() + rest);
        lemma_before_cursor_prefix(pre.drop_first(), rest);
        assert(pre =~= seq![pre[0]] + pre.drop_first());
    }
}

/// The number of bytes of the UTF-8 encoding of `c`.
fn byte_width(c: char) -> (r: usize)
    ensures
        r == char_bytes(c),
{
    proof {
        vstd::utf8::char_is_scalar(c);
    }
    let u = c as u32;
    if u < 0x80 {
        1
    } else if u < 0x800 {
        2
    } else if u < 0x10000 {
        3
    } else {
        4
    }
}

/// The characters of `s` wholly before byte offset `position`.
pub fn chars_before(s: &[char], position: usize) -> (r: Vec<char>)
    ensures
        r@ == before_cursor(s@, position as int),
{
    let mut out: Vec<char> = Vec::new();
    let mut budget: usize = position;
    let mut i: usize = 0;
    assert(s@.skip(0) =~= s@);
    while i < s.len()
        invariant
            i <= s@.len(),
            budget <= position,
            before_cursor(s@, position as int) == out@ + before_cursor(s@.skip(i as int), budget as int),
        decreases s@.len() - i,
    {
        let w = byte_width(s[i]);
        let ghost t = s@.skip(i as int);
        assert(t[0] == s@[i as int]);
        if budget < w {
            assert(before_cursor(t, budget as int) =~= Seq::<char>::empty());
            assert(out@ + Seq::<char>::empty() =~= out@);
            return out;
        }
        assert(t.drop_first() =~= s@.skip(i + 1));
        let ghost before = out@;
        out.push(s[i]);
        assert(before + before_cursor(t, budget as int) =~= out@ + before_cursor(
            s@.skip(i + 1),
            budget - w,
        ));
        budget = budget - w;
        i = i + 1;
    }
    assert(s@.skip(i as int) =~= Seq::<char>::empty());
    assert(out@ + Seq::<char>::empty() =~= out@);
    out
}
} // verus!
