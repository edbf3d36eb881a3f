//! Character classes and small operations on character sequences.

use vstd::prelude::*;
use vstd::string::*;

verus! {

/// Whether `c` has the Unicode property `White_Space`.
pub open spec fn is_space(c: char) -> bool {
    let n = c as u32;
    ||| 0x09 <= n <= 0x0D
    ||| n == 0x20
    ||| n == 0x85
    ||| n == 0xA0
    ||| n == 0x1680
    ||| 0x2000 <= n <= 0x200A
    ||| n == 0x2028
    ||| n == 0x2029
    ||| n == 0x202F
    ||| n == 0x205F
    ||| n == 0x3000
}

/// Decides [`is_space`].
pub fn is_space_char(c: char) -> (r: bool)
    ensures
        r == is_space(c),
{
    let n: u32 = c as u32;
    (0x09 <= n && n <= 0x0D) || n == 0x20 || n == 0x85 || n == 0xA0 || n == 0x1680 || (0x2000 <= n
        && n <= 0x200A) || n == 0x2028 || n == 0x2029 || n == 0x202F || n == 0x205F || n == 0x3000
}

/// The characters of `s`, in order.
pub fn chars_of(s: &str) -> (v: Vec<char>)
    ensures
        v@ == s@,
{
    let mut v: Vec<char> = Vec::new();
    for c in it: s.chars()
        invariant
            v@ == s@.take(it.index() as int),
            it.seq() == s@,
    {
        v.push(c);
    }
    v
}

/// Whether the literal `lit` stands in `cs` at position `at`.
pub open spec fn has_at(cs: Seq<char>, at: int, lit: Seq<char>) -> bool {
    &&& 0 <= at
    &&& at + lit.len() <= cs.len()
    &&& cs.subrange(at, at + lit.len()) == lit
}

/// Decides [`has_at`].
pub fn starts_at(cs: &Vec<char>, at: usize, lit: &str) -> (r: bool)
    ensures
        r == has_at(cs@, at as int, lit@),
        r ==> at + lit@.len() <= usize::MAX,
{
    let n: usize = lit.unicode_len();
    if at > cs.len() || n > cs.len() - at {
        return false;
    }
    let mut k: usize = 0;
    while k < n
        invariant
            k <= n,
            n == lit@.len(),
            at + n <= cs.len(),
            forall|j: int| 0 <= j < k ==> cs@[at + j] == lit@[j],
        decreases n - k,
    {
        if cs[at + k] != lit.get_char(k) {
            assert(cs@.subrange(at as int, at + n)[k as int] != lit@[k as int]);
            return false;
        }
        k += 1;
    }
    assert(cs@.subrange(at as int, at + n) =~= lit@);
    true
}

/// What a sequence of strings holds.
pub open spec fn texts_view(v: Seq<String>) -> Seq<Seq<char>> {
    v.map_values(|s: String| s@)
}

/// Whether `s` holds the characters of `lit`.
pub fn text_is(s: &String, lit: &str) -> (r: bool)
    ensures
        r == (s@ == lit@),
{
    let other: String = lit.to_owned();
    *s == other
}

/// Whether `c` is one of `A`-`Z`, `a`-`z`, `0`-`9` and `_`.
pub open spec fn is_ascii_word(c: char) -> bool {
    ||| 'A' <= c <= 'Z'
    ||| 'a' <= c <= 'z'
    ||| '0' <= c <= '9'
    ||| c == '_'
}

/// Whether `c` is a word character of Unicode: alphabetic, a mark, a decimal
/// digit, connector punctuation or a join control. The tables that decide it
/// are those of the `regex-syntax` crate.
pub uninterp spec fn unicode_word(c: char) -> bool;

/// Whether `c` is a word character: among the ASCII characters a letter, a
/// digit or the underscore, among the others a word character of Unicode.
pub open spec fn is_word(c: char) -> bool {
    if (c as u32) < 0x80 {
        is_ascii_word(c)
    } else {
        unicode_word(c)
    }
}

/// Decides [`unicode_word`] with `regex_syntax::is_word_character`.
///
/// Trusted: the result is that function's, which depends on `c` alone. The
/// function looks `c` up in a table that is part of the crate's default
/// features; it panics only where the crate is built without them.
#[verifier::external_body]
fn unicode_word_char(c: char) -> (r: bool)
    ensures
        r == unicode_word(c),
{
    regex_syntax::is_word_character(c)
}

/// Decides [`is_word`].
pub fn is_word_char(c: char) -> (r: bool)
    ensures
        r == is_word(c),
{
    if (c as u32) < 0x80 {
        ('A' <= c && c <= 'Z') || ('a' <= c && c <= 'z') || ('0' <= c && c <= '9') || c == '_'
    } else {
        unicode_word_char(c)
    }
}

/// The end of the longest run of white space of `t` from `from`.
pub open spec fn spaces_end(t: Seq<char>, from: int) -> int
    decreases t.len() - from,
{
    if 0 <= from < t.len() && is_space(t[from]) {
        spaces_end(t, from + 1)
    } else {
        from
    }
}

/// The length of `t` without the white space at its end.
pub open spec fn trimmed_len(t: Seq<char>) -> int
    decreases t.len(),
{
    if t.len() > 0 && is_space(t.last()) {
        trimmed_len(t.drop_last())
    } else {
        t.len() as int
    }
}

/// `t` without the white space at its two ends.
pub open spec fn trimmed(t: Seq<char>) -> Seq<char> {
    let head = t.take(trimmed_len(t));
    head.skip(spaces_end(head, 0))
}

/// Finds [`spaces_end`].
pub fn skip_spaces(cs: &Vec<char>, from: usize) -> (r: usize)
    requires
        from <= cs.len(),
    ensures
        r == spaces_end(cs@, from as int),
        from <= r <= cs.len(),
{
    let mut k: usize = from;
    while k < cs.len() && is_space_char(cs[k])
        invariant
            from <= k <= cs.len(),
            spaces_end(cs@, from as int) == spaces_end(cs@, k as int),
        decreases cs.len() - k,
    {
        k += 1;
    }
    k
}

/// `line` without the white space at its two ends.
pub fn trim(line: &str) -> (r: &str)
    ensures
        r@ == trimmed(line@),
{
    let cs = chars_of(line);
    let mut end: usize = cs.len();
    assert(cs@.take(cs@.len() as int) =~= cs@);
    while end > 0 && is_space_char(cs[end - 1])
        invariant
            end <= cs.len(),
            trimmed_len(cs@) == trimmed_len(cs@.take(end as int)),
        decreases end,
    {
        assert(cs@.take(end as int).drop_last() =~= cs@.take(end - 1));
        end -= 1;
    }
    let ghost head = cs@.take(end as int);
    let mut start: usize = 0;
    while start < end && is_space_char(cs[start])
        invariant
            start <= end <= cs.len(),
            head == cs@.take(end as int),
            spaces_end(head, 0) == spaces_end(head, start as int),
        decreases end - start,
    {
        start += 1;
    }
    assert(head.skip(start as int) =~= cs@.subrange(start as int, end as int));
    line.substring_char(start, end)
}

/// Whether `a` stands before `b` in the order of a dictionary, character by
/// character: at the first place where they differ `a` has the smaller
/// character, or `a` ends there and `b` goes on.
pub open spec fn lex_lt(a: Seq<char>, b: Seq<char>) -> bool {
    exists|k: int| #[trigger] differ_at(a, b, k)
}

/// Whether `a` and `b` agree before `k`, and `a` is the smaller at `k`.
pub open spec fn differ_at(a: Seq<char>, b: Seq<char>, k: int) -> bool {
    &&& 0 <= k <= a.len()
    &&& k < b.len()
    &&& a.take(k) == b.take(k)
    &&& k < a.len() ==> a[k] < b[k]
}

/// No text stands before itself, and of two texts at most one stands before
/// the other.
pub proof fn lemma_lex_lt_asymmetric(a: Seq<char>, b: Seq<char>)
    requires
        lex_lt(a, b),
    ensures
        !lex_lt(b, a),
        a != b,
{
    let k = choose|k: int| #[trigger] differ_at(a, b, k);
    if lex_lt(b, a) {
        let j = choose|j: int| #[trigger] differ_at(b, a, j);
        if j < k {
            assert(a.take(k)[j] == b.take(k)[j]);
        } else if k < j {
            assert(b.take(j)[k] == a.take(j)[k]);
        }
    }
}

/// The order is transitive.
pub proof fn lemma_lex_lt_transitive(a: Seq<char>, b: Seq<char>, c: Seq<char>)
    requires
        lex_lt(a, b),
        lex_lt(b, c),
    ensures
        lex_lt(a, c),
{
    let k = choose|k: int| #[trigger] differ_at(a, b, k);
    let j = choose|j: int| #[trigger] differ_at(b, c, j);
    let m = if k <= j {
        k
    } else {
        j
    };
    assert(a.take(m) =~= c.take(m)) by {
        assert forall|i: int| 0 <= i < m implies a[i] == c[i] by {
            assert(a.take(k)[i] == b.take(k)[i]);
            assert(b.take(j)[i] == c.take(j)[i]);
        }
    }
    if k < j {
        assert(b.take(j)[k] == c.take(j)[k]);
    } else if j < k {
        assert(a.take(k)[j] == b.take(k)[j]);
    }
    assert(differ_at(a, c, m));
}

/// Of two different texts one stands before the other.
pub proof fn lemma_lex_total(a: Seq<char>, b: Seq<char>)
    ensures
        lex_lt(a, b) || a == b || lex_lt(b, a),
    decreases a.len(),
{
    assert(a.take(0) =~= b.take(0));
    if a.len() == 0 {
        if b.len() > 0 {
            assert(differ_at(a, b, 0));
        } else {
            assert(a =~= b);
        }
    } else if b.len() == 0 {
        assert(differ_at(b, a, 0));
    } else if a[0] < b[0] {
        assert(differ_at(a, b, 0));
    } else if b[0] < a[0] {
        assert(differ_at(b, a, 0));
    } else {
        let x = a.drop_first();
        let y = b.drop_first();
        lemma_lex_total(x, y);
        if lex_lt(x, y) {
            let k = choose|k: int| #[trigger] differ_at(x, y, k);
            assert(a.take(k + 1) =~= seq![a[0]] + x.take(k));
            assert(b.take(k + 1) =~= seq![b[0]] + y.take(k));
            assert(differ_at(a, b, k + 1));
        } else if lex_lt(y, x) {
            let k = choose|k: int| #[trigger] differ_at(y, x, k);
            assert(a.take(k + 1) =~= seq![a[0]] + x.take(k));
            assert(b.take(k + 1) =~= seq![b[0]] + y.take(k));
            assert(differ_at(b, a, k + 1));
        } else {
            assert(a =~= seq![a[0]] + x);
            assert(b =~= seq![b[0]] + y);
        }
    }
}

/// How one text stands to another in the order of [`lex_lt`].
#[derive(Clone, Copy, Debug, PartialEq, Eq, Structural)]
pub enum Rank {
    Before,
    Same,
    After,
}

/// How `a` stands to `b`.
pub fn rank(a: &Vec<char>, b: &Vec<char>) -> (r: Rank)
    ensures
        match r {
            Rank::Before => lex_lt(a@, b@),
            Rank::Same => a@ == b@,
            Rank::After => lex_lt(b@, a@),
        },
{
    let mut k: usize = 0;
    while k < a.len() && k < b.len()
        invariant
            k <= a.len(),
            k <= b.len(),
            a@.take(k as int) == b@.take(k as int),
        decreases a.len() - k,
    {
        let x: char = a[k];
        let y: char = b[k];
        if x < y {
            assert(differ_at(a@, b@, k as int));
            return Rank::Before;
        }
        if y < x {
            assert(differ_at(b@, a@, k as int));
            return Rank::After;
        }
        assert(a@.take(k + 1) =~= a@.take(k as int).push(a@[k as int]));
        assert(b@.take(k + 1) =~= b@.take(k as int).push(b@[k as int]));
        k += 1;
    }
    if k < b.len() {
        assert(differ_at(a@, b@, k as int));
        Rank::Before
    } else if k < a.len() {
        assert(differ_at(b@, a@, k as int));
        Rank::After
    } else {
        assert(a@.take(k as int) =~= a@);
        assert(b@.take(k as int) =~= b@);
        Rank::Same
    }
}

} // verus!
