//! Character-sequence utilities: searching, splitting, trimming and case
//! mapping over `Seq<char>` models, with verified executable counterparts
//! operating on `&str` and `String`.
use vstd::prelude::*;
use vstd::string::*;

verus! {

/// The whitespace characters recognized by the tokenizer and by trimming:
/// the ASCII whitespace set.
pub open spec fn is_space(c: char) -> bool {
    c == ' ' || c == '\t' || c == '\n' || c == '\r' || c == '\x0c'
}

/// Predicate holding exactly on the character `c`.
pub open spec fn eq_char(c: char) -> spec_fn(char) -> bool {
    |x: char| x == c
}

/// Predicate holding exactly on whitespace characters.
pub open spec fn space_pred() -> spec_fn(char) -> bool {
    |x: char| is_space(x)
}

/// Index of the first character of `s` satisfying `p`, or -1 if none does.
pub open spec fn first_where(s: Seq<char>, p: spec_fn(char) -> bool) -> int
    decreases s.len(),
{
    if s.len() == 0 {
        -1
    } else if p(s[0]) {
        0
    } else if first_where(s.drop_first(), p) < 0 {
        -1
    } else {
        first_where(s.drop_first(), p) + 1
    }
}

pub proof fn lemma_first_where(s: Seq<char>, p: spec_fn(char) -> bool)
    ensures
        first_where(s, p) >= 0 ==> first_where(s, p) < s.len() && p(s[first_where(s, p)])
            && (forall|j: int| 0 <= j < first_where(s, p) ==> !p(#[trigger] s[j])),
        first_where(s, p) < 0 ==> forall|j: int| 0 <= j < s.len() ==> !p(#[trigger] s[j]),
    decreases s.len(),
{
    if s.len() == 0 {
    } else if p(s[0]) {
    } else {
        let t = s.drop_first();
        lemma_first_where(t, p);
        let r = first_where(t, p);
        if r >= 0 {
            assert forall|j: int| 0 <= j < r + 1 implies !p(#[trigger] s[j]) by {
                if j > 0 {
                    assert(s[j] == t[j - 1]);
                }
            }
        } else {
            assert forall|j: int| 0 <= j < s.len() implies !p(#[trigger] s[j]) by {
                if j > 0 {
                    assert(s[j] == t[j - 1]);
                }
            }
        }
    }
}

pub proof fn lemma_first_where_is(s: Seq<char>, p: spec_fn(char) -> bool, k: int)
    requires
        0 <= k < s.len(),
        p(s[k]),
        forall|j: int| 0 <= j < k ==> !p(#[trigger] s[j]),
    ensures
        first_where(s, p) == k,
{
    lemma_first_where(s, p);
    let r = first_where(s, p);
    if r < 0 {
        assert(!p(s[k]));
    } else if r < k {
        assert(!p(s[r]));
    } else if r > k {
        assert(!p(s[k]));
    }
}

pub proof fn lemma_first_where_none(s: Seq<char>, p: spec_fn(char) -> bool)
    requires
        forall|j: int| 0 <= j < s.len() ==> !p(#[trigger] s[j]),
    ensures
        first_where(s, p) < 0,
{
    lemma_first_where(s, p);
    let r = first_where(s, p);
    if r >= 0 {
        assert(!p(s[r]));
    }
}

/// The parts of `s` delimited by the character `c`, empty parts kept.
/// A string with no delimiter is a single part, so the result is never empty.
pub open spec fn split_on(s: Seq<char>, c: char) -> Seq<Seq<char>>
    decreases s.len(),
{
    let i = first_where(s, eq_char(c));
    if 0 <= i < s.len() {
        seq![s.subrange(0, i)] + split_on(s.subrange(i + 1, s.len() as int), c)
    } else {
        seq![s]
    }
}

pub proof fn lemma_split_on_no_sep(s: Seq<char>, c: char)
    requires
        forall|j: int| 0 <= j < s.len() ==> s[j] != c,
    ensures
        split_on(s, c) == seq![s],
{
    lemma_first_where_none(s, eq_char(c));
}

pub proof fn lemma_split_on_sep_at(s: Seq<char>, c: char, k: int)
    requires
        0 <= k < s.len(),
        s[k] == c,
        forall|j: int| 0 <= j < k ==> s[j] != c,
    ensures
        split_on(s, c) == seq![s.subrange(0, k)] + split_on(s.subrange(k + 1, s.len() as int), c),
{
    lemma_first_where_is(s, eq_char(c), k);
}

/// Finds the first occurrence of `c` in `s`.
pub fn find_char(s: &str, c: char) -> (r: Option<usize>)
    ensures
        match r {
            Some(i) => i < s@.len() && s@[i as int] == c && (forall|j: int|
                0 <= j < i ==> s@[j] != c) && first_where(s@, eq_char(c)) == i,
            None => (forall|j: int| 0 <= j < s@.len() ==> s@[j] != c) && first_where(
                s@,
                eq_char(c),
            ) < 0,
        },
{
    let n = s.unicode_len();
    let mut i: usize = 0;
    while i < n
        invariant
            i <= n,
            n == s@.len(),
            forall|j: int| 0 <= j < i ==> s@[j] != c,
        decreases n - i,
    {
        if s.get_char(i) == c {
            proof {
                lemma_first_where_is(s@, eq_char(c), i as int);
            }
            return Some(i);
        }
        i = i + 1;
    }
    proof {
        lemma_first_where_none(s@, eq_char(c));
    }
    None
}

/// Splits `s` on the character `c`, keeping empty parts.
pub fn split_char(s: &str, c: char) -> (r: Vec<String>)
    ensures
        r.deep_view() == split_on(s@, c),
        r.len() >= 1,
{
    let n = s.unicode_len();
    let mut r: Vec<String> = Vec::new();
    let mut start: usize = 0;
    let mut i: usize = 0;
    proof {
        assert(r.deep_view() =~= Seq::<Seq<char>>::empty());
        assert(s@.subrange(0, n as int) =~= s@);
        assert(Seq::<Seq<char>>::empty() + split_on(s@, c) =~= split_on(s@, c));
    }
    while i < n
        invariant
            start <= i <= n,
            n == s@.len(),
            forall|j: int| start <= j < i ==> s@[j] != c,
            split_on(s@, c) == r.deep_view() + split_on(s@.subrange(start as int, n as int), c),
        decreases n - i,
    {
        if s.get_char(i) == c {
            let part = s.substring_char(start, i).to_owned();
            proof {
                let t = s@.subrange(start as int, n as int);
                assert(t[i - start] == c);
                assert forall|j: int| 0 <= j < i - start implies t[j] != c by {
                    assert(t[j] == s@[start + j]);
                }
                lemma_split_on_sep_at(t, c, i - start);
                assert(t.subrange(0, i - start) =~= s@.subrange(start as int, i as int));
                assert(t.subrange(i - start + 1, t.len() as int) =~= s@.subrange(
                    i + 1,
                    n as int,
                ));
            }
            let ghost old_dv = r.deep_view();
            r.push(part);
            proof {
                assert(r.deep_view() =~= old_dv + seq![s@.subrange(start as int, i as int)]);
            }
            start = i + 1;
        }
        i = i + 1;
    }
    let last = s.substring_char(start, n).to_owned();
    proof {
        let t = s@.subrange(start as int, n as int);
        assert forall|j: int| 0 <= j < t.len() implies t[j] != c by {
            assert(t[j] == s@[start + j]);
        }
        lemma_split_on_no_sep(t, c);
    }
    let ghost old_dv = r.deep_view();
    r.push(last);
    proof {
        assert(r.deep_view() =~= old_dv + seq![s@.subrange(start as int, n as int)]);
        assert(r.deep_view() =~= split_on(s@, c));
    }
    r
}

/// The whitespace-separated tokens of `s`; runs of whitespace act as one
/// separator and produce no empty tokens.
pub open spec fn split_ws(s: Seq<char>) -> Seq<Seq<char>>
    decreases s.len(),
{
    if s.len() == 0 {
        Seq::empty()
    } else if is_space(s[0]) {
        split_ws(s.drop_first())
    } else {
        let i = first_where(s, space_pred());
        if 0 <= i < s.len() {
            seq![s.subrange(0, i)] + split_ws(s.subrange(i, s.len() as int))
        } else {
            seq![s]
        }
    }
}

pub fn char_is_space(c: char) -> (r: bool)
    ensures
        r == is_space(c),
{
    c == ' ' || c == '\t' || c == '\n' || c == '\r' || c == '\x0c'
}

/// Splits `s` into whitespace-separated tokens.
pub fn split_ws_exec(s: &str) -> (r: Vec<String>)
    ensures
        r.deep_view() == split_ws(s@),
{
    let n = s.unicode_len();
    let mut r: Vec<String> = Vec::new();
    let mut i: usize = 0;
    proof {
        assert(r.deep_view() =~= Seq::<Seq<char>>::empty());
        assert(s@.subrange(0, n as int) =~= s@);
        assert(Seq::<Seq<char>>::empty() + split_ws(s@) =~= split_ws(s@));
    }
    while i < n
        invariant
            i <= n,
            n == s@.len(),
            split_ws(s@) == r.deep_view() + split_ws(s@.subrange(i as int, n as int)),
        decreases n - i,
    {
        if char_is_space(s.get_char(i)) {
            proof {
                let t = s@.subrange(i as int, n as int);
                assert(t.drop_first() =~= s@.subrange(i + 1, n as int));
            }
            i = i + 1;
        } else {
            let mut j: usize = i + 1;
            while j < n && !char_is_space(s.get_char(j))
                invariant
                    i < j <= n,
                    n == s@.len(),
                    !is_space(s@[i as int]),
                    forall|k: int| i <= k < j ==> !is_space(#[trigger] s@[k]),
                decreases n - j,
            {
                j = j + 1;
            }
            let tok = s.substring_char(i, j).to_owned();
            proof {
                let t = s@.subrange(i as int, n as int);
                assert forall|k: int| 0 <= k < j - i implies !space_pred()(#[trigger] t[k]) by {
                    assert(t[k] == s@[i + k]);
                }
                if j < n {
                    assert(t[j - i] == s@[j as int]);
                    assert(space_pred()(t[j - i]));
                    lemma_first_where_is(t, space_pred(), j - i);
                    assert(t.subrange(0, j - i) =~= s@.subrange(i as int, j as int));
                    assert(t.subrange(j - i, t.len() as int) =~= s@.subrange(j as int, n as int));
                    assert(split_ws(t) == seq![s@.subrange(i as int, j as int)] + split_ws(
                        s@.subrange(j as int, n as int),
                    ));
                } else {
                    lemma_first_where_none(t, space_pred());
                    assert(t =~= s@.subrange(i as int, j as int));
                    assert(split_ws(t) == seq![s@.subrange(i as int, j as int)]);
                    assert(s@.subrange(j as int, n as int).len() == 0);
                    assert(split_ws(s@.subrange(j as int, n as int)) == Seq::<Seq<char>>::empty());
                }
            }
            let ghost old_dv = r.deep_view();
            r.push(tok);
            proof {
                assert(r.deep_view() =~= old_dv + seq![s@.subrange(i as int, j as int)]);
                assert(split_ws(s@) == r.deep_view() + split_ws(s@.subrange(j as int, n as int)));
            }
            i = j;
        }
    }
    proof {
        assert(s@.subrange(n as int, n as int).len() == 0);
        assert(r.deep_view() =~= split_ws(s@));
    }
    r
}

/// `s` with its leading whitespace removed.
pub open spec fn trim_left(s: Seq<char>) -> Seq<char>
    decreases s.len(),
{
    if s.len() > 0 && is_space(s[0]) {
        trim_left(s.drop_first())
    } else {
        s
    }
}

/// `s` with its trailing whitespace removed.
pub open spec fn trim_right(s: Seq<char>) -> Seq<char>
    decreases s.len(),
{
    if s.len() > 0 && is_space(s.last()) {
        trim_right(s.drop_last())
    } else {
        s
    }
}

/// `s` with whitespace removed from both ends.
pub open spec fn trim_spec(s: Seq<char>) -> Seq<char> {
    trim_right(trim_left(s))
}

proof fn lemma_trim_left_skip(s: Seq<char>, a: int)
    requires
        0 <= a <= s.len(),
        forall|j: int| 0 <= j < a ==> is_space(#[trigger] s[j]),
        a == s.len() || !is_space(s[a]),
    ensures
        trim_left(s) == s.subrange(a, s.len() as int),
    decreases a,
{
    if a == 0 {
        assert(s.subrange(0, s.len() as int) =~= s);
    } else {
        let t = s.drop_first();
        assert forall|j: int| 0 <= j < a - 1 implies is_space(#[trigger] t[j]) by {
            assert(t[j] == s[j + 1]);
        }
        if a - 1 < t.len() {
            assert(t[a - 1] == s[a]);
        }
        lemma_trim_left_skip(t, a - 1);
        assert(t.subrange(a - 1, t.len() as int) =~= s.subrange(a, s.len() as int));
    }
}

proof fn lemma_trim_right_skip(s: Seq<char>, b: int)
    requires
        0 <= b <= s.len(),
        forall|j: int| b <= j < s.len() ==> is_space(#[trigger] s[j]),
        b == 0 || !is_space(s[b - 1]),
    ensures
        trim_right(s) == s.subrange(0, b),
    decreases s.len() - b,
{
    if b == s.len() {
        assert(s.subrange(0, b) =~= s);
    } else {
        let t = s.drop_last();
        assert(is_space(s.last()));
        assert forall|j: int| b <= j < t.len() implies is_space(#[trigger] t[j]) by {
            assert(t[j] == s[j]);
        }
        lemma_trim_right_skip(t, b);
        assert(t.subrange(0, b) =~= s.subrange(0, b));
    }
}

/// Removes whitespace from both ends of `s`.
pub fn trim_exec(s: &str) -> (r: String)
    ensures
        r@ == trim_spec(s@),
{
    let n = s.unicode_len();
    let mut a: usize = 0;
    while a < n && char_is_space(s.get_char(a))
        invariant
            a <= n,
            n == s@.len(),
            forall|j: int| 0 <= j < a ==> is_space(#[trigger] s@[j]),
        decreases n - a,
    {
        a = a + 1;
    }
    let mut b: usize = n;
    while b > a && char_is_space(s.get_char(b - 1))
        invariant
            a <= b <= n,
            n == s@.len(),
            forall|j: int| b <= j < n ==> is_space(#[trigger] s@[j]),
        decreases b,
    {
        b = b - 1;
    }
    let r = s.substring_char(a, b).to_owned();
    proof {
        lemma_trim_left_skip(s@, a as int);
        let t = s@.subrange(a as int, n as int);
        assert forall|j: int| b - a <= j < t.len() implies is_space(#[trigger] t[j]) by {
            assert(t[j] == s@[a + j]);
        }
        if b > a {
            assert(t[b - a - 1] == s@[b - 1]);
        }
        lemma_trim_right_skip(t, b - a);
        assert(t.subrange(0, b - a) =~= s@.subrange(a as int, b as int));
    }
    r
}

/// Maps a lowercase ASCII letter to its uppercase form; any other
/// character is unchanged.
pub open spec fn upper_char(c: char) -> char {
    if c == 'a' { 'A' }
    else if c == 'b' { 'B' }
    else if c == 'c' { 'C' }
    else if c == 'd' { 'D' }
    else if c == 'e' { 'E' }
    else if c == 'f' { 'F' }
    else if c == 'g' { 'G' }
    else if c == 'h' { 'H' }
    else if c == 'i' { 'I' }
    else if c == 'j' { 'J' }
    else if c == 'k' { 'K' }
    else if c == 'l' { 'L' }
    else if c == 'm' { 'M' }
    else if c == 'n' { 'N' }
    else if c == 'o' { 'O' }
    else if c == 'p' { 'P' }
    else if c == 'q' { 'Q' }
    else if c == 'r' { 'R' }
    else if c == 's' { 'S' }
    else if c == 't' { 'T' }
    else if c == 'u' { 'U' }
    else if c == 'v' { 'V' }
    else if c == 'w' { 'W' }
    else if c == 'x' { 'X' }
    else if c == 'y' { 'Y' }
    else if c == 'z' { 'Z' }
    else { c }
}

/// `s` with each character mapped through `upper_char`.
pub open spec fn upper(s: Seq<char>) -> Seq<char> {
    Seq::new(s.len(), |i: int| upper_char(s[i]))
}

pub fn upper_char_exec(c: char) -> (r: char)
    ensures
        r == upper_char(c),
{
    if c == 'a' { 'A' }
    else if c == 'b' { 'B' }
    else if c == 'c' { 'C' }
    else if c == 'd' { 'D' }
    else if c == 'e' { 'E' }
    else if c == 'f' { 'F' }
    else if c == 'g' { 'G' }
    else if c == 'h' { 'H' }
    else if c == 'i' { 'I' }
    else if c == 'j' { 'J' }
    else if c == 'k' { 'K' }
    else if c == 'l' { 'L' }
    else if c == 'm' { 'M' }
    else if c == 'n' { 'N' }
    else if c == 'o' { 'O' }
    else if c == 'p' { 'P' }
    else if c == 'q' { 'Q' }
    else if c == 'r' { 'R' }
    else if c == 's' { 'S' }
    else if c == 't' { 'T' }
    else if c == 'u' { 'U' }
    else if c == 'v' { 'V' }
    else if c == 'w' { 'W' }
    else if c == 'x' { 'X' }
    else if c == 'y' { 'Y' }
    else if c == 'z' { 'Z' }
    else { c }
}

/// Builds a `String` from a vector of characters.
/// Relies on `String`'s `FromIterator` over `char`: the resulting string
/// holds exactly the given characters, in order.
#[verifier::external_body]
pub(crate) fn string_from_chars(v: &Vec<char>) -> (r: String)
    ensures
        r@ == v@,
{
    v.iter().collect()
}

/// Uppercases the ASCII letters of `s`.
pub fn to_upper(s: &str) -> (r: String)
    ensures
        r@ == upper(s@),
{
    let n = s.unicode_len();
    let mut v: Vec<char> = Vec::new();
    let mut i: usize = 0;
    while i < n
        invariant
            i <= n,
            n == s@.len(),
            v@ =~= upper(s@).subrange(0, i as int),
        decreases n - i,
    {
        v.push(upper_char_exec(s.get_char(i)));
        proof {
            assert(v@ =~= upper(s@).subrange(0, i + 1));
        }
        i = i + 1;
    }
    proof {
        assert(v@ =~= upper(s@));
    }
    string_from_chars(&v)
}

/// Character-wise equality of two strings.
pub fn str_eq(a: &str, b: &str) -> (r: bool)
    ensures
        r == (a@ == b@),
{
    let na = a.unicode_len();
    let nb = b.unicode_len();
    if na != nb {
        proof {
            if a@ == b@ {
                assert(a@.len() == b@.len());
            }
        }
        return false;
    }
    let mut i: usize = 0;
    while i < na
        invariant
            i <= na,
            na == a@.len(),
            na == b@.len(),
            forall|j: int| 0 <= j < i ==> a@[j] == b@[j],
        decreases na - i,
    {
        if a.get_char(i) != b.get_char(i) {
            proof {
                if a@ == b@ {
                    assert(a@[i as int] == b@[i as int]);
                }
            }
            return false;
        }
        i = i + 1;
    }
    proof {
        assert(a@ =~= b@);
    }
    true
}

/// Strict lexicographic order on character sequences, by code point.
pub open spec fn lex_lt(a: Seq<char>, b: Seq<char>) -> bool
    decreases a.len(),
{
    if b.len() == 0 {
        false
    } else if a.len() == 0 {
        true
    } else if a[0] == b[0] {
        lex_lt(a.drop_first(), b.drop_first())
    } else {
        (a[0] as u32) < (b[0] as u32)
    }
}

/// Distinct characters have distinct code points.
proof fn lemma_char_code_distinct(a: char, b: char)
    requires
        a != b,
    ensures
        a as u32 != b as u32,
{
}

/// `lex_lt` is a strict total order: exactly one of `lex_lt(a, b)`,
/// `a == b`, `lex_lt(b, a)` holds.
pub proof fn lemma_lex_lt_conn(a: Seq<char>, b: Seq<char>)
    ensures
        lex_lt(a, b) || lex_lt(b, a) || a == b,
        !(lex_lt(a, b) && lex_lt(b, a)),
        lex_lt(a, b) ==> a != b,
    decreases a.len(),
{
    if b.len() == 0 {
        if a.len() == 0 {
            assert(a =~= b);
        }
    } else if a.len() == 0 {
        assert(lex_lt(a, b));
        assert(a.len() != b.len());
    } else if a[0] == b[0] {
        let a1 = a.drop_first();
        let b1 = b.drop_first();
        lemma_lex_lt_conn(a1, b1);
        assert(lex_lt(a, b) == lex_lt(a1, b1));
        assert(lex_lt(b, a) == lex_lt(b1, a1));
        if !lex_lt(a1, b1) && !lex_lt(b1, a1) {
            assert(a1 == b1);
            assert(a.len() == b.len());
            assert forall|i: int| 0 <= i < a.len() implies a[i] == b[i] by {
                if i > 0 {
                    assert(a[i] == a1[i - 1]);
                    assert(b[i] == b1[i - 1]);
                }
            }
            assert(a =~= b);
        }
        if lex_lt(a1, b1) {
            assert(a1 != b1);
            if a == b {
                assert(a1 =~= b1);
            }
        }
    } else {
        lemma_char_code_distinct(a[0], b[0]);
        assert(lex_lt(a, b) == ((a[0] as u32) < (b[0] as u32)));
        assert(lex_lt(b, a) == ((b[0] as u32) < (a[0] as u32)));
        if a == b {
            assert(a[0] == b[0]);
        }
    }
}

pub proof fn lemma_lex_lt_trans(a: Seq<char>, b: Seq<char>, c: Seq<char>)
    requires
        lex_lt(a, b),
        lex_lt(b, c),
    ensures
        lex_lt(a, c),
    decreases a.len(),
{
    if b.len() == 0 || c.len() == 0 {
    } else if a.len() == 0 {
    } else {
        if a[0] == b[0] {
            if b[0] == c[0] {
                lemma_lex_lt_trans(a.drop_first(), b.drop_first(), c.drop_first());
            } else {
            }
        } else {
            assert((a[0] as u32) < (b[0] as u32));
            if b[0] == c[0] {
            } else {
                assert((b[0] as u32) < (c[0] as u32));
            }
        }
    }
}

/// Lexicographic comparison of two strings by code point.
pub fn str_lt(a: &str, b: &str) -> (r: bool)
    ensures
        r == lex_lt(a@, b@),
{
    let na = a.unicode_len();
    let nb = b.unicode_len();
    let mut i: usize = 0;
    proof {
        assert(a@.subrange(0, na as int) =~= a@);
        assert(b@.subrange(0, nb as int) =~= b@);
    }
    while i < na && i < nb
        invariant
            i <= na,
            i <= nb,
            na == a@.len(),
            nb == b@.len(),
            lex_lt(a@, b@) == lex_lt(
                a@.subrange(i as int, na as int),
                b@.subrange(i as int, nb as int),
            ),
        decreases na - i,
    {
        let ca = a.get_char(i);
        let cb = b.get_char(i);
        let ghost sa = a@.subrange(i as int, na as int);
        let ghost sb = b@.subrange(i as int, nb as int);
        if ca != cb {
            proof {
                assert(sa[0] == ca && sb[0] == cb);
            }
            return (ca as u32) < (cb as u32);
        }
        proof {
            assert(sa[0] == ca && sb[0] == cb);
            assert(sa.drop_first() =~= a@.subrange(i + 1, na as int));
            assert(sb.drop_first() =~= b@.subrange(i + 1, nb as int));
        }
        i = i + 1;
    }
    proof {
        let sa = a@.subrange(i as int, na as int);
        let sb = b@.subrange(i as int, nb as int);
        if i == na && i < nb {
            assert(sa.len() == 0 && sb.len() > 0);
        } else if i == nb {
            assert(sb.len() == 0);
        }
    }
    na < nb
}

/// A line with one trailing carriage return removed.
pub open spec fn strip_cr(l: Seq<char>) -> Seq<char> {
    if l.len() > 0 && l[l.len() - 1] == '\r' {
        l.drop_last()
    } else {
        l
    }
}

/// The lines of `s`: parts delimited by `'\n'`, each with one trailing
/// `'\r'` removed, and without a final empty part left by a trailing
/// newline.  Empty input has no lines.
pub open spec fn lines_spec(s: Seq<char>) -> Seq<Seq<char>> {
    let parts = split_on(s, '\n');
    let kept = if parts.len() > 0 && parts.last().len() == 0 {
        parts.drop_last()
    } else {
        parts
    };
    Seq::new(kept.len(), |i: int| strip_cr(kept[i]))
}

/// Splits `s` into lines as `lines_spec` describes.
pub fn split_lines(s: &str) -> (r: Vec<String>)
    ensures
        r.deep_view() == lines_spec(s@),
{
    let mut parts = split_char(s, '\n');
    if parts[parts.len() - 1].as_str().is_empty() {
        parts.pop();
    }
    let ghost kept = parts.deep_view();
    let mut r: Vec<String> = Vec::new();
    let mut i: usize = 0;
    while i < parts.len()
        invariant
            i <= parts.len(),
            parts.deep_view() == kept,
            kept.len() == lines_spec(s@).len(),
            forall|j: int| 0 <= j < kept.len() ==> lines_spec(s@)[j] == strip_cr(#[trigger] kept[j]),
            r.deep_view() =~= lines_spec(s@).subrange(0, i as int),
        decreases parts.len() - i,
    {
        let li = &parts[i];
        let ni = li.as_str().unicode_len();
        let ghost old_dv = r.deep_view();
        if ni > 0 && li.as_str().get_char(ni - 1) == '\r' {
            r.push(li.as_str().substring_char(0, ni - 1).to_owned());
            proof {
                assert(kept[i as int].drop_last() =~= li@.subrange(0, ni - 1));
            }
        } else {
            r.push(li.clone());
        }
        proof {
            assert(r.deep_view() =~= old_dv.push(strip_cr(kept[i as int])));
            assert(r.deep_view() =~= lines_spec(s@).subrange(0, i + 1));
        }
        i = i + 1;
    }
    proof {
        assert(r.deep_view() =~= lines_spec(s@));
    }
    r
}

/// Concatenates the elements of `v` from index `from` on, with nothing
/// between them.
pub fn concat_from(v: &Vec<String>, from: usize) -> (r: String)
    requires
        from <= v.len(),
    ensures
        r@ == v.deep_view().subrange(from as int, v.len() as int).flatten(),
{
    broadcast use Seq::lemma_flatten_push;

    let mut r = String::new();
    let mut i: usize = from;
    proof {
        assert(v.deep_view().subrange(from as int, from as int) =~= Seq::<Seq<char>>::empty());
        assert(Seq::<Seq<char>>::empty().flatten() =~= Seq::<char>::empty());
    }
    while i < v.len()
        invariant
            from <= i <= v.len(),
            r@ == v.deep_view().subrange(from as int, i as int).flatten(),
        decreases v.len() - i,
    {
        r.append(v[i].as_str());
        proof {
            let dv = v.deep_view();
            let pre = dv.subrange(from as int, i as int);
            pre.lemma_flatten_push(dv[i as int]);
            assert(dv.subrange(from as int, i + 1) =~= pre.push(dv[i as int]));
            assert(dv.subrange(from as int, i + 1).flatten() == pre.push(dv[i as int]).flatten());
        }
        i = i + 1;
    }
    r
}

} // verus!
