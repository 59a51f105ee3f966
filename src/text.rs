use vstd::prelude::*;

verus! {

/// The pieces of `s` between newline characters, as `str::split('\n')`
/// gives them: one more piece than there are newlines.
pub open spec fn lines_of(s: Seq<char>) -> Seq<Seq<char>>
    decreases s.len(),
{
    if s.len() == 0 {
        seq![Seq::empty()]
    } else {
        let rest = lines_of(s.drop_last());
        if s.last() == '\n' {
            rest.push(Seq::empty())
        } else {
            rest.update(rest.len() - 1, rest.last().push(s.last()))
        }
    }
}

/// Relies on str::split with a char pattern: the substrings between the
/// newlines, in order, with the empty ones kept.
#[verifier::external_body]
pub(crate) fn split_lines(text: &str) -> (r: Vec<String>)
    ensures
        r@.len() == lines_of(text@).len(),
        forall|i: int| 0 <= i < r@.len() ==> (#[trigger] r@[i])@ == lines_of(text@)[i],
{
    text.split('\n').map(|l| l.to_string()).collect()
}

/// `s` without one trailing carriage return.
pub open spec fn without_cr(s: Seq<char>) -> Seq<char> {
    if s.len() > 0 && s.last() == '\r' {
        s.drop_last()
    } else {
        s
    }
}

pub fn strip_cr(s: &str) -> (r: String)
    ensures
        r@ == without_cr(s@),
{
    let n = s.unicode_len();
    if n > 0 && s.get_char(n - 1) == '\r' {
        String::from_str(s.substring_char(0, n - 1))
    } else {
        String::from_str(s)
    }
}

/// Number of leading spaces.
pub fn indent_of(s: &str) -> (r: usize)
    ensures
        r <= s@.len(),
        forall|q: int| 0 <= q < r ==> s@[q] == ' ',
        r < s@.len() ==> s@[r as int] != ' ',
{
    let n = s.unicode_len();
    let mut i: usize = 0;
    while i < n && s.get_char(i) == ' '
        invariant
            n == s@.len(),
            i <= n,
            forall|q: int| 0 <= q < i ==> s@[q] == ' ',
        decreases n - i,
    {
        i = i + 1;
    }
    i
}

/// `s` without leading and trailing spaces.
pub fn trim_spaces(s: &str) -> (r: String)
    ensures
        exists|a: int, b: int|
            0 <= a <= b <= s@.len() && r@ == s@.subrange(a, b) && (forall|q: int| 0 <= q < a ==> s@[q] == ' ')
                && (forall|q: int| b <= q < s@.len() ==> s@[q] == ' ') && (a < b ==> s@[a] != ' ' && s@[b - 1] != ' '),
{
    let n = s.unicode_len();
    let a = indent_of(s);
    let mut b: usize = n;
    while b > a && s.get_char(b - 1) == ' '
        invariant
            n == s@.len(),
            a <= b <= n,
            forall|q: int| b <= q < n ==> s@[q] == ' ',
        decreases b,
    {
        b = b - 1;
    }
    String::from_str(s.substring_char(a, b))
}

/// `s` without one pair of surrounding quotes, double or single.
pub open spec fn unquoted(s: Seq<char>) -> Seq<char> {
    if s.len() >= 2 && (s[0] == '"' || s[0] == '\'') && s.last() == s[0] {
        s.subrange(1, s.len() - 1)
    } else {
        s
    }
}

pub fn unquote(s: &str) -> (r: String)
    ensures
        r@ == unquoted(s@),
{
    let n = s.unicode_len();
    if n >= 2 && (s.get_char(0) == '"' || s.get_char(0) == '\'') && s.get_char(n - 1) == s.get_char(0) {
        String::from_str(s.substring_char(1, n - 1))
    } else {
        String::from_str(s)
    }
}

/// Position of the first `c` in `s`.
pub fn find_char(s: &str, c: char) -> (r: Option<usize>)
    ensures
        match r {
            Some(p) => p < s@.len() && s@[p as int] == c && forall|q: int| 0 <= q < p ==> s@[q] != c,
            None => forall|q: int| 0 <= q < s@.len() ==> s@[q] != c,
        },
{
    let n = s.unicode_len();
    let mut i: usize = 0;
    while i < n
        invariant
            n == s@.len(),
            i <= n,
            forall|q: int| 0 <= q < i ==> s@[q] != c,
        decreases n - i,
    {
        if s.get_char(i) == c {
            return Some(i);
        }
        i = i + 1;
    }
    None
}

/// `s` begins with `prefix`.
pub fn starts_with(s: &str, prefix: &str) -> (r: bool)
    ensures
        r == (prefix@.len() <= s@.len() && s@.subrange(0, prefix@.len() as int) == prefix@),
{
    let n = s.unicode_len();
    let m = prefix.unicode_len();
    if m > n {
        return false;
    }
    let head = String::from_str(s.substring_char(0, m));
    let p = String::from_str(prefix);
    head == p
}

} // verus!
