//! Character classification and position finding over `Seq<char>` views,
//! with executable counterparts over `&str`.

use vstd::prelude::*;

verus! {

/// An ASCII whitespace character: space, tab, line feed, vertical tab,
/// form feed or carriage return.
pub open spec fn is_space_char(c: char) -> bool {
    c == ' ' || c == '\t' || c == '\n' || c == '\u{b}' || c == '\u{c}' || c == '\r'
}

/// An ASCII punctuation character (the four punctuation runs of the
/// ASCII table).
pub open spec fn is_punct_char(c: char) -> bool {
    (0x21 <= c as u32 && c as u32 <= 0x2f) || (0x3a <= c as u32 && c as u32 <= 0x40) || (0x5b
        <= c as u32 && c as u32 <= 0x60) || (0x7b <= c as u32 && c as u32 <= 0x7e)
}

/// A character that separates a directive name from its inline argument:
/// whitespace or punctuation.
pub open spec fn is_sep_char(c: char) -> bool {
    is_space_char(c) || is_punct_char(c)
}

/// The classes of positions the interpreter scans for.
#[derive(Clone, Copy, PartialEq, Eq, Structural)]
pub enum CharClass {
    /// A line feed.
    Newline,
    /// A line feed that ends a block: the next character is absent or is
    /// not a space, so the following line does not continue the block.
    BlockCut,
    /// A name/argument separator (whitespace or punctuation).
    Sep,
    /// ASCII whitespace.
    Space,
    /// Anything but ASCII whitespace.
    NonSpace,
}

/// Whether position `i` of `t` matches class `cls`.
pub open spec fn class_matches(cls: CharClass, t: Seq<char>, i: int) -> bool {
    match cls {
        CharClass::Newline => t[i] == '\n',
        CharClass::BlockCut => t[i] == '\n' && (i + 1 == t.len() || t[i + 1] != ' '),
        CharClass::Sep => is_sep_char(t[i]),
        CharClass::Space => is_space_char(t[i]),
        CharClass::NonSpace => !is_space_char(t[i]),
    }
}

/// The first position at or after `i` that matches `cls`, or `t.len()`
/// if none does.
pub open spec fn find_first(t: Seq<char>, i: int, cls: CharClass) -> int
    decreases t.len() - i,
{
    if i < 0 || i >= t.len() {
        t.len() as int
    } else if class_matches(cls, t, i) {
        i
    } else {
        find_first(t, i + 1, cls)
    }
}

/// `find_first` returns the first matching position: it is in bounds, it
/// matches unless it is `t.len()`, and nothing before it matches.
pub proof fn lemma_find_first(t: Seq<char>, i: int, cls: CharClass)
    requires
        0 <= i <= t.len(),
    ensures
        i <= find_first(t, i, cls) <= t.len(),
        find_first(t, i, cls) < t.len() ==> class_matches(cls, t, find_first(t, i, cls)),
        forall|j: int| i <= j < find_first(t, i, cls) ==> !class_matches(cls, t, j),
    decreases t.len() - i,
{
    if i < t.len() && !class_matches(cls, t, i) {
        lemma_find_first(t, i + 1, cls);
    }
}

/// Whether `c` is an ASCII whitespace character.
pub fn is_space(c: char) -> (r: bool)
    ensures
        r == is_space_char(c),
{
    c == ' ' || c == '\t' || c == '\n' || c == '\u{b}' || c == '\u{c}' || c == '\r'
}

/// Whether `c` separates a name from an inline argument.
pub fn is_sep(c: char) -> (r: bool)
    ensures
        r == is_sep_char(c),
{
    let u = c as u32;
    is_space(c) || (0x21 <= u && u <= 0x2f) || (0x3a <= u && u <= 0x40) || (0x5b <= u && u <= 0x60)
        || (0x7b <= u && u <= 0x7e)
}

/// Whether position `i` of `s` matches `cls`; executable counterpart of
/// `class_matches`.
fn matches_at(s: &str, n: usize, i: usize, cls: CharClass) -> (r: bool)
    requires
        n == s@.len(),
        i < n,
    ensures
        r == class_matches(cls, s@, i as int),
{
    match cls {
        CharClass::Newline => s.get_char(i) == '\n',
        CharClass::BlockCut => s.get_char(i) == '\n' && (i + 1 == n || s.get_char(i + 1) != ' '),
        CharClass::Sep => is_sep(s.get_char(i)),
        CharClass::Space => is_space(s.get_char(i)),
        CharClass::NonSpace => !is_space(s.get_char(i)),
    }
}

/// The first position of `s` at or after `from` that matches `cls`, or
/// the length of `s` if none does.
pub fn find_first_in(s: &str, from: usize, cls: CharClass) -> (r: usize)
    requires
        from <= s@.len(),
    ensures
        r == find_first(s@, from as int, cls),
        from <= r <= s@.len(),
{
    let n = s.unicode_len();
    let mut i = from;
    while i < n
        invariant
            from <= i <= n,
            n == s@.len(),
            find_first(s@, from as int, cls) == find_first(s@, i as int, cls),
        decreases n - i,
    {
        if matches_at(s, n, i, cls) {
            proof {
                assert(find_first(s@, i as int, cls) == i);
            }
            return i;
        }
        proof {
            assert(find_first(s@, i as int, cls) == find_first(s@, i as int + 1, cls));
        }
        i = i + 1;
    }
    proof {
        assert(find_first(s@, i as int, cls) == i);
    }
    i
}

/// Whether two string slices hold the same characters.
pub fn str_eq(a: &str, b: &str) -> (r: bool)
    ensures
        r == (a@ == b@),
{
    let na = a.unicode_len();
    let nb = b.unicode_len();
    if na != nb {
        return false;
    }
    let mut i: usize = 0;
    while i < na
        invariant
            na == a@.len(),
            nb == b@.len(),
            na == nb,
            i <= na,
            forall|j: int| 0 <= j < i ==> a@[j] == b@[j],
        decreases na - i,
    {
        if a.get_char(i) != b.get_char(i) {
            return false;
        }
        i = i + 1;
    }
    proof {
        assert(a@ =~= b@);
    }
    true
}

} // verus!
