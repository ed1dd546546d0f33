//! Splitting one block of text into its head line, directive name,
//! inline argument, and four-space-indented body.

use vstd::prelude::*;

use crate::chars::{
    class_matches, find_first, find_first_in, is_space, is_space_char, lemma_find_first, CharClass,
};

verus! {

/// The position of the line feed that ends the head line of block `b`,
/// or `b.len()` when the whole block is the head line.
pub open spec fn head_end(b: Seq<char>) -> int {
    find_first(b, 0, CharClass::Newline)
}

/// The head line of block `b`.
pub open spec fn spec_head(b: Seq<char>) -> Seq<char> {
    b.subrange(0, head_end(b))
}

/// The position within the head line of the first separator character,
/// or the head line's length when it has none.
pub open spec fn name_end(b: Seq<char>) -> int {
    find_first(spec_head(b), 0, CharClass::Sep)
}

/// The directive name of block `b`: the head line up to its first
/// separator character.
pub open spec fn spec_name(b: Seq<char>) -> Seq<char> {
    spec_head(b).subrange(0, name_end(b))
}

/// The inline argument of block `b`: the rest of the head line after the
/// name and the one separator character, empty when nothing follows.
pub open spec fn spec_harg(b: Seq<char>) -> Seq<char> {
    let h = spec_head(b);
    let e = name_end(b);
    if e + 1 < h.len() {
        h.subrange(e + 1, h.len() as int)
    } else {
        Seq::empty()
    }
}

/// The raw continuation lines of block `b`: everything after the head
/// line's line feed, empty when the block is a single line.
pub open spec fn spec_tail(b: Seq<char>) -> Seq<char> {
    if head_end(b) < b.len() {
        b.subrange(head_end(b) + 1, b.len() as int)
    } else {
        Seq::empty()
    }
}

/// Whether every line of `t` starts with at least four characters, the
/// first four of them spaces: the fixed-margin rule for body lines.
pub open spec fn body_wf(t: Seq<char>) -> bool
    decreases t.len(),
{
    if t.len() == 0 {
        true
    } else {
        let p = find_first(t, 0, CharClass::Newline);
        if !(4 <= p && t[0] == ' ' && t[1] == ' ' && t[2] == ' ' && t[3] == ' ') {
            false
        } else if p < t.len() {
            body_wf(t.subrange(p + 1, t.len() as int))
        } else {
            true
        }
    }
}

/// The body of a block: each line of `t` with its four-space margin
/// removed and a line feed restored after it. Meaningful only when
/// `body_wf(t)` holds.
pub open spec fn spec_dedent(t: Seq<char>) -> Seq<char>
    decreases t.len(),
{
    if t.len() == 0 {
        Seq::empty()
    } else {
        let p = find_first(t, 0, CharClass::Newline);
        if 0 <= p <= t.len() {
            let stripped = if p >= 4 {
                t.subrange(4, p)
            } else {
                Seq::empty()
            };
            if p < t.len() {
                stripped + seq!['\n'] + spec_dedent(t.subrange(p + 1, t.len() as int))
            } else {
                stripped + seq!['\n']
            }
        } else {
            Seq::empty()
        }
    }
}

/// Removing the four-space margins shortens a well-formed, non-empty
/// body text by at least three characters.
pub proof fn lemma_dedent_len(t: Seq<char>)
    requires
        body_wf(t),
        t.len() > 0,
    ensures
        spec_dedent(t).len() <= t.len() - 3,
    decreases t.len(),
{
    let p = find_first(t, 0, CharClass::Newline);
    lemma_find_first(t, 0, CharClass::Newline);
    assert(4 <= p);
    if p < t.len() {
        let rest = t.subrange(p + 1, t.len() as int);
        assert(body_wf(rest));
        assert(spec_dedent(t) == t.subrange(4, p) + seq!['\n'] + spec_dedent(rest));
        if rest.len() > 0 {
            lemma_dedent_len(rest);
        } else {
            assert(spec_dedent(rest) =~= Seq::<char>::empty());
        }
    } else {
        assert(spec_dedent(t) == t.subrange(4, p) + seq!['\n']);
    }
}

/// Strips the four-space margin from every line of `t`, restoring a line
/// feed after each; `None` when some line of `t` lacks the margin.
pub fn dedent_body(t: &str) -> (r: Option<String>)
    ensures
        r matches Some(s) ==> body_wf(t@) && s@ == spec_dedent(t@),
        r is None ==> !body_wf(t@),
{
    let n = t.unicode_len();
    let mut out = String::new();
    let mut start: usize = 0;
    proof {
        assert(t@.subrange(0, n as int) =~= t@);
    }
    while start < n
        invariant
            start <= n,
            n == t@.len(),
            body_wf(t@) == body_wf(t@.subrange(start as int, n as int)),
            body_wf(t@.subrange(start as int, n as int)) ==> spec_dedent(t@) =~= out@
                + spec_dedent(t@.subrange(start as int, n as int)),
        decreases n - start,
    {
        let rest = t.substring_char(start, n);
        let ghost rseq = t@.subrange(start as int, n as int);
        let p = find_first_in(rest, 0, CharClass::Newline);
        proof {
            lemma_find_first(rseq, 0, CharClass::Newline);
        }
        if p < 4 || rest.get_char(0) != ' ' || rest.get_char(1) != ' ' || rest.get_char(2) != ' '
            || rest.get_char(3) != ' ' {
            proof {
                assert(!body_wf(rseq));
            }
            return None;
        }
        let line = rest.substring_char(4, p);
        out.append(line);
        out.append("\n");
        proof {
            reveal_strlit("\n");
            assert("\n"@ =~= seq!['\n']);
        }
        if p == rest.unicode_len() {
            proof {
                assert(spec_dedent(rseq) =~= rseq.subrange(4, p as int) + seq!['\n']);
                assert(t@.subrange(n as int, n as int) =~= Seq::<char>::empty());
                assert(body_wf(rseq) == body_wf(t@.subrange(n as int, n as int)));
                if body_wf(rseq) {
                    assert(spec_dedent(t@) =~= out@ + spec_dedent(
                        t@.subrange(n as int, n as int),
                    ));
                }
            }
            start = n;
        } else {
            let ghost nseq = rseq.subrange(p + 1, rseq.len() as int);
            proof {
                assert(nseq =~= t@.subrange(start + p + 1, n as int));
                assert(spec_dedent(rseq) =~= rseq.subrange(4, p as int) + seq!['\n']
                    + spec_dedent(nseq));
                assert(body_wf(rseq) == body_wf(nseq));
                if body_wf(nseq) {
                    assert(spec_dedent(t@) =~= out@ + spec_dedent(nseq));
                }
            }
            start = start + p + 1;
        }
    }
    proof {
        assert(t@.subrange(n as int, n as int) =~= Seq::<char>::empty());
        assert(spec_dedent(Seq::<char>::empty()) =~= Seq::<char>::empty());
        assert(out@ + Seq::<char>::empty() =~= out@);
    }
    Some(out)
}

/// The whitespace-separated tokens of `s`, in order, with all whitespace
/// dropped.
pub open spec fn spec_tokens(s: Seq<char>) -> Seq<Seq<char>>
    decreases s.len(),
{
    if s.len() == 0 {
        Seq::empty()
    } else if is_space_char(s[0]) {
        spec_tokens(s.subrange(1, s.len() as int))
    } else {
        let p = find_first(s, 0, CharClass::Space);
        if 0 < p <= s.len() {
            seq![s.subrange(0, p)] + spec_tokens(s.subrange(p, s.len() as int))
        } else {
            seq![s]
        }
    }
}

/// Splits `s` on whitespace into its tokens.
pub fn split_tokens(s: &str) -> (toks: Vec<String>)
    ensures
        toks.deep_view() == spec_tokens(s@),
{
    let n = s.unicode_len();
    let mut toks: Vec<String> = Vec::new();
    let mut start: usize = 0;
    proof {
        assert(s@.subrange(0, n as int) =~= s@);
        assert(toks.deep_view() + spec_tokens(s@) =~= spec_tokens(s@));
    }
    while start < n
        invariant
            start <= n,
            n == s@.len(),
            spec_tokens(s@) =~= toks.deep_view() + spec_tokens(
                s@.subrange(start as int, n as int),
            ),
        decreases n - start,
    {
        let rest = s.substring_char(start, n);
        let ghost rseq = s@.subrange(start as int, n as int);
        if is_space(rest.get_char(0)) {
            proof {
                assert(rseq.subrange(1, rseq.len() as int) =~= s@.subrange(
                    start + 1,
                    n as int,
                ));
                assert(spec_tokens(rseq) == spec_tokens(rseq.subrange(1, rseq.len() as int)));
            }
            start = start + 1;
        } else {
            let p = find_first_in(rest, 0, CharClass::Space);
            proof {
                lemma_find_first(rseq, 0, CharClass::Space);
                if p == 0 {
                    assert(class_matches(CharClass::Space, rseq, 0));
                    assert(false);
                }
            }
            let tok = String::from_str(rest.substring_char(0, p));
            let ghost old_toks = toks.deep_view();
            toks.push(tok);
            proof {
                assert(toks.deep_view() =~= old_toks.push(rseq.subrange(0, p as int)));
                assert(rseq.subrange(p as int, rseq.len() as int) =~= s@.subrange(
                    start + p,
                    n as int,
                ));
                assert(spec_tokens(rseq) == seq![rseq.subrange(0, p as int)] + spec_tokens(
                    rseq.subrange(p as int, rseq.len() as int),
                ));
                assert(spec_tokens(s@) =~= toks.deep_view() + spec_tokens(
                    s@.subrange(start + p, n as int),
                ));
            }
            start = start + p;
        }
    }
    proof {
        assert(s@.subrange(n as int, n as int) =~= Seq::<char>::empty());
        assert(toks.deep_view() + spec_tokens(Seq::<char>::empty()) =~= toks.deep_view());
    }
    toks
}

} // verus!
