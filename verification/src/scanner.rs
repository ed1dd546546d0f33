//! The block scanner: partitions a document into directive blocks.
//!
//! A block is one head line followed by every line that starts with a
//! space. The document is cut after each line feed whose next character
//! is absent or is not a space; the cut line feeds themselves are the
//! separators between blocks, so joining the blocks with single line
//! feeds restores the document exactly.

use vstd::prelude::*;

use crate::chars::{class_matches, find_first, find_first_in, lemma_find_first, CharClass};

verus! {

/// The blocks of `t`: `t` is cut after each line feed that is not
/// followed by a space. Every document has at least one block; an empty
/// document has exactly one empty block.
pub open spec fn spec_scan(t: Seq<char>) -> Seq<Seq<char>>
    decreases t.len(),
{
    let p = find_first(t, 0, CharClass::BlockCut);
    if 0 <= p < t.len() {
        seq![t.subrange(0, p)] + spec_scan(t.subrange(p + 1, t.len() as int))
    } else {
        seq![t]
    }
}

/// The blocks joined back together with a single line feed between
/// consecutive blocks.
pub open spec fn spec_join(bs: Seq<Seq<char>>) -> Seq<char>
    decreases bs.len(),
{
    if bs.len() == 0 {
        Seq::empty()
    } else if bs.len() == 1 {
        bs[0]
    } else {
        bs[0] + seq!['\n'] + spec_join(bs.subrange(1, bs.len() as int))
    }
}

/// The partition into blocks is lossless: joining the blocks of `t` with
/// single line feeds yields `t` again, and there is always at least one
/// block.
pub proof fn lemma_scan_lossless(t: Seq<char>)
    ensures
        spec_scan(t).len() >= 1,
        spec_join(spec_scan(t)) == t,
    decreases t.len(),
{
    let p = find_first(t, 0, CharClass::BlockCut);
    lemma_find_first(t, 0, CharClass::BlockCut);
    if 0 <= p < t.len() {
        let rest = t.subrange(p + 1, t.len() as int);
        lemma_scan_lossless(rest);
        let bs = spec_scan(t);
        assert(bs == seq![t.subrange(0, p)] + spec_scan(rest));
        assert(bs.subrange(1, bs.len() as int) =~= spec_scan(rest));
        assert(spec_join(bs) == t.subrange(0, p) + seq!['\n'] + spec_join(spec_scan(rest)));
        assert(t[p] == '\n');
        assert(t.subrange(0, p) + seq!['\n'] + rest =~= t);
    }
}

/// Every line feed inside `b` is followed by a space: each line after
/// the head continues the block.
pub open spec fn block_shape(b: Seq<char>) -> bool {
    forall|j: int| 0 <= j < b.len() && #[trigger] b[j] == '\n' ==> j + 1 < b.len() && b[j + 1] == ' '
}

/// The partition is into maximal blocks: within each block every line
/// after the head starts with a space, and each block after the first
/// starts with a line that does not (or is empty), so no two adjacent
/// blocks could be one.
pub proof fn lemma_scan_shape(t: Seq<char>)
    ensures
        forall|i: int| 0 <= i < spec_scan(t).len() ==> block_shape(#[trigger] spec_scan(t)[i]),
        forall|i: int|
            1 <= i < spec_scan(t).len() ==> ((#[trigger] spec_scan(t)[i]).len() == 0
                || spec_scan(t)[i][0] != ' '),
    decreases t.len(),
{
    let p = find_first(t, 0, CharClass::BlockCut);
    lemma_find_first(t, 0, CharClass::BlockCut);
    if 0 <= p < t.len() {
        let first = t.subrange(0, p);
        let rest = t.subrange(p + 1, t.len() as int);
        lemma_scan_shape(rest);
        assert(spec_scan(t) == seq![first] + spec_scan(rest));
        assert forall|j: int|
            0 <= j < first.len() && #[trigger] first[j] == '\n' implies j + 1 < first.len()
            && first[j + 1] == ' ' by {
            assert(!class_matches(CharClass::BlockCut, t, j));
            assert(t[j + 1] == ' ');
            assert(t[p] == '\n');
        }
        assert(block_shape(first));
        assert(forall|i: int|
            1 <= i < spec_scan(t).len() ==> spec_scan(t)[i] == spec_scan(rest)[i - 1]);
        if rest.len() > 0 {
            let q = find_first(rest, 0, CharClass::BlockCut);
            lemma_find_first(rest, 0, CharClass::BlockCut);
            assert(class_matches(CharClass::BlockCut, t, p));
            assert(t[p + 1] != ' ');
            if 0 <= q < rest.len() {
                assert(spec_scan(rest)[0] == rest.subrange(0, q));
            } else {
                assert(spec_scan(rest)[0] == rest);
            }
            assert(spec_scan(rest)[0].len() == 0 || spec_scan(rest)[0][0] != ' ');
        } else {
            assert(spec_scan(rest) == seq![rest]);
            assert(spec_scan(rest)[0].len() == 0);
        }
    } else {
        assert forall|j: int|
            0 <= j < t.len() && #[trigger] t[j] == '\n' implies j + 1 < t.len() && t[j + 1]
            == ' ' by {
            assert(!class_matches(CharClass::BlockCut, t, j));
        }
        assert(block_shape(t));
        assert(spec_scan(t) == seq![t]);
    }
}

/// Every block of `t` is at most as long as `t` itself.
pub proof fn lemma_scan_block_len(t: Seq<char>)
    ensures
        forall|i: int|
            0 <= i < spec_scan(t).len() ==> (#[trigger] spec_scan(t)[i]).len() <= t.len(),
    decreases t.len(),
{
    let p = find_first(t, 0, CharClass::BlockCut);
    lemma_find_first(t, 0, CharClass::BlockCut);
    if 0 <= p < t.len() {
        let rest = t.subrange(p + 1, t.len() as int);
        lemma_scan_block_len(rest);
        assert(spec_scan(t) == seq![t.subrange(0, p)] + spec_scan(rest));
        assert(forall|i: int|
            1 <= i < spec_scan(t).len() ==> spec_scan(t)[i] == spec_scan(rest)[i - 1]);
    }
}

/// Scans `input` into its directive blocks, in document order.
pub fn scan_blocks(input: &str) -> (blocks: Vec<String>)
    ensures
        blocks.deep_view() == spec_scan(input@),
        blocks@.len() >= 1,
{
    let n = input.unicode_len();
    let mut blocks: Vec<String> = Vec::new();
    let mut start: usize = 0;
    proof {
        assert(input@.subrange(0, n as int) =~= input@);
        assert(blocks.deep_view() + spec_scan(input@) =~= spec_scan(input@));
    }
    loop
        invariant
            start <= n,
            n == input@.len(),
            spec_scan(input@) =~= blocks.deep_view() + spec_scan(
                input@.subrange(start as int, n as int),
            ),
        decreases n - start,
    {
        let rest = input.substring_char(start, n);
        let ghost rseq = input@.subrange(start as int, n as int);
        let q = find_first_in(rest, 0, CharClass::BlockCut);
        proof {
            lemma_find_first(rseq, 0, CharClass::BlockCut);
        }
        if q == rest.unicode_len() {
            let last = String::from_str(rest);
            let ghost old_blocks = blocks.deep_view();
            blocks.push(last);
            proof {
                assert(spec_scan(rseq) == seq![rseq]);
                assert(blocks.deep_view() =~= old_blocks.push(rseq));
                assert(spec_scan(input@) =~= blocks.deep_view());
            }
            return blocks;
        } else {
            let block = String::from_str(rest.substring_char(0, q));
            let ghost old_blocks = blocks.deep_view();
            blocks.push(block);
            proof {
                assert(spec_scan(rseq) == seq![rseq.subrange(0, q as int)] + spec_scan(
                    rseq.subrange(q as int + 1, rseq.len() as int),
                ));
                assert(blocks.deep_view() =~= old_blocks.push(rseq.subrange(0, q as int)));
                assert(rseq.subrange(q as int + 1, rseq.len() as int) =~= input@.subrange(
                    start as int + q + 1,
                    n as int,
                ));
                assert(spec_scan(input@) =~= blocks.deep_view() + spec_scan(
                    input@.subrange(start as int + q + 1, n as int),
                ));
            }
            start = start + q + 1;
        }
    }
}

} // verus!
