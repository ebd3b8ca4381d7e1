//! The page tree: an ordered mapping from page number to lines of text,
//! and its traversal into a flat, document-ordered stream of
//! `(page number, token)` pairs.

use vstd::prelude::*;

use crate::segment::{
    line_tokens, lines_texts_from, page_texts, token_texts, token_wf, Mode, Token,
};

verus! {

/// One page: its (positive) page number and its lines in document order.
pub struct Page {
    pub number: u32,
    pub lines: Vec<String>,
}

/// An ordered mapping from page number to lines: pages are kept in
/// strictly ascending page-number order.
pub struct PageTree {
    pub pages: Vec<Page>,
}

/// Page numbers strictly ascend, so iteration order is document order.
pub open spec fn pages_sorted(pages: Seq<Page>) -> bool {
    forall|i: int, j: int| 0 <= i < j < pages.len() ==> pages[i].number < pages[j].number
}

/// Well-formedness of a page tree: page numbers are positive and strictly
/// ascending.
pub open spec fn tree_wf(t: PageTree) -> bool {
    &&& pages_sorted(t.pages@)
    &&& forall|i: int| 0 <= i < t.pages@.len() ==> (#[trigger] t.pages@[i].number) >= 1
}

/// The `(page number, token text)` pairs one page yields under `mode`.
pub open spec fn page_pairs(p: Page, mode: Mode) -> Seq<(u32, Seq<char>)> {
    page_texts(p.lines.deep_view(), mode).map_values(|t: Seq<char>| (p.number, t))
}

/// The pairs that pages `j..` of the tree yield, in document order.
pub open spec fn pairs_from(pages: Seq<Page>, mode: Mode, j: int) -> Seq<(u32, Seq<char>)>
    decreases pages.len() - j
    when 0 <= j
{
    if j >= pages.len() {
        Seq::empty()
    } else {
        page_pairs(pages[j], mode) + pairs_from(pages, mode, j + 1)
    }
}

/// The full token stream of a tree: all pages from index `offset` on, in
/// document order. An offset beyond the last page yields an empty stream.
pub open spec fn tree_pairs(t: PageTree, mode: Mode, offset: int) -> Seq<(u32, Seq<char>)> {
    pairs_from(t.pages@, mode, offset)
}

/// The `(page number, token text)` views of a vector of emitted pairs.
pub open spec fn pair_views(ps: Seq<(u32, Token)>) -> Seq<(u32, Seq<char>)> {
    ps.map_values(|q: (u32, Token)| (q.0, q.1.text@))
}

impl PageTree {
    /// An empty tree.
    pub fn new() -> (t: PageTree)
        ensures
            tree_wf(t),
            t.pages@.len() == 0,
    {
        PageTree { pages: Vec::new() }
    }

    /// Append a page. Succeeds exactly when `number` is positive and
    /// greater than every page number already present; otherwise the tree
    /// is unchanged.
    pub fn push_page(&mut self, number: u32, lines: Vec<String>) -> (ok: bool)
        requires
            tree_wf(*old(self)),
        ensures
            tree_wf(*final(self)),
            ok == (number >= 1 && (old(self).pages@.len() == 0 || old(self).pages@.last().number
                < number)),
            ok ==> final(self).pages@ == old(self).pages@.push(Page { number, lines }),
            !ok ==> final(self).pages@ == old(self).pages@,
    {
        if number >= 1 && (self.pages.len() == 0 || self.pages[self.pages.len() - 1].number
            < number) {
            self.pages.push(Page { number, lines });
            true
        } else {
            false
        }
    }
}

/// All tokens of one page, in line order then intra-line split order.
pub fn segment_page(page: &Page, mode: Mode) -> (r: Vec<Token>)
    ensures
        token_texts(r@) == page_texts(page.lines.deep_view(), mode),
        forall|k: int| 0 <= k < r@.len() ==> token_wf(#[trigger] r@[k]),
{
    let ghost lines = page.lines.deep_view();
    let mut r: Vec<Token> = Vec::new();
    let mut li: usize = 0;
    proof {
        assert(token_texts(r@) + page_texts(lines, mode) =~~= page_texts(lines, mode));
    }
    while li < page.lines.len()
        invariant
            li <= page.lines@.len(),
            lines == page.lines.deep_view(),
            token_texts(r@) + lines_texts_from(lines, mode, li as int) =~~= page_texts(
                lines,
                mode,
            ),
            forall|k: int| 0 <= k < r@.len() ==> token_wf(#[trigger] r@[k]),
        decreases page.lines@.len() - li,
    {
        let ghost r0 = r@;
        let mut ts = line_tokens(page.lines[li].as_str(), mode);
        let ghost ts0 = ts@;
        proof {
            assert(lines[li as int] == page.lines@[li as int]@);
        }
        r.append(&mut ts);
        li += 1;
        proof {
            assert(token_texts(r0 + ts0) =~~= token_texts(r0) + token_texts(ts0));
            assert((token_texts(r0) + token_texts(ts0)) + lines_texts_from(
                lines,
                mode,
                li as int,
            ) =~~= token_texts(r0) + (token_texts(ts0) + lines_texts_from(lines, mode, li as int)));
        }
    }
    proof {
        assert(token_texts(r@) + Seq::<Seq<char>>::empty() =~~= token_texts(r@));
    }
    r
}

/// The whole token stream of a tree from page index `offset` on: the pairs
/// come in document order, so page numbers never decrease (order
/// preservation), every token is well formed (tokenization totality), and
/// the stream is exactly `tree_pairs` (no reordering, skipping or
/// duplication).
pub fn segment_tree(tree: &PageTree, mode: Mode, offset: usize) -> (r: Vec<(u32, Token)>)
    requires
        tree_wf(*tree),
    ensures
        pair_views(r@) == tree_pairs(*tree, mode, offset as int),
        forall|k: int| 0 <= k < r@.len() ==> token_wf((#[trigger] r@[k]).1),
        forall|a: int, b: int| 0 <= a <= b < r@.len() ==> r@[a].0 <= r@[b].0,
{
    let ghost pages = tree.pages@;
    let mut r: Vec<(u32, Token)> = Vec::new();
    let mut j: usize = offset;
    proof {
        assert(pair_views(r@) + tree_pairs(*tree, mode, offset as int) =~~= tree_pairs(
            *tree,
            mode,
            offset as int,
        ));
    }
    while j < tree.pages.len()
        invariant
            tree_wf(*tree),
            pages == tree.pages@,
            offset <= j,
            pair_views(r@) + pairs_from(pages, mode, j as int) =~~= tree_pairs(
                *tree,
                mode,
                offset as int,
            ),
            forall|k: int| 0 <= k < r@.len() ==> token_wf((#[trigger] r@[k]).1),
            forall|a: int, b: int| 0 <= a <= b < r@.len() ==> r@[a].0 <= r@[b].0,
            (j as int) < pages.len() ==> forall|k: int|
                0 <= k < r@.len() ==> (#[trigger] r@[k]).0 < pages[j as int].number,
        decreases pages.len() - j,
    {
        let ghost r0 = r@;
        let page = &tree.pages[j];
        let toks = segment_page(page, mode);
        let ghost block = page_pairs(pages[j as int], mode);
        proof {
            assert(pair_views(r0).len() == r0.len());
            assert(pair_views(r0) + block.subrange(0, 0) =~~= pair_views(r0));
        }
        let mut k: usize = 0;
        while k < toks.len()
            invariant
                k <= toks@.len(),
                (j as int) < pages.len(),
                pages == tree.pages@,
                page == &tree.pages@[j as int],
                block == page_pairs(pages[j as int], mode),
                token_texts(toks@) == page_texts(page.lines.deep_view(), mode),
                forall|x: int| 0 <= x < toks@.len() ==> token_wf(#[trigger] toks@[x]),
                toks@.len() == block.len(),
                pair_views(r@) =~~= pair_views(r0) + block.subrange(0, k as int),
                forall|x: int| 0 <= x < r0.len() ==> r@[x] == r0[x],
                r@.len() == r0.len() + k,
                forall|x: int|
                    r0.len() <= x < r@.len() ==> (#[trigger] r@[x]).1.text@
                        == toks@[x - r0.len()].text@ && r@[x].1.word_count == toks@[x
                        - r0.len()].word_count && r@[x].0 == page.number,
            decreases toks@.len() - k,
        {
            let t = &toks[k];
            let pair = (page.number, Token { text: t.text.clone(), word_count: t.word_count });
            proof {
                assert(block[k as int] == (page.number, page_texts(
                    page.lines.deep_view(),
                    mode,
                )[k as int]));
                assert(token_texts(toks@)[k as int] == toks@[k as int].text@);
                assert(pair_views(r@.push(pair)) =~~= pair_views(r@).push(
                    (pair.0, pair.1.text@),
                ));
                assert(block.subrange(0, k as int + 1) =~~= block.subrange(0, k as int).push(
                    block[k as int],
                ));
                assert((pair_views(r0) + block.subrange(0, k as int)).push(block[k as int]) =~~=
                pair_views(r0) + block.subrange(0, k as int + 1));
            }
            r.push(pair);
            k += 1;
        }
        j += 1;
        proof {
            assert(block.subrange(0, block.len() as int) =~= block);
            assert(pair_views(r@) =~~= pair_views(r0) + block);
            assert((pair_views(r0) + block) + pairs_from(pages, mode, j as int) =~~= pair_views(
                r0,
            ) + (block + pairs_from(pages, mode, j as int)));
            assert(block + pairs_from(pages, mode, j as int) == pairs_from(
                pages,
                mode,
                j as int - 1,
            ));
            assert forall|k: int| 0 <= k < r@.len() implies token_wf((#[trigger] r@[k]).1) by {
                if k >= r0.len() {
                    assert(token_wf(toks@[k - r0.len()]));
                } else {
                    assert(r@[k] == r0[k]);
                    assert(token_wf(r0[k].1));
                }
            }
            assert forall|a: int, b: int| 0 <= a <= b < r@.len() implies r@[a].0 <= r@[b].0 by {
                if a < r0.len() && b >= r0.len() {
                    assert(r@[a] == r0[a]);
                    assert(r0[a].0 < pages[j as int - 1].number);
                    assert(r@[b].0 == pages[j as int - 1].number);
                } else if a >= r0.len() {
                    assert(r@[a].0 == pages[j as int - 1].number);
                    assert(r@[b].0 == pages[j as int - 1].number);
                } else {
                    assert(r@[a] == r0[a]);
                    assert(r@[b] == r0[b]);
                    assert(r0[a].0 <= r0[b].0);
                }
            }
            if (j as int) < pages.len() {
                assert(pages[j as int - 1].number < pages[j as int].number);
                assert forall|k: int| 0 <= k < r@.len() implies (#[trigger] r@[k]).0
                    < pages[j as int].number by {
                    if k >= r0.len() {
                        assert(r@[k].0 == pages[j as int - 1].number);
                    } else {
                        assert(r0[k].0 < pages[j as int - 1].number);
                    }
                }
            }
        }
    }
    proof {
        assert(pairs_from(pages, mode, j as int) =~~= Seq::<(u32, Seq<char>)>::empty());
        assert(pair_views(r@) + Seq::<(u32, Seq<char>)>::empty() =~~= pair_views(r@));
    }
    r
}

/// Every pair emitted from page index `j` on carries a page number at
/// least that of page `j`.
proof fn lemma_pairs_from_lower_bound(pages: Seq<Page>, mode: Mode, j: int)
    requires
        pages_sorted(pages),
        0 <= j < pages.len(),
    ensures
        forall|k: int|
            0 <= k < pairs_from(pages, mode, j).len() ==> (#[trigger] pairs_from(
                pages,
                mode,
                j,
            )[k]).0 >= pages[j].number,
    decreases pages.len() - j,
{
    let res = pairs_from(pages, mode, j);
    let block = page_pairs(pages[j], mode);
    if j + 1 < pages.len() {
        lemma_pairs_from_lower_bound(pages, mode, j + 1);
    }
    let rest = pairs_from(pages, mode, j + 1);
    assert forall|k: int| 0 <= k < res.len() implies (#[trigger] res[k]).0 >= pages[j].number by {
        if k < block.len() {
            assert(res[k] == block[k]);
        } else {
            assert(res[k] == rest[k - block.len()]);
            if j + 1 < pages.len() {
                assert(rest[k - block.len()].0 >= pages[j + 1].number);
                assert(pages[j].number < pages[j + 1].number);
            }
        }
    }
}

/// Offset correctness, exclusion half: with a starting page offset, pages
/// before the offset never appear in the emitted stream.
pub proof fn lemma_offset_excludes(t: PageTree, mode: Mode, offset: int, i: int)
    requires
        tree_wf(t),
        0 <= i < offset,
        offset <= t.pages@.len(),
    ensures
        forall|k: int|
            0 <= k < tree_pairs(t, mode, offset).len() ==> (#[trigger] tree_pairs(
                t,
                mode,
                offset,
            )[k]).0 != t.pages@[i].number,
{
    let res = tree_pairs(t, mode, offset);
    if offset < t.pages@.len() {
        lemma_pairs_from_lower_bound(t.pages@, mode, offset);
        assert forall|k: int| 0 <= k < res.len() implies (#[trigger] res[k]).0
            != t.pages@[i].number by {
            assert(res[k].0 >= t.pages@[offset].number);
            assert(t.pages@[i].number < t.pages@[offset].number);
        }
    }
}

/// Offset correctness, first-token half: the first emitted pair comes from
/// the first page at index at least `offset` that yields any token.
pub proof fn lemma_offset_first_token(pages: Seq<Page>, mode: Mode, offset: int, j: int)
    requires
        0 <= offset <= j < pages.len(),
        forall|j2: int| offset <= j2 < j ==> page_pairs(#[trigger] pages[j2], mode).len() == 0,
        page_pairs(pages[j], mode).len() > 0,
    ensures
        pairs_from(pages, mode, offset).len() > 0,
        pairs_from(pages, mode, offset)[0] == page_pairs(pages[j], mode)[0],
        pairs_from(pages, mode, offset)[0].0 == pages[j].number,
    decreases j - offset,
{
    let res = pairs_from(pages, mode, offset);
    let block = page_pairs(pages[offset], mode);
    let rest = pairs_from(pages, mode, offset + 1);
    if offset == j {
        assert(res[0] == block[0]);
        assert(block[0] == (pages[j].number, page_texts(pages[j].lines.deep_view(), mode)[0]));
    } else {
        lemma_offset_first_token(pages, mode, offset + 1, j);
        assert(block.len() == 0);
        assert(res =~~= rest);
    }
}

} // verus!
