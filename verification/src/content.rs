//! The recursive content tree of a note.
//!
//! A note's body is an ordered forest of block nodes; list blocks contain
//! list items, which in turn contain blocks, so the tree nests to any
//! depth. Inline nodes carry the text. The tree is built bottom-up at
//! write time and never back-linked, so it has no cycles.
//!
//! Each executable type has a ghost view (`BlockView` and friends) over
//! `Seq`, and the contracts of this crate speak of those views.

use vstd::prelude::*;

verus! {

/// A block-level node of the content tree.
#[derive(Debug, PartialEq)]
pub enum Block {
    Paragraph { inlines: Vec<Inline> },
    Heading { level: u8, inlines: Vec<Inline> },
    Image { src: String },
    Divider,
    List { items: Vec<ListItem> },
}

/// One item of a list block: itself a sequence of blocks.
#[derive(Debug, PartialEq)]
pub struct ListItem {
    pub blocks: Vec<Block>,
}

/// An inline node: a run of text, plain or linked, with its marks.
#[derive(Debug, PartialEq)]
pub enum Inline {
    Text { text: String, marks: Vec<Mark> },
    Link { text: String, href: String, marks: Vec<Mark> },
}

/// A formatting mark on an inline run.
#[derive(Clone, Copy, Debug, PartialEq, Eq, Structural)]
pub enum Mark {
    Bold,
    Italic,
    Strikethrough,
    Highlight,
}

/// The mathematical model of a block node.
pub enum BlockView {
    Paragraph { inlines: Seq<InlineView> },
    Heading { level: u8, inlines: Seq<InlineView> },
    Image { src: Seq<char> },
    Divider,
    List { items: Seq<ListItemView> },
}

/// The mathematical model of a list item.
pub struct ListItemView {
    pub blocks: Seq<BlockView>,
}

/// The mathematical model of an inline node.
pub enum InlineView {
    Text { text: Seq<char>, marks: Seq<MarkView> },
    Link { text: Seq<char>, href: Seq<char>, marks: Seq<MarkView> },
}

/// The mathematical model of a mark.
pub enum MarkView {
    Bold,
    Italic,
    Strikethrough,
    Highlight,
}

pub open spec fn view_mark(m: Mark) -> MarkView {
    match m {
        Mark::Bold => MarkView::Bold,
        Mark::Italic => MarkView::Italic,
        Mark::Strikethrough => MarkView::Strikethrough,
        Mark::Highlight => MarkView::Highlight,
    }
}

pub open spec fn view_marks(s: Seq<Mark>) -> Seq<MarkView> {
    Seq::new(s.len(), |i: int| view_mark(s[i]))
}

pub open spec fn view_inline(v: Inline) -> InlineView {
    match v {
        Inline::Text { text, marks } => InlineView::Text {
            text: text@,
            marks: view_marks(marks@),
        },
        Inline::Link { text, href, marks } => InlineView::Link {
            text: text@,
            href: href@,
            marks: view_marks(marks@),
        },
    }
}

pub open spec fn view_inlines(s: Seq<Inline>) -> Seq<InlineView> {
    Seq::new(s.len(), |i: int| view_inline(s[i]))
}

pub open spec fn view_block(b: Block) -> BlockView
    decreases b,
{
    match b {
        Block::Paragraph { inlines } => BlockView::Paragraph { inlines: view_inlines(inlines@) },
        Block::Heading { level, inlines } => BlockView::Heading {
            level,
            inlines: view_inlines(inlines@),
        },
        Block::Image { src } => BlockView::Image { src: src@ },
        Block::Divider => BlockView::Divider,
        Block::List { items } => BlockView::List { items: view_items(items@) },
    }
}

pub open spec fn view_items(s: Seq<ListItem>) -> Seq<ListItemView>
    decreases s,
{
    if s.len() == 0 {
        Seq::empty()
    } else {
        seq![view_item(s[0])] + view_items(s.drop_first())
    }
}

pub open spec fn view_item(it: ListItem) -> ListItemView
    decreases it,
{
    ListItemView { blocks: view_blocks(it.blocks@) }
}

pub open spec fn view_blocks(s: Seq<Block>) -> Seq<BlockView>
    decreases s,
{
    if s.len() == 0 {
        Seq::empty()
    } else {
        seq![view_block(s[0])] + view_blocks(s.drop_first())
    }
}

/// Appends the given character to the end of this `String`.
pub assume_specification[ String::push ](s: &mut String, ch: char)
    ensures
        final(s)@ == old(s)@.push(ch),
;

/// Element-wise reading of `view_blocks`.
pub proof fn lemma_view_blocks_index(s: Seq<Block>)
    ensures
        view_blocks(s).len() == s.len(),
        forall|i: int| 0 <= i < s.len() ==> view_blocks(s)[i] == view_block(s[i]),
    decreases s.len(),
{
    if s.len() > 0 {
        lemma_view_blocks_index(s.drop_first());
    }
}

/// Element-wise reading of `view_items`.
pub proof fn lemma_view_items_index(s: Seq<ListItem>)
    ensures
        view_items(s).len() == s.len(),
        forall|i: int| 0 <= i < s.len() ==> view_items(s)[i] == view_item(s[i]),
    decreases s.len(),
{
    if s.len() > 0 {
        lemma_view_items_index(s.drop_first());
    }
}

fn clone_marks(v: &Vec<Mark>) -> (r: Vec<Mark>)
    ensures
        r@ == v@,
{
    let mut r: Vec<Mark> = Vec::new();
    let mut i: usize = 0;
    while i < v.len()
        invariant
            i <= v.len(),
            r@ == v@.take(i as int),
        decreases v.len() - i,
    {
        r.push(v[i]);
        i += 1;
        proof {
            assert(r@ =~= v@.take(i as int));
        }
    }
    proof {
        assert(v@.take(v.len() as int) =~= v@);
    }
    r
}

impl Clone for Inline {
    /// A clone is indistinguishable from the original in the model.
    fn clone(&self) -> (r: Self)
        ensures
            view_inline(r) == view_inline(*self),
    {
        match self {
            Inline::Text { text, marks } => Inline::Text {
                text: text.clone(),
                marks: clone_marks(marks),
            },
            Inline::Link { text, href, marks } => Inline::Link {
                text: text.clone(),
                href: href.clone(),
                marks: clone_marks(marks),
            },
        }
    }
}

fn clone_inlines(v: &Vec<Inline>) -> (r: Vec<Inline>)
    ensures
        view_inlines(r@) == view_inlines(v@),
{
    let mut r: Vec<Inline> = Vec::new();
    let mut i: usize = 0;
    while i < v.len()
        invariant
            i <= v.len(),
            r@.len() == i,
            forall|j: int| 0 <= j < i ==> view_inline(r@[j]) == view_inline(v@[j]),
        decreases v.len() - i,
    {
        r.push(v[i].clone());
        i += 1;
    }
    proof {
        assert(view_inlines(r@) =~= view_inlines(v@));
    }
    r
}

impl Clone for Block {
    /// A clone is indistinguishable from the original in the model.
    fn clone(&self) -> (r: Self)
        ensures
            view_block(r) == view_block(*self),
        decreases *self,
    {
        match self {
            Block::Paragraph { inlines } => Block::Paragraph { inlines: clone_inlines(inlines) },
            Block::Heading { level, inlines } => Block::Heading {
                level: *level,
                inlines: clone_inlines(inlines),
            },
            Block::Image { src } => Block::Image { src: src.clone() },
            Block::Divider => Block::Divider,
            Block::List { items } => Block::List { items: clone_items(items) },
        }
    }
}

fn clone_items(v: &Vec<ListItem>) -> (r: Vec<ListItem>)
    ensures
        view_items(r@) == view_items(v@),
    decreases v@,
{
    let mut r: Vec<ListItem> = Vec::new();
    let mut i: usize = 0;
    while i < v.len()
        invariant
            i <= v.len(),
            r@.len() == i,
            forall|j: int| 0 <= j < i ==> view_item(r@[j]) == view_item(v@[j]),
        decreases v.len() - i,
    {
        let it = &v[i];
        r.push(ListItem { blocks: clone_blocks(&it.blocks) });
        i += 1;
    }
    proof {
        lemma_view_items_index(r@);
        lemma_view_items_index(v@);
        assert(view_items(r@) =~= view_items(v@));
    }
    r
}

fn clone_blocks(v: &Vec<Block>) -> (r: Vec<Block>)
    ensures
        view_blocks(r@) == view_blocks(v@),
    decreases v@,
{
    let mut r: Vec<Block> = Vec::new();
    let mut i: usize = 0;
    while i < v.len()
        invariant
            i <= v.len(),
            r@.len() == i,
            forall|j: int| 0 <= j < i ==> view_block(r@[j]) == view_block(v@[j]),
        decreases v.len() - i,
    {
        r.push(v[i].clone());
        i += 1;
    }
    proof {
        lemma_view_blocks_index(r@);
        lemma_view_blocks_index(v@);
        assert(view_blocks(r@) =~= view_blocks(v@));
    }
    r
}

impl Clone for ListItem {
    /// A clone is indistinguishable from the original in the model.
    fn clone(&self) -> (r: Self)
        ensures
            view_item(r) == view_item(*self),
        decreases *self,
    {
        ListItem { blocks: clone_blocks(&self.blocks) }
    }
}

/// Clone a whole content forest; the model is unchanged.
pub fn clone_content(v: &Vec<Block>) -> (r: Vec<Block>)
    ensures
        view_blocks(r@) == view_blocks(v@),
{
    clone_blocks(v)
}

/// The text a single inline run contributes to the search document: its
/// visible text (plain or linked) followed by one separating space.
pub open spec fn flat_inline(v: InlineView) -> Seq<char> {
    match v {
        InlineView::Text { text, .. } => text.push(' '),
        InlineView::Link { text, .. } => text.push(' '),
    }
}

pub open spec fn flat_inlines(s: Seq<InlineView>) -> Seq<char>
    decreases s,
{
    if s.len() == 0 {
        Seq::empty()
    } else {
        flat_inline(s[0]) + flat_inlines(s.drop_first())
    }
}

/// The index text of one block: the space-joined text of its text-bearing
/// inline nodes, in tree order. Images and dividers contribute nothing.
pub open spec fn flat_block(b: BlockView) -> Seq<char>
    decreases b,
{
    match b {
        BlockView::Paragraph { inlines } => flat_inlines(inlines),
        BlockView::Heading { inlines, .. } => flat_inlines(inlines),
        BlockView::Image { .. } => Seq::empty(),
        BlockView::Divider => Seq::empty(),
        BlockView::List { items } => flat_items(items),
    }
}

pub open spec fn flat_items(s: Seq<ListItemView>) -> Seq<char>
    decreases s,
{
    if s.len() == 0 {
        Seq::empty()
    } else {
        flat_item(s[0]) + flat_items(s.drop_first())
    }
}

pub open spec fn flat_item(it: ListItemView) -> Seq<char>
    decreases it,
{
    flat_blocks(it.blocks)
}

/// The index text of a content forest.
pub open spec fn flat_blocks(s: Seq<BlockView>) -> Seq<char>
    decreases s,
{
    if s.len() == 0 {
        Seq::empty()
    } else {
        flat_block(s[0]) + flat_blocks(s.drop_first())
    }
}

fn append_inline_text(out: &mut String, v: &Inline)
    ensures
        final(out)@ == old(out)@ + flat_inline(view_inline(*v)),
{
    match v {
        Inline::Text { text, .. } => {
            out.append(text.as_str());
            out.push(' ');
        },
        Inline::Link { text, .. } => {
            out.append(text.as_str());
            out.push(' ');
        },
    }
}

fn append_inlines_text(out: &mut String, v: &Vec<Inline>)
    ensures
        final(out)@ == old(out)@ + flat_inlines(view_inlines(v@)),
{
    let mut i: usize = 0;
    proof {
        assert(view_inlines(v@).skip(0) =~= view_inlines(v@));
    }
    while i < v.len()
        invariant
            i <= v.len(),
            out@ + flat_inlines(view_inlines(v@).skip(i as int)) == old(out)@ + flat_inlines(
                view_inlines(v@),
            ),
        decreases v.len() - i,
    {
        proof {
            let vs = view_inlines(v@);
            assert(vs.skip(i as int).drop_first() =~= vs.skip(i + 1));
            assert(vs.skip(i as int)[0] == view_inline(v@[i as int]));
        }
        append_inline_text(out, &v[i]);
        i += 1;
    }
    proof {
        assert(view_inlines(v@).skip(v@.len() as int) =~= Seq::<InlineView>::empty());
    }
}

fn append_block_text(out: &mut String, b: &Block)
    ensures
        final(out)@ == old(out)@ + flat_block(view_block(*b)),
    decreases *b,
{
    match b {
        Block::Paragraph { inlines } => append_inlines_text(out, inlines),
        Block::Heading { inlines, .. } => append_inlines_text(out, inlines),
        Block::Image { .. } => (),
        Block::Divider => (),
        Block::List { items } => append_items_text(out, items),
    }
}

fn append_items_text(out: &mut String, v: &Vec<ListItem>)
    ensures
        final(out)@ == old(out)@ + flat_items(view_items(v@)),
    decreases v@,
{
    let mut i: usize = 0;
    proof {
        lemma_view_items_index(v@);
        assert(view_items(v@).skip(0) =~= view_items(v@));
    }
    while i < v.len()
        invariant
            i <= v.len(),
            view_items(v@).len() == v@.len(),
            out@ + flat_items(view_items(v@).skip(i as int)) == old(out)@ + flat_items(
                view_items(v@),
            ),
        decreases v.len() - i,
    {
        proof {
            lemma_view_items_index(v@);
            let vs = view_items(v@);
            assert(vs.skip(i as int).drop_first() =~= vs.skip(i + 1));
            assert(vs.skip(i as int)[0] == view_item(v@[i as int]));
        }
        let ghost pre = out@;
        let it = &v[i];
        append_blocks_text(out, &it.blocks);
        proof {
            let vs = view_items(v@);
            assert(flat_item(vs[i as int]) == flat_blocks(view_blocks(v@[i as int].blocks@)));
            assert(flat_items(vs.skip(i as int)) == flat_item(vs[i as int]) + flat_items(
                vs.skip(i + 1),
            ));
            assert(out@ + flat_items(vs.skip(i + 1)) =~= pre + flat_items(vs.skip(i as int)));
        }
        i += 1;
    }
    proof {
        assert(view_items(v@).skip(v@.len() as int) =~= Seq::<ListItemView>::empty());
    }
}

fn append_blocks_text(out: &mut String, v: &Vec<Block>)
    ensures
        final(out)@ == old(out)@ + flat_blocks(view_blocks(v@)),
    decreases v@,
{
    let mut i: usize = 0;
    proof {
        lemma_view_blocks_index(v@);
        assert(view_blocks(v@).skip(0) =~= view_blocks(v@));
    }
    while i < v.len()
        invariant
            i <= v.len(),
            view_blocks(v@).len() == v@.len(),
            out@ + flat_blocks(view_blocks(v@).skip(i as int)) == old(out)@ + flat_blocks(
                view_blocks(v@),
            ),
        decreases v.len() - i,
    {
        proof {
            lemma_view_blocks_index(v@);
            let vs = view_blocks(v@);
            assert(vs.skip(i as int).drop_first() =~= vs.skip(i + 1));
            assert(vs.skip(i as int)[0] == view_block(v@[i as int]));
        }
        append_block_text(out, &v[i]);
        i += 1;
    }
    proof {
        assert(view_blocks(v@).skip(v@.len() as int) =~= Seq::<BlockView>::empty());
    }
}

/// Flatten a content forest into the single space-joined string that the
/// search index stores for the `content` field: a bounded, one-pass
/// traversal of the tree's text-bearing inline nodes.
pub fn index_text(blocks: &Vec<Block>) -> (r: String)
    ensures
        r@ == flat_blocks(view_blocks(blocks@)),
{
    let mut out = String::new();
    append_blocks_text(&mut out, blocks);
    out
}

} // verus!
