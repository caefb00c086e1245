//! The persisted form of a note and its binary codec.
//!
//! Every value stored in the tree is an envelope: a two-byte little-endian
//! format-version tag followed by the record body. The body encoding favours
//! records with many short nested sequences: every integer, code point and
//! sequence length is a little-endian base-128 varint, so small values take
//! one byte.
//!
//! Deserialization first checks the version tag: bytes whose tag differs
//! from [`CURRENT_ZETTEL_FORMAT_VERSION`] are rejected outright, without
//! interpreting the rest — there is no migration path between versions:
//! a policy choice kept deliberately simple, not an accident.

use vstd::prelude::*;
use crate::content::{Block, BlockView, Inline, InlineView, ListItem, ListItemView, Mark, MarkView};
use crate::content::{view_block, view_blocks, view_inline, view_inlines, view_item, view_items,
    view_mark, view_marks};
use crate::content::{lemma_view_blocks_index, lemma_view_items_index};
use crate::id::ZettelId;

verus! {

/// The format version this build understands. The tag exists so that a
/// future format change could migrate old records; no migration is
/// implemented, so a mismatch is a hard error.
pub const CURRENT_ZETTEL_FORMAT_VERSION: u16 = 2;

/// Why a stored byte string could not be read back as a record.
#[derive(Clone, Copy, Debug, PartialEq, Eq, Structural)]
pub enum DeserializeError {
    /// The version tag differs from [`CURRENT_ZETTEL_FORMAT_VERSION`].
    WrongVersion,
    /// The tag matches but the body is not a well-formed record encoding.
    Malformed,
}

/// Little-endian base-128 encoding of an integer: seven value bits per
/// byte, high bit set on every byte but the last.
pub open spec fn ser_varint(v: u64) -> Seq<u8>
    decreases v,
{
    if v < 128 {
        seq![v as u8]
    } else {
        proof {
            assert(v / 128 < v) by (nonlinear_arith)
                requires
                    v >= 128,
            ;
        }
        seq![((v % 128) + 128) as u8] + ser_varint(v / 128)
    }
}

/// Parse a varint at position `i`; `None` on truncation or on a value that
/// does not fit in 64 bits.
pub open spec fn parse_varint(s: Seq<u8>, i: int) -> Option<(u64, int)>
    decreases s.len() - i,
{
    if i < 0 || i >= s.len() {
        None
    } else {
        let b = s[i];
        if b < 128 {
            Some((b as u64, i + 1))
        } else {
            match parse_varint(s, i + 1) {
                None => None,
                Some((hi, j)) => if hi <= (u64::MAX - 127) / 128 {
                    Some(((hi * 128 + (b - 128)) as u64, j))
                } else {
                    None
                },
            }
        }
    }
}

/// A serialized varint occupies at least one byte.
pub proof fn lemma_ser_varint_len(v: u64)
    ensures
        ser_varint(v).len() >= 1,
{
}

/// Parsing reads back exactly the varint that serialization wrote, wherever
/// it stands in a longer byte string.
pub proof fn lemma_varint_round_trip(v: u64, s: Seq<u8>, i: int)
    requires
        0 <= i,
        i + ser_varint(v).len() <= s.len(),
        s.subrange(i, i + ser_varint(v).len()) == ser_varint(v),
    ensures
        parse_varint(s, i) == Some((v, i + ser_varint(v).len())),
    decreases v,
{
    let enc = ser_varint(v);
    assert(s[i] == enc[0]);
    if v < 128 {
        assert(parse_varint(s, i) == Some((v, i + 1)));
    } else {
        assert(v / 128 < v) by (nonlinear_arith)
            requires
                v >= 128,
        ;
        let rest = ser_varint(v / 128);
        assert(enc == seq![((v % 128) + 128) as u8] + rest);
        assert(s.subrange(i + 1, i + 1 + rest.len()) =~= rest) by {
            assert(forall|k: int|
                0 <= k < rest.len() ==> #[trigger] s.subrange(i + 1, i + 1 + rest.len())[k]
                    == enc.index(k + 1));
        }
        lemma_varint_round_trip(v / 128, s, i + 1);
        assert(parse_varint(s, i + 1) == Some((v / 128, i + 1 + rest.len())));
        assert(v / 128 <= (u64::MAX - 127) / 128) by (nonlinear_arith)
            requires
                v <= u64::MAX,
        ;
        assert((v / 128) * 128 + ((((v % 128) + 128) as u8) - 128) == v) by (nonlinear_arith)
            requires
                v >= 128,
        ;
        assert(parse_varint(s, i) == Some((v, i + 1 + rest.len())));
    }
}

/// Append the varint encoding of `v`.
pub fn write_varint(out: &mut Vec<u8>, v: u64)
    ensures
        final(out)@ == old(out)@ + ser_varint(v),
    decreases v,
{
    if v < 128 {
        out.push(v as u8);
        proof {
            assert(out@ =~= old(out)@ + ser_varint(v));
        }
    } else {
        proof {
            assert(v / 128 < v) by (nonlinear_arith)
                requires
                    v >= 128,
            ;
        }
        out.push((v % 128 + 128) as u8);
        write_varint(out, v / 128);
        proof {
            assert(out@ =~= old(out)@ + ser_varint(v));
        }
    }
}

/// The mathematical model of a persisted record: its title, content
/// forest and outbound references.
pub struct RecordView {
    pub title: Seq<char>,
    pub content: Seq<BlockView>,
    pub mentions: Seq<u64>,
}

/// One code point, as a varint.
pub open spec fn ser_char(c: char) -> Seq<u8> {
    ser_varint((c as u32) as u64)
}

pub open spec fn ser_chars(s: Seq<char>) -> Seq<u8>
    decreases s,
{
    if s.len() == 0 {
        Seq::empty()
    } else {
        ser_char(s[0]) + ser_chars(s.drop_first())
    }
}

/// A string: its length, then each code point, all as varints.
pub open spec fn ser_string(s: Seq<char>) -> Seq<u8> {
    ser_varint(s.len() as u64) + ser_chars(s)
}

pub open spec fn ser_mark(m: MarkView) -> Seq<u8> {
    match m {
        MarkView::Bold => seq![0u8],
        MarkView::Italic => seq![1u8],
        MarkView::Strikethrough => seq![2u8],
        MarkView::Highlight => seq![3u8],
    }
}

pub open spec fn ser_marks_body(s: Seq<MarkView>) -> Seq<u8>
    decreases s,
{
    if s.len() == 0 {
        Seq::empty()
    } else {
        ser_mark(s[0]) + ser_marks_body(s.drop_first())
    }
}

pub open spec fn ser_marks(s: Seq<MarkView>) -> Seq<u8> {
    ser_varint(s.len() as u64) + ser_marks_body(s)
}

pub open spec fn ser_inline(v: InlineView) -> Seq<u8> {
    match v {
        InlineView::Text { text, marks } => seq![0u8] + ser_string(text) + ser_marks(marks),
        InlineView::Link { text, href, marks } => seq![1u8] + ser_string(text) + ser_string(href)
            + ser_marks(marks),
    }
}

pub open spec fn ser_inlines_body(s: Seq<InlineView>) -> Seq<u8>
    decreases s,
{
    if s.len() == 0 {
        Seq::empty()
    } else {
        ser_inline(s[0]) + ser_inlines_body(s.drop_first())
    }
}

pub open spec fn ser_inlines(s: Seq<InlineView>) -> Seq<u8> {
    ser_varint(s.len() as u64) + ser_inlines_body(s)
}

/// A block: a one-byte variant tag, then the variant's fields.
pub open spec fn ser_block(b: BlockView) -> Seq<u8>
    decreases b,
{
    match b {
        BlockView::Paragraph { inlines } => seq![0u8] + ser_inlines(inlines),
        BlockView::Heading { level, inlines } => seq![1u8] + seq![level] + ser_inlines(inlines),
        BlockView::Image { src } => seq![2u8] + ser_string(src),
        BlockView::Divider => seq![3u8],
        BlockView::List { items } => seq![4u8] + ser_varint(items.len() as u64) + ser_items_body(
            items,
        ),
    }
}

pub open spec fn ser_items_body(s: Seq<ListItemView>) -> Seq<u8>
    decreases s,
{
    if s.len() == 0 {
        Seq::empty()
    } else {
        ser_item(s[0]) + ser_items_body(s.drop_first())
    }
}

/// A list item: the length of its block sequence, then the blocks.
pub open spec fn ser_item(it: ListItemView) -> Seq<u8>
    decreases it,
{
    ser_varint(it.blocks.len() as u64) + ser_blocks_body(it.blocks)
}

pub open spec fn ser_blocks_body(s: Seq<BlockView>) -> Seq<u8>
    decreases s,
{
    if s.len() == 0 {
        Seq::empty()
    } else {
        ser_block(s[0]) + ser_blocks_body(s.drop_first())
    }
}

/// A block sequence: its length, then each block.
pub open spec fn ser_blocks(s: Seq<BlockView>) -> Seq<u8> {
    ser_varint(s.len() as u64) + ser_blocks_body(s)
}

pub open spec fn ser_mentions_body(s: Seq<u64>) -> Seq<u8>
    decreases s,
{
    if s.len() == 0 {
        Seq::empty()
    } else {
        ser_varint(s[0]) + ser_mentions_body(s.drop_first())
    }
}

pub open spec fn ser_mentions(s: Seq<u64>) -> Seq<u8> {
    ser_varint(s.len() as u64) + ser_mentions_body(s)
}

/// The record body: title, content, mentions, in that order.
pub open spec fn ser_record(r: RecordView) -> Seq<u8> {
    ser_string(r.title) + ser_blocks(r.content) + ser_mentions(r.mentions)
}

/// The stored envelope: the two-byte little-endian version tag, then the
/// record body.
pub open spec fn spec_serialize(r: RecordView) -> Seq<u8> {
    seq![
        (CURRENT_ZETTEL_FORMAT_VERSION & 0xff) as u8,
        ((CURRENT_ZETTEL_FORMAT_VERSION >> 8) & 0xff) as u8,
    ] + ser_record(r)
}

/// A valid string model: its length fits the varint's integer. Every
/// string a program can hold satisfies this.
pub open spec fn wf_string(s: Seq<char>) -> bool {
    s.len() <= u64::MAX
}

pub open spec fn wf_inline(v: InlineView) -> bool {
    match v {
        InlineView::Text { text, marks } => wf_string(text) && marks.len() <= u64::MAX,
        InlineView::Link { text, href, marks } => wf_string(text) && wf_string(href) && marks.len()
            <= u64::MAX,
    }
}

pub open spec fn wf_inlines(s: Seq<InlineView>) -> bool {
    s.len() <= u64::MAX && (forall|i: int| 0 <= i < s.len() ==> wf_inline(#[trigger] s[i]))
}

/// A valid block model: every sequence length in it fits the varint's
/// integer. Every tree a program can hold satisfies this.
pub open spec fn wf_block(b: BlockView) -> bool
    decreases b,
{
    match b {
        BlockView::Paragraph { inlines } => wf_inlines(inlines),
        BlockView::Heading { inlines, .. } => wf_inlines(inlines),
        BlockView::Image { src } => wf_string(src),
        BlockView::Divider => true,
        BlockView::List { items } => wf_items(items),
    }
}

pub open spec fn wf_items(s: Seq<ListItemView>) -> bool
    decreases s,
{
    s.len() <= u64::MAX && (if s.len() == 0 {
        true
    } else {
        wf_item(s[0]) && wf_items(s.drop_first())
    })
}

pub open spec fn wf_item(it: ListItemView) -> bool
    decreases it,
{
    wf_blocks(it.blocks)
}

pub open spec fn wf_blocks(s: Seq<BlockView>) -> bool
    decreases s,
{
    s.len() <= u64::MAX && (if s.len() == 0 {
        true
    } else {
        wf_block(s[0]) && wf_blocks(s.drop_first())
    })
}

/// A valid record model; "valid" only rules out sequences too long for any
/// real program to hold.
pub open spec fn wf_record(r: RecordView) -> bool {
    wf_string(r.title) && wf_blocks(r.content) && r.mentions.len() <= u64::MAX
}

/// A block sequence is well formed when each of its blocks is.
pub proof fn lemma_wf_blocks_pointwise(s: Seq<BlockView>)
    requires
        s.len() <= u64::MAX,
        forall|j: int| 0 <= j < s.len() ==> wf_block(#[trigger] s[j]),
    ensures
        wf_blocks(s),
    decreases s.len(),
{
    if s.len() > 0 {
        assert(forall|j: int|
            0 <= j < s.drop_first().len() ==> #[trigger] s.drop_first()[j] == s.index(j + 1));
        lemma_wf_blocks_pointwise(s.drop_first());
    }
}

/// An item sequence is well formed when each of its items is.
pub proof fn lemma_wf_items_pointwise(s: Seq<ListItemView>)
    requires
        s.len() <= u64::MAX,
        forall|j: int| 0 <= j < s.len() ==> wf_item(#[trigger] s[j]),
    ensures
        wf_items(s),
    decreases s.len(),
{
    if s.len() > 0 {
        assert(forall|j: int|
            0 <= j < s.drop_first().len() ==> #[trigger] s.drop_first()[j] == s.index(j + 1));
        lemma_wf_items_pointwise(s.drop_first());
    }
}

/// One code point: a varint holding a Unicode scalar value.
pub open spec fn parse_char(s: Seq<u8>, i: int) -> Option<(char, int)> {
    match parse_varint(s, i) {
        None => None,
        Some((cp, j)) => if cp <= u32::MAX as u64 && vstd::utf8::is_scalar(cp as u32) {
            Some((((cp as u32) as char, j)))
        } else {
            None
        },
    }
}

pub open spec fn parse_chars_body(s: Seq<u8>, i: int, n: u64) -> Option<(Seq<char>, int)>
    decreases s.len() - i, n,
{
    if n == 0 {
        Some((Seq::empty(), i))
    } else {
        match parse_char(s, i) {
            None => None,
            Some((c, j)) => if i < j <= s.len() {
                match parse_chars_body(s, j, (n - 1) as u64) {
                    None => None,
                    Some((cs, k)) => Some((seq![c] + cs, k)),
                }
            } else {
                None
            },
        }
    }
}

pub open spec fn parse_string(s: Seq<u8>, i: int) -> Option<(Seq<char>, int)> {
    match parse_varint(s, i) {
        None => None,
        Some((n, j)) => parse_chars_body(s, j, n),
    }
}

pub open spec fn parse_mark(s: Seq<u8>, i: int) -> Option<(MarkView, int)> {
    if i < 0 || i >= s.len() {
        None
    } else if s[i] == 0 {
        Some((MarkView::Bold, i + 1))
    } else if s[i] == 1 {
        Some((MarkView::Italic, i + 1))
    } else if s[i] == 2 {
        Some((MarkView::Strikethrough, i + 1))
    } else if s[i] == 3 {
        Some((MarkView::Highlight, i + 1))
    } else {
        None
    }
}

pub open spec fn parse_marks_body(s: Seq<u8>, i: int, n: u64) -> Option<(Seq<MarkView>, int)>
    decreases s.len() - i, n,
{
    if n == 0 {
        Some((Seq::empty(), i))
    } else {
        match parse_mark(s, i) {
            None => None,
            Some((m, j)) => if i < j <= s.len() {
                match parse_marks_body(s, j, (n - 1) as u64) {
                    None => None,
                    Some((ms, k)) => Some((seq![m] + ms, k)),
                }
            } else {
                None
            },
        }
    }
}

pub open spec fn parse_marks(s: Seq<u8>, i: int) -> Option<(Seq<MarkView>, int)> {
    match parse_varint(s, i) {
        None => None,
        Some((n, j)) => parse_marks_body(s, j, n),
    }
}

pub open spec fn parse_inline(s: Seq<u8>, i: int) -> Option<(InlineView, int)> {
    if i < 0 || i >= s.len() {
        None
    } else if s[i] == 0 {
        match parse_string(s, i + 1) {
            None => None,
            Some((text, j)) => match parse_marks(s, j) {
                None => None,
                Some((marks, k)) => Some((InlineView::Text { text, marks }, k)),
            },
        }
    } else if s[i] == 1 {
        match parse_string(s, i + 1) {
            None => None,
            Some((text, j)) => match parse_string(s, j) {
                None => None,
                Some((href, k)) => match parse_marks(s, k) {
                    None => None,
                    Some((marks, m)) => Some((InlineView::Link { text, href, marks }, m)),
                },
            },
        }
    } else {
        None
    }
}

pub open spec fn parse_inlines_body(s: Seq<u8>, i: int, n: u64) -> Option<(Seq<InlineView>, int)>
    decreases s.len() - i, n,
{
    if n == 0 {
        Some((Seq::empty(), i))
    } else {
        match parse_inline(s, i) {
            None => None,
            Some((v, j)) => if i < j <= s.len() {
                match parse_inlines_body(s, j, (n - 1) as u64) {
                    None => None,
                    Some((vs, k)) => Some((seq![v] + vs, k)),
                }
            } else {
                None
            },
        }
    }
}

pub open spec fn parse_inlines(s: Seq<u8>, i: int) -> Option<(Seq<InlineView>, int)> {
    match parse_varint(s, i) {
        None => None,
        Some((n, j)) => parse_inlines_body(s, j, n),
    }
}

/// A block: its one-byte variant tag, then the variant's fields.
pub open spec fn parse_block(s: Seq<u8>, i: int) -> Option<(BlockView, int)>
    decreases s.len() - i, 0int,
{
    if i < 0 || i >= s.len() {
        None
    } else if s[i] == 0 {
        match parse_inlines(s, i + 1) {
            None => None,
            Some((inlines, j)) => Some((BlockView::Paragraph { inlines }, j)),
        }
    } else if s[i] == 1 {
        if i + 1 >= s.len() {
            None
        } else {
            let level = s[i + 1];
            match parse_inlines(s, i + 2) {
                None => None,
                Some((inlines, j)) => Some((BlockView::Heading { level, inlines }, j)),
            }
        }
    } else if s[i] == 2 {
        match parse_string(s, i + 1) {
            None => None,
            Some((src, j)) => Some((BlockView::Image { src }, j)),
        }
    } else if s[i] == 3 {
        Some((BlockView::Divider, i + 1))
    } else if s[i] == 4 {
        match parse_varint(s, i + 1) {
            None => None,
            Some((n, j)) => if i < j <= s.len() {
                match parse_items_body(s, j, n) {
                    None => None,
                    Some((items, k)) => Some((BlockView::List { items }, k)),
                }
            } else {
                None
            },
        }
    } else {
        None
    }
}

pub open spec fn parse_items_body(s: Seq<u8>, i: int, n: u64) -> Option<(Seq<ListItemView>, int)>
    decreases s.len() - i, n as int + 1,
{
    if n == 0 {
        Some((Seq::empty(), i))
    } else if i < 0 || i > s.len() {
        None
    } else {
        match parse_item(s, i) {
            None => None,
            Some((it, j)) => if i < j <= s.len() {
                match parse_items_body(s, j, (n - 1) as u64) {
                    None => None,
                    Some((its, k)) => Some((seq![it] + its, k)),
                }
            } else {
                None
            },
        }
    }
}

/// A list item: the length of its block sequence, then the blocks.
pub open spec fn parse_item(s: Seq<u8>, i: int) -> Option<(ListItemView, int)>
    decreases s.len() - i, 0int,
{
    match parse_varint(s, i) {
        None => None,
        Some((n, j)) => if i < j <= s.len() {
            match parse_blocks_body(s, j, n) {
                None => None,
                Some((blocks, k)) => Some((ListItemView { blocks }, k)),
            }
        } else {
            None
        },
    }
}

pub open spec fn parse_blocks_body(s: Seq<u8>, i: int, n: u64) -> Option<(Seq<BlockView>, int)>
    decreases s.len() - i, n as int + 1,
{
    if n == 0 {
        Some((Seq::empty(), i))
    } else if i < 0 || i > s.len() {
        None
    } else {
        match parse_block(s, i) {
            None => None,
            Some((b, j)) => if i < j <= s.len() {
                match parse_blocks_body(s, j, (n - 1) as u64) {
                    None => None,
                    Some((bs, k)) => Some((seq![b] + bs, k)),
                }
            } else {
                None
            },
        }
    }
}

pub open spec fn parse_blocks(s: Seq<u8>, i: int) -> Option<(Seq<BlockView>, int)> {
    match parse_varint(s, i) {
        None => None,
        Some((n, j)) => parse_blocks_body(s, j, n),
    }
}

pub open spec fn parse_mentions_body(s: Seq<u8>, i: int, n: u64) -> Option<(Seq<u64>, int)>
    decreases s.len() - i, n,
{
    if n == 0 {
        Some((Seq::empty(), i))
    } else {
        match parse_varint(s, i) {
            None => None,
            Some((v, j)) => if i < j <= s.len() {
                match parse_mentions_body(s, j, (n - 1) as u64) {
                    None => None,
                    Some((vs, k)) => Some((seq![v] + vs, k)),
                }
            } else {
                None
            },
        }
    }
}

pub open spec fn parse_mentions(s: Seq<u8>, i: int) -> Option<(Seq<u64>, int)> {
    match parse_varint(s, i) {
        None => None,
        Some((n, j)) => parse_mentions_body(s, j, n),
    }
}

/// The record body: title, content, mentions, in that order.
pub open spec fn parse_record(s: Seq<u8>, i: int) -> Option<(RecordView, int)> {
    match parse_string(s, i) {
        None => None,
        Some((title, j)) => match parse_blocks(s, j) {
            None => None,
            Some((content, k)) => match parse_mentions(s, k) {
                None => None,
                Some((mentions, m)) => Some((RecordView { title, content, mentions }, m)),
            },
        },
    }
}

/// What deserialization yields on any byte string: the version gate first,
/// then the body, which must parse and be consumed whole.
pub open spec fn spec_deserialize(bytes: Seq<u8>) -> Result<RecordView, DeserializeError> {
    if bytes.len() < 2 {
        Err(DeserializeError::Malformed)
    } else if bytes[0] != (CURRENT_ZETTEL_FORMAT_VERSION & 0xff) as u8 || bytes[1] != ((
    CURRENT_ZETTEL_FORMAT_VERSION >> 8) & 0xff) as u8 {
        Err(DeserializeError::WrongVersion)
    } else {
        match parse_record(bytes, 2) {
            None => Err(DeserializeError::Malformed),
            Some((rv, j)) => if j == bytes.len() {
                Ok(rv)
            } else {
                Err(DeserializeError::Malformed)
            },
        }
    }
}

/// Read a varint at position `i`.
pub fn read_varint(s: &[u8], i: usize) -> (r: Option<(u64, usize)>)
    requires
        i <= s@.len(),
    ensures
        match r {
            Some((v, j)) => parse_varint(s@, i as int) == Some((v, j as int)) && i < j <= s@.len(),
            None => parse_varint(s@, i as int) is None,
        },
    decreases s@.len() - i,
{
    if i >= s.len() {
        return None;
    }
    let b = s[i];
    if b < 128 {
        Some((b as u64, i + 1))
    } else {
        match read_varint(s, i + 1) {
            None => None,
            Some((hi, j)) => {
                if hi <= (u64::MAX - 127) / 128 {
                    Some((hi * 128 + (b - 128) as u64, j))
                } else {
                    None
                }
            },
        }
    }
}

/// Splitting a known subrange of `s` at an interior point.
proof fn lemma_subrange_split(s: Seq<u8>, i: int, a: Seq<u8>, b: Seq<u8>)
    requires
        0 <= i,
        i + a.len() + b.len() <= s.len(),
        s.subrange(i, i + a.len() + b.len()) == a + b,
    ensures
        s.subrange(i, i + a.len()) == a,
        s.subrange(i + a.len(), i + a.len() + b.len()) == b,
{
    let whole = s.subrange(i, i + a.len() + b.len());
    assert(s.subrange(i, i + a.len()) =~= a) by {
        assert(forall|k: int|
            0 <= k < a.len() ==> #[trigger] s.subrange(i, i + a.len())[k] == whole.index(k));
    }
    assert(s.subrange(i + a.len(), i + a.len() + b.len()) =~= b) by {
        assert(forall|k: int|
            0 <= k < b.len() ==> #[trigger] s.subrange(i + a.len(), i + a.len() + b.len())[k]
                == whole.index(k + a.len()));
    }
}

/// Splitting a known subrange of `s` into three pieces.
proof fn lemma_subrange_split3(s: Seq<u8>, i: int, a: Seq<u8>, b: Seq<u8>, c: Seq<u8>)
    requires
        0 <= i,
        i + a.len() + b.len() + c.len() <= s.len(),
        s.subrange(i, i + a.len() + b.len() + c.len()) == a + b + c,
    ensures
        s.subrange(i, i + a.len()) == a,
        s.subrange(i + a.len(), i + a.len() + b.len()) == b,
        s.subrange(i + a.len() + b.len(), i + a.len() + b.len() + c.len()) == c,
{
    assert(a + b + c =~= a + (b + c));
    lemma_subrange_split(s, i, a, b + c);
    lemma_subrange_split(s, i + a.len(), b, c);
}

/// Parsing reads back exactly the code point that serialization wrote.
proof fn lemma_char_round_trip(c: char, s: Seq<u8>, i: int)
    requires
        0 <= i,
        i + ser_char(c).len() <= s.len(),
        s.subrange(i, i + ser_char(c).len()) == ser_char(c),
    ensures
        parse_char(s, i) == Some((c, i + ser_char(c).len())),
{
    let cp = (c as u32) as u64;
    lemma_varint_round_trip(cp, s, i);
    vstd::utf8::char_is_scalar(c);
    vstd::utf8::char_u32_cast(c, c as u32);
}

proof fn lemma_chars_body_round_trip(cs: Seq<char>, s: Seq<u8>, i: int)
    requires
        0 <= i,
        cs.len() <= u64::MAX,
        i + ser_chars(cs).len() <= s.len(),
        s.subrange(i, i + ser_chars(cs).len()) == ser_chars(cs),
    ensures
        parse_chars_body(s, i, cs.len() as u64) == Some((cs, i + ser_chars(cs).len())),
    decreases cs.len(),
{
    if cs.len() == 0 {
        assert(cs =~= Seq::<char>::empty());
    } else {
        let head = ser_char(cs[0]);
        let tail = ser_chars(cs.drop_first());
        lemma_subrange_split(s, i, head, tail);
        lemma_char_round_trip(cs[0], s, i);
        lemma_chars_body_round_trip(cs.drop_first(), s, i + head.len());
        assert(head.len() >= 1) by {
            lemma_ser_varint_len((cs[0] as u32) as u64);
        }
        assert(seq![cs[0]] + cs.drop_first() =~= cs);
    }
}

proof fn lemma_string_round_trip(cs: Seq<char>, s: Seq<u8>, i: int)
    requires
        0 <= i,
        wf_string(cs),
        i + ser_string(cs).len() <= s.len(),
        s.subrange(i, i + ser_string(cs).len()) == ser_string(cs),
    ensures
        parse_string(s, i) == Some((cs, i + ser_string(cs).len())),
{
    let pre = ser_varint(cs.len() as u64);
    lemma_subrange_split(s, i, pre, ser_chars(cs));
    lemma_varint_round_trip(cs.len() as u64, s, i);
    lemma_chars_body_round_trip(cs, s, i + pre.len());
}

proof fn lemma_marks_body_round_trip(vs: Seq<MarkView>, s: Seq<u8>, i: int)
    requires
        0 <= i,
        vs.len() <= u64::MAX,
        i + ser_marks_body(vs).len() <= s.len(),
        s.subrange(i, i + ser_marks_body(vs).len()) == ser_marks_body(vs),
    ensures
        parse_marks_body(s, i, vs.len() as u64) == Some((vs, i + ser_marks_body(vs).len())),
    decreases vs.len(),
{
    if vs.len() == 0 {
        assert(vs =~= Seq::<MarkView>::empty());
    } else {
        let head = ser_mark(vs[0]);
        let tail = ser_marks_body(vs.drop_first());
        lemma_subrange_split(s, i, head, tail);
        assert(s[i] == head[0]);
        assert(parse_mark(s, i) == Some((vs[0], i + 1)));
        lemma_marks_body_round_trip(vs.drop_first(), s, i + 1);
        assert(seq![vs[0]] + vs.drop_first() =~= vs);
    }
}

proof fn lemma_marks_round_trip(vs: Seq<MarkView>, s: Seq<u8>, i: int)
    requires
        0 <= i,
        vs.len() <= u64::MAX,
        i + ser_marks(vs).len() <= s.len(),
        s.subrange(i, i + ser_marks(vs).len()) == ser_marks(vs),
    ensures
        parse_marks(s, i) == Some((vs, i + ser_marks(vs).len())),
{
    let pre = ser_varint(vs.len() as u64);
    lemma_subrange_split(s, i, pre, ser_marks_body(vs));
    lemma_varint_round_trip(vs.len() as u64, s, i);
    lemma_marks_body_round_trip(vs, s, i + pre.len());
}

proof fn lemma_inline_round_trip(v: InlineView, s: Seq<u8>, i: int)
    requires
        0 <= i,
        wf_inline(v),
        i + ser_inline(v).len() <= s.len(),
        s.subrange(i, i + ser_inline(v).len()) == ser_inline(v),
    ensures
        parse_inline(s, i) == Some((v, i + ser_inline(v).len())),
{
    match v {
        InlineView::Text { text, marks } => {
            let st = ser_string(text);
            let sm = ser_marks(marks);
            lemma_subrange_split3(s, i, seq![0u8], st, sm);
            assert(s.subrange(i, i + 1)[0] == s[i]);
            assert(s[i] == 0);
            lemma_string_round_trip(text, s, i + 1);
            lemma_marks_round_trip(marks, s, i + 1 + st.len());
        },
        InlineView::Link { text, href, marks } => {
            let st = ser_string(text);
            let sh = ser_string(href);
            let sm = ser_marks(marks);
            assert(seq![1u8] + st + sh + sm =~= seq![1u8] + st + (sh + sm));
            lemma_subrange_split3(s, i, seq![1u8], st, sh + sm);
            lemma_subrange_split(s, i + 1 + st.len(), sh, sm);
            assert(s.subrange(i, i + 1)[0] == s[i]);
            assert(s[i] == 1);
            lemma_string_round_trip(text, s, i + 1);
            lemma_string_round_trip(href, s, i + 1 + st.len());
            lemma_marks_round_trip(marks, s, i + 1 + st.len() + sh.len());
        },
    }
}

proof fn lemma_inlines_body_round_trip(vs: Seq<InlineView>, s: Seq<u8>, i: int)
    requires
        0 <= i,
        wf_inlines(vs),
        i + ser_inlines_body(vs).len() <= s.len(),
        s.subrange(i, i + ser_inlines_body(vs).len()) == ser_inlines_body(vs),
    ensures
        parse_inlines_body(s, i, vs.len() as u64) == Some((vs, i + ser_inlines_body(vs).len())),
    decreases vs.len(),
{
    if vs.len() == 0 {
        assert(vs =~= Seq::<InlineView>::empty());
    } else {
        let head = ser_inline(vs[0]);
        let tail = ser_inlines_body(vs.drop_first());
        lemma_subrange_split(s, i, head, tail);
        lemma_inline_round_trip(vs[0], s, i);
        assert(wf_inlines(vs.drop_first())) by {
            assert(forall|k: int|
                0 <= k < vs.drop_first().len() ==> #[trigger] vs.drop_first()[k] == vs.index(
                    k + 1,
                ));
        }
        lemma_inlines_body_round_trip(vs.drop_first(), s, i + head.len());
        assert(head.len() >= 1);
        assert(seq![vs[0]] + vs.drop_first() =~= vs);
    }
}

proof fn lemma_inlines_round_trip(vs: Seq<InlineView>, s: Seq<u8>, i: int)
    requires
        0 <= i,
        wf_inlines(vs),
        i + ser_inlines(vs).len() <= s.len(),
        s.subrange(i, i + ser_inlines(vs).len()) == ser_inlines(vs),
    ensures
        parse_inlines(s, i) == Some((vs, i + ser_inlines(vs).len())),
{
    let pre = ser_varint(vs.len() as u64);
    lemma_subrange_split(s, i, pre, ser_inlines_body(vs));
    lemma_varint_round_trip(vs.len() as u64, s, i);
    lemma_inlines_body_round_trip(vs, s, i + pre.len());
}

/// Parsing reads back exactly the block that serialization wrote.
proof fn lemma_block_round_trip(b: BlockView, s: Seq<u8>, i: int)
    requires
        0 <= i,
        wf_block(b),
        i + ser_block(b).len() <= s.len(),
        s.subrange(i, i + ser_block(b).len()) == ser_block(b),
    ensures
        parse_block(s, i) == Some((b, i + ser_block(b).len())),
    decreases b,
{
    match b {
        BlockView::Paragraph { inlines } => {
            lemma_subrange_split(s, i, seq![0u8], ser_inlines(inlines));
            assert(s.subrange(i, i + 1)[0] == s[i]);
            assert(s[i] == 0);
            lemma_inlines_round_trip(inlines, s, i + 1);
        },
        BlockView::Heading { level, inlines } => {
            assert(seq![1u8] + seq![level] + ser_inlines(inlines) =~= seq![1u8, level]
                + ser_inlines(inlines));
            lemma_subrange_split(s, i, seq![1u8, level], ser_inlines(inlines));
            assert(s.subrange(i, i + 2)[0] == s[i]);
            assert(s.subrange(i, i + 2)[1] == s[i + 1]);
            assert(s[i] == 1);
            assert(s[i + 1] == level);
            lemma_inlines_round_trip(inlines, s, i + 2);
        },
        BlockView::Image { src } => {
            lemma_subrange_split(s, i, seq![2u8], ser_string(src));
            assert(s.subrange(i, i + 1)[0] == s[i]);
            assert(s[i] == 2);
            lemma_string_round_trip(src, s, i + 1);
        },
        BlockView::Divider => {
            assert(s.subrange(i, i + 1)[0] == s[i]);
            assert(s[i] == 3);
        },
        BlockView::List { items } => {
            let pre = ser_varint(items.len() as u64);
            lemma_subrange_split3(s, i, seq![4u8], pre, ser_items_body(items));
            assert(s.subrange(i, i + 1)[0] == s[i]);
            assert(s[i] == 4);
            lemma_varint_round_trip(items.len() as u64, s, i + 1);
            lemma_items_body_round_trip(items, s, i + 1 + pre.len());
        },
    }
}

proof fn lemma_items_body_round_trip(vs: Seq<ListItemView>, s: Seq<u8>, i: int)
    requires
        0 <= i,
        wf_items(vs),
        i + ser_items_body(vs).len() <= s.len(),
        s.subrange(i, i + ser_items_body(vs).len()) == ser_items_body(vs),
    ensures
        parse_items_body(s, i, vs.len() as u64) == Some((vs, i + ser_items_body(vs).len())),
    decreases vs,
{
    if vs.len() == 0 {
        assert(vs =~= Seq::<ListItemView>::empty());
    } else {
        let head = ser_item(vs[0]);
        let tail = ser_items_body(vs.drop_first());
        lemma_subrange_split(s, i, head, tail);
        lemma_item_round_trip(vs[0], s, i);
        assert(head.len() >= 1) by {
            lemma_ser_varint_len(vs[0].blocks.len() as u64);
        }
        lemma_items_body_round_trip(vs.drop_first(), s, i + head.len());
        assert(seq![vs[0]] + vs.drop_first() =~= vs);
    }
}

proof fn lemma_item_round_trip(it: ListItemView, s: Seq<u8>, i: int)
    requires
        0 <= i,
        wf_item(it),
        i + ser_item(it).len() <= s.len(),
        s.subrange(i, i + ser_item(it).len()) == ser_item(it),
    ensures
        parse_item(s, i) == Some((it, i + ser_item(it).len())),
    decreases it,
{
    let pre = ser_varint(it.blocks.len() as u64);
    lemma_subrange_split(s, i, pre, ser_blocks_body(it.blocks));
    lemma_varint_round_trip(it.blocks.len() as u64, s, i);
    lemma_blocks_body_round_trip(it.blocks, s, i + pre.len());
}

proof fn lemma_blocks_body_round_trip(vs: Seq<BlockView>, s: Seq<u8>, i: int)
    requires
        0 <= i,
        wf_blocks(vs),
        i + ser_blocks_body(vs).len() <= s.len(),
        s.subrange(i, i + ser_blocks_body(vs).len()) == ser_blocks_body(vs),
    ensures
        parse_blocks_body(s, i, vs.len() as u64) == Some((vs, i + ser_blocks_body(vs).len())),
    decreases vs,
{
    if vs.len() == 0 {
        assert(vs =~= Seq::<BlockView>::empty());
    } else {
        let head = ser_block(vs[0]);
        let tail = ser_blocks_body(vs.drop_first());
        lemma_subrange_split(s, i, head, tail);
        lemma_block_round_trip(vs[0], s, i);
        assert(head.len() >= 1);
        lemma_blocks_body_round_trip(vs.drop_first(), s, i + head.len());
        assert(seq![vs[0]] + vs.drop_first() =~= vs);
    }
}

proof fn lemma_mentions_body_round_trip(vs: Seq<u64>, s: Seq<u8>, i: int)
    requires
        0 <= i,
        vs.len() <= u64::MAX,
        i + ser_mentions_body(vs).len() <= s.len(),
        s.subrange(i, i + ser_mentions_body(vs).len()) == ser_mentions_body(vs),
    ensures
        parse_mentions_body(s, i, vs.len() as u64) == Some((vs, i + ser_mentions_body(vs).len())),
    decreases vs.len(),
{
    if vs.len() == 0 {
        assert(vs =~= Seq::<u64>::empty());
    } else {
        let head = ser_varint(vs[0]);
        let tail = ser_mentions_body(vs.drop_first());
        lemma_subrange_split(s, i, head, tail);
        lemma_varint_round_trip(vs[0], s, i);
        assert(head.len() >= 1);
        lemma_mentions_body_round_trip(vs.drop_first(), s, i + head.len());
        assert(seq![vs[0]] + vs.drop_first() =~= vs);
    }
}

proof fn lemma_mentions_round_trip(vs: Seq<u64>, s: Seq<u8>, i: int)
    requires
        0 <= i,
        vs.len() <= u64::MAX,
        i + ser_mentions(vs).len() <= s.len(),
        s.subrange(i, i + ser_mentions(vs).len()) == ser_mentions(vs),
    ensures
        parse_mentions(s, i) == Some((vs, i + ser_mentions(vs).len())),
{
    let pre = ser_varint(vs.len() as u64);
    lemma_subrange_split(s, i, pre, ser_mentions_body(vs));
    lemma_varint_round_trip(vs.len() as u64, s, i);
    lemma_mentions_body_round_trip(vs, s, i + pre.len());
}

proof fn lemma_record_round_trip_at(r: RecordView, s: Seq<u8>, i: int)
    requires
        0 <= i,
        wf_record(r),
        i + ser_record(r).len() <= s.len(),
        s.subrange(i, i + ser_record(r).len()) == ser_record(r),
    ensures
        parse_record(s, i) == Some((r, i + ser_record(r).len())),
{
    let st = ser_string(r.title);
    let sb = ser_blocks(r.content);
    let sm = ser_mentions(r.mentions);
    lemma_subrange_split3(s, i, st, sb, sm);
    lemma_string_round_trip(r.title, s, i);
    let j = i + st.len();
    let pre = ser_varint(r.content.len() as u64);
    lemma_subrange_split(s, j, pre, ser_blocks_body(r.content));
    lemma_varint_round_trip(r.content.len() as u64, s, j);
    lemma_blocks_body_round_trip(r.content, s, j + pre.len());
    lemma_mentions_round_trip(r.mentions, s, j + sb.len());
}

/// Round trip: every valid record survives serialization and
/// deserialization unchanged. "Valid" only rules out models whose nested
/// sequences are longer than any program can hold.
pub proof fn lemma_serialize_deserialize(r: RecordView)
    requires
        wf_record(r),
    ensures
        spec_deserialize(spec_serialize(r)) == Ok::<RecordView, DeserializeError>(r),
{
    let bytes = spec_serialize(r);
    let tag = seq![
        (CURRENT_ZETTEL_FORMAT_VERSION & 0xff) as u8,
        ((CURRENT_ZETTEL_FORMAT_VERSION >> 8) & 0xff) as u8,
    ];
    assert(bytes[0] == tag[0] && bytes[1] == tag[1]);
    assert(bytes.subrange(2, 2 + ser_record(r).len() as int) =~= ser_record(r));
    lemma_record_round_trip_at(r, bytes, 2);
}

/// Version gate: bytes whose first two bytes do not spell the current
/// format version are rejected as `WrongVersion`, whatever follows them.
pub proof fn lemma_version_gate(bytes: Seq<u8>)
    requires
        bytes.len() >= 2,
        bytes[0] != (CURRENT_ZETTEL_FORMAT_VERSION & 0xff) as u8 || bytes[1] != ((
        CURRENT_ZETTEL_FORMAT_VERSION >> 8) & 0xff) as u8,
    ensures
        spec_deserialize(bytes) == Err::<RecordView, DeserializeError>(
            DeserializeError::WrongVersion,
        ),
{
}

/// The persisted form of a note: its title, content forest and outbound
/// reference identifiers ("mentions"). Created with empty defaults, then
/// mutated only through the store's atomic update; never deleted.
#[derive(Debug, PartialEq)]
pub struct ZettelRecord {
    pub title: String,
    pub content: Vec<Block>,
    pub mentions: Vec<ZettelId>,
}

pub open spec fn view_mentions(s: Seq<ZettelId>) -> Seq<u64> {
    Seq::new(s.len(), |i: int| s[i].0)
}

/// The mathematical model of a record.
pub open spec fn view_record(r: ZettelRecord) -> RecordView {
    RecordView {
        title: r.title@,
        content: view_blocks(r.content@),
        mentions: view_mentions(r.mentions@),
    }
}

/// The model of a freshly created record: everything empty.
pub open spec fn empty_record_view() -> RecordView {
    RecordView { title: Seq::empty(), content: Seq::empty(), mentions: Seq::empty() }
}

impl Clone for ZettelRecord {
    /// A clone is indistinguishable from the original in the model.
    fn clone(&self) -> (r: Self)
        ensures
            view_record(r) == view_record(*self),
    {
        let mut mentions: Vec<ZettelId> = Vec::new();
        let mut i: usize = 0;
        while i < self.mentions.len()
            invariant
                i <= self.mentions@.len(),
                mentions@ == self.mentions@.take(i as int),
            decreases self.mentions@.len() - i,
        {
            mentions.push(self.mentions[i]);
            i += 1;
            proof {
                assert(mentions@ =~= self.mentions@.take(i as int));
            }
        }
        proof {
            assert(self.mentions@.take(self.mentions@.len() as int) =~= self.mentions@);
        }
        ZettelRecord {
            title: self.title.clone(),
            content: crate::content::clone_content(&self.content),
            mentions,
        }
    }
}

impl ZettelRecord {
    /// A freshly created record: empty title, empty content, no mentions.
    pub fn new() -> (r: ZettelRecord)
        ensures
            view_record(r) == empty_record_view(),
    {
        let r = ZettelRecord { title: String::new(), content: Vec::new(), mentions: Vec::new() };
        proof {
            assert(view_record(r).content =~= empty_record_view().content);
            assert(view_record(r).mentions =~= empty_record_view().mentions);
        }
        r
    }
}

fn write_string(out: &mut Vec<u8>, s: &String)
    ensures
        final(out)@ == old(out)@ + ser_string(s@),
        wf_string(s@),
{
    let n = s.as_str().unicode_len();
    write_varint(out, n as u64);
    let mut i: usize = 0;
    proof {
        assert(s@.skip(0) =~= s@);
    }
    while i < n
        invariant
            n == s@.len(),
            i <= n,
            out@ + ser_chars(s@.skip(i as int)) == old(out)@ + ser_string(s@),
        decreases n - i,
    {
        let c = s.as_str().get_char(i);
        proof {
            assert(s@.skip(i as int)[0] == s@[i as int]);
            assert(s@.skip(i as int).drop_first() =~= s@.skip(i + 1));
        }
        write_varint(out, (c as u32) as u64);
        i += 1;
    }
    proof {
        assert(s@.skip(n as int) =~= Seq::<char>::empty());
    }
}

fn write_marks(out: &mut Vec<u8>, v: &Vec<Mark>)
    ensures
        final(out)@ == old(out)@ + ser_marks(view_marks(v@)),
{
    write_varint(out, v.len() as u64);
    let mut i: usize = 0;
    proof {
        assert(view_marks(v@).skip(0) =~= view_marks(v@));
    }
    while i < v.len()
        invariant
            i <= v@.len(),
            out@ + ser_marks_body(view_marks(v@).skip(i as int)) == old(out)@ + ser_marks(
                view_marks(v@),
            ),
        decreases v@.len() - i,
    {
        proof {
            let vs = view_marks(v@);
            assert(vs.skip(i as int)[0] == view_mark(v@[i as int]));
            assert(vs.skip(i as int).drop_first() =~= vs.skip(i + 1));
        }
        let ghost pre = out@;
        match v[i] {
            Mark::Bold => out.push(0u8),
            Mark::Italic => out.push(1u8),
            Mark::Strikethrough => out.push(2u8),
            Mark::Highlight => out.push(3u8),
        }
        proof {
            assert(out@ =~= pre + ser_mark(view_mark(v@[i as int])));
        }
        i += 1;
    }
    proof {
        assert(view_marks(v@).skip(v@.len() as int) =~= Seq::<MarkView>::empty());
    }
}

fn write_inline(out: &mut Vec<u8>, v: &Inline)
    ensures
        final(out)@ == old(out)@ + ser_inline(view_inline(*v)),
        wf_inline(view_inline(*v)),
{
    match v {
        Inline::Text { text, marks } => {
            out.push(0u8);
            write_string(out, text);
            write_marks(out, marks);
            proof {
                assert(marks@.len() == marks.len());
            }
        },
        Inline::Link { text, href, marks } => {
            out.push(1u8);
            write_string(out, text);
            write_string(out, href);
            write_marks(out, marks);
            proof {
                assert(marks@.len() == marks.len());
            }
        },
    }
    proof {
        assert(out@ =~= old(out)@ + ser_inline(view_inline(*v)));
    }
}

fn write_inlines(out: &mut Vec<u8>, v: &Vec<Inline>)
    ensures
        final(out)@ == old(out)@ + ser_inlines(view_inlines(v@)),
        wf_inlines(view_inlines(v@)),
{
    write_varint(out, v.len() as u64);
    let mut i: usize = 0;
    proof {
        assert(view_inlines(v@).skip(0) =~= view_inlines(v@));
    }
    while i < v.len()
        invariant
            i <= v@.len(),
            out@ + ser_inlines_body(view_inlines(v@).skip(i as int)) == old(out)@ + ser_inlines(
                view_inlines(v@),
            ),
            forall|j: int| 0 <= j < i ==> wf_inline(#[trigger] view_inlines(v@)[j]),
        decreases v@.len() - i,
    {
        proof {
            let vs = view_inlines(v@);
            assert(vs.skip(i as int)[0] == view_inline(v@[i as int]));
            assert(vs.skip(i as int).drop_first() =~= vs.skip(i + 1));
        }
        write_inline(out, &v[i]);
        i += 1;
    }
    proof {
        assert(view_inlines(v@).skip(v@.len() as int) =~= Seq::<InlineView>::empty());
    }
}

fn write_block(out: &mut Vec<u8>, b: &Block)
    ensures
        final(out)@ == old(out)@ + ser_block(view_block(*b)),
        wf_block(view_block(*b)),
    decreases *b,
{
    match b {
        Block::Paragraph { inlines } => {
            out.push(0u8);
            write_inlines(out, inlines);
        },
        Block::Heading { level, inlines } => {
            out.push(1u8);
            out.push(*level);
            write_inlines(out, inlines);
        },
        Block::Image { src } => {
            out.push(2u8);
            write_string(out, src);
        },
        Block::Divider => {
            out.push(3u8);
        },
        Block::List { items } => {
            out.push(4u8);
            write_varint(out, items.len() as u64);
            write_items_body(out, items);
        },
    }
    proof {
        if let Block::List { items } = b {
            lemma_view_items_index(items@);
        }
        assert(out@ =~= old(out)@ + ser_block(view_block(*b)));
    }
}

fn write_items_body(out: &mut Vec<u8>, v: &Vec<ListItem>)
    ensures
        final(out)@ == old(out)@ + ser_items_body(view_items(v@)),
        wf_items(view_items(v@)),
    decreases v@,
{
    let mut i: usize = 0;
    proof {
        lemma_view_items_index(v@);
        assert(view_items(v@).skip(0) =~= view_items(v@));
    }
    while i < v.len()
        invariant
            i <= v@.len(),
            view_items(v@).len() == v@.len(),
            out@ + ser_items_body(view_items(v@).skip(i as int)) == old(out)@ + ser_items_body(
                view_items(v@),
            ),
            forall|j: int| 0 <= j < i ==> wf_item(#[trigger] view_items(v@)[j]),
        decreases v@.len() - i,
    {
        proof {
            lemma_view_items_index(v@);
            let vs = view_items(v@);
            assert(vs.skip(i as int)[0] == view_item(v@[i as int]));
            assert(vs.skip(i as int).drop_first() =~= vs.skip(i + 1));
        }
        write_item(out, &v[i]);
        i += 1;
    }
    proof {
        assert(view_items(v@).skip(v@.len() as int) =~= Seq::<ListItemView>::empty());
        lemma_wf_items_pointwise(view_items(v@));
    }
}

fn write_item(out: &mut Vec<u8>, it: &ListItem)
    ensures
        final(out)@ == old(out)@ + ser_item(view_item(*it)),
        wf_item(view_item(*it)),
    decreases *it,
{
    proof {
        lemma_view_blocks_index(it.blocks@);
    }
    write_varint(out, it.blocks.len() as u64);
    write_blocks_body(out, &it.blocks);
    proof {
        assert(out@ =~= old(out)@ + ser_item(view_item(*it)));
    }
}

fn write_blocks_body(out: &mut Vec<u8>, v: &Vec<Block>)
    ensures
        final(out)@ == old(out)@ + ser_blocks_body(view_blocks(v@)),
        wf_blocks(view_blocks(v@)),
    decreases v@,
{
    let mut i: usize = 0;
    proof {
        lemma_view_blocks_index(v@);
        assert(view_blocks(v@).skip(0) =~= view_blocks(v@));
    }
    while i < v.len()
        invariant
            i <= v@.len(),
            view_blocks(v@).len() == v@.len(),
            out@ + ser_blocks_body(view_blocks(v@).skip(i as int)) == old(out)@ + ser_blocks_body(
                view_blocks(v@),
            ),
            forall|j: int| 0 <= j < i ==> wf_block(#[trigger] view_blocks(v@)[j]),
        decreases v@.len() - i,
    {
        proof {
            lemma_view_blocks_index(v@);
            let vs = view_blocks(v@);
            assert(vs.skip(i as int)[0] == view_block(v@[i as int]));
            assert(vs.skip(i as int).drop_first() =~= vs.skip(i + 1));
        }
        write_block(out, &v[i]);
        i += 1;
    }
    proof {
        assert(view_blocks(v@).skip(v@.len() as int) =~= Seq::<BlockView>::empty());
        lemma_wf_blocks_pointwise(view_blocks(v@));
    }
}

fn write_mentions(out: &mut Vec<u8>, v: &Vec<ZettelId>)
    ensures
        final(out)@ == old(out)@ + ser_mentions(view_mentions(v@)),
{
    write_varint(out, v.len() as u64);
    let mut i: usize = 0;
    proof {
        assert(view_mentions(v@).skip(0) =~= view_mentions(v@));
    }
    while i < v.len()
        invariant
            i <= v@.len(),
            out@ + ser_mentions_body(view_mentions(v@).skip(i as int)) == old(out)@ + ser_mentions(
                view_mentions(v@),
            ),
        decreases v@.len() - i,
    {
        proof {
            let vs = view_mentions(v@);
            assert(vs.skip(i as int)[0] == v@[i as int].0);
            assert(vs.skip(i as int).drop_first() =~= vs.skip(i + 1));
        }
        let id = v[i];
        write_varint(out, id.0);
        i += 1;
    }
    proof {
        assert(view_mentions(v@).skip(v@.len() as int) =~= Seq::<u64>::empty());
    }
}

/// Converts a `u32` to a `char`: `Some` exactly for Unicode scalar values
/// (not a surrogate, at most `char::MAX`), and then the `char` with that
/// code point.
pub assume_specification[ char::from_u32 ](v: u32) -> (r: Option<char>)
    ensures
        r is Some <==> vstd::utf8::is_scalar(v),
        r is Some ==> r.unwrap() as u32 == v,
;

fn read_char(s: &[u8], i: usize) -> (r: Option<(char, usize)>)
    requires
        i <= s@.len(),
    ensures
        match r {
            Some((c, j)) => parse_char(s@, i as int) == Some((c, j as int)) && i < j <= s@.len(),
            None => parse_char(s@, i as int) is None,
        },
{
    match read_varint(s, i) {
        None => None,
        Some((cp, j)) => {
            if cp > u32::MAX as u64 {
                return None;
            }
            let c32 = cp as u32;
            match char::from_u32(c32) {
                None => None,
                Some(c) => {
                    proof {
                        vstd::utf8::char_u32_cast(c, c32);
                    }
                    Some((c, j))
                },
            }
        },
    }
}

fn read_string(s: &[u8], i: usize) -> (r: Option<(String, usize)>)
    requires
        i <= s@.len(),
    ensures
        match r {
            Some((st, j)) => parse_string(s@, i as int) == Some((st@, j as int)) && i < j
                <= s@.len(),
            None => parse_string(s@, i as int) is None,
        },
{
    match read_varint(s, i) {
        None => None,
        Some((n, start)) => {
            let mut acc = String::new();
            let mut cur: usize = start;
            let mut k: u64 = 0;
            while k < n
                invariant
                    i < cur <= s@.len(),
                    k <= n,
                    parse_varint(s@, i as int) == Some((n, start as int)),
                    match parse_chars_body(s@, cur as int, (n - k) as u64) {
                        Some((cs, e)) => parse_chars_body(s@, start as int, n) == Some(
                            (acc@ + cs, e),
                        ),
                        None => parse_chars_body(s@, start as int, n) is None,
                    },
                decreases n - k,
            {
                match read_char(s, cur) {
                    None => {
                        return None;
                    },
                    Some((c, j)) => {
                        let ghost pre = acc@;
                        acc.push(c);
                        proof {
                            let rest = parse_chars_body(s@, j as int, (n - k - 1) as u64);
                            if rest is Some {
                                let (cs, e) = rest.unwrap();
                                assert(pre + (seq![c] + cs) =~= acc@ + cs);
                            }
                        }
                        cur = j;
                        k = k + 1;
                    },
                }
            }
            proof {
                assert(acc@ + Seq::<char>::empty() =~= acc@);
            }
            Some((acc, cur))
        },
    }
}

fn read_marks(s: &[u8], i: usize) -> (r: Option<(Vec<Mark>, usize)>)
    requires
        i <= s@.len(),
    ensures
        match r {
            Some((v, j)) => parse_marks(s@, i as int) == Some((view_marks(v@), j as int)) && i < j
                <= s@.len(),
            None => parse_marks(s@, i as int) is None,
        },
{
    match read_varint(s, i) {
        None => None,
        Some((n, start)) => {
            let mut acc: Vec<Mark> = Vec::new();
            let mut cur: usize = start;
            let mut k: u64 = 0;
            proof {
                assert(view_marks(acc@) =~= Seq::<MarkView>::empty());
            }
            while k < n
                invariant
                    i < cur <= s@.len(),
                    k <= n,
                    parse_varint(s@, i as int) == Some((n, start as int)),
                    match parse_marks_body(s@, cur as int, (n - k) as u64) {
                        Some((vs, e)) => parse_marks_body(s@, start as int, n) == Some(
                            (view_marks(acc@) + vs, e),
                        ),
                        None => parse_marks_body(s@, start as int, n) is None,
                    },
                decreases n - k,
            {
                if cur >= s.len() {
                    return None;
                }
                let tag = s[cur];
                if tag > 3 {
                    return None;
                }
                let m = if tag == 0 {
                    Mark::Bold
                } else if tag == 1 {
                    Mark::Italic
                } else if tag == 2 {
                    Mark::Strikethrough
                } else {
                    Mark::Highlight
                };
                let ghost pre = acc@;
                acc.push(m);
                proof {
                    assert(parse_mark(s@, cur as int) == Some((view_mark(m), cur + 1)));
                    assert(view_marks(acc@) =~= view_marks(pre) + seq![view_mark(m)]);
                    let rest = parse_marks_body(s@, cur + 1, (n - k - 1) as u64);
                    if rest is Some {
                        let (vs, e) = rest.unwrap();
                        assert(view_marks(pre) + (seq![view_mark(m)] + vs) =~= view_marks(acc@)
                            + vs);
                    }
                }
                cur = cur + 1;
                k = k + 1;
            }
            proof {
                assert(view_marks(acc@) + Seq::<MarkView>::empty() =~= view_marks(acc@));
            }
            Some((acc, cur))
        },
    }
}

fn read_inline(s: &[u8], i: usize) -> (r: Option<(Inline, usize)>)
    requires
        i <= s@.len(),
    ensures
        match r {
            Some((v, j)) => parse_inline(s@, i as int) == Some((view_inline(v), j as int)) && i < j
                <= s@.len(),
            None => parse_inline(s@, i as int) is None,
        },
{
    if i >= s.len() {
        return None;
    }
    let tag = s[i];
    if tag == 0 {
        match read_string(s, i + 1) {
            None => None,
            Some((text, j)) => match read_marks(s, j) {
                None => None,
                Some((marks, k)) => Some((Inline::Text { text, marks }, k)),
            },
        }
    } else if tag == 1 {
        match read_string(s, i + 1) {
            None => None,
            Some((text, j)) => match read_string(s, j) {
                None => None,
                Some((href, k)) => match read_marks(s, k) {
                    None => None,
                    Some((marks, m)) => Some((Inline::Link { text, href, marks }, m)),
                },
            },
        }
    } else {
        None
    }
}

fn read_inlines(s: &[u8], i: usize) -> (r: Option<(Vec<Inline>, usize)>)
    requires
        i <= s@.len(),
    ensures
        match r {
            Some((v, j)) => parse_inlines(s@, i as int) == Some((view_inlines(v@), j as int)) && i
                < j <= s@.len(),
            None => parse_inlines(s@, i as int) is None,
        },
{
    match read_varint(s, i) {
        None => None,
        Some((n, start)) => {
            let mut acc: Vec<Inline> = Vec::new();
            let mut cur: usize = start;
            let mut k: u64 = 0;
            proof {
                assert(view_inlines(acc@) =~= Seq::<InlineView>::empty());
            }
            while k < n
                invariant
                    i < cur <= s@.len(),
                    k <= n,
                    parse_varint(s@, i as int) == Some((n, start as int)),
                    match parse_inlines_body(s@, cur as int, (n - k) as u64) {
                        Some((vs, e)) => parse_inlines_body(s@, start as int, n) == Some(
                            (view_inlines(acc@) + vs, e),
                        ),
                        None => parse_inlines_body(s@, start as int, n) is None,
                    },
                decreases n - k,
            {
                match read_inline(s, cur) {
                    None => {
                        return None;
                    },
                    Some((v, j)) => {
                        let ghost pre = acc@;
                        acc.push(v);
                        proof {
                            assert(view_inlines(acc@) =~= view_inlines(pre) + seq![
                                view_inline(acc@[pre.len() as int]),
                            ]);
                            let rest = parse_inlines_body(s@, j as int, (n - k - 1) as u64);
                            if rest is Some {
                                let (vs, e) = rest.unwrap();
                                assert(view_inlines(pre) + (seq![view_inline(acc@[pre.len() as int])]
                                    + vs) =~= view_inlines(acc@) + vs);
                            }
                        }
                        cur = j;
                        k = k + 1;
                    },
                }
            }
            proof {
                assert(view_inlines(acc@) + Seq::<InlineView>::empty() =~= view_inlines(acc@));
            }
            Some((acc, cur))
        },
    }
}

fn read_block(s: &[u8], i: usize) -> (r: Option<(Block, usize)>)
    requires
        i <= s@.len(),
    ensures
        match r {
            Some((b, j)) => parse_block(s@, i as int) == Some((view_block(b), j as int)) && i < j
                <= s@.len(),
            None => parse_block(s@, i as int) is None,
        },
    decreases s@.len() - i, 0int,
{
    if i >= s.len() {
        return None;
    }
    let tag = s[i];
    if tag == 0 {
        match read_inlines(s, i + 1) {
            None => None,
            Some((inlines, j)) => Some((Block::Paragraph { inlines }, j)),
        }
    } else if tag == 1 {
        if i + 1 >= s.len() {
            return None;
        }
        let level = s[i + 1];
        match read_inlines(s, i + 2) {
            None => None,
            Some((inlines, j)) => Some((Block::Heading { level, inlines }, j)),
        }
    } else if tag == 2 {
        match read_string(s, i + 1) {
            None => None,
            Some((src, j)) => Some((Block::Image { src }, j)),
        }
    } else if tag == 3 {
        Some((Block::Divider, i + 1))
    } else if tag == 4 {
        match read_varint(s, i + 1) {
            None => None,
            Some((n, j)) => match read_items_body(s, j, n) {
                None => None,
                Some((items, k)) => Some((Block::List { items }, k)),
            },
        }
    } else {
        None
    }
}

fn read_items_body(s: &[u8], i: usize, n: u64) -> (r: Option<(Vec<ListItem>, usize)>)
    requires
        i <= s@.len(),
    ensures
        match r {
            Some((v, j)) => parse_items_body(s@, i as int, n) == Some((view_items(v@), j as int))
                && i <= j <= s@.len(),
            None => parse_items_body(s@, i as int, n) is None,
        },
    decreases s@.len() - i, n as int + 1,
{
    let mut acc: Vec<ListItem> = Vec::new();
    let mut cur: usize = i;
    let mut k: u64 = 0;
    proof {
        assert(view_items(acc@) =~= Seq::<ListItemView>::empty());
    }
    while k < n
        invariant
            i <= cur <= s@.len(),
            k <= n,
            match parse_items_body(s@, cur as int, (n - k) as u64) {
                Some((vs, e)) => parse_items_body(s@, i as int, n) == Some(
                    (view_items(acc@) + vs, e),
                ),
                None => parse_items_body(s@, i as int, n) is None,
            },
        decreases n - k,
    {
        match read_item(s, cur) {
            None => {
                return None;
            },
            Some((it, j)) => {
                let ghost pre = acc@;
                acc.push(it);
                proof {
                    lemma_view_items_index(acc@);
                    lemma_view_items_index(pre);
                    assert(view_items(acc@) =~= view_items(pre) + seq![
                        view_item(acc@[pre.len() as int]),
                    ]);
                    let rest = parse_items_body(s@, j as int, (n - k - 1) as u64);
                    if rest is Some {
                        let (vs, e) = rest.unwrap();
                        assert(view_items(pre) + (seq![view_item(acc@[pre.len() as int])] + vs)
                            =~= view_items(acc@) + vs);
                    }
                }
                cur = j;
                k = k + 1;
            },
        }
    }
    proof {
        assert(view_items(acc@) + Seq::<ListItemView>::empty() =~= view_items(acc@));
    }
    Some((acc, cur))
}

fn read_item(s: &[u8], i: usize) -> (r: Option<(ListItem, usize)>)
    requires
        i <= s@.len(),
    ensures
        match r {
            Some((it, j)) => parse_item(s@, i as int) == Some((view_item(it), j as int)) && i < j
                <= s@.len(),
            None => parse_item(s@, i as int) is None,
        },
    decreases s@.len() - i, 0int,
{
    match read_varint(s, i) {
        None => None,
        Some((n, j)) => match read_blocks_body(s, j, n) {
            None => None,
            Some((blocks, k)) => Some((ListItem { blocks }, k)),
        },
    }
}

fn read_blocks_body(s: &[u8], i: usize, n: u64) -> (r: Option<(Vec<Block>, usize)>)
    requires
        i <= s@.len(),
    ensures
        match r {
            Some((v, j)) => parse_blocks_body(s@, i as int, n) == Some((view_blocks(v@), j as int))
                && i <= j <= s@.len(),
            None => parse_blocks_body(s@, i as int, n) is None,
        },
    decreases s@.len() - i, n as int + 1,
{
    let mut acc: Vec<Block> = Vec::new();
    let mut cur: usize = i;
    let mut k: u64 = 0;
    proof {
        assert(view_blocks(acc@) =~= Seq::<BlockView>::empty());
    }
    while k < n
        invariant
            i <= cur <= s@.len(),
            k <= n,
            match parse_blocks_body(s@, cur as int, (n - k) as u64) {
                Some((vs, e)) => parse_blocks_body(s@, i as int, n) == Some(
                    (view_blocks(acc@) + vs, e),
                ),
                None => parse_blocks_body(s@, i as int, n) is None,
            },
        decreases n - k,
    {
        match read_block(s, cur) {
            None => {
                return None;
            },
            Some((b, j)) => {
                let ghost pre = acc@;
                acc.push(b);
                proof {
                    lemma_view_blocks_index(acc@);
                    lemma_view_blocks_index(pre);
                    assert(view_blocks(acc@) =~= view_blocks(pre) + seq![
                        view_block(acc@[pre.len() as int]),
                    ]);
                    let rest = parse_blocks_body(s@, j as int, (n - k - 1) as u64);
                    if rest is Some {
                        let (vs, e) = rest.unwrap();
                        assert(view_blocks(pre) + (seq![view_block(acc@[pre.len() as int])] + vs)
                            =~= view_blocks(acc@) + vs);
                    }
                }
                cur = j;
                k = k + 1;
            },
        }
    }
    proof {
        assert(view_blocks(acc@) + Seq::<BlockView>::empty() =~= view_blocks(acc@));
    }
    Some((acc, cur))
}

fn read_mentions(s: &[u8], i: usize) -> (r: Option<(Vec<ZettelId>, usize)>)
    requires
        i <= s@.len(),
    ensures
        match r {
            Some((v, j)) => parse_mentions(s@, i as int) == Some((view_mentions(v@), j as int))
                && i < j <= s@.len(),
            None => parse_mentions(s@, i as int) is None,
        },
{
    match read_varint(s, i) {
        None => None,
        Some((n, start)) => {
            let mut acc: Vec<ZettelId> = Vec::new();
            let mut cur: usize = start;
            let mut k: u64 = 0;
            proof {
                assert(view_mentions(acc@) =~= Seq::<u64>::empty());
            }
            while k < n
                invariant
                    i < cur <= s@.len(),
                    k <= n,
                    parse_varint(s@, i as int) == Some((n, start as int)),
                    match parse_mentions_body(s@, cur as int, (n - k) as u64) {
                        Some((vs, e)) => parse_mentions_body(s@, start as int, n) == Some(
                            (view_mentions(acc@) + vs, e),
                        ),
                        None => parse_mentions_body(s@, start as int, n) is None,
                    },
                decreases n - k,
            {
                match read_varint(s, cur) {
                    None => {
                        return None;
                    },
                    Some((v, j)) => {
                        let ghost pre = acc@;
                        acc.push(ZettelId(v));
                        proof {
                            assert(view_mentions(acc@) =~= view_mentions(pre) + seq![v]);
                            let rest = parse_mentions_body(s@, j as int, (n - k - 1) as u64);
                            if rest is Some {
                                let (vs, e) = rest.unwrap();
                                assert(view_mentions(pre) + (seq![v] + vs) =~= view_mentions(acc@)
                                    + vs);
                            }
                        }
                        cur = j;
                        k = k + 1;
                    },
                }
            }
            proof {
                assert(view_mentions(acc@) + Seq::<u64>::empty() =~= view_mentions(acc@));
            }
            Some((acc, cur))
        },
    }
}

fn read_record(s: &[u8], i: usize) -> (r: Option<(ZettelRecord, usize)>)
    requires
        i <= s@.len(),
    ensures
        match r {
            Some((rec, j)) => parse_record(s@, i as int) == Some((view_record(rec), j as int)) && i
                < j <= s@.len(),
            None => parse_record(s@, i as int) is None,
        },
{
    match read_string(s, i) {
        None => None,
        Some((title, j)) => match read_varint(s, j) {
            None => None,
            Some((n, k)) => match read_blocks_body(s, k, n) {
                None => None,
                Some((content, m)) => match read_mentions(s, m) {
                    None => None,
                    Some((mentions, e)) => Some((ZettelRecord { title, content, mentions }, e)),
                },
            },
        },
    }
}

impl ZettelRecord {
    /// Serialize the record into its stored envelope: the two-byte
    /// little-endian version tag, then the varint-encoded body.
    pub fn serialize(&self) -> (r: Vec<u8>)
        ensures
            r@ == spec_serialize(view_record(*self)),
            wf_record(view_record(*self)),
    {
        let mut out: Vec<u8> = Vec::new();
        out.push((CURRENT_ZETTEL_FORMAT_VERSION & 0xff) as u8);
        out.push(((CURRENT_ZETTEL_FORMAT_VERSION >> 8) & 0xff) as u8);
        write_string(&mut out, &self.title);
        write_varint(&mut out, self.content.len() as u64);
        write_blocks_body(&mut out, &self.content);
        write_mentions(&mut out, &self.mentions);
        proof {
            lemma_view_blocks_index(self.content@);
            assert(self.mentions@.len() == self.mentions.len());
            assert(out@ =~= spec_serialize(view_record(*self)));
        }
        out
    }

    /// Deserialize a stored envelope. The version tag is checked first:
    /// on a mismatch the rest of the bytes are never interpreted. A body
    /// that does not parse, or leaves trailing bytes, is `Malformed`.
    pub fn deserialize(bytes: &[u8]) -> (r: Result<ZettelRecord, DeserializeError>)
        ensures
            match r {
                Ok(rec) => spec_deserialize(bytes@) == Ok::<RecordView, DeserializeError>(
                    view_record(rec),
                ),
                Err(e) => spec_deserialize(bytes@) == Err::<RecordView, DeserializeError>(e),
            },
    {
        if bytes.len() < 2 {
            return Err(DeserializeError::Malformed);
        }
        if bytes[0] != (CURRENT_ZETTEL_FORMAT_VERSION & 0xff) as u8 || bytes[1] != ((
        CURRENT_ZETTEL_FORMAT_VERSION >> 8) & 0xff) as u8 {
            return Err(DeserializeError::WrongVersion);
        }
        match read_record(bytes, 2) {
            None => Err(DeserializeError::Malformed),
            Some((rec, j)) => {
                if j == bytes.len() {
                    Ok(rec)
                } else {
                    Err(DeserializeError::Malformed)
                }
            },
        }
    }
}

} // verus!
