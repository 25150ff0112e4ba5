//! Layout-ready elements, and the rules that build them from operations:
//! styles, headings and list prefixes applied to the last element, and the
//! splitting of inserted text into lines.
use vstd::prelude::*;

use crate::delta::{Attribute, Change, DeltaType, ListType, Op};
use crate::image::{resolve, DeltaPdfError};
use crate::text::{
    chars_of, contains, decimal, decimal_string, lemma_lines_len, lines, str_contains,
};

verus! {

/// The style of a text run; no font size means the document's default.
#[derive(Clone, Copy, Debug)]
pub struct TextStyle {
    pub bold: bool,
    pub italic: bool,
    pub font_size: Option<u8>,
}

/// A styled piece of text that becomes one paragraph.
#[derive(Debug)]
pub struct TextRun {
    pub text: String,
    pub style: TextStyle,
}

/// One element of the output: a text run, or an image given by its file path.
#[derive(Debug)]
pub enum PdfElement {
    Text(TextRun),
    Image(String),
}

/// The mathematical value of an element.
pub enum Block {
    Text(Seq<char>, TextStyle),
    Image(Seq<char>),
}

impl View for PdfElement {
    type V = Block;

    open spec fn view(&self) -> Block {
        match self {
            PdfElement::Text(t) => Block::Text(t.text@, t.style),
            PdfElement::Image(p) => Block::Image(p@),
        }
    }
}

/// The values of a sequence of elements.
pub open spec fn blocks(v: Seq<PdfElement>) -> Seq<Block> {
    v.map_values(|e: PdfElement| e@)
}

/// The block is a text run.
pub open spec fn is_text(b: Block) -> bool {
    b is Text
}

/// The text of a block; images have none.
pub open spec fn text_of(b: Block) -> Seq<char> {
    match b {
        Block::Text(t, _) => t,
        Block::Image(_) => Seq::empty(),
    }
}

/// The style of a block; images have the plain one.
pub open spec fn style_of_block(b: Block) -> TextStyle {
    match b {
        Block::Text(_, s) => s,
        Block::Image(_) => plain(),
    }
}

/// The style a run has before any attribute.
pub open spec fn plain() -> TextStyle {
    TextStyle { bold: false, italic: false, font_size: None }
}

/// The style that an operation's attributes give its own text: bold and
/// italic are set by a true flag and never unset.
pub open spec fn style_for(attrs: Seq<Attribute>) -> TextStyle
    decreases attrs.len(),
{
    if attrs.len() == 0 {
        plain()
    } else {
        let s = style_for(attrs.drop_last());
        match attrs.last() {
            Attribute::Bold(true) => TextStyle { bold: true, italic: s.italic, font_size: s.font_size },
            Attribute::Italic(true) => TextStyle { bold: s.bold, italic: true, font_size: s.font_size },
            _ => s,
        }
    }
}

/// The font size of a heading level; only levels 1 and 2 have one.
pub open spec fn heading_size(level: u8) -> Option<u8> {
    if level == 1 {
        Some(18u8)
    } else if level == 2 {
        Some(16u8)
    } else {
        None
    }
}

/// `bs` with the font size of its last block set to `size`, when that block is text.
pub open spec fn with_heading(bs: Seq<Block>, size: u8) -> Seq<Block> {
    if bs.len() > 0 && is_text(bs.last()) {
        let s = style_of_block(bs.last());
        bs.update(
            bs.len() - 1,
            Block::Text(
                text_of(bs.last()),
                TextStyle { bold: s.bold, italic: s.italic, font_size: Some(size) },
            ),
        )
    } else {
        bs
    }
}

/// `bs` with `p` put before the text of its last block, when that block is text.
pub open spec fn with_prefix(bs: Seq<Block>, p: Seq<char>) -> Seq<Block> {
    if bs.len() > 0 && is_text(bs.last()) {
        bs.update(bs.len() - 1, Block::Text(p + text_of(bs.last()), style_of_block(bs.last())))
    } else {
        bs
    }
}

/// The prefix of a bullet item.
pub open spec fn bullet() -> Seq<char> {
    seq!['\u{2022}', ' ']
}

/// The prefix of the ordered item numbered `n`: `"<n>. "`.
pub open spec fn marker(n: u64) -> Seq<char> {
    decimal(n as nat) + seq!['.', ' ']
}

/// `n - 1`, no lower than zero.
pub open spec fn before(n: u64) -> u64 {
    if n > 0 {
        (n - 1) as u64
    } else {
        0
    }
}

/// `n + 1`, no higher than the largest `u64`.
pub open spec fn after(n: u64) -> u64 {
    if n < u64::MAX {
        (n + 1) as u64
    } else {
        n
    }
}

/// The number that the next ordered item gets when the running number is `n`:
/// 1 when the block before the last one is text without the previous item's
/// marker, `n` otherwise.
pub open spec fn ordinal(bs: Seq<Block>, n: u64) -> u64 {
    if bs.len() >= 2 && is_text(bs[bs.len() - 2]) && !contains(
        text_of(bs[bs.len() - 2]),
        marker(before(n)),
    ) {
        1
    } else {
        n
    }
}

/// The state of the conversion between operations: the blocks made so far and
/// the running number of ordered items.
pub struct Build {
    pub blocks: Seq<Block>,
    pub ordinal: u64,
}

/// The state at the start of a conversion.
pub open spec fn start() -> Build {
    Build { blocks: Seq::empty(), ordinal: 1 }
}

/// The effect of one attribute on the blocks already made.
pub open spec fn apply_attr(st: Build, a: Attribute) -> Build {
    match a {
        Attribute::Header(level) => match heading_size(level) {
            Some(size) => Build { blocks: with_heading(st.blocks, size), ordinal: st.ordinal },
            None => st,
        },
        Attribute::List(ListType::Bullet) => Build {
            blocks: with_prefix(st.blocks, bullet()),
            ordinal: st.ordinal,
        },
        Attribute::List(ListType::Ordered) => {
            let n = ordinal(st.blocks, st.ordinal);
            Build { blocks: with_prefix(st.blocks, marker(n)), ordinal: after(n) }
        },
        _ => st,
    }
}

/// The effect of a list of attributes, in their order.
pub open spec fn apply_attrs(st: Build, attrs: Seq<Attribute>) -> Build
    decreases attrs.len(),
{
    if attrs.len() == 0 {
        st
    } else {
        apply_attr(apply_attrs(st, attrs.drop_last()), attrs.last())
    }
}

/// New text runs of style `style`, one per line.
pub open spec fn runs(ls: Seq<Seq<char>>, style: TextStyle) -> Seq<Block> {
    ls.map_values(|l: Seq<char>| Block::Text(l, style))
}

/// `bs` after inserting the lines `ls` of style `style`: the first line goes on
/// the end of the last block when that is text, and each other line starts a
/// new run.
pub open spec fn add_lines(bs: Seq<Block>, ls: Seq<Seq<char>>, style: TextStyle) -> Seq<Block> {
    if bs.len() > 0 && is_text(bs.last()) {
        bs.update(
            bs.len() - 1,
            Block::Text(text_of(bs.last()) + ls[0], style_of_block(bs.last())),
        ) + runs(ls.skip(1), style)
    } else {
        bs + runs(ls, style)
    }
}

/// The effect of one operation: only inserts make blocks, and an image that
/// cannot be resolved ends the conversion with an error.
pub open spec fn step(st: Build, op: Op, dir: Option<Seq<char>>) -> Result<Build, DeltaPdfError> {
    match op.change {
        Change::Insert(DeltaType::String(t)) => {
            let st2 = apply_attrs(st, op.attrs());
            Ok(
                Build {
                    blocks: add_lines(st2.blocks, lines(t@), style_for(op.attrs())),
                    ordinal: st2.ordinal,
                },
            )
        },
        Change::Insert(DeltaType::Image(img)) => match resolve(img.image@, dir) {
            Ok(path) => Ok(Build { blocks: st.blocks.push(Block::Image(path)), ordinal: st.ordinal }),
            Err(e) => Err(e),
        },
        _ => Ok(st),
    }
}

/// The state after all of `ops`, or the first error.
pub open spec fn run(ops: Seq<Op>, dir: Option<Seq<char>>) -> Result<Build, DeltaPdfError>
    decreases ops.len(),
{
    if ops.len() == 0 {
        Ok(start())
    } else {
        match run(ops.drop_last(), dir) {
            Ok(st) => step(st, ops.last(), dir),
            Err(e) => Err(e),
        }
    }
}

/// The blocks that `ops` convert to, or the first error.
pub open spec fn render(ops: Seq<Op>, dir: Option<Seq<char>>) -> Result<Seq<Block>, DeltaPdfError> {
    match run(ops, dir) {
        Ok(st) => Ok(st.blocks),
        Err(e) => Err(e),
    }
}

/// Pushing an element pushes its value.
pub proof fn lemma_blocks_push(v: Seq<PdfElement>, e: PdfElement)
    ensures
        blocks(v.push(e)) == blocks(v).push(e@),
{
    assert(blocks(v.push(e)) =~= blocks(v).push(e@));
}

/// Dropping the last element drops its value.
pub proof fn lemma_blocks_drop_last(v: Seq<PdfElement>)
    requires
        v.len() > 0,
    ensures
        blocks(v.drop_last()) == blocks(v).drop_last(),
{
    assert(blocks(v.drop_last()) =~= blocks(v).drop_last());
}

/// Appending a character to the last line appends it to the last block.
pub proof fn lemma_add_lines_char(bs: Seq<Block>, ls: Seq<Seq<char>>, style: TextStyle, c: char)
    requires
        ls.len() >= 1,
    ensures
        ({
            let r = add_lines(bs, ls, style);
            &&& r.len() >= 1
            &&& is_text(r.last())
            &&& add_lines(bs, ls.update(ls.len() - 1, ls.last().push(c)), style) == r.update(
                r.len() - 1,
                Block::Text(text_of(r.last()).push(c), style_of_block(r.last())),
            )
        }),
{
    let ls2 = ls.update(ls.len() - 1, ls.last().push(c));
    let r = add_lines(bs, ls, style);
    let r2 = add_lines(bs, ls2, style);
    if bs.len() > 0 && is_text(bs.last()) {
        assert(ls2.skip(1) =~= if ls.len() > 1 {
            ls.skip(1).update(ls.len() - 2, ls.last().push(c))
        } else {
            ls.skip(1)
        });
        if ls.len() > 1 {
            assert(r2 =~= r.update(r.len() - 1, Block::Text(text_of(r.last()).push(c), style)));
        } else {
            assert(r.last() == Block::Text(text_of(bs.last()) + ls[0], style_of_block(bs.last())));
            assert(text_of(bs.last()) + ls2[0] =~= (text_of(bs.last()) + ls[0]).push(c));
            assert(r2 =~= r.update(
                r.len() - 1,
                Block::Text(text_of(r.last()).push(c), style_of_block(r.last())),
            ));
        }
    } else {
        assert(r2 =~= r.update(r.len() - 1, Block::Text(text_of(r.last()).push(c), style)));
    }
}

/// A new empty line starts a new run.
pub proof fn lemma_add_lines_break(bs: Seq<Block>, ls: Seq<Seq<char>>, style: TextStyle)
    requires
        ls.len() >= 1,
    ensures
        add_lines(bs, ls.push(Seq::empty()), style) == add_lines(bs, ls, style).push(
            Block::Text(Seq::empty(), style),
        ),
{
    let ls2 = ls.push(Seq::<char>::empty());
    assert(ls2.skip(1) =~= ls.skip(1).push(Seq::<char>::empty()));
    assert(runs(ls2.skip(1), style) =~= runs(ls.skip(1), style).push(
        Block::Text(Seq::empty(), style),
    ));
    assert(runs(ls2, style) =~= runs(ls, style).push(Block::Text(Seq::empty(), style)));
    assert(add_lines(bs, ls2, style) =~= add_lines(bs, ls, style).push(
        Block::Text(Seq::empty(), style),
    ));
}

/// The lines of `s` with one more character.
pub proof fn lemma_lines_push(s: Seq<char>, c: char)
    ensures
        lines(s.push(c)) == if c == '\n' {
            lines(s).push(Seq::empty())
        } else {
            lines(s).update(lines(s).len() - 1, lines(s).last().push(c))
        },
{
    assert(s.push(c).drop_last() =~= s);
}

/// Sets the font size of the last element, when it is text.
fn set_heading(elems: &mut Vec<PdfElement>, size: u8)
    ensures
        blocks(final(elems)@) == with_heading(blocks(old(elems)@), size),
{
    let ghost bs = blocks(elems@);
    match elems.pop() {
        Some(PdfElement::Text(run)) => {
            proof {
                lemma_blocks_drop_last(old(elems)@);
            }
            let style = TextStyle { bold: run.style.bold, italic: run.style.italic, font_size: Some(size) };
            elems.push(PdfElement::Text(TextRun { text: run.text, style }));
            proof {
                lemma_blocks_push(old(elems)@.drop_last(), elems@.last());
                assert(blocks(elems@) =~= with_heading(bs, size));
            }
        },
        Some(other) => {
            elems.push(other);
            proof {
                assert(elems@ =~= old(elems)@);
            }
        },
        None => {},
    }
}

/// Puts `prefix` before the text of the last element, when it is text.
fn set_prefix(elems: &mut Vec<PdfElement>, prefix: &str)
    ensures
        blocks(final(elems)@) == with_prefix(blocks(old(elems)@), prefix@),
{
    let ghost bs = blocks(elems@);
    match elems.pop() {
        Some(PdfElement::Text(run)) => {
            proof {
                lemma_blocks_drop_last(old(elems)@);
            }
            let mut text = String::from_str(prefix);
            text.append(run.text.as_str());
            elems.push(PdfElement::Text(TextRun { text, style: run.style }));
            proof {
                lemma_blocks_push(old(elems)@.drop_last(), elems@.last());
                assert(blocks(elems@) =~= with_prefix(bs, prefix@));
            }
        },
        Some(other) => {
            elems.push(other);
            proof {
                assert(elems@ =~= old(elems)@);
            }
        },
        None => {},
    }
}

/// The prefix of the ordered item numbered `n`.
fn marker_string(n: u64) -> (r: String)
    ensures
        r@ == marker(n),
{
    let mut s = decimal_string(n);
    proof {
        reveal_strlit(". ");
    }
    s.append(". ");
    s
}

/// The number the next ordered item gets, when the running number is `n`.
fn next_ordinal(elems: &Vec<PdfElement>, n: u64) -> (r: u64)
    ensures
        r == ordinal(blocks(elems@), n),
{
    let len = elems.len();
    if len >= 2 {
        match &elems[len - 2] {
            PdfElement::Text(run) => {
                let prev = if n > 0 {
                    n - 1
                } else {
                    0
                };
                let m = marker_string(prev);
                if str_contains(run.text.as_str(), m.as_str()) {
                    n
                } else {
                    1
                }
            },
            PdfElement::Image(_) => n,
        }
    } else {
        n
    }
}

/// Applies the effect of one attribute to the elements made so far and
/// returns the new running number of ordered items.
pub fn apply_attribute(elems: &mut Vec<PdfElement>, n: u64, a: Attribute) -> (r: u64)
    ensures
        apply_attr(Build { blocks: blocks(old(elems)@), ordinal: n }, a) == (Build {
            blocks: blocks(final(elems)@),
            ordinal: r,
        }),
{
    match a {
        Attribute::Header(level) => {
            if level == 1 {
                set_heading(elems, 18);
            } else if level == 2 {
                set_heading(elems, 16);
            }
            n
        },
        Attribute::List(ListType::Bullet) => {
            proof {
                reveal_strlit("\u{2022} ");
                assert("\u{2022} "@ =~= bullet());
            }
            set_prefix(elems, "\u{2022} ");
            n
        },
        Attribute::List(ListType::Ordered) => {
            let k = next_ordinal(elems, n);
            let m = marker_string(k);
            set_prefix(elems, m.as_str());
            k.saturating_add(1)
        },
        _ => n,
    }
}

/// Adds inserted text of style `style`: its first line goes on the end of the
/// last element when that is text, and each line break starts a new run.
pub fn add_text(elems: &mut Vec<PdfElement>, text: &str, style: TextStyle)
    ensures
        blocks(final(elems)@) == add_lines(blocks(old(elems)@), lines(text@), style),
{
    let ghost bs = blocks(elems@);
    let c = chars_of(text);
    let n = c.len();
    let mut cur: String;
    let mut cur_style: TextStyle;
    match elems.pop() {
        Some(PdfElement::Text(run)) => {
            proof {
                lemma_blocks_drop_last(old(elems)@);
            }
            cur = run.text;
            cur_style = run.style;
        },
        Some(other) => {
            elems.push(other);
            proof {
                assert(elems@ =~= old(elems)@);
            }
            cur = String::new();
            cur_style = style;
        },
        None => {
            cur = String::new();
            cur_style = style;
        },
    }
    proof {
        assert(text@.subrange(0, 0) =~= Seq::<char>::empty());
        assert(lines(Seq::<char>::empty()) =~= seq![Seq::<char>::empty()]);
        assert(cur@ + text@.subrange(0, 0) =~= cur@);
        assert(runs(seq![Seq::<char>::empty()], style) =~= seq![
            Block::Text(Seq::empty(), style),
        ]);
        assert(runs(seq![Seq::<char>::empty()].skip(1), style) =~= Seq::<Block>::empty());
        assert(blocks(elems@).push(Block::Text(cur@ + text@.subrange(0, 0), cur_style))
            =~= add_lines(bs, lines(text@.subrange(0, 0)), style));
    }
    let mut start: usize = 0;
    let mut i: usize = 0;
    while i < n
        invariant
            c@ == text@,
            n == c@.len(),
            start <= i <= n,
            blocks(elems@).push(Block::Text(cur@ + text@.subrange(start as int, i as int), cur_style))
                == add_lines(bs, lines(text@.subrange(0, i as int)), style),
        decreases n - i,
    {
        let ghost pre = text@.subrange(0, i as int);
        proof {
            assert(text@.subrange(0, i + 1) =~= pre.push(c@[i as int]));
            lemma_lines_push(pre, c@[i as int]);
            lemma_lines_len(pre);
        }
        if c[i] == '\n' {
            let seg = text.substring_char(start, i);
            cur.append(seg);
            let ghost full = cur@;
            let ghost before_elems = elems@;
            elems.push(PdfElement::Text(TextRun { text: cur, style: cur_style }));
            cur = String::new();
            cur_style = style;
            start = i + 1;
            proof {
                lemma_blocks_push(before_elems, elems@.last());
                lemma_add_lines_break(bs, lines(pre), style);
                assert(text@.subrange(start as int, start as int) =~= Seq::<char>::empty());
                assert(cur@ + text@.subrange(start as int, start as int) =~= Seq::<char>::empty());
            }
        } else {
            proof {
                lemma_add_lines_char(bs, lines(pre), style, c@[i as int]);
                assert(cur@ + text@.subrange(start as int, i + 1) =~= (cur@ + text@.subrange(
                    start as int,
                    i as int,
                )).push(c@[i as int]));
                let l = blocks(elems@).push(
                    Block::Text(cur@ + text@.subrange(start as int, i as int), cur_style),
                );
                assert(l.update(
                    l.len() - 1,
                    Block::Text(text_of(l.last()).push(c@[i as int]), style_of_block(l.last())),
                ) =~= blocks(elems@).push(
                    Block::Text(cur@ + text@.subrange(start as int, i + 1), cur_style),
                ));
            }
        }
        i = i + 1;
    }
    let seg = text.substring_char(start, n);
    cur.append(seg);
    let ghost before_elems = elems@;
    elems.push(PdfElement::Text(TextRun { text: cur, style: cur_style }));
    proof {
        lemma_blocks_push(before_elems, elems@.last());
        assert(text@.subrange(0, n as int) =~= text@);
    }
}

} // verus!
