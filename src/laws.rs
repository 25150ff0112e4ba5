//! General properties of the conversion, proved over its model.
use vstd::prelude::*;

use crate::delta::{Attribute, Change, DeltaType, ListType, Op};
use crate::elements::{
    add_lines, apply_attr, apply_attrs, heading_size, is_text, lemma_add_lines_break, marker,
    lemma_add_lines_char, lemma_lines_push, plain, render, run, runs, start, step,
    style_for, style_of_block, text_of, Block, Build, PdfElement,
};
use crate::image::DeltaPdfError;
use crate::text::{lemma_lines_len, lines, no_line_break};
use crate::{inserted_text, result_view, DeltaPdf};

verus! {

/// The texts of `bs`, joined with line breaks.
pub open spec fn joined(bs: Seq<Block>) -> Seq<char>
    decreases bs.len(),
{
    if bs.len() == 0 {
        Seq::empty()
    } else if bs.len() == 1 {
        text_of(bs[0])
    } else {
        joined(bs.drop_last()) + seq!['\n'] + text_of(bs.last())
    }
}

/// The operation inserts text and has no attribute.
pub open spec fn is_plain_insert(op: Op) -> bool {
    match op.change {
        Change::Insert(DeltaType::String(_)) => op.attrs().len() == 0,
        _ => false,
    }
}

/// Every block is plain text holding no line break.
pub open spec fn plain_lines(bs: Seq<Block>) -> bool {
    forall|k: int|
        0 <= k < bs.len() ==> is_text(#[trigger] bs[k]) && no_line_break(text_of(bs[k]))
            && style_of_block(bs[k]) == plain()
}

/// The text that an operation inserts, when it inserts text.
pub open spec fn text_insert(op: Op) -> Option<Seq<char>> {
    match op.change {
        Change::Insert(DeltaType::String(t)) => Some(t@),
        _ => None,
    }
}

proof fn lemma_joined_push(bs: Seq<Block>, b: Block)
    requires
        bs.len() >= 1,
    ensures
        joined(bs.push(b)) == joined(bs) + seq!['\n'] + text_of(b),
{
    assert(bs.push(b).drop_last() =~= bs);
}

proof fn lemma_joined_last_char(bs: Seq<Block>, c: char, s: crate::elements::TextStyle)
    requires
        bs.len() >= 1,
    ensures
        joined(bs.update(bs.len() - 1, Block::Text(text_of(bs.last()).push(c), s))) == joined(
            bs,
        ).push(c),
{
    let u = bs.update(bs.len() - 1, Block::Text(text_of(bs.last()).push(c), s));
    if bs.len() == 1 {
        assert(u[0] == Block::Text(text_of(bs.last()).push(c), s));
    } else {
        assert(u.drop_last() =~= bs.drop_last());
        assert(joined(u) =~= joined(bs).push(c));
    }
}

proof fn lemma_joined_add(bs: Seq<Block>, t: Seq<char>)
    requires
        plain_lines(bs),
    ensures
        plain_lines(add_lines(bs, lines(t), plain())),
        add_lines(bs, lines(t), plain()).len() >= 1,
        joined(add_lines(bs, lines(t), plain())) == joined(bs) + t,
    decreases t.len(),
{
    let r = add_lines(bs, lines(t), plain());
    if t.len() == 0 {
        assert(lines(t) =~= seq![Seq::<char>::empty()]);
        if bs.len() > 0 {
            assert(is_text(bs[bs.len() - 1]));
            assert(text_of(bs.last()) + Seq::<char>::empty() =~= text_of(bs.last()));
            assert(runs(lines(t).skip(1), plain()) =~= Seq::<Block>::empty());
            assert(r =~= bs);
        } else {
            assert(runs(lines(t), plain()) =~= seq![Block::Text(Seq::empty(), plain())]);
            assert(r =~= seq![Block::Text(Seq::empty(), plain())]);
            assert(no_line_break(text_of(r[0])));
        }
        assert(joined(bs) + t =~= joined(bs));
    } else {
        let p = t.drop_last();
        let c = t.last();
        assert(p.push(c) =~= t);
        lemma_joined_add(bs, p);
        lemma_lines_push(p, c);
        lemma_lines_len(p);
        let r0 = add_lines(bs, lines(p), plain());
        if c == '\n' {
            lemma_add_lines_break(bs, lines(p), plain());
            lemma_joined_push(r0, Block::Text(Seq::empty(), plain()));
            assert(r == r0.push(Block::Text(Seq::empty(), plain())));
            assert(no_line_break(text_of(r[r.len() - 1])));
            assert(plain_lines(r)) by {
                assert forall|k: int| 0 <= k < r.len() implies is_text(#[trigger] r[k])
                    && no_line_break(text_of(r[k])) && style_of_block(r[k]) == plain() by {
                    if k < r0.len() {
                        assert(r[k] == r0[k]);
                    }
                }
            }
            assert(joined(r) =~= joined(bs) + t);
        } else {
            lemma_add_lines_char(bs, lines(p), plain(), c);
            let x = text_of(r0.last());
            assert(r == r0.update(r0.len() - 1, Block::Text(x.push(c), style_of_block(r0.last()))));
            lemma_joined_last_char(r0, c, style_of_block(r0.last()));
            assert(plain_lines(r)) by {
                assert forall|k: int| 0 <= k < r.len() implies is_text(#[trigger] r[k])
                    && no_line_break(text_of(r[k])) && style_of_block(r[k]) == plain() by {
                    if k < r0.len() - 1 {
                        assert(r[k] == r0[k]);
                    } else {
                        assert(r0[r0.len() - 1] == r0.last());
                        assert(no_line_break(x));
                        assert(text_of(r[k]) == x.push(c));
                    }
                }
            }
            assert(joined(r) =~= joined(bs) + t);
        }
    }
}

/// A document of text inserts without attributes converts to plain text runs
/// that hold no line break and that, joined with line breaks, give back all the
/// inserted text: each line break of the input is a paragraph boundary.
pub proof fn law_plain_text_kept(ops: Seq<Op>, dir: Option<Seq<char>>)
    requires
        forall|i: int| 0 <= i < ops.len() ==> is_plain_insert(#[trigger] ops[i]),
    ensures
        render(ops, dir) is Ok,
        match render(ops, dir) {
            Ok(bs) => plain_lines(bs) && joined(bs) == inserted_text(ops),
            Err(_) => false,
        },
    decreases ops.len(),
{
    if ops.len() > 0 {
        let p = ops.drop_last();
        assert forall|i: int| 0 <= i < p.len() implies is_plain_insert(#[trigger] p[i]) by {
            assert(p[i] == ops[i]);
        }
        law_plain_text_kept(p, dir);
        let op = ops.last();
        assert(is_plain_insert(ops[ops.len() - 1]));
        let st = match run(p, dir) {
            Ok(st) => st,
            Err(_) => start(),
        };
        if let Change::Insert(DeltaType::String(t)) = op.change {
            assert(op.attrs() =~= Seq::<Attribute>::empty());
            assert(apply_attrs(st, op.attrs()) == st);
            assert(style_for(op.attrs()) == plain());
            lemma_joined_add(st.blocks, t@);
            assert(inserted_text(ops) == inserted_text(p) + t@);
        }
    }
}

/// Converting the same document with the same image directory twice gives
/// the same elements, or the same error.
pub proof fn law_conversion_deterministic(
    a: DeltaPdf,
    b: DeltaPdf,
    ra: Result<Vec<PdfElement>, DeltaPdfError>,
    rb: Result<Vec<PdfElement>, DeltaPdfError>,
)
    requires
        a.delta.ops@ == b.delta.ops@,
        a.image_dir() == b.image_dir(),
        result_view(ra) == render(a.delta.ops@, a.image_dir()),
        result_view(rb) == render(b.delta.ops@, b.image_dir()),
    ensures
        result_view(ra) == result_view(rb),
{
}

/// A text insert followed by a text insert whose only attribute is a heading
/// of level `level` sets the font size of the first insert's last line: 18 for
/// level 1, 16 for level 2; any other level leaves it as it was.
pub proof fn law_heading_sets_previous_line(
    ops: Seq<Op>,
    dir: Option<Seq<char>>,
    i: int,
    level: u8,
)
    requires
        0 <= i,
        i + 1 < ops.len(),
        text_insert(ops[i]) is Some,
        text_insert(ops[i + 1]) is Some,
        ops[i + 1].attrs() == seq![Attribute::Header(level)],
        render(ops.take(i + 1), dir) is Ok,
    ensures
        match (render(ops.take(i + 1), dir), render(ops.take(i + 2), dir)) {
            (Ok(b1), Ok(b2)) => {
                &&& 1 <= b1.len() <= b2.len()
                &&& is_text(b1.last())
                &&& is_text(b2[b1.len() - 1])
                &&& style_of_block(b2[b1.len() - 1]).font_size == match heading_size(level) {
                    Some(size) => Some(size),
                    None => style_of_block(b1.last()).font_size,
                }
            },
            _ => false,
        },
{
    let q0 = ops.take(i);
    let q1 = ops.take(i + 1);
    let q2 = ops.take(i + 2);
    assert(q1.drop_last() =~= q0);
    assert(q2.drop_last() =~= q1);
    assert(q1.last() == ops[i]);
    assert(q2.last() == ops[i + 1]);
    let st0 = match run(q0, dir) {
        Ok(st) => st,
        Err(_) => start(),
    };
    assert(run(q0, dir) is Ok);
    let a0 = ops[i].attrs();
    let st0b = apply_attrs(st0, a0);
    if let Change::Insert(DeltaType::String(t)) = ops[i].change {
        lemma_lines_len(t@);
        lemma_add_lines_char(st0b.blocks, lines(t@), style_for(a0), ' ');
    }
    let st1 = match run(q1, dir) {
        Ok(st) => st,
        Err(_) => start(),
    };
    let b1 = st1.blocks;
    assert(b1.len() >= 1 && is_text(b1.last()));
    let a1 = ops[i + 1].attrs();
    assert(a1.drop_last() =~= Seq::<Attribute>::empty());
    assert(apply_attrs(st1, a1.drop_last()) == st1);
    assert(a1.last() == Attribute::Header(level));
    assert(apply_attrs(st1, a1) == apply_attr(st1, Attribute::Header(level)));
    let st1b = apply_attrs(st1, a1);
    assert(st1b.blocks.len() == b1.len());
    assert(is_text(st1b.blocks.last()));
    assert(style_of_block(st1b.blocks.last()).font_size == match heading_size(level) {
        Some(size) => Some(size),
        None => style_of_block(b1.last()).font_size,
    });
    if let Change::Insert(DeltaType::String(u)) = ops[i + 1].change {
        let b2 = add_lines(st1b.blocks, lines(u@), style_for(a1));
        lemma_lines_len(u@);
        assert(b2[b1.len() - 1] == Block::Text(
            text_of(st1b.blocks.last()) + lines(u@)[0],
            style_of_block(st1b.blocks.last()),
        ));
    }
}

/// The blocks of a run of ordered items: item `k` numbered `k + 1`, then the
/// empty line that the last line break opened.
pub open spec fn numbered(items: Seq<Seq<char>>) -> Seq<Block> {
    if items.len() == 0 {
        Seq::empty()
    } else {
        Seq::new(
            (items.len() + 1) as nat,
            |k: int|
                if k < items.len() {
                    Block::Text(marker((k + 1) as u64) + items[k], plain())
                } else {
                    Block::Text(Seq::empty(), plain())
                },
        )
    }
}

/// `ops` is a run of ordered list items: the text of each item, with no line
/// break and no attribute, followed by a line break whose only attribute is
/// `list: ordered`.
pub open spec fn is_ordered_run(ops: Seq<Op>, items: Seq<Seq<char>>) -> bool {
    &&& ops.len() == 2 * items.len()
    &&& forall|k: int|
        0 <= k < items.len() ==> {
            &&& text_insert(ops[2 * k]) == Some(#[trigger] items[k])
            &&& ops[2 * k].attrs().len() == 0
            &&& no_line_break(items[k])
            &&& text_insert(ops[2 * k + 1]) == Some(seq!['\n'])
            &&& ops[2 * k + 1].attrs() == seq![Attribute::List(ListType::Ordered)]
        }
}

proof fn lemma_lines_single(t: Seq<char>)
    requires
        no_line_break(t),
    ensures
        lines(t) == seq![t],
    decreases t.len(),
{
    if t.len() > 0 {
        assert(no_line_break(t.drop_last()));
        assert(t[t.len() - 1] != '\n');
        lemma_lines_single(t.drop_last());
        assert(t.drop_last().push(t.last()) =~= t);
        let prev = lines(t.drop_last());
        assert(lines(t) == prev.update(prev.len() - 1, prev.last().push(t.last())));
        assert(prev.update(0, prev.last().push(t.last())) =~= seq![t]);
    } else {
        assert(t =~= Seq::<char>::empty());
    }
}

proof fn lemma_lines_break()
    ensures
        lines(seq!['\n']) == seq![Seq::<char>::empty(), Seq::<char>::empty()],
{
    assert(seq!['\n'].drop_last() =~= Seq::<char>::empty());
    assert(lines(Seq::<char>::empty()) =~= seq![Seq::<char>::empty()]);
    assert(lines(seq!['\n']) =~= seq![Seq::<char>::empty(), Seq::<char>::empty()]);
}

proof fn lemma_attrs_empty(st: Build, attrs: Seq<Attribute>)
    requires
        attrs.len() == 0,
    ensures
        apply_attrs(st, attrs) == st,
        style_for(attrs) == plain(),
{
}

proof fn lemma_attrs_single(st: Build, a: Attribute)
    ensures
        apply_attrs(st, seq![a]) == apply_attr(st, a),
{
    assert(seq![a].drop_last() =~= Seq::<Attribute>::empty());
    assert(apply_attrs(st, seq![a].drop_last()) == st);
    assert(seq![a].last() == a);
}

/// A text insert without attribute or line break extends the last block.
proof fn lemma_step_text(st: Build, op: Op, t: Seq<char>, dir: Option<Seq<char>>)
    requires
        text_insert(op) == Some(t),
        op.attrs().len() == 0,
        no_line_break(t),
        st.blocks.len() > 0,
        is_text(st.blocks.last()),
    ensures
        step(st, op, dir) == Ok::<Build, DeltaPdfError>(
            Build {
                blocks: st.blocks.update(
                    st.blocks.len() - 1,
                    Block::Text(text_of(st.blocks.last()) + t, style_of_block(st.blocks.last())),
                ),
                ordinal: st.ordinal,
            },
        ),
{
    lemma_attrs_empty(st, op.attrs());
    lemma_lines_single(t);
    let ls = seq![t];
    assert(runs(ls.skip(1), plain()) =~= Seq::<Block>::empty());
    let b = st.blocks.update(
        st.blocks.len() - 1,
        Block::Text(text_of(st.blocks.last()) + t, style_of_block(st.blocks.last())),
    );
    assert(add_lines(st.blocks, ls, plain()) =~= b);
}

/// A line break ends the last block and opens an empty one.
proof fn lemma_step_break(st: Build, op: Op, dir: Option<Seq<char>>)
    requires
        text_insert(op) == Some(seq!['\n']),
        apply_attrs(st, op.attrs()).blocks.len() > 0,
        is_text(apply_attrs(st, op.attrs()).blocks.last()),
    ensures
        step(st, op, dir) == Ok::<Build, DeltaPdfError>(
            Build {
                blocks: apply_attrs(st, op.attrs()).blocks.push(
                    Block::Text(Seq::empty(), style_for(op.attrs())),
                ),
                ordinal: apply_attrs(st, op.attrs()).ordinal,
            },
        ),
{
    lemma_lines_break();
    let st2 = apply_attrs(st, op.attrs());
    let bs = st2.blocks;
    let ls = seq![Seq::<char>::empty(), Seq::<char>::empty()];
    let style = style_for(op.attrs());
    assert(ls.skip(1) =~= seq![Seq::<char>::empty()]);
    assert(runs(ls.skip(1), style) =~= seq![Block::Text(Seq::empty(), style)]);
    assert(text_of(bs.last()) + Seq::<char>::empty() =~= text_of(bs.last()));
    assert(bs.update(bs.len() - 1, Block::Text(text_of(bs.last()), style_of_block(bs.last())))
        =~= bs);
    assert(add_lines(bs, ls, style) =~= bs.push(Block::Text(Seq::empty(), style)));
}

proof fn lemma_ordered_run(ops: Seq<Op>, items: Seq<Seq<char>>, dir: Option<Seq<char>>)
    requires
        is_ordered_run(ops, items),
        items.len() < u64::MAX,
    ensures
        run(ops, dir) == Ok::<Build, DeltaPdfError>(
            Build { blocks: numbered(items), ordinal: (items.len() + 1) as u64 },
        ),
    decreases items.len(),
{
    let n = items.len() as int;
    if n == 0 {
        assert(ops =~= Seq::<Op>::empty());
        assert(numbered(items) =~= Seq::<Block>::empty());
    } else {
        let p = ops.subrange(0, 2 * (n - 1));
        let pi = items.drop_last();
        assert forall|k: int| 0 <= k < pi.len() implies {
            &&& text_insert(p[2 * k]) == Some(#[trigger] pi[k])
            &&& p[2 * k].attrs().len() == 0
            &&& no_line_break(pi[k])
            &&& text_insert(p[2 * k + 1]) == Some(seq!['\n'])
            &&& p[2 * k + 1].attrs() == seq![Attribute::List(ListType::Ordered)]
        } by {
            assert(pi[k] == items[k]);
            assert(p[2 * k] == ops[2 * k]);
            assert(p[2 * k + 1] == ops[2 * k + 1]);
        }
        lemma_ordered_run(p, pi, dir);
        let qa = ops.subrange(0, 2 * n - 1);
        assert(qa.drop_last() =~= p);
        assert(qa.last() == ops[2 * (n - 1)]);
        assert(ops.drop_last() =~= qa);
        let t = items[n - 1];
        assert(text_insert(ops[2 * (n - 1)]) == Some(t));
        let st = Build { blocks: numbered(pi), ordinal: n as u64 };
        let ba = Seq::new(
            n as nat,
            |k: int|
                if k < n - 1 {
                    Block::Text(marker((k + 1) as u64) + items[k], plain())
                } else {
                    Block::Text(t, plain())
                },
        );
        let sta = Build { blocks: ba, ordinal: n as u64 };
        if n == 1 {
            let opa = ops[0];
            lemma_attrs_empty(st, opa.attrs());
            lemma_lines_single(t);
            assert(runs(seq![t], plain()) =~= seq![Block::Text(t, plain())]);
            assert(add_lines(st.blocks, seq![t], plain()) =~= ba);
            assert(step(st, opa, dir) == Ok::<Build, DeltaPdfError>(sta));
        } else {
            lemma_step_text(st, ops[2 * (n - 1)], t, dir);
            assert(Seq::<char>::empty() + t =~= t);
            assert(numbered(pi).update(n - 1, Block::Text(Seq::empty() + t, plain())) =~= ba);
        }
        assert(run(qa, dir) == Ok::<Build, DeltaPdfError>(sta));
        let opb = ops[2 * n - 1];
        assert(2 * n - 1 == 2 * (n - 1) + 1);
        assert(opb.attrs() == seq![Attribute::List(ListType::Ordered)]);
        lemma_attrs_single(sta, Attribute::List(ListType::Ordered));
        if n >= 2 {
            let prev = ba[n - 2];
            let m = marker((n - 1) as u64);
            assert(prev == Block::Text(m + items[n - 2], plain()));
            assert((m + items[n - 2]).subrange(0, 0 + m.len() as int) =~= m);
            assert(crate::text::contains(text_of(prev), m));
        }
        assert(crate::elements::ordinal(ba, n as u64) == n as u64);
        let bb = ba.update(n - 1, Block::Text(marker(n as u64) + t, plain()));
        assert(apply_attrs(sta, opb.attrs()) == Build { blocks: bb, ordinal: (n + 1) as u64 });
        lemma_step_break(sta, opb, dir);
        let oa = seq![Attribute::List(ListType::Ordered)];
        assert(oa.drop_last() =~= Seq::<Attribute>::empty());
        assert(style_for(oa.drop_last()) == plain());
        assert(style_for(opb.attrs()) == plain());
        assert(bb.push(Block::Text(Seq::empty(), style_for(opb.attrs()))) =~= numbered(items));
    }
}

/// A document that is a run of `N` ordered list items numbers them `"1. "` to
/// `"N. "` in order, each in front of its own line.
pub proof fn law_ordered_run_numbered(
    ops: Seq<Op>,
    items: Seq<Seq<char>>,
    dir: Option<Seq<char>>,
)
    requires
        is_ordered_run(ops, items),
        items.len() < u64::MAX,
    ensures
        render(ops, dir) == Ok::<Seq<Block>, DeltaPdfError>(numbered(items)),
{
    lemma_ordered_run(ops, items, dir);
}

/// After a run of ordered items, a line without attributes whose text does
/// not hold the last item's marker breaks the run: the next ordered item is
/// numbered `"1. "` again.
pub proof fn law_ordered_restart(
    ops: Seq<Op>,
    items: Seq<Seq<char>>,
    x: Seq<char>,
    y: Seq<char>,
    dir: Option<Seq<char>>,
)
    requires
        1 <= items.len() < u64::MAX,
        ops.len() == 2 * items.len() + 4,
        is_ordered_run(ops.take(2 * (items.len() as int)), items),
        text_insert(ops[2 * (items.len() as int)]) == Some(x),
        ops[2 * (items.len() as int)].attrs().len() == 0,
        no_line_break(x),
        !crate::text::contains(x, marker(items.len() as u64)),
        text_insert(ops[2 * (items.len() as int) + 1]) == Some(seq!['\n']),
        ops[2 * (items.len() as int) + 1].attrs().len() == 0,
        text_insert(ops[2 * (items.len() as int) + 2]) == Some(y),
        ops[2 * (items.len() as int) + 2].attrs().len() == 0,
        no_line_break(y),
        text_insert(ops[2 * (items.len() as int) + 3]) == Some(seq!['\n']),
        ops[2 * (items.len() as int) + 3].attrs() == seq![Attribute::List(ListType::Ordered)],
    ensures
        match render(ops, dir) {
            Ok(bs) => bs.len() >= 2 && bs[bs.len() - 2] == Block::Text(marker(1) + y, plain()),
            Err(_) => false,
        },
{
    let n = items.len() as int;
    let q0 = ops.take(2 * n);
    lemma_ordered_run(q0, items, dir);
    let st0 = Build { blocks: numbered(items), ordinal: (n + 1) as u64 };
    let q1 = ops.take(2 * n + 1);
    let q2 = ops.take(2 * n + 2);
    let q3 = ops.take(2 * n + 3);
    assert(q1.drop_last() =~= q0);
    assert(q2.drop_last() =~= q1);
    assert(q3.drop_last() =~= q2);
    assert(ops.drop_last() =~= q3);
    assert(q1.last() == ops[2 * n]);
    assert(q2.last() == ops[2 * n + 1]);
    assert(q3.last() == ops[2 * n + 2]);
    let b0 = numbered(items);
    assert(b0.last() == Block::Text(Seq::empty(), plain()));
    lemma_step_text(st0, ops[2 * n], x, dir);
    assert(Seq::<char>::empty() + x =~= x);
    let b1 = b0.update(b0.len() - 1, Block::Text(x, plain()));
    let st1 = Build { blocks: b1, ordinal: (n + 1) as u64 };
    assert(run(q1, dir) == Ok::<Build, DeltaPdfError>(st1));
    lemma_attrs_empty(st1, ops[2 * n + 1].attrs());
    lemma_step_break(st1, ops[2 * n + 1], dir);
    let b2 = b1.push(Block::Text(Seq::empty(), plain()));
    let st2 = Build { blocks: b2, ordinal: (n + 1) as u64 };
    assert(run(q2, dir) == Ok::<Build, DeltaPdfError>(st2));
    lemma_step_text(st2, ops[2 * n + 2], y, dir);
    assert(Seq::<char>::empty() + y =~= y);
    let b3 = b2.update(b2.len() - 1, Block::Text(y, plain()));
    let st3 = Build { blocks: b3, ordinal: (n + 1) as u64 };
    assert(run(q3, dir) == Ok::<Build, DeltaPdfError>(st3));
    let op = ops[2 * n + 3];
    lemma_attrs_single(st3, Attribute::List(ListType::Ordered));
    assert(b3[b3.len() - 2] == Block::Text(x, plain()));
    assert(crate::elements::before((n + 1) as u64) == n as u64);
    assert(crate::elements::ordinal(b3, (n + 1) as u64) == 1);
    let b4 = b3.update(b3.len() - 1, Block::Text(marker(1) + y, plain()));
    assert(apply_attrs(st3, op.attrs()).blocks == b4);
    lemma_step_break(st3, op, dir);
    let b5 = b4.push(Block::Text(Seq::empty(), style_for(op.attrs())));
    assert(b5[b5.len() - 2] == Block::Text(marker(1) + y, plain()));
}

/// Every block's text holds no line break.
pub open spec fn single_lines(bs: Seq<Block>) -> bool {
    forall|k: int| 0 <= k < bs.len() ==> no_line_break(text_of(#[trigger] bs[k]))
}

proof fn lemma_lines_hold_no_break(t: Seq<char>)
    ensures
        forall|k: int| 0 <= k < lines(t).len() ==> no_line_break(#[trigger] lines(t)[k]),
    decreases t.len(),
{
    if t.len() > 0 {
        let p = t.drop_last();
        lemma_lines_hold_no_break(p);
        lemma_lines_len(p);
        let prev = lines(p);
        if t.last() != '\n' {
            assert forall|k: int| 0 <= k < lines(t).len() implies no_line_break(
                #[trigger] lines(t)[k],
            ) by {
                if k == prev.len() - 1 {
                    assert(lines(t)[k] == prev[k].push(t.last()));
                    assert(no_line_break(prev[k]));
                } else {
                    assert(lines(t)[k] == prev[k]);
                }
            }
        } else {
            assert forall|k: int| 0 <= k < lines(t).len() implies no_line_break(
                #[trigger] lines(t)[k],
            ) by {
                if k < prev.len() {
                    assert(lines(t)[k] == prev[k]);
                }
            }
        }
    }
}

proof fn lemma_decimal_no_break(n: nat)
    ensures
        no_line_break(crate::text::decimal(n)),
    decreases n,
{
    if n >= 10 {
        lemma_decimal_no_break(n / 10);
    }
}

proof fn lemma_prefix_no_break(bs: Seq<Block>, p: Seq<char>)
    requires
        single_lines(bs),
        no_line_break(p),
    ensures
        single_lines(crate::elements::with_prefix(bs, p)),
{
    let r = crate::elements::with_prefix(bs, p);
    assert forall|k: int| 0 <= k < r.len() implies no_line_break(text_of(#[trigger] r[k])) by {
        if bs.len() > 0 && is_text(bs.last()) && k == bs.len() - 1 {
            assert(no_line_break(text_of(bs[k])));
            assert(text_of(r[k]) == p + text_of(bs[k]));
        } else {
            assert(r[k] == bs[k]);
        }
    }
}

proof fn lemma_attr_no_break(st: Build, a: Attribute)
    requires
        single_lines(st.blocks),
    ensures
        single_lines(apply_attr(st, a).blocks),
{
    match a {
        Attribute::Header(level) => {
            if let Some(size) = heading_size(level) {
                let r = crate::elements::with_heading(st.blocks, size);
                assert forall|k: int| 0 <= k < r.len() implies no_line_break(
                    text_of(#[trigger] r[k]),
                ) by {
                    assert(text_of(r[k]) == text_of(st.blocks[k]));
                }
            }
        },
        Attribute::List(ListType::Bullet) => {
            lemma_prefix_no_break(st.blocks, crate::elements::bullet());
        },
        Attribute::List(ListType::Ordered) => {
            let n = crate::elements::ordinal(st.blocks, st.ordinal);
            lemma_decimal_no_break(n as nat);
            lemma_prefix_no_break(st.blocks, marker(n));
        },
        _ => {},
    }
}

proof fn lemma_attrs_no_break(st: Build, attrs: Seq<Attribute>)
    requires
        single_lines(st.blocks),
    ensures
        single_lines(apply_attrs(st, attrs).blocks),
    decreases attrs.len(),
{
    if attrs.len() > 0 {
        lemma_attrs_no_break(st, attrs.drop_last());
        lemma_attr_no_break(apply_attrs(st, attrs.drop_last()), attrs.last());
    }
}

proof fn lemma_add_lines_no_break(bs: Seq<Block>, t: Seq<char>, style: crate::elements::TextStyle)
    requires
        single_lines(bs),
    ensures
        single_lines(add_lines(bs, lines(t), style)),
{
    let ls = lines(t);
    lemma_lines_hold_no_break(t);
    lemma_lines_len(t);
    let r = add_lines(bs, ls, style);
    assert forall|k: int| 0 <= k < r.len() implies no_line_break(text_of(#[trigger] r[k])) by {
        if bs.len() > 0 && is_text(bs.last()) {
            if k < bs.len() - 1 {
                assert(r[k] == bs[k]);
            } else if k == bs.len() - 1 {
                assert(no_line_break(text_of(bs[k])));
                assert(no_line_break(ls[0]));
                assert(text_of(r[k]) == text_of(bs[k]) + ls[0]);
            } else {
                assert(r[k] == Block::Text(ls[k - bs.len() + 1], style));
                assert(no_line_break(ls[k - bs.len() + 1]));
            }
        } else {
            if k < bs.len() {
                assert(r[k] == bs[k]);
            } else {
                assert(r[k] == Block::Text(ls[k - bs.len()], style));
                assert(no_line_break(ls[k - bs.len()]));
            }
        }
    }
}

proof fn lemma_run_no_break(ops: Seq<Op>, dir: Option<Seq<char>>)
    ensures
        match run(ops, dir) {
            Ok(st) => single_lines(st.blocks),
            Err(_) => true,
        },
    decreases ops.len(),
{
    if ops.len() > 0 {
        lemma_run_no_break(ops.drop_last(), dir);
        if let Ok(st) = run(ops.drop_last(), dir) {
            let op = ops.last();
            match op.change {
                Change::Insert(DeltaType::String(t)) => {
                    lemma_attrs_no_break(st, op.attrs());
                    lemma_add_lines_no_break(
                        apply_attrs(st, op.attrs()).blocks,
                        t@,
                        style_for(op.attrs()),
                    );
                },
                Change::Insert(DeltaType::Image(img)) => {
                    if let Ok(path) = crate::image::resolve(img.image@, dir) {
                        let r = st.blocks.push(Block::Image(path));
                        assert forall|k: int| 0 <= k < r.len() implies no_line_break(
                            text_of(#[trigger] r[k]),
                        ) by {
                            if k < st.blocks.len() {
                                assert(r[k] == st.blocks[k]);
                            }
                        }
                    }
                },
                _ => {},
            }
        }
    } else {
        assert(single_lines(start().blocks));
    }
}

/// Whatever the document, every text run that the conversion makes holds a
/// single line: line breaks only ever separate runs.
pub proof fn law_runs_are_single_lines(ops: Seq<Op>, dir: Option<Seq<char>>)
    ensures
        match render(ops, dir) {
            Ok(bs) => single_lines(bs),
            Err(_) => true,
        },
{
    lemma_run_no_break(ops, dir);
}

/// The image URL of an operation, when it inserts an image.
pub open spec fn image_insert(op: Op) -> Option<Seq<char>> {
    match op.change {
        Change::Insert(DeltaType::Image(img)) => Some(img.image@),
        _ => None,
    }
}

/// The conversion fails exactly when some inserted image does not resolve,
/// and then with the error of the first such image.
pub proof fn law_fails_only_on_images(ops: Seq<Op>, dir: Option<Seq<char>>)
    ensures
        (forall|i: int|
            0 <= i < ops.len() && #[trigger] image_insert(ops[i]) is Some ==> crate::image::resolve(
                image_insert(ops[i])->Some_0,
                dir,
            ) is Ok) <==> render(ops, dir) is Ok,
        match render(ops, dir) {
            Ok(_) => true,
            Err(e) => exists|i: int|
                0 <= i < ops.len() && #[trigger] image_insert(ops[i]) is Some
                    && crate::image::resolve(image_insert(ops[i])->Some_0, dir) == Err::<
                    Seq<char>,
                    DeltaPdfError,
                >(e) && forall|j: int|
                    0 <= j < i && image_insert(ops[j]) is Some ==> crate::image::resolve(
                        image_insert(ops[j])->Some_0,
                        dir,
                    ) is Ok,
        },
    decreases ops.len(),
{
    if ops.len() > 0 {
        let p = ops.drop_last();
        law_fails_only_on_images(p, dir);
        assert forall|i: int| 0 <= i < p.len() implies p[i] == ops[i] by {}
        let last = ops.len() - 1;
        assert(ops[last] == ops.last());
        match run(p, dir) {
            Ok(st) => {
                let op = ops.last();
                match op.change {
                    Change::Insert(DeltaType::Image(img)) => {
                        assert(image_insert(ops[last]) is Some);
                        if crate::image::resolve(img.image@, dir) is Ok {
                            assert forall|j: int|
                                0 <= j < ops.len() && #[trigger] image_insert(ops[j]) is Some
                                    implies crate::image::resolve(image_insert(ops[j])->Some_0, dir)
                                    is Ok by {
                                if j < last {
                                    assert(image_insert(p[j]) is Some);
                                }
                            }
                        }
                    },
                    _ => {
                        assert forall|j: int|
                            0 <= j < ops.len() && #[trigger] image_insert(ops[j]) is Some
                                implies crate::image::resolve(image_insert(ops[j])->Some_0, dir)
                                is Ok by {
                            if j < last {
                                assert(image_insert(p[j]) is Some);
                            }
                        }
                    },
                }
            },
            Err(e) => {
                let i = choose|i: int|
                    0 <= i < p.len() && #[trigger] image_insert(p[i]) is Some
                        && crate::image::resolve(image_insert(p[i])->Some_0, dir) == Err::<
                        Seq<char>,
                        DeltaPdfError,
                    >(e) && forall|j: int|
                        0 <= j < i && image_insert(p[j]) is Some ==> crate::image::resolve(
                            image_insert(p[j])->Some_0,
                            dir,
                        ) is Ok;
                assert(image_insert(ops[i]) is Some);
                assert forall|j: int|
                    0 <= j < i && image_insert(ops[j]) is Some implies crate::image::resolve(
                        image_insert(ops[j])->Some_0,
                        dir,
                    ) is Ok by {
                    assert(image_insert(p[j]) is Some);
                }
            },
        }
    }
}

} // verus!
