//! Conversion of rich-text change lists into layout-ready blocks.
//!
//! A document is a list of insert, delete and retain operations, each with
//! optional bold, italic, header and list attributes. Only inserts are
//! rendered: text becomes styled runs, one per line, and images become file
//! paths under an image directory. Header and list attributes apply to the
//! line that was emitted last, since the format puts them on the line break
//! that ends it.
use vstd::prelude::*;

pub mod delta;
pub mod elements;
pub mod image;
pub mod laws;
pub mod text;

use crate::delta::{Attribute, Change, Delta, DeltaType, Op};
use crate::elements::{
    add_text, apply_attribute, apply_attrs, blocks, render, run, style_for, Block, Build,
    PdfElement, TextStyle,
};
use crate::image::{dir_view, resolve_image, DeltaPdfError};

verus! {

/// The text that a list of operations inserts, in order; images, deletes and
/// retains add none.
pub open spec fn inserted_text(ops: Seq<Op>) -> Seq<char>
    decreases ops.len(),
{
    if ops.len() == 0 {
        Seq::empty()
    } else {
        inserted_text(ops.drop_last()) + match ops.last().change {
            Change::Insert(DeltaType::String(t)) => t@,
            _ => Seq::empty(),
        }
    }
}

/// Struct that holds the parsed Delta.
pub struct DeltaPdf {
    pub delta: Delta,
    pub images_path: Option<String>,
}

/// The blocks of a conversion's result.
pub open spec fn result_view(r: Result<Vec<PdfElement>, DeltaPdfError>) -> Result<
    Seq<Block>,
    DeltaPdfError,
> {
    match r {
        Ok(v) => Ok(blocks(v@)),
        Err(e) => Err(e),
    }
}

proof fn lemma_run_error_stays(ops: Seq<Op>, dir: Option<Seq<char>>, k: int)
    requires
        0 <= k <= ops.len(),
        run(ops.take(k), dir) is Err,
    ensures
        run(ops, dir) == run(ops.take(k), dir),
    decreases ops.len(),
{
    if k == ops.len() {
        assert(ops.take(k) =~= ops);
    } else {
        assert(ops.drop_last().take(k) =~= ops.take(k));
        lemma_run_error_stays(ops.drop_last(), dir, k);
    }
}

impl DeltaPdf {
    /// The image directory, when one is set.
    pub open spec fn image_dir(&self) -> Option<Seq<char>> {
        dir_view(self.images_path)
    }

    /// Holds a parsed Delta, with no image directory.
    pub fn new(delta: Delta) -> (r: DeltaPdf)
        ensures
            r.delta == delta,
            r.image_dir() is None,
    {
        DeltaPdf { delta, images_path: None }
    }

    /// Set the location of where images are located.
    /// The last segment of the image url will be used as the image name.
    /// If the URL is: `https://example.com/image.png` then
    /// the library will try to get `image.png` from the image directory.
    pub fn set_image_dir(&mut self, path: String)
        ensures
            final(self).delta == old(self).delta,
            final(self).image_dir() == Some(path@),
    {
        self.images_path = Some(path);
    }

    /// The text that the document inserts, without formatting and images.
    pub fn to_string(&self) -> (r: String)
        ensures
            r@ == inserted_text(self.delta.ops@),
    {
        let mut result = String::new();
        let n = self.delta.ops.len();
        let mut i: usize = 0;
        while i < n
            invariant
                n == self.delta.ops@.len(),
                i <= n,
                result@ == inserted_text(self.delta.ops@.take(i as int)),
            decreases n - i,
        {
            proof {
                assert(self.delta.ops@.take(i + 1).drop_last() =~= self.delta.ops@.take(i as int));
            }
            if let Change::Insert(DeltaType::String(text)) = &self.delta.ops[i].change {
                result.append(text.as_str());
            } else {
                assert(inserted_text(self.delta.ops@.take(i + 1)) =~= inserted_text(
                    self.delta.ops@.take(i as int),
                ));
            }
            i = i + 1;
        }
        assert(self.delta.ops@.take(n as int) =~= self.delta.ops@);
        result
    }

    /// Converts the document into its elements, in order: text runs with their
    /// styles, and images as paths under the image directory. Fails at the first
    /// image that cannot be resolved.
    pub fn to_elements(&self) -> (r: Result<Vec<PdfElement>, DeltaPdfError>)
        ensures
            result_view(r) == render(self.delta.ops@, self.image_dir()),
    {
        let ghost ops = self.delta.ops@;
        let ghost dir = self.image_dir();
        let mut elems: Vec<PdfElement> = Vec::new();
        let mut counter: u64 = 1;
        let n = self.delta.ops.len();
        let mut i: usize = 0;
        proof {
            assert(ops.take(0) =~= Seq::<Op>::empty());
            assert(blocks(elems@) =~= Seq::<Block>::empty());
        }
        while i < n
            invariant
                ops == self.delta.ops@,
                dir == self.image_dir(),
                n == ops.len(),
                i <= n,
                run(ops.take(i as int), dir) == Ok::<Build, DeltaPdfError>(
                    Build { blocks: blocks(elems@), ordinal: counter },
                ),
            decreases n - i,
        {
            let op = &self.delta.ops[i];
            let ghost st0 = Build { blocks: blocks(elems@), ordinal: counter };
            proof {
                assert(ops.take(i + 1).drop_last() =~= ops.take(i as int));
            }
            match &op.change {
                Change::Insert(DeltaType::String(t)) => {
                    let mut style = TextStyle { bold: false, italic: false, font_size: None };
                    if let Some(attrs) = &op.attributes {
                        let m = attrs.len();
                        let mut j: usize = 0;
                        proof {
                            assert(attrs@.take(0) =~= Seq::<Attribute>::empty());
                        }
                        while j < m
                            invariant
                                m == attrs@.len(),
                                j <= m,
                                style == style_for(attrs@.take(j as int)),
                                apply_attrs(st0, attrs@.take(j as int)) == (Build {
                                    blocks: blocks(elems@),
                                    ordinal: counter,
                                }),
                            decreases m - j,
                        {
                            let a = attrs[j];
                            proof {
                                assert(attrs@.take(j + 1).drop_last() =~= attrs@.take(j as int));
                            }
                            match a {
                                Attribute::Bold(true) => {
                                    style = TextStyle { bold: true, italic: style.italic, font_size: style.font_size };
                                },
                                Attribute::Italic(true) => {
                                    style = TextStyle { bold: style.bold, italic: true, font_size: style.font_size };
                                },
                                _ => {},
                            }
                            counter = apply_attribute(&mut elems, counter, a);
                            j = j + 1;
                        }
                        proof {
                            assert(attrs@.take(m as int) =~= attrs@);
                        }
                    }
                    add_text(&mut elems, t.as_str(), style);
                },
                Change::Insert(DeltaType::Image(img)) => {
                    match resolve_image(img.image.as_str(), &self.images_path) {
                        Ok(path) => {
                            let ghost before_elems = elems@;
                            elems.push(PdfElement::Image(path));
                            proof {
                                elements::lemma_blocks_push(before_elems, elems@.last());
                            }
                        },
                        Err(e) => {
                            proof {
                                lemma_run_error_stays(ops, dir, i + 1);
                            }
                            return Err(e);
                        },
                    }
                },
                _ => {},
            }
            i = i + 1;
        }
        proof {
            assert(ops.take(n as int) =~= ops);
        }
        Ok(elems)
    }
}

} // verus!
