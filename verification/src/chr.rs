//! A minimal byte-indexed stroke renderer: glyphs are looked up directly
//! by character code, with no codepage mapping in between.

use vstd::prelude::*;

pub use crate::font::Point;

use crate::font::{glyph_model, slot_model, FontModel, Glyph};

verus! {

/// Laying a byte string out over a byte-indexed glyph table: each
/// glyph's strokes are translated by the advancing pen position, and
/// characters without a glyph are skipped.
pub open spec fn chr_render_acc(
    font: FontModel,
    text: Seq<u8>,
    i: int,
    x: int,
    acc: Seq<Point>,
) -> Seq<Point>
    decreases text.len() - i,
{
    if i < 0 || i >= text.len() {
        acc
    } else {
        let id = text[i] as int;
        if id >= font.len() || font[id] is None {
            chr_render_acc(font, text, i + 1, x, acc)
        } else {
            let g = font[id]->Some_0;
            chr_render_acc(font, text, i + 1, x + g.1 - g.0, acc + crate::font::glyph_points(g, x))
        }
    }
}

/// The laid-out stroke points of a byte string over a glyph table.
pub open spec fn spec_chr_render(font: FontModel, text: Seq<u8>) -> Seq<Point> {
    chr_render_acc(font, text, 0, 0, Seq::empty())
}

/// Lay a byte string out over a byte-indexed glyph table.
pub fn render_text(text: &[u8], font: &Vec<Option<Glyph>>) -> (r: Vec<Point>)
    requires
        text@.len() <= 8000000,
    ensures
        r@ == spec_chr_render(crate::font::font_model(font@), text@),
        text@.len() == 0 ==> r@.len() == 0,
{
    let ghost fm = crate::font::font_model(font@);
    let mut result: Vec<Point> = Vec::new();
    let mut x_idx: i32 = 0;
    let mut i: usize = 0;
    proof {
        assert(result@ =~= Seq::<Point>::empty());
    }
    while i < text.len()
        invariant
            0 <= i <= text@.len(),
            text@.len() <= 8000000,
            fm == crate::font::font_model(font@),
            fm.len() == font@.len(),
            -255 * i <= x_idx as int <= 255 * i,
            spec_chr_render(fm, text@) == chr_render_acc(
                fm,
                text@,
                i as int,
                x_idx as int,
                result@,
            ),
        decreases text@.len() - i,
    {
        let id = text[i] as usize;
        if id < font.len() {
            proof {
                assert(fm[id as int] == slot_model(font@[id as int]));
            }
            match &font[id] {
                Some(glyph) => {
                    let ghost g = fm[id as int]->Some_0;
                    let ghost x0 = x_idx as int;
                    let ghost acc0 = result@;
                    let mut k: usize = 0;
                    while k < glyph.strokes.len()
                        invariant
                            0 <= k <= glyph.strokes@.len(),
                            g == glyph_model(*glyph),
                            x0 == x_idx as int,
                            -255 * i <= x0 <= 255 * i,
                            i < text@.len() <= 8000000,
                            result@ =~= acc0 + crate::font::glyph_points(g, x0).take(k as int),
                        decreases glyph.strokes@.len() - k,
                    {
                        let p = glyph.strokes[k];
                        let px: i32 = p.x as i32 - glyph.left as i32 + x_idx;
                        proof {
                            assert(crate::font::glyph_points(g, x0)[k as int] == Point {
                                x: (p.x - g.0 + x0) as i32,
                                y: p.y as i32,
                                pen: p.pen,
                            });
                            assert(crate::font::glyph_points(g, x0).take(k + 1)
                                =~= crate::font::glyph_points(g, x0).take(k as int).push(
                                crate::font::glyph_points(g, x0)[k as int],
                            ));
                        }
                        result.push(Point { x: px, y: p.y as i32, pen: p.pen });
                        k = k + 1;
                    }
                    proof {
                        assert(result@ =~= acc0 + crate::font::glyph_points(g, x0));
                    }
                    let advance: i32 = glyph.right as i32 - glyph.left as i32;
                    x_idx = x_idx + advance;
                },
                None => {},
            }
        }
        i = i + 1;
    }
    result
}

} // verus!
