//! Vegetation support: plant shapes, biome names, the surface scan, and clearing
//! the vegetation pixels before regrowth.
use vstd::prelude::*;
use crate::materials::{MaterialId, Materials};
use crate::gen::id_or_zero;
use crate::world::{Pixel, PixelWorld, SimState, empty_px, law_set_then_get, unsettled};

verus! {

/// Shape of a plant.
#[derive(Clone, Copy, Debug, PartialEq, Eq, Structural)]
pub enum VegKind {
    /// A tuft of thin blades.
    Grass,
    /// A stem with a head.
    Flower,
    /// A small crown.
    Bush,
    /// A stalk with a cap.
    Mushroom,
    /// A column with side arms.
    Cactus,
}

/// Name of biome id `b` (0 snow, 1 forest, 2 desert).
pub open spec fn biome_name_spec(b: u8) -> Option<Seq<char>> {
    if b == 0 {
        Some("snow"@)
    } else if b == 1 {
        Some("forest"@)
    } else if b == 2 {
        Some("desert"@)
    } else {
        None
    }
}

/// The biome name that plant definitions use for biome id `b`.
pub fn biome_name(b: u8) -> (r: Option<&'static str>)
    ensures
        r is Some <==> biome_name_spec(b) is Some,
        r matches Some(s) ==> Some(s@) == biome_name_spec(b),
{
    if b == 0 {
        Some("snow")
    } else if b == 1 {
        Some("forest")
    } else if b == 2 {
        Some("desert")
    } else {
        None
    }
}

/// Pixel (x, y) is solid for collision.
pub open spec fn solid_at(pixels: PixelWorld, mats: Materials, x: int, y: int) -> bool {
    mats.def_spec(pixels.pixel(x, y).mat).solid
}

/// `v` is the surface row of column `x`: the first solid row from the top, or half the
/// height when the column has none.
pub open spec fn surface_of(pixels: PixelWorld, mats: Materials, x: int, v: int) -> bool {
    ||| (0 <= v < pixels.height() && solid_at(pixels, mats, x, v) && forall|y: int| 0 <= y < v ==> !#[trigger] solid_at(pixels, mats, x, y))
    ||| (v == pixels.height() / 2 && forall|y: int| 0 <= y < pixels.height() ==> !#[trigger] solid_at(pixels, mats, x, y))
}

/// The surface row of every column (trees and other non-solid decoration are looked through).
pub fn current_surf(pixels: &PixelWorld, mats: &Materials) -> (surf: Vec<i32>)
    requires
        pixels.wf(),
        mats.wf(),
    ensures
        surf@.len() == pixels.width(),
        forall|x: int| 0 <= x < pixels.width() ==> surface_of(*pixels, *mats, x, #[trigger] surf@[x] as int),
{
    let (w, h) = pixels.size();
    let mut surf: Vec<i32> = Vec::new();
    let mut x: i32 = 0;
    while x < w
        invariant
            pixels.wf(),
            mats.wf(),
            w == pixels.width(),
            h == pixels.height(),
            h > 0,
            0 <= x <= w,
            surf@.len() == x,
            forall|a: int| 0 <= a < x ==> surface_of(*pixels, *mats, a, #[trigger] surf@[a] as int),
        decreases w - x,
    {
        let mut y: i32 = 0;
        let mut found = false;
        while !found && y < h
            invariant
                pixels.wf(),
                mats.wf(),
                h == pixels.height(),
                0 <= y <= h,
                found ==> y < h && solid_at(*pixels, *mats, x as int, y as int),
                forall|b: int| 0 <= b < y ==> !#[trigger] solid_at(*pixels, *mats, x as int, b),
            decreases h - y + if found { 0int } else { 1int },
        {
            if mats.def(pixels.get(x, y).mat).solid {
                found = true;
            } else {
                y = y + 1;
            }
        }
        if found {
            surf.push(y);
        } else {
            surf.push(h / 2);
        }
        x = x + 1;
    }
    surf
}

/// The row below which no vegetation is cleared: 64 under the highest surface row
/// listed (half the height when none is), but not past the bottom.
pub open spec fn clear_limit(surf: Seq<i32>, h: int) -> int {
    let top = if surf.len() == 0 { h / 2 } else { seq_max(surf) };
    if top + 64 < h { top + 64 } else { h }
}

/// The largest entry of a non-empty sequence.
pub open spec fn seq_max(s: Seq<i32>) -> int
    decreases s.len(),
{
    if s.len() <= 1 {
        s[0] as int
    } else {
        let m = seq_max(s.drop_last());
        if s.last() > m { s.last() as int } else { m }
    }
}

/// What `clear` leaves at (a, b) given the old pixel `o` there.
pub open spec fn cleared_px(ids: Seq<u8>, limit: int, b: int, o: Pixel, q: Pixel) -> bool {
    if 0 <= b < limit && ids.contains(o.mat) && ids.len() > 0 {
        q == empty_px()
    } else {
        &&& q.mat == o.mat
        &&& q.shade == o.shade
        &&& q.life == o.life
        &&& (q == o || q == unsettled(o))
    }
}

/// Clearing pass after `k` pixels (row by row from the top, `w.width()` per row):
/// each pixel holding one of `ids` is emptied.
pub open spec fn clear_upto(w: PixelWorld, ids: Seq<u8>, st: SimState, k: int) -> SimState
    decreases k,
{
    if k <= 0 {
        st
    } else {
        let p = clear_upto(w, ids, st, k - 1);
        let x = (k - 1) % w.width();
        let y = (k - 1) / w.width();
        if ids.contains((p.px)(x, y).mat) {
            w.set_st(p, x, y, empty_px())
        } else {
            p
        }
    }
}

/// Removes every pixel of a material in `ids` between the top of the world and 64 rows
/// under the highest surface row of `surf`; other pixels keep material, shade and
/// lifetime (neighbours of removed pixels may lose their settled bit).
pub fn clear(pixels: &mut PixelWorld, ids: &[u8], surf: &[i32])
    requires
        old(pixels).wf(),
        forall|k: int| 0 <= k < surf@.len() ==> #[trigger] surf@[k] <= i32::MAX - 64,
    ensures
        final(pixels).wf(),
        final(pixels).same_frame(old(pixels)),
        forall|a: int, b: int|
            old(pixels).in_bounds(a, b) ==> cleared_px(
                ids@,
                clear_limit(surf@, old(pixels).height()),
                b,
                old(pixels).pixel(a, b),
                #[trigger] final(pixels).pixel(a, b),
            ),
        ids@.len() == 0 ==> final(pixels).state() == old(pixels).state(),
        ids@.len() > 0 ==> final(pixels).state() == clear_upto(
            *old(pixels),
            ids@,
            old(pixels).state(),
            clear_limit(surf@, old(pixels).height()) * old(pixels).width(),
        ),
{
    if ids.len() == 0 {
        return;
    }
    let (w, h) = pixels.size();
    let mut top: i32 = h / 2;
    if surf.len() > 0 {
        top = surf[0];
        let mut k: usize = 1;
        proof {
            assert(seq_max(surf@.take(1)) == surf@[0]);
        }
        while k < surf.len()
            invariant
                1 <= k <= surf@.len(),
                top == seq_max(surf@.take(k as int)),
                top <= i32::MAX - 64,
                forall|j: int| 0 <= j < surf@.len() ==> #[trigger] surf@[j] <= i32::MAX - 64,
            decreases surf@.len() - k,
        {
            proof {
                assert(surf@.take(k + 1).drop_last() =~= surf@.take(k as int));
            }
            if surf[k] > top {
                top = surf[k];
            }
            k = k + 1;
        }
        proof {
            assert(surf@.take(surf@.len() as int) =~= surf@);
        }
    }
    let ymax = if top + 64 < h { top + 64 } else { h };
    assert(ymax == clear_limit(surf@, h as int));
    let ghost w0 = *pixels;
    let mut y: i32 = 0;
    while y < ymax
        invariant
            pixels.wf(),
            pixels.same_frame(&w0),
            w0.wf(),
            w == w0.width(),
            w >= 128,
            h == w0.height(),
            ymax <= h,
            ids@.len() > 0,
            0 <= y,
            y <= ymax || y == 0,
            forall|a: int, b: int|
                w0.in_bounds(a, b) ==> cleared_px(ids@, if b < y { ymax as int } else { 0 }, b, w0.pixel(a, b), #[trigger] pixels.pixel(a, b)),
            w0 == *old(pixels),
            pixels.state() == clear_upto(w0, ids@, w0.state(), y * w),
        decreases ymax - y,
    {
        let mut x: i32 = 0;
        while x < w
            invariant
                pixels.wf(),
                pixels.same_frame(&w0),
                w0.wf(),
                w == w0.width(),
                h == w0.height(),
                ymax <= h,
                ids@.len() > 0,
                0 <= y < ymax,
                0 <= x <= w,
                w0 == *old(pixels),
                pixels.state() == clear_upto(w0, ids@, w0.state(), y * w + x),
                forall|a: int, b: int|
                    w0.in_bounds(a, b) ==> cleared_px(
                        ids@,
                        if b < y || (b == y && a < x) { ymax as int } else { 0 },
                        b,
                        w0.pixel(a, b),
                        #[trigger] pixels.pixel(a, b),
                    ),
            decreases w - x,
        {
            proof {
                vstd::arithmetic::div_mod::lemma_fundamental_div_mod_converse((y * w + x) as int, w as int, y as int, x as int);
            }
            let m = pixels.get(x, y).mat;
            let mut hit = false;
            let mut k: usize = 0;
            while k < ids.len()
                invariant
                    0 <= k <= ids@.len(),
                    hit <==> exists|j: int| 0 <= j < k && ids@[j] == m,
                decreases ids@.len() - k,
            {
                if ids[k] == m {
                    hit = true;
                }
                k = k + 1;
            }
            proof {
                assert(hit <==> ids@.contains(m));
                assert(m == w0.pixel(x as int, y as int).mat);
            }
            if hit {
                let ghost before = *pixels;
                pixels.set(x, y, Pixel::default());
                proof {
                    assert forall|a: int, b: int| w0.in_bounds(a, b) implies cleared_px(
                        ids@,
                        if b < y || (b == y && a < x + 1) { ymax as int } else { 0 },
                        b,
                        w0.pixel(a, b),
                        #[trigger] pixels.pixel(a, b),
                    ) by {
                        law_set_then_get(before, before.state(), x as int, y as int, empty_px(), a, b);
                        lemma_unsettled_idem(w0.pixel(a, b));
                        assert(cleared_px(ids@, if b < y || (b == y && a < x) { ymax as int } else { 0 }, b, w0.pixel(a, b), before.pixel(a, b)));
                    }
                }
            } else {
                proof {
                    assert forall|a: int, b: int| w0.in_bounds(a, b) implies cleared_px(
                        ids@,
                        if b < y || (b == y && a < x + 1) { ymax as int } else { 0 },
                        b,
                        w0.pixel(a, b),
                        #[trigger] pixels.pixel(a, b),
                    ) by {
                        assert(cleared_px(ids@, if b < y || (b == y && a < x) { ymax as int } else { 0 }, b, w0.pixel(a, b), pixels.pixel(a, b)));
                    }
                }
            }
            x = x + 1;
        }
        proof {
            assert(y * w + w == (y + 1) * w) by (nonlinear_arith);
            assert forall|a: int, b: int| w0.in_bounds(a, b) implies cleared_px(
                ids@,
                if b < y + 1 { ymax as int } else { 0 },
                b,
                w0.pixel(a, b),
                #[trigger] pixels.pixel(a, b),
            ) by {
                assert(cleared_px(ids@, if b < y || (b == y && a < x) { ymax as int } else { 0 }, b, w0.pixel(a, b), pixels.pixel(a, b)));
            }
        }
        y = y + 1;
    }
    proof {
        if ymax <= 0 {
            assert(ymax * w <= 0) by (nonlinear_arith)
                requires
                    ymax <= 0,
                    w >= 0,
            ;
            assert(clear_upto(w0, ids@, w0.state(), ymax * w) == w0.state());
        }
        assert forall|a: int, b: int| w0.in_bounds(a, b) implies cleared_px(
            ids@,
            clear_limit(surf@, w0.height()),
            b,
            w0.pixel(a, b),
            #[trigger] pixels.pixel(a, b),
        ) by {
            assert(cleared_px(ids@, if b < y { ymax as int } else { 0 }, b, w0.pixel(a, b), pixels.pixel(a, b)));
        }
    }
}

proof fn lemma_unsettled_idem(p: Pixel)
    ensures
        unsettled(unsettled(p)) == unsettled(p),
        unsettled(empty_px()) == empty_px(),
{
    let a = p.aux;
    assert((a & !1u8) & !1u8 == a & !1u8) by (bit_vector);
    assert(0u8 & !1u8 == 0u8) by (bit_vector);
}

/// The material names a plant definition draws with: its body and, optionally, its stem.
pub struct PlantMats {
    pub body: String,
    pub stem: Option<String>,
}

/// The ids the definitions name, in order: each body, then its stem if it has one (0 for
/// names the table lacks).
pub open spec fn ref_ids(defs: Seq<PlantMats>, mats: Materials) -> Seq<MaterialId>
    decreases defs.len(),
{
    if defs.len() == 0 {
        Seq::empty()
    } else {
        let d = defs.last();
        let r = ref_ids(defs.drop_last(), mats).push(id_or_zero(mats, d.body@));
        match d.stem {
            Some(st) => r.push(id_or_zero(mats, st@)),
            None => r,
        }
    }
}

/// `s` without zeros and without repeats, first occurrences kept in order.
pub open spec fn dedup_nonzero(s: Seq<MaterialId>) -> Seq<MaterialId>
    decreases s.len(),
{
    if s.len() == 0 {
        Seq::empty()
    } else {
        let r = dedup_nonzero(s.drop_last());
        if s.last() == 0 || r.contains(s.last()) {
            r
        } else {
            r.push(s.last())
        }
    }
}

fn contains_id(v: &Vec<MaterialId>, x: MaterialId) -> (r: bool)
    ensures
        r == v@.contains(x),
{
    let mut i: usize = 0;
    while i < v.len()
        invariant
            i <= v@.len(),
            forall|j: int| 0 <= j < i ==> v@[j] != x,
        decreases v@.len() - i,
    {
        if v[i] == x {
            return true;
        }
        i = i + 1;
    }
    false
}

fn push_id(out: &mut Vec<MaterialId>, mats: &Materials, name: &str)
    requires
        mats.wf(),
    ensures
        ({
            let k = id_or_zero(*mats, name@);
            final(out)@ == if k == 0 || old(out)@.contains(k) { old(out)@ } else { old(out)@.push(k) }
        }),
{
    if let Some(id) = mats.id(name) {
        if id != 0 && !contains_id(out, id) {
            out.push(id);
        }
    }
}

/// The materials the definitions draw with (bodies and stems the table knows), each once,
/// in first-use order.
pub fn resolve_mats(defs: &[PlantMats], mats: &Materials) -> (out: Vec<MaterialId>)
    requires
        mats.wf(),
    ensures
        out@ == dedup_nonzero(ref_ids(defs@, *mats)),
{
    let mut out: Vec<MaterialId> = Vec::new();
    let mut i: usize = 0;
    while i < defs.len()
        invariant
            mats.wf(),
            i <= defs@.len(),
            out@ == dedup_nonzero(ref_ids(defs@.take(i as int), *mats)),
        decreases defs@.len() - i,
    {
        let d = &defs[i];
        let ghost before = ref_ids(defs@.take(i as int), *mats);
        push_id(&mut out, mats, d.body.as_str());
        proof {
            let s1 = before.push(id_or_zero(*mats, d.body@));
            assert(s1.drop_last() =~= before);
            assert(s1.last() == id_or_zero(*mats, d.body@));
            assert(out@ == dedup_nonzero(s1));
        }
        match &d.stem {
            Some(st) => {
                push_id(&mut out, mats, st.as_str());
                proof {
                    let s1 = before.push(id_or_zero(*mats, d.body@));
                    let s2 = s1.push(id_or_zero(*mats, st@));
                    assert(s2.drop_last() =~= s1);
                    assert(s2.last() == id_or_zero(*mats, st@));
                    assert(out@ == dedup_nonzero(s2));
                    assert(defs@.take(i + 1).drop_last() =~= defs@.take(i as int));
                    assert(defs@.take(i + 1).last() == defs@[i as int]);
                    assert(ref_ids(defs@.take(i + 1), *mats) == s2);
                }
            },
            None => {
                proof {
                    let s1 = before.push(id_or_zero(*mats, d.body@));
                    assert(defs@.take(i + 1).drop_last() =~= defs@.take(i as int));
                    assert(defs@.take(i + 1).last() == defs@[i as int]);
                    assert(ref_ids(defs@.take(i + 1), *mats) == s1);
                }
            },
        }
        i = i + 1;
    }
    proof {
        assert(defs@.take(defs@.len() as int) =~= defs@);
    }
    out
}

} // verus!
