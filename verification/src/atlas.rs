//! Texture atlas packing: images are placed left to right on shelves inside
//! one square RGBA image, a one-pixel gap between neighbours. The texture
//! coordinates derived from a placement are floats and are left to the renderer.
use vstd::prelude::*;
use crate::materials::str_eq;

verus! {

/// Where an image went: its top-left corner and size, in atlas pixels.
#[derive(Clone, Copy, Debug, PartialEq, Eq, Structural)]
pub struct Placement {
    pub x: u32,
    pub y: u32,
    pub w: u32,
    pub h: u32,
}

/// Two placements share no pixel.
pub open spec fn disjoint(a: Placement, b: Placement) -> bool {
    a.x + a.w <= b.x || b.x + b.w <= a.x || a.y + a.h <= b.y || b.y + b.h <= a.y
}

/// The placement lies inside a `size`-square atlas.
pub open spec fn inside(p: Placement, size: int) -> bool {
    p.x + p.w <= size && p.y + p.h <= size
}

/// Where the next image of width `iw` goes, given the shelf cursor and the
/// current shelf height: on the current shelf if it fits, else at the start of
/// a new shelf below.
pub open spec fn next_spot(size: int, cursor: (u32, u32), row_h: u32, iw: int) -> (int, int) {
    if cursor.0 + iw + 1 > size {
        (1, cursor.1 + row_h)
    } else {
        (cursor.0 as int, cursor.1 as int)
    }
}

/// Byte `k` of the atlas after copying an `iw` x `ih` image to (cx, cy).
pub open spec fn blit_byte(old: Seq<u8>, size: int, img: Seq<u8>, iw: int, ih: int, cx: int, cy: int, k: int) -> u8 {
    let px = (k / 4) % size;
    let py = (k / 4) / size;
    if cx <= px < cx + iw && cy <= py < cy + ih {
        img[((py - cy) * iw + (px - cx)) * 4 + k % 4]
    } else {
        old[k]
    }
}

/// The atlas bytes after copying the image to (cx, cy).
pub open spec fn blit(old: Seq<u8>, size: int, img: Seq<u8>, iw: int, ih: int, cx: int, cy: int) -> Seq<u8> {
    Seq::new(old.len(), |k: int| blit_byte(old, size, img, iw, ih, cx, cy, k))
}

/// Index of the entry in force for `name` among the first `n`, or -1.
pub open spec fn entry_upto(entries: Seq<(String, Placement)>, name: Seq<char>, n: int) -> int
    decreases n,
{
    if n <= 0 {
        -1
    } else if entries[n - 1].0@ == name {
        n - 1
    } else {
        entry_upto(entries, name, n - 1)
    }
}

/// Builds an atlas of `size` x `size` pixels.
pub struct AtlasBuilder {
    size: u32,
    cursor: (u32, u32),
    row_h: u32,
    entries: Vec<(String, Placement)>,
    pixels: Vec<u8>,
}

impl AtlasBuilder {
    /// Side of the atlas in pixels.
    pub closed spec fn side(&self) -> int {
        self.size as int
    }

    /// Start of the free space on the current shelf, and the shelf's top.
    pub closed spec fn cursor_at(&self) -> (u32, u32) {
        self.cursor
    }

    /// Height of the current shelf, gap included.
    pub closed spec fn shelf(&self) -> u32 {
        self.row_h
    }

    /// The RGBA bytes, row by row.
    pub closed spec fn bytes(&self) -> Seq<u8> {
        self.pixels@
    }

    /// Every placement made, in order, with its name.
    pub closed spec fn placed(&self) -> Seq<(String, Placement)> {
        self.entries@
    }

    /// Shelf packing keeps: every placement inside the atlas, to the left of the
    /// cursor on the current shelf or above it, and no two overlapping.
    pub closed spec fn wf(&self) -> bool {
        &&& self.pixels@.len() == self.size * self.size * 4
        &&& self.size * self.size * 4 <= u32::MAX
        &&& 1 <= self.size <= 32768
        &&& 1 <= self.cursor.0 <= self.size + 1
        &&& self.cursor.1 >= 1
        &&& self.cursor.1 + self.row_h <= self.size + 1
        &&& forall|i: int| 0 <= i < self.entries@.len() ==> {
            let p = (#[trigger] self.entries@[i]).1;
            &&& inside(p, self.size as int)
            &&& p.y + p.h + 1 <= self.cursor.1 + self.row_h
            &&& (p.y + p.h + 1 <= self.cursor.1 || p.x + p.w + 1 <= self.cursor.0)
        }
        &&& forall|i: int, j: int| 0 <= i < j < self.entries@.len() ==> disjoint(
            (#[trigger] self.entries@[i]).1,
            (#[trigger] self.entries@[j]).1,
        )
    }

    /// An empty (all zero) atlas; packing starts one pixel in from the corner.
    pub fn new(size: u32) -> (b: Self)
        requires
            size * size * 4 <= u32::MAX,
            size >= 1,
        ensures
            b.wf(),
            b.side() == size,
            b.cursor_at() == (1u32, 1u32),
            b.shelf() == 0,
            b.placed().len() == 0,
            b.bytes() == Seq::new((size * size * 4) as nat, |k: int| 0u8),
    {
        assert(size <= 32768) by (nonlinear_arith)
            requires
                size * size * 4 <= u32::MAX,
                size >= 1,
        ;
        let n = size * size * 4;
        let mut pixels: Vec<u8> = Vec::new();
        let mut i: u32 = 0;
        while i < n
            invariant
                i <= n,
                pixels@ == Seq::new(i as nat, |k: int| 0u8),
            decreases n - i,
        {
            pixels.push(0);
            i = i + 1;
        }
        AtlasBuilder { size, cursor: (1, 1), row_h: 0, entries: Vec::new(), pixels }
    }

    /// Adds an `iw` x `ih` RGBA image under `name` and returns where it went.
    /// The image must fit where the shelf cursor puts it.
    pub fn add(&mut self, name: &str, img: &[u8], iw: u32, ih: u32) -> (p: Placement)
        requires
            old(self).wf(),
            img@.len() == iw * ih * 4,
            iw <= old(self).side(),
            ih <= old(self).side(),
            ({
                let spot = next_spot(old(self).side(), old(self).cursor_at(), old(self).shelf(), iw as int);
                spot.0 + iw <= old(self).side() && spot.1 + ih <= old(self).side()
            }),
        ensures
            final(self).wf(),
            ({
                let spot = next_spot(old(self).side(), old(self).cursor_at(), old(self).shelf(), iw as int);
                p == Placement { x: spot.0 as u32, y: spot.1 as u32, w: iw, h: ih }
            }),
            final(self).side() == old(self).side(),
            final(self).placed().len() == old(self).placed().len() + 1,
            final(self).placed().drop_last() == old(self).placed(),
            final(self).placed().last().0@ == name@,
            final(self).placed().last().1 == p,
            final(self).bytes() == blit(old(self).bytes(), old(self).side(), img@, iw as int, ih as int, p.x as int, p.y as int),
            final(self).cursor_at().0 == p.x + iw + 1,
            final(self).cursor_at().1 == p.y,
            ({
                let base = if old(self).cursor_at().0 + iw + 1 > old(self).side() { 0 } else { old(self).shelf() as int };
                final(self).shelf() == (if ih + 1 > base { ih + 1 } else { base })
            }),
    {
        if self.cursor.0 + iw + 1 > self.size {
            self.cursor.0 = 1;
            self.cursor.1 = self.cursor.1 + self.row_h;
            self.row_h = 0;
        }
        let cx = self.cursor.0;
        let cy = self.cursor.1;
        let ghost old_px = self.pixels@;
        copy_image(&mut self.pixels, self.size, img, iw, ih, cx, cy);
        let p = Placement { x: cx, y: cy, w: iw, h: ih };
        let ghost before = self.entries@;
        self.entries.push((name.to_owned(), p));
        proof {
            assert(self.entries@.drop_last() =~= before);
        }
        self.cursor.0 = cx + iw + 1;
        if ih + 1 > self.row_h {
            self.row_h = ih + 1;
        }
        proof {
            assert forall|i: int| 0 <= i < self.entries@.len() implies {
                let q = (#[trigger] self.entries@[i]).1;
                &&& inside(q, self.size as int)
                &&& q.y + q.h + 1 <= self.cursor.1 + self.row_h
                &&& (q.y + q.h + 1 <= self.cursor.1 || q.x + q.w + 1 <= self.cursor.0)
            } by {
                if i < before.len() {
                    assert(self.entries@[i] == before[i]);
                }
            }
            assert forall|i: int, j: int| 0 <= i < j < self.entries@.len() implies disjoint(
                (#[trigger] self.entries@[i]).1,
                (#[trigger] self.entries@[j]).1,
            ) by {
                assert(self.entries@[i] == before[i]);
                if j < before.len() {
                    assert(self.entries@[j] == before[j]);
                }
            }
        }
        p
    }

    /// The placement last made under `name`.
    pub fn get(&self, name: &str) -> (r: Option<Placement>)
        ensures
            ({
                let k = entry_upto(self.placed(), name@, self.placed().len() as int);
                r == (if k >= 0 { Some(self.placed()[k].1) } else { None::<Placement> })
            }),
    {
        let mut i: usize = self.entries.len();
        while i > 0
            invariant
                i <= self.entries@.len(),
                entry_upto(self.entries@, name@, self.entries@.len() as int) == entry_upto(self.entries@, name@, i as int),
            decreases i,
        {
            if str_eq(self.entries[i - 1].0.as_str(), name) {
                return Some(self.entries[i - 1].1);
            }
            i = i - 1;
        }
        None
    }

    /// What the shelf invariant says of every placement.
    pub proof fn lemma_wf_unfold(&self)
        requires
            self.wf(),
        ensures
            self.cursor_at().0 >= 1,
            forall|i: int| 0 <= i < self.placed().len() ==> {
                let p = (#[trigger] self.placed()[i]).1;
                &&& inside(p, self.side())
                &&& p.y + p.h + 1 <= self.cursor_at().1 + self.shelf()
                &&& (p.y + p.h + 1 <= self.cursor_at().1 || p.x + p.w + 1 <= self.cursor_at().0)
            },
            forall|i: int, j: int| 0 <= i < j < self.placed().len() ==> disjoint(
                (#[trigger] self.placed()[i]).1,
                (#[trigger] self.placed()[j]).1,
            ),
    {
    }

    /// The shelf cursor and the current shelf height (to continue packing elsewhere).
    pub fn cursor(&self) -> (r: ((u32, u32), u32))
        ensures
            r == (self.cursor_at(), self.shelf()),
    {
        (self.cursor, self.row_h)
    }

    /// The finished atlas: its bytes, its side, and the placement in force for each
    /// name (the last one added under it), in the order they were added.
    pub fn flatten(self) -> (r: (Vec<u8>, u32, Vec<(String, Placement)>))
        ensures
            r.0@ == self.bytes(),
            r.1 == self.side(),
            r.2@ == last_only(self.placed(), self.placed().len() as int),
            names_distinct(r.2@),
    {
        let ghost s = self.entries@;
        let mut out: Vec<(String, Placement)> = Vec::new();
        let mut i: usize = 0;
        while i < self.entries.len()
            invariant
                s == self.entries@,
                i <= s.len(),
                out@ == last_only(s, i as int),
            decreases s.len() - i,
        {
            let mut later = false;
            let mut j: usize = i + 1;
            while j < self.entries.len()
                invariant
                    s == self.entries@,
                    i < s.len(),
                    i + 1 <= j <= s.len(),
                    later == exists|k: int| i < k < j && s[k].0@ == s[i as int].0@,
                decreases s.len() - j,
            {
                if str_eq(self.entries[j].0.as_str(), self.entries[i].0.as_str()) {
                    later = true;
                }
                j = j + 1;
            }
            proof {
                assert(later == later_same(s, i as int));
            }
            if !later {
                out.push((self.entries[i].0.clone(), self.entries[i].1));
            }
            i = i + 1;
        }
        proof {
            lemma_last_only(s, s.len() as int);
        }
        (self.pixels, self.size, out)
    }
}

/// A later entry carries the same name as entry `i`.
pub open spec fn later_same(s: Seq<(String, Placement)>, i: int) -> bool {
    exists|k: int| i < k < s.len() && s[k].0@ == s[i].0@
}

/// The entries among the first `n` that no later entry overrides, in order.
pub open spec fn last_only(s: Seq<(String, Placement)>, n: int) -> Seq<(String, Placement)>
    decreases n,
{
    if n <= 0 {
        Seq::empty()
    } else if later_same(s, n - 1) {
        last_only(s, n - 1)
    } else {
        last_only(s, n - 1).push(s[n - 1])
    }
}

/// No two entries carry the same name.
pub open spec fn names_distinct(s: Seq<(String, Placement)>) -> bool {
    forall|a: int, b: int| 0 <= a < b < s.len() ==> (#[trigger] s[a]).0@ != (#[trigger] s[b]).0@
}

proof fn lemma_last_only(s: Seq<(String, Placement)>, n: int)
    requires
        0 <= n <= s.len(),
    ensures
        forall|k: int| 0 <= k < last_only(s, n).len() ==> exists|i: int| 0 <= i < n && #[trigger] last_only(s, n)[k] == s[i] && !later_same(s, i),
        names_distinct(last_only(s, n)),
    decreases n,
{
    if n > 0 {
        lemma_last_only(s, n - 1);
        let r = last_only(s, n - 1);
        if !later_same(s, n - 1) {
            let r2 = r.push(s[n - 1]);
            assert forall|k: int| 0 <= k < r2.len() implies exists|i: int| 0 <= i < n && #[trigger] r2[k] == s[i] && !later_same(s, i) by {
                if k < r.len() {
                    assert(r2[k] == r[k]);
                } else {
                    assert(r2[k] == s[n - 1]);
                }
            }
            assert forall|a: int, b: int| 0 <= a < b < r2.len() implies (#[trigger] r2[a]).0@ != (#[trigger] r2[b]).0@ by {
                if b == r.len() {
                    assert(r2[a] == r[a]);
                    let i = choose|i: int| 0 <= i < n - 1 && #[trigger] r[a] == s[i] && !later_same(s, i);
                    assert(s[n - 1].0@ != s[i].0@);
                } else {
                    assert(r2[a] == r[a] && r2[b] == r[b]);
                }
            }
        }
    }
}

/// No two images ever share a pixel, and each lies inside the atlas.
pub proof fn law_placements_disjoint(b: AtlasBuilder, i: int, j: int)
    requires
        b.wf(),
        0 <= i < b.placed().len(),
        0 <= j < b.placed().len(),
        i != j,
    ensures
        disjoint(b.placed()[i].1, b.placed()[j].1),
        inside(b.placed()[i].1, b.side()),
{
    if i < j {
        assert(disjoint(b.entries@[i].1, b.entries@[j].1));
    } else {
        assert(disjoint(b.entries@[j].1, b.entries@[i].1));
    }
}

/// Free space of an atlas that is already on the GPU: its side (0 while there
/// is none) and the shelf cursor that packing left, so that images added at run
/// time (animation frames) go where nothing else is.
pub struct AtlasSpace {
    size: u32,
    cursor: (u32, u32, u32),
    used: Ghost<Seq<Placement>>,
}

/// The placements of a builder's entries.
pub open spec fn placements(entries: Seq<(String, Placement)>) -> Seq<Placement> {
    entries.map_values(|e: (String, Placement)| e.1)
}

/// Where `atlas_alloc` would put a `w` x `h` block: the spot and the new shelf height.
pub open spec fn alloc_spot(cursor: (u32, u32, u32), size: int, w: int, h: int) -> (int, int, int) {
    if cursor.0 + w + 1 > size {
        (1, cursor.1 + cursor.2, h + 1)
    } else {
        (cursor.0 as int, cursor.1 as int, if cursor.2 >= h + 1 { cursor.2 as int } else { h + 1 })
    }
}

impl AtlasSpace {
    /// Side of the atlas (0: none yet).
    pub closed spec fn side(&self) -> int {
        self.size as int
    }

    /// Shelf cursor: free x, shelf top, shelf height.
    pub closed spec fn cursor_at(&self) -> (u32, u32, u32) {
        self.cursor
    }

    /// Every block handed out so far, packed ones first.
    pub closed spec fn used(&self) -> Seq<Placement> {
        self.used@
    }

    /// Blocks lie inside the atlas, left of the cursor on the current shelf or
    /// above it, and never overlap.
    pub closed spec fn wf(&self) -> bool {
        &&& self.cursor.0 >= 1
        &&& forall|i: int| 0 <= i < self.used@.len() ==> {
            let p = #[trigger] self.used@[i];
            &&& inside(p, self.size as int)
            &&& p.y + p.h + 1 <= self.cursor.1 + self.cursor.2
            &&& (p.y + p.h + 1 <= self.cursor.1 || p.x + p.w + 1 <= self.cursor.0)
        }
        &&& forall|i: int, j: int| 0 <= i < j < self.used@.len() ==> disjoint(
            #[trigger] self.used@[i],
            #[trigger] self.used@[j],
        )
    }

    /// No atlas yet.
    pub fn new() -> (s: Self)
        ensures
            s.wf(),
            s.side() == 0,
            s.cursor_at() == (1u32, 1u32, 0u32),
            s.used().len() == 0,
    {
        AtlasSpace { size: 0, cursor: (1, 1, 0), used: Ghost(Seq::empty()) }
    }

    /// Takes over a finished builder: its side and cursor become the free
    /// space, its placements the blocks in use; hands back its bytes, side and
    /// placements for uploading.
    pub fn adopt(&mut self, builder: AtlasBuilder) -> (r: (Vec<u8>, u32, Vec<(String, Placement)>))
        requires
            builder.wf(),
        ensures
            final(self).wf(),
            final(self).side() == builder.side(),
            final(self).cursor_at() == (builder.cursor_at().0, builder.cursor_at().1, builder.shelf()),
            final(self).used() == placements(builder.placed()),
            r.0@ == builder.bytes(),
            r.1 == builder.side(),
            r.2@ == last_only(builder.placed(), builder.placed().len() as int),
    {
        let ((cx, cy), row_h) = builder.cursor();
        let ghost entries = builder.placed();
        proof {
            builder.lemma_wf_unfold();
        }
        let (data, size, list) = builder.flatten();
        self.cursor = (cx, cy, row_h);
        self.size = size;
        self.used = Ghost(placements(entries));
        proof {
            assert forall|i: int| 0 <= i < self.used@.len() implies {
                let p = #[trigger] self.used@[i];
                &&& inside(p, self.size as int)
                &&& p.y + p.h + 1 <= self.cursor.1 + self.cursor.2
                &&& (p.y + p.h + 1 <= self.cursor.1 || p.x + p.w + 1 <= self.cursor.0)
            } by {
                assert(self.used@[i] == entries[i].1);
            }
            assert forall|i: int, j: int| 0 <= i < j < self.used@.len() implies disjoint(
                #[trigger] self.used@[i],
                #[trigger] self.used@[j],
            ) by {
                assert(self.used@[i] == entries[i].1);
                assert(self.used@[j] == entries[j].1);
            }
        }
        (data, size, list)
    }

    /// Side of the atlas in pixels (0: none yet).
    pub fn atlas_size(&self) -> (r: u32)
        ensures
            r == self.side(),
    {
        self.size
    }

    /// Hands out a free `w` x `h` block: on the current shelf if it fits, else
    /// on a new shelf; `None` when there is no atlas or it is full.
    pub fn atlas_alloc(&mut self, w: u32, h: u32) -> (r: Option<(u32, u32)>)
        requires
            old(self).wf(),
            old(self).side() > 0 ==> {
                let c = old(self).cursor_at();
                &&& c.0 + w + 1 <= u32::MAX
                &&& h + 1 <= u32::MAX
                &&& if c.0 + w + 1 > old(self).side() { c.1 + c.2 + h <= u32::MAX } else { c.1 + h <= u32::MAX }
            },
        ensures
            final(self).wf(),
            final(self).side() == old(self).side(),
            ({
                let spot = alloc_spot(old(self).cursor_at(), old(self).side(), w as int, h as int);
                let fits = old(self).side() > 0 && spot.0 + w <= old(self).side() && spot.1 + h <= old(self).side();
                &&& fits ==> r == Some((spot.0 as u32, spot.1 as u32))
                    && final(self).cursor_at() == ((spot.0 + w + 1) as u32, spot.1 as u32, spot.2 as u32)
                    && final(self).used() == old(self).used().push(Placement { x: spot.0 as u32, y: spot.1 as u32, w, h })
                &&& !fits ==> r is None && final(self).cursor_at() == old(self).cursor_at()
                    && final(self).used() == old(self).used()
            }),
    {
        if self.size == 0 {
            return None;
        }
        let size = self.size;
        let (cx, cy, row_h) = self.cursor;
        let (nx, ny, nrh) = if cx + w + 1 > size {
            (1, cy + row_h, h + 1)
        } else {
            (cx, cy, if row_h >= h + 1 { row_h } else { h + 1 })
        };
        if nx + w > size || ny + h > size {
            return None;
        }
        let ghost before = self.used@;
        self.cursor = (nx + w + 1, ny, nrh);
        self.used = Ghost(before.push(Placement { x: nx, y: ny, w, h }));
        proof {
            assert forall|i: int| 0 <= i < self.used@.len() implies {
                let p = #[trigger] self.used@[i];
                &&& inside(p, self.size as int)
                &&& p.y + p.h + 1 <= self.cursor.1 + self.cursor.2
                &&& (p.y + p.h + 1 <= self.cursor.1 || p.x + p.w + 1 <= self.cursor.0)
            } by {
                if i < before.len() {
                    assert(self.used@[i] == before[i]);
                }
            }
            assert forall|i: int, j: int| 0 <= i < j < self.used@.len() implies disjoint(
                #[trigger] self.used@[i],
                #[trigger] self.used@[j],
            ) by {
                assert(self.used@[i] == before[i]);
                if j < before.len() {
                    assert(self.used@[j] == before[j]);
                }
            }
        }
        Some((nx, ny))
    }
}

/// Blocks handed out at run time never overlap each other or what was packed.
pub proof fn law_space_disjoint(s: AtlasSpace, i: int, j: int)
    requires
        s.wf(),
        0 <= i < s.used().len(),
        0 <= j < s.used().len(),
        i != j,
    ensures
        disjoint(s.used()[i], s.used()[j]),
        inside(s.used()[i], s.side()),
{
    if i < j {
        assert(disjoint(s.used@[i], s.used@[j]));
    } else {
        assert(disjoint(s.used@[j], s.used@[i]));
    }
}

/// Byte `j` of row `y` of the copied image lands at atlas byte
/// `((cy + y) * size + cx) * 4 + j`, which decodes back to that pixel and channel.
proof fn lemma_row_byte(size: int, iw: int, cx: int, cy: int, y: int, j: int)
    requires
        size >= 1,
        0 <= cx,
        cx + iw <= size,
        0 <= cy,
        0 <= y,
        0 <= j < iw * 4,
    ensures
        ({
            let k = ((cy + y) * size + cx) * 4 + j;
            &&& (k / 4) % size == cx + j / 4
            &&& (k / 4) / size == cy + y
            &&& k % 4 == j % 4
            &&& ((cy + y - cy) * iw + (cx + j / 4 - cx)) * 4 + j % 4 == y * iw * 4 + j
        }),
{
    let k = ((cy + y) * size + cx) * 4 + j;
    let q = (cy + y) * size + cx + j / 4;
    assert(j == (j / 4) * 4 + j % 4) by {
        vstd::arithmetic::div_mod::lemma_fundamental_div_mod(j, 4);
    }
    assert(0 <= j % 4 < 4) by {
        vstd::arithmetic::div_mod::lemma_mod_bound(j, 4);
    }
    assert(k == q * 4 + j % 4) by (nonlinear_arith)
        requires
            k == ((cy + y) * size + cx) * 4 + j,
            q == (cy + y) * size + cx + j / 4,
            j == (j / 4) * 4 + j % 4,
    ;
    vstd::arithmetic::div_mod::lemma_fundamental_div_mod_converse(k, 4, q, j % 4);
    assert(j / 4 < iw) by {
        vstd::arithmetic::div_mod::lemma_div_is_ordered(j, iw * 4 - 1, 4);
        vstd::arithmetic::div_mod::lemma_div_multiples_vanish_fancy(iw - 1, 3, 4);
        assert((iw * 4 - 1) == (iw - 1) * 4 + 3) by (nonlinear_arith);
    }
    assert(0 <= cx + j / 4 < size);
    vstd::arithmetic::div_mod::lemma_fundamental_div_mod_converse(q, size, cy + y, cx + j / 4);
    assert(((cy + y - cy) * iw + (cx + j / 4 - cx)) * 4 + j % 4 == y * iw * 4 + j) by (nonlinear_arith)
        requires
            j == (j / 4) * 4 + j % 4,
    ;
}

fn copy_image(pixels: &mut Vec<u8>, size: u32, img: &[u8], iw: u32, ih: u32, cx: u32, cy: u32)
    requires
        old(pixels)@.len() == size * size * 4,
        size * size * 4 <= u32::MAX,
        img@.len() == iw * ih * 4,
        cx + iw <= size,
        cy + ih <= size,
    ensures
        final(pixels)@ == blit(old(pixels)@, size as int, img@, iw as int, ih as int, cx as int, cy as int),
{
    let ghost old_px = pixels@;
    let ghost sz = size as int;
    assert(iw * ih * 4 <= size * size * 4) by (nonlinear_arith)
        requires
            cx + iw <= size,
            cy + ih <= size,
    ;
    let mut y: u32 = 0;
    while y < ih
        invariant
            old_px == old(pixels)@,
            pixels@.len() == old_px.len(),
            old_px.len() == sz * sz * 4,
            sz == size,
            size * size * 4 <= u32::MAX,
            img@.len() == iw * ih * 4,
            iw * ih * 4 <= u32::MAX,
            cx + iw <= size,
            cy + ih <= size,
            y <= ih,
            forall|k: int| 0 <= k < old_px.len() ==> #[trigger] pixels@[k] == (if (k / 4) / sz < cy + y {
                blit_byte(old_px, sz, img@, iw as int, ih as int, cx as int, cy as int, k)
            } else {
                old_px[k]
            }),
        decreases ih - y,
    {
        assert((cy + y) * size + cx + iw <= size * size) by (nonlinear_arith)
            requires
                cy + y < size,
                cx + iw <= size,
        ;
        assert(y * iw * 4 + iw * 4 <= iw * ih * 4) by (nonlinear_arith)
            requires
                y < ih,
        ;
        let src = y * iw * 4;
        let dst = ((cy + y) * size + cx) * 4;
        let ghost row_start = pixels@;
        let mut j: u32 = 0;
        while j < iw * 4
            invariant
                old_px == old(pixels)@,
                pixels@.len() == old_px.len(),
                old_px.len() == sz * sz * 4,
                sz == size,
                size * size * 4 <= u32::MAX,
                img@.len() == iw * ih * 4,
                iw * ih * 4 <= u32::MAX,
                cx + iw <= size,
                cy + ih <= size,
                y < ih,
                row_start.len() == old_px.len(),
                src == y * iw * 4,
                dst == ((cy + y) * size + cx) * 4,
                dst + iw * 4 <= size * size * 4,
                src + iw * 4 <= iw * ih * 4,
                j <= iw * 4,
                forall|k: int| 0 <= k < old_px.len() ==> #[trigger] pixels@[k] == (if dst <= k < dst + j {
                    img@[src + (k - dst)]
                } else {
                    row_start[k]
                }),
            decreases iw * 4 - j,
        {
            pixels.set((dst + j) as usize, img[(src + j) as usize]);
            j = j + 1;
        }
        proof {
            assert forall|k: int| 0 <= k < old_px.len() implies #[trigger] pixels@[k] == (if (k / 4) / sz < cy + y + 1 {
                blit_byte(old_px, sz, img@, iw as int, ih as int, cx as int, cy as int, k)
            } else {
                old_px[k]
            }) by {
                let row = (k / 4) / sz;
                if dst <= k < dst + iw * 4 {
                    let jj = k - dst;
                    lemma_row_byte(sz, iw as int, cx as int, cy as int, y as int, jj);
                } else {
                    assert(row_start[k] == pixels@[k]);
                    if row == cy + y {
                        let px = (k / 4) % sz;
                        assert(!(cx <= px < cx + iw)) by {
                            if cx <= px < cx + iw {
                                let jj = (px - cx) * 4 + k % 4;
                                assert(0 <= k % 4 < 4) by {
                                    vstd::arithmetic::div_mod::lemma_mod_bound(k, 4);
                                }
                                assert(0 <= jj < iw * 4) by (nonlinear_arith)
                                    requires
                                        jj == (px - cx) * 4 + k % 4,
                                        0 <= px - cx < iw,
                                        0 <= k % 4 < 4,
                                ;
                                lemma_row_byte(sz, iw as int, cx as int, cy as int, y as int, jj);
                                lemma_decode(k, sz);
                                assert(k == dst + jj) by (nonlinear_arith)
                                    requires
                                        k == ((k / 4) / sz * sz + (k / 4) % sz) * 4 + k % 4,
                                        (k / 4) / sz == cy + y,
                                        px == (k / 4) % sz,
                                        jj == (px - cx) * 4 + k % 4,
                                        dst == ((cy + y) * sz + cx) * 4,
                                ;
                            }
                        }
                    }
                }
            }
        }
        y = y + 1;
    }
    proof {
        assert forall|k: int| 0 <= k < old_px.len() implies #[trigger] pixels@[k] == blit_byte(
            old_px,
            sz,
            img@,
            iw as int,
            ih as int,
            cx as int,
            cy as int,
            k,
        ) by {
            if (k / 4) / sz >= cy + ih {
                assert(!(cy <= (k / 4) / sz < cy + ih));
            }
        }
        assert(pixels@ =~= blit(old_px, sz, img@, iw as int, ih as int, cx as int, cy as int));
    }
}

/// A byte index splits into pixel row, pixel column and channel.
proof fn lemma_decode(k: int, size: int)
    requires
        k >= 0,
        size >= 1,
    ensures
        k == ((k / 4) / size * size + (k / 4) % size) * 4 + k % 4,
{
    vstd::arithmetic::div_mod::lemma_fundamental_div_mod(k, 4);
    vstd::arithmetic::div_mod::lemma_fundamental_div_mod(k / 4, size);
    assert(k / 4 == size * ((k / 4) / size) + (k / 4) % size);
    assert(k == 4 * (k / 4) + k % 4);
    assert(k == ((k / 4) / size * size + (k / 4) % size) * 4 + k % 4) by (nonlinear_arith)
        requires
            k / 4 == size * ((k / 4) / size) + (k / 4) % size,
            k == 4 * (k / 4) + k % 4,
    ;
}

} // verus!
