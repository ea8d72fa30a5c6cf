//! Sprite sheets: cutting an RGBA sheet into equal frames, row by row.
use vstd::prelude::*;

verus! {

/// Decimal digits of `n`.
pub open spec fn decimal(n: nat) -> Seq<char>
    decreases n,
{
    let d = (('0' as u32) + (n % 10) as u32) as char;
    if n < 10 {
        seq![d]
    } else {
        decimal(n / 10).push(d)
    }
}

/// The error text for a frame size that does not fit the sheet.
pub open spec fn size_message(fw: u32, fh: u32, w: u32, h: u32) -> Seq<char> {
    "帧尺寸 "@ + decimal(fw as nat) + "x"@ + decimal(fh as nat) + " 与精灵表 "@ + decimal(w as nat) + "x"@
        + decimal(h as nat) + " 不符"@
}

/// `format!` with `{}` on a `u32`: its decimal digits, no sign, no leading zeros.
#[verifier::external_body]
fn decimal_text(n: u32) -> (r: String)
    ensures
        r@ == decimal(n as nat),
{
    format!("{n}")
}

/// The error text for a frame size that does not fit the sheet.
fn mismatch_text(fw: u32, fh: u32, w: u32, h: u32) -> (r: String)
    ensures
        r@ == size_message(fw, fh, w, h),
{
    let mut t = "帧尺寸 ".to_owned();
    t.append(decimal_text(fw).as_str());
    t.append("x");
    t.append(decimal_text(fh).as_str());
    t.append(" 与精灵表 ");
    t.append(decimal_text(w).as_str());
    t.append("x");
    t.append(decimal_text(h).as_str());
    t.append(" 不符");
    t
}

/// Byte `k` of the frame in sheet row `r`, column `c` (frames `fw` x `fh`,
/// sheet `w` pixels wide, four bytes per pixel).
pub open spec fn frame_byte(img: Seq<u8>, w: int, fw: int, fh: int, r: int, c: int, k: int) -> u8 {
    let px = (k / 4) % fw;
    let py = (k / 4) / fw;
    img[((r * fh + py) * w + c * fw + px) * 4 + k % 4]
}

/// The bytes of the frame in sheet row `r`, column `c`.
pub open spec fn frame_of(img: Seq<u8>, w: int, fw: int, fh: int, r: int, c: int) -> Seq<u8> {
    Seq::new((fw * fh * 4) as nat, |k: int| frame_byte(img, w, fw, fh, r, c, k))
}

/// Byte `(y * fw + x) * 4 + ch` of a frame is channel `ch` of its pixel (x, y).
proof fn lemma_frame_index(fw: int, y: int, x: int, ch: int)
    requires
        fw >= 1,
        0 <= x < fw,
        0 <= ch < 4,
        0 <= y,
    ensures
        ({
            let j = (y * fw + x) * 4 + ch;
            &&& (j / 4) % fw == x
            &&& (j / 4) / fw == y
            &&& j % 4 == ch
        }),
{
    let j = (y * fw + x) * 4 + ch;
    vstd::arithmetic::div_mod::lemma_fundamental_div_mod_converse(j, 4, y * fw + x, ch);
    vstd::arithmetic::div_mod::lemma_fundamental_div_mod_converse(y * fw + x, fw, y, x);
}

/// Cuts a `w` x `h` RGBA sheet into `fw` x `fh` frames, left to right and top
/// to bottom; leftover pixels at the right and bottom edges are dropped. An
/// error when a frame side is zero or larger than the sheet.
pub fn cut_sheet(img: &[u8], w: u32, h: u32, fw: u32, fh: u32) -> (r: Result<Vec<Vec<u8>>, String>)
    requires
        img@.len() == w * h * 4,
    ensures
        r is Err <==> (fw == 0 || fh == 0 || w < fw || h < fh),
        r matches Err(e) ==> e@ == size_message(fw, fh, w, h),
        r matches Ok(frames) ==> {
            let cols = w / fw;
            let rows = h / fh;
            &&& frames@.len() == cols * rows
            &&& forall|f: int| 0 <= f < frames@.len() ==> (#[trigger] frames@[f])@ == frame_of(
                img@,
                w as int,
                fw as int,
                fh as int,
                f / cols as int,
                f % cols as int,
            )
        },
{
    if fw == 0 || fh == 0 || w < fw || h < fh {
        return Err(mismatch_text(fw, fh, w, h));
    }
    let cols = w / fw;
    let rows = h / fh;
    let ghost gw = w as int;
    let ghost gfw = fw as int;
    let ghost gfh = fh as int;
    assert(cols * fw <= w && rows * fh <= h) by {
        vstd::arithmetic::div_mod::lemma_fundamental_div_mod(w as int, fw as int);
        vstd::arithmetic::div_mod::lemma_fundamental_div_mod(h as int, fh as int);
        vstd::arithmetic::div_mod::lemma_mod_bound(w as int, fw as int);
        vstd::arithmetic::div_mod::lemma_mod_bound(h as int, fh as int);
    }
    assert(cols >= 1 && rows >= 1) by {
        vstd::arithmetic::div_mod::lemma_div_is_ordered(fw as int, w as int, fw as int);
        vstd::arithmetic::div_mod::lemma_div_is_ordered(fh as int, h as int, fh as int);
        vstd::arithmetic::div_mod::lemma_div_by_self(fw as int);
        vstd::arithmetic::div_mod::lemma_div_by_self(fh as int);
    }
    assert(cols * rows <= w * h) by (nonlinear_arith)
        requires
            cols * fw <= w,
            rows * fh <= h,
            fw >= 1,
            fh >= 1,
            cols >= 0,
            rows >= 0,
    ;
    let mut frames: Vec<Vec<u8>> = Vec::new();
    let mut r: u32 = 0;
    while r < rows
        invariant
            img@.len() == w * h * 4,
            gw == w,
            gfw == fw,
            gfh == fh,
            fw >= 1,
            fh >= 1,
            cols == w / fw,
            rows == h / fh,
            cols >= 1,
            cols * fw <= w,
            rows * fh <= h,
            r <= rows,
            frames@.len() == r * cols,
            forall|f: int| 0 <= f < frames@.len() ==> (#[trigger] frames@[f])@ == frame_of(img@, gw, gfw, gfh, f / cols as int, f % cols as int),
        decreases rows - r,
    {
        let mut c: u32 = 0;
        while c < cols
            invariant
                img@.len() == w * h * 4,
                gw == w,
                gfw == fw,
                gfh == fh,
                fw >= 1,
                fh >= 1,
                cols == w / fw,
                rows == h / fh,
                cols >= 1,
                cols * fw <= w,
                rows * fh <= h,
                r < rows,
                c <= cols,
                frames@.len() == r * cols + c,
                forall|f: int| 0 <= f < frames@.len() ==> (#[trigger] frames@[f])@ == frame_of(img@, gw, gfw, gfh, f / cols as int, f % cols as int),
            decreases cols - c,
        {
            let sub = cut_frame(img, w, h, fw, fh, r, c, cols, rows);
            let ghost before = frames@;
            frames.push(sub);
            proof {
                let f = r * cols + c;
                assert(f / cols as int == r && f % cols as int == c) by {
                    vstd::arithmetic::div_mod::lemma_fundamental_div_mod_converse(f as int, cols as int, r as int, c as int);
                }
                assert forall|g: int| 0 <= g < frames@.len() implies (#[trigger] frames@[g])@ == frame_of(img@, gw, gfw, gfh, g / cols as int, g % cols as int) by {
                    if g < before.len() {
                        assert(frames@[g] == before[g]);
                    }
                }
            }
            c = c + 1;
        }
        proof {
            assert((r + 1) * cols == r * cols + cols) by (nonlinear_arith);
        }
        r = r + 1;
    }
    proof {
        assert(rows * cols == cols * rows) by (nonlinear_arith);
    }
    Ok(frames)
}

fn cut_frame(img: &[u8], w: u32, h: u32, fw: u32, fh: u32, r: u32, c: u32, cols: u32, rows: u32) -> (sub: Vec<u8>)
    requires
        img@.len() == w * h * 4,
        fw >= 1,
        fh >= 1,
        r < rows,
        c < cols,
        cols * fw <= w,
        rows * fh <= h,
    ensures
        sub@ == frame_of(img@, w as int, fw as int, fh as int, r as int, c as int),
{
    let ghost want = frame_of(img@, w as int, fw as int, fh as int, r as int, c as int);
    let len = img.len();
    assert(len == w * h * 4 && w * h * 4 <= usize::MAX);
    assert((c + 1) * fw <= w && (r + 1) * fh <= h) by (nonlinear_arith)
        requires
            c < cols,
            r < rows,
            cols * fw <= w,
            rows * fh <= h,
            fw >= 1,
            fh >= 1,
    ;
    assert(fw <= w && fh <= h) by (nonlinear_arith)
        requires
            (c + 1) * fw <= w,
            (r + 1) * fh <= h,
            c >= 0,
            r >= 0,
            fw >= 1,
            fh >= 1,
    ;
    assert(fw * fh * 4 <= w * h * 4) by (nonlinear_arith)
        requires
            fw <= w,
            fh <= h,
            fw >= 1,
            fh >= 1,
    ;
    let mut sub: Vec<u8> = Vec::new();
    let mut y: usize = 0;
    while y < fh as usize
        invariant
            img@.len() == w * h * 4,
            w * h * 4 <= usize::MAX,
            fw >= 1,
            fh >= 1,
            (c + 1) * fw <= w,
            (r + 1) * fh <= h,
            want == frame_of(img@, w as int, fw as int, fh as int, r as int, c as int),
            want.len() == fw * fh * 4,
            y <= fh,
            sub@.len() == y * fw * 4,
            forall|j: int| 0 <= j < sub@.len() ==> #[trigger] sub@[j] == want[j],
        decreases fh as usize - y,
    {
        let mut x: usize = 0;
        while x < fw as usize
            invariant
                img@.len() == w * h * 4,
                w * h * 4 <= usize::MAX,
                fw >= 1,
                fh >= 1,
                (c + 1) * fw <= w,
                (r + 1) * fh <= h,
                want == frame_of(img@, w as int, fw as int, fh as int, r as int, c as int),
                want.len() == fw * fh * 4,
                y < fh,
                x <= fw,
                sub@.len() == (y * fw + x) * 4,
                forall|j: int| 0 <= j < sub@.len() ==> #[trigger] sub@[j] == want[j],
            decreases fw as usize - x,
        {
            let ghost gy = y as int;
            let ghost gx = x as int;
            assert(((r as int * fh + gy) * w + c as int * fw + gx) * 4 + 4 <= w * h * 4) by (nonlinear_arith)
                requires
                    0 <= gy < fh,
                    0 <= gx < fw,
                    (c + 1) * fw <= w,
                    (r + 1) * fh <= h,
                    r >= 0,
                    c >= 0,
            ;
            assert((gy * fw + gx) * 4 + 4 <= fw * fh * 4) by (nonlinear_arith)
                requires
                    0 <= gy < fh,
                    0 <= gx < fw,
            ;
            assert(r as int * fh + gy < h && c as int * fw + gx < w) by (nonlinear_arith)
                requires
                    0 <= gy < fh,
                    0 <= gx < fw,
                    (c + 1) * fw <= w,
                    (r + 1) * fh <= h,
            ;
            assert((r as int * fh + gy) * w + c as int * fw + gx < w * h) by (nonlinear_arith)
                requires
                    r as int * fh + gy < h,
                    c as int * fw + gx < w,
                    r as int * fh + gy >= 0,
            ;
            let row = (r as usize) * (fh as usize) + y;
            let col = (c as usize) * (fw as usize) + x;
            assert(row * w <= row * w + col < w * h);
            let at = row * (w as usize) + col;
            let base = at * 4;
            let mut ch: usize = 0;
            while ch < 4
                invariant
                    img@.len() == w * h * 4,
                    fw >= 1,
                    want == frame_of(img@, w as int, fw as int, fh as int, r as int, c as int),
                    want.len() == fw * fh * 4,
                    gy == y,
                    gx == x,
                    0 <= gy < fh,
                    0 <= gx < fw,
                    base == ((r as int * fh + gy) * w + c as int * fw + gx) * 4,
                    base + 4 <= img@.len(),
                    (gy * fw + gx) * 4 + 4 <= fw * fh * 4,
                    ch <= 4,
                    sub@.len() == (gy * fw + gx) * 4 + ch,
                    forall|j: int| 0 <= j < sub@.len() ==> #[trigger] sub@[j] == want[j],
                decreases 4 - ch,
            {
                proof {
                    lemma_frame_index(fw as int, gy, gx, ch as int);
                }
                let ghost before = sub@;
                sub.push(img[base + ch]);
                proof {
                    assert forall|j: int| 0 <= j < sub@.len() implies #[trigger] sub@[j] == want[j] by {
                        if j < before.len() {
                            assert(sub@[j] == before[j]);
                        }
                    }
                }
                ch = ch + 1;
            }
            x = x + 1;
        }
        proof {
            assert((y as int * fw + fw) * 4 == (y as int + 1) * fw * 4) by (nonlinear_arith);
        }
        y = y + 1;
    }
    proof {
        assert(fh * fw * 4 == fw * fh * 4) by (nonlinear_arith);
        assert(sub@ =~= want);
    }
    sub
}

} // verus!
