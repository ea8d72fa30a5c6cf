//! The save format of the pixel layer: the interleaved material/shade stream
//! is stored as runs of four bytes, `[mat, shade, count low, count high]`,
//! each run covering 1 to 65535 equal pixels.
use vstd::prelude::*;
use crate::inventory::{EQUIP_SLOTS, Item};

verus! {

/// Longest run one record can hold.
pub const MAX_RUN: u16 = 65535;

/// Number of leading pixels of the pair stream `s` equal to its first pixel,
/// counted on from `r` and capped at `MAX_RUN`.
pub open spec fn run_from(s: Seq<u8>, r: int) -> int
    decreases MAX_RUN - r,
{
    if r < MAX_RUN && 2 * r < s.len() && s[2 * r] == s[0] && s[2 * r + 1] == s[1] {
        run_from(s, r + 1)
    } else {
        r
    }
}

/// Pixel `k` of the pair stream `s` equals its first pixel.
pub open spec fn same_px(s: Seq<u8>, k: int) -> bool {
    s[2 * k] == s[0] && s[2 * k + 1] == s[1]
}

/// Length (in pixels) of the run that starts the pair stream `s`.
pub open spec fn first_run(s: Seq<u8>) -> int {
    run_from(s, 1)
}

/// The record of a run of `r` pixels `(m, sh)`.
pub open spec fn record(m: u8, sh: u8, r: int) -> Seq<u8> {
    seq![m, sh, (r % 256) as u8, (r / 256) as u8]
}

/// The encoding of a pair stream: one record per run, in order.
pub open spec fn encoded(s: Seq<u8>) -> Seq<u8>
    decreases s.len(),
{
    if s.len() < 2 {
        Seq::empty()
    } else {
        let r = first_run(s);
        if 1 <= r && 2 * r <= s.len() {
            record(s[0], s[1], r) + encoded(s.subrange(2 * r, s.len() as int))
        } else {
            Seq::empty()
        }
    }
}

/// `n` copies of the pixel `(m, sh)`.
pub open spec fn repeated(m: u8, sh: u8, n: nat) -> Seq<u8>
    decreases n,
{
    if n == 0 {
        Seq::empty()
    } else {
        repeated(m, sh, (n - 1) as nat) + seq![m, sh]
    }
}

/// The pair stream a run file decodes to: each whole record in turn expands to
/// its pixels; bytes after the last whole record are ignored.
pub open spec fn decoded(px: Seq<u8>) -> Seq<u8>
    decreases px.len(),
{
    if px.len() < 4 {
        Seq::empty()
    } else {
        repeated(px[0], px[1], (px[2] + 256 * px[3]) as nat) + decoded(px.subrange(4, px.len() as int))
    }
}

proof fn lemma_run_from(s: Seq<u8>, r: int)
    requires
        1 <= r <= MAX_RUN,
        2 * r <= s.len(),
        s.len() % 2 == 0,
        s.len() >= 2,
        forall|k: int| 0 <= k < r ==> #[trigger] same_px(s, k),
    ensures
        r <= run_from(s, r) <= MAX_RUN,
        2 * run_from(s, r) <= s.len(),
        forall|k: int| 0 <= k < run_from(s, r) ==> #[trigger] same_px(s, k),
    decreases MAX_RUN - r,
{
    if r < MAX_RUN && 2 * r < s.len() && s[2 * r] == s[0] && s[2 * r + 1] == s[1] {
        assert(same_px(s, r));
        lemma_run_from(s, r + 1);
    }
}

/// Facts about the first run of a nonempty pair stream.
proof fn lemma_first_run(s: Seq<u8>)
    requires
        s.len() % 2 == 0,
        s.len() >= 2,
    ensures
        1 <= first_run(s) <= MAX_RUN,
        2 * first_run(s) <= s.len(),
        forall|k: int| 0 <= k < first_run(s) ==> #[trigger] same_px(s, k),
{
    assert(same_px(s, 0));
    lemma_run_from(s, 1);
}

proof fn lemma_repeated_len(m: u8, sh: u8, n: nat)
    ensures
        repeated(m, sh, n).len() == 2 * n,
        forall|k: int| 0 <= k < n ==> #[trigger] repeated(m, sh, n)[2 * k] == m && repeated(m, sh, n)[2 * k + 1] == sh,
    decreases n,
{
    if n > 0 {
        lemma_repeated_len(m, sh, (n - 1) as nat);
        let p = repeated(m, sh, (n - 1) as nat);
        assert forall|k: int| 0 <= k < n implies #[trigger] repeated(m, sh, n)[2 * k] == m && repeated(m, sh, n)[2 * k + 1] == sh by {
            if k < n - 1 {
                assert(repeated(m, sh, n)[2 * k] == p[2 * k]);
                assert(repeated(m, sh, n)[2 * k + 1] == p[2 * k + 1]);
            }
        }
    }
}

/// The pixels of a run, read back from its record's count bytes.
proof fn lemma_record_count(r: int)
    requires
        1 <= r <= MAX_RUN,
    ensures
        (r % 256) as u8 + 256 * ((r / 256) as u8) == r,
{
}

/// A run file decodes back to the stream it was encoded from.
pub proof fn law_decode_encode(s: Seq<u8>)
    requires
        s.len() % 2 == 0,
    ensures
        decoded(encoded(s)) == s,
    decreases s.len(),
{
    if s.len() < 2 {
        assert(s =~= Seq::<u8>::empty());
        assert(encoded(s) =~= Seq::<u8>::empty());
    } else {
        lemma_first_run(s);
        let r = first_run(s);
        let rest = s.subrange(2 * r, s.len() as int);
        law_decode_encode(rest);
        lemma_record_count(r);
        let rec = record(s[0], s[1], r);
        let e = rec + encoded(rest);
        assert(e.subrange(4, e.len() as int) =~= encoded(rest));
        assert(e[0] == s[0] && e[1] == s[1]);
        assert(e[2] + 256 * e[3] == r);
        lemma_repeated_len(s[0], s[1], r as nat);
        let rep = repeated(s[0], s[1], r as nat);
        assert(rep =~= s.subrange(0, 2 * r)) by {
            assert forall|j: int| 0 <= j < 2 * r implies rep[j] == s[j] by {
                let k = j / 2;
                assert(same_px(s, k));
                assert(rep[2 * k] == s[0]);
                if j % 2 == 0 {
                    assert(j == 2 * k);
                } else {
                    assert(j == 2 * k + 1);
                }
            }
        }
        assert(s =~= s.subrange(0, 2 * r) + rest);
    }
}

/// Every record of an encoding counts at least one pixel and at most `MAX_RUN`.
pub proof fn law_runs_nonempty(s: Seq<u8>, i: int)
    requires
        s.len() % 2 == 0,
        0 <= i,
        4 * i + 3 < encoded(s).len(),
    ensures
        1 <= encoded(s)[4 * i + 2] + 256 * encoded(s)[4 * i + 3] <= MAX_RUN,
    decreases s.len(),
{
    lemma_first_run(s);
    let r = first_run(s);
    let rest = s.subrange(2 * r, s.len() as int);
    lemma_record_count(r);
    let e = record(s[0], s[1], r) + encoded(rest);
    if i > 0 {
        assert(encoded(rest)[4 * (i - 1) + 2] == e[4 * i + 2]);
        assert(encoded(rest)[4 * (i - 1) + 3] == e[4 * i + 3]);
        law_runs_nonempty(rest, i - 1);
    }
}

/// Encodes an interleaved material/shade stream as runs of equal pixels.
pub fn encode_pixels(raw: &[u8]) -> (out: Vec<u8>)
    requires
        raw@.len() % 2 == 0,
    ensures
        out@ == encoded(raw@),
{
    let mut out: Vec<u8> = Vec::new();
    let mut i: usize = 0;
    proof {
        assert(raw@.subrange(0, raw@.len() as int) =~= raw@);
        assert(out@ + encoded(raw@) =~= encoded(raw@));
    }
    while i < raw.len()
        invariant
            i <= raw@.len(),
            i % 2 == 0,
            raw@.len() % 2 == 0,
            out@ + encoded(raw@.subrange(i as int, raw@.len() as int)) == encoded(raw@),
        decreases raw@.len() - i,
    {
        let ghost s = raw@.subrange(i as int, raw@.len() as int);
        proof {
            lemma_first_run(s);
        }
        let m = raw[i];
        let sh = raw[i + 1];
        let mut run: u16 = 1;
        while (run as usize) * 2 < raw.len() - i && raw[i + run as usize * 2] == m && raw[i + run as usize * 2 + 1] == sh && run < MAX_RUN
            invariant
                i < raw@.len(),
                i % 2 == 0,
                raw@.len() % 2 == 0,
                s == raw@.subrange(i as int, raw@.len() as int),
                m == s[0],
                sh == s[1],
                1 <= run <= MAX_RUN,
                run_from(s, run as int) == first_run(s),
            decreases MAX_RUN - run,
        {
            run = run + 1;
        }
        proof {
            let r = run as int;
            assert(r == first_run(s));
            let rest = s.subrange(2 * r, s.len() as int);
            assert(rest =~= raw@.subrange(i + 2 * r, raw@.len() as int));
            assert(encoded(s) == record(m, sh, r) + encoded(rest));
        }
        let ghost before = out@;
        out.push(m);
        out.push(sh);
        out.push((run & 0xff) as u8);
        out.push((run >> 8) as u8);
        proof {
            let r = run as int;
            assert((run & 0xff) as u8 == (run % 256) as u8) by (bit_vector);
            assert((run >> 8) as u8 == (run / 256) as u8) by (bit_vector);
            assert(out@ =~= before + record(m, sh, r));
            let rest = s.subrange(2 * r, s.len() as int);
            assert(before + encoded(s) == encoded(raw@));
            assert(out@ + encoded(rest) =~= before + (record(m, sh, r) + encoded(rest)));
        }
        i = i + run as usize * 2;
    }
    proof {
        assert(raw@.subrange(raw@.len() as int, raw@.len() as int) =~= Seq::<u8>::empty());
        assert(out@ + Seq::<u8>::empty() =~= out@);
    }
    out
}

/// Decodes a run file into the pair stream; an error carries the decoded
/// length when it is not the `need` bytes the world holds.
pub fn decode_pixels(px: &[u8], need: usize) -> (r: Result<Vec<u8>, usize>)
    ensures
        match r {
            Ok(raw) => raw@ == decoded(px@) && decoded(px@).len() == need,
            Err(n) => n == decoded(px@).len() && n != need,
        },
{
    let mut raw: Vec<u8> = Vec::new();
    let mut i: usize = 0;
    proof {
        assert(px@.subrange(0, px@.len() as int) =~= px@);
        assert(raw@ + decoded(px@) =~= decoded(px@));
    }
    while px.len() >= 4 && i <= px.len() - 4
        invariant
            i <= px@.len(),
            raw@ + decoded(px@.subrange(i as int, px@.len() as int)) == decoded(px@),
        decreases px@.len() - i,
    {
        let ghost t = px@.subrange(i as int, px@.len() as int);
        let m = px[i];
        let sh = px[i + 1];
        let lo = px[i + 2];
        let hi = px[i + 3];
        let run: u16 = lo as u16 | ((hi as u16) << 8);
        proof {
            assert(lo as u16 | ((hi as u16) << 8) == lo + 256 * hi) by (bit_vector);
            assert(t.subrange(4, t.len() as int) =~= px@.subrange(i + 4, px@.len() as int));
            assert(decoded(t) == repeated(m, sh, run as nat) + decoded(px@.subrange(i + 4, px@.len() as int)));
        }
        let ghost base = raw@;
        let mut k: u16 = 0;
        while k < run
            invariant
                k <= run,
                raw@ == base + repeated(m, sh, k as nat),
            decreases run - k,
        {
            raw.push(m);
            raw.push(sh);
            proof {
                assert(raw@ =~= base + repeated(m, sh, (k + 1) as nat));
            }
            k = k + 1;
        }
        proof {
            let rest = decoded(px@.subrange(i + 4, px@.len() as int));
            assert(raw@ + rest =~= base + (repeated(m, sh, run as nat) + rest));
        }
        i = i + 4;
    }
    proof {
        if px@.len() >= 4 {
            assert(px@.subrange(i as int, px@.len() as int).len() < 4);
        }
        assert(decoded(px@.subrange(i as int, px@.len() as int)) =~= Seq::<u8>::empty());
        assert(raw@ + Seq::<u8>::empty() =~= raw@);
    }
    if raw.len() == need {
        Ok(raw)
    } else {
        Err(raw.len())
    }
}

/// The save slot in use: 1 to 3, anything else meaning slot 1.
pub fn save_slot(slot: u8) -> (r: u8)
    ensures
        r == (if 1 <= slot <= 3 { slot } else { 1 }),
{
    if 1 <= slot && slot <= 3 {
        slot
    } else {
        1
    }
}

/// Equipment read back from a save: kept when it has one cell per slot, else
/// every slot empty.
pub fn equip_or_empty(cells: Vec<Option<Item>>) -> (r: Vec<Option<Item>>)
    ensures
        cells@.len() == EQUIP_SLOTS ==> r@ == cells@,
        cells@.len() != EQUIP_SLOTS ==> r@.len() == EQUIP_SLOTS && forall|j: int| 0 <= j < EQUIP_SLOTS ==> r@[j] is None,
{
    if cells.len() == EQUIP_SLOTS {
        cells
    } else {
        let mut r: Vec<Option<Item>> = Vec::new();
        let mut j: usize = 0;
        while j < EQUIP_SLOTS
            invariant
                j <= EQUIP_SLOTS,
                r@.len() == j,
                forall|q: int| 0 <= q < j ==> r@[q] is None,
            decreases EQUIP_SLOTS - j,
        {
            r.push(None);
            j = j + 1;
        }
        r
    }
}

} // verus!
