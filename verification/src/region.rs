//! Region extraction: clamping a requested capture rectangle to the
//! bounds of a captured frame and cropping the frame to it. A request
//! whose clamped width or height is zero is the one rejected input;
//! clamping, rather than outright rejection, tolerates selection
//! overshoot near the screen edges. Absent a region, the frame passes
//! through unchanged.
use vstd::prelude::*;

verus! {

/// A requested crop rectangle in screen pixel coordinates. The origin
/// may lie outside the frame; it is clamped before cropping.
#[derive(Clone, Copy, Debug, PartialEq, Eq, Structural)]
pub struct CaptureRegion {
    pub x: i32,
    pub y: i32,
    pub width: u32,
    pub height: u32,
}

/// An immutable in-memory bitmap: RGBA, four bytes per pixel, row-major,
/// owned by the capture request that produced it.
#[derive(Clone, Debug, PartialEq, Eq)]
pub struct Frame {
    pub width: u32,
    pub height: u32,
    pub pixels: Vec<u8>,
}

impl Frame {
    /// The pixel buffer holds exactly four bytes per pixel.
    pub open spec fn wf(self) -> bool {
        self.pixels@.len() == 4 * (self.width as int) * (self.height as int)
    }

    /// The four bytes of the pixel in column `cx` of row `cy`.
    pub open spec fn pixel(self, cx: int, cy: int) -> Seq<u8> {
        Seq::new(4, |i: int| self.pixels@[4 * (cy * (self.width as int) + cx) + i])
    }
}

#[derive(Clone, Copy, Debug, PartialEq, Eq, Structural)]
pub enum CaptureError {
    InvalidRegion,
}

/// The clamped origin: negative coordinates move to the frame edge.
pub open spec fn clamped_x(r: CaptureRegion) -> int {
    if r.x >= 0 { r.x as int } else { 0 }
}

pub open spec fn clamped_y(r: CaptureRegion) -> int {
    if r.y >= 0 { r.y as int } else { 0 }
}

/// The clamped width: never reaches past the right frame edge, by
/// saturating subtraction, so an origin beyond the edge yields zero.
pub open spec fn clamped_w(r: CaptureRegion, fw: int) -> int {
    let avail = if fw >= clamped_x(r) { fw - clamped_x(r) } else { 0 };
    if r.width as int <= avail { r.width as int } else { avail }
}

pub open spec fn clamped_h(r: CaptureRegion, fh: int) -> int {
    let avail = if fh >= clamped_y(r) { fh - clamped_y(r) } else { 0 };
    if r.height as int <= avail { r.height as int } else { avail }
}

/// For a region whose origin lies inside the frame, the clamped size is
/// exactly the requested size capped at the distance to the frame edge.
pub proof fn lemma_clamped_size_in_bounds(r: CaptureRegion, fw: int, fh: int)
    requires
        0 <= r.x < fw,
        0 <= r.y < fh,
    ensures
        clamped_w(r, fw) == if r.width as int <= fw - r.x { r.width as int } else { fw - r.x as int },
        clamped_h(r, fh) == if r.height as int <= fh - r.y { r.height as int } else { fh - r.y as int },
{
}

/// One cropped row fragment: the first `cw` pixels of frame row `yy`
/// starting at column `x`, flattened to bytes.
pub open spec fn crop_row(f: Frame, x: int, yy: int, cw: int) -> Seq<u8>
    decreases cw,
{
    if cw <= 0 { Seq::empty() } else { crop_row(f, x, yy, cw - 1) + f.pixel(x + cw - 1, yy) }
}

/// The first `rows` cropped rows, flattened.
pub open spec fn crop_rows(f: Frame, x: int, y: int, cw: int, rows: int) -> Seq<u8>
    decreases rows,
{
    if rows <= 0 { Seq::empty() } else { crop_rows(f, x, y, cw, rows - 1) + crop_row(f, x, y + rows - 1, cw) }
}

pub proof fn lemma_crop_row_len(f: Frame, x: int, yy: int, cw: int)
    requires
        cw >= 0,
    ensures
        crop_row(f, x, yy, cw).len() == 4 * cw,
    decreases cw,
{
    if cw > 0 {
        lemma_crop_row_len(f, x, yy, cw - 1);
    }
}

pub proof fn lemma_crop_rows_len(f: Frame, x: int, y: int, cw: int, rows: int)
    requires
        cw >= 0,
        rows >= 0,
    ensures
        crop_rows(f, x, y, cw, rows).len() == 4 * rows * cw,
    decreases rows,
{
    if rows > 0 {
        lemma_crop_rows_len(f, x, y, cw, rows - 1);
        lemma_crop_row_len(f, x, y + rows - 1, cw);
        assert(crop_rows(f, x, y, cw, rows)
            == crop_rows(f, x, y, cw, rows - 1) + crop_row(f, x, y + rows - 1, cw));
        assert(crop_rows(f, x, y, cw, rows).len() == 4 * (rows - 1) * cw + 4 * cw);
        assert(4 * (rows - 1) * cw + 4 * cw == 4 * rows * cw) by (nonlinear_arith);
    } else {
        assert(crop_rows(f, x, y, cw, rows).len() == 0);
        assert(4 * rows * cw == 0) by (nonlinear_arith)
            requires rows == 0
        {}
    }
}

proof fn lemma_crop_row_index(f: Frame, x: int, yy: int, cw: int, cc: int)
    requires
        0 <= cc < cw,
    ensures
        crop_row(f, x, yy, cw).subrange(4 * cc, 4 * cc + 4) == f.pixel(x + cc, yy),
    decreases cw,
{
    lemma_crop_row_len(f, x, yy, cw);
    lemma_crop_row_len(f, x, yy, cw - 1);
    if cc == cw - 1 {
        assert(crop_row(f, x, yy, cw).subrange(4 * cc, 4 * cc + 4) =~= f.pixel(x + cw - 1, yy));
    } else {
        lemma_crop_row_index(f, x, yy, cw - 1, cc);
        assert(crop_row(f, x, yy, cw).subrange(4 * cc, 4 * cc + 4)
            =~= crop_row(f, x, yy, cw - 1).subrange(4 * cc, 4 * cc + 4));
    }
}

/// Where each source pixel lands in the flattened crop.
pub proof fn lemma_crop_rows_index(f: Frame, x: int, y: int, cw: int, rows: int, cc: int, rr: int)
    requires
        0 <= cc < cw,
        0 <= rr < rows,
    ensures
        crop_rows(f, x, y, cw, rows).subrange(4 * (rr * cw + cc), 4 * (rr * cw + cc) + 4)
            == f.pixel(x + cc, y + rr),
    decreases rows,
{
    lemma_crop_rows_len(f, x, y, cw, rows - 1);
    lemma_crop_row_len(f, x, y + rows - 1, cw);
    if rr == rows - 1 {
        lemma_crop_row_index(f, x, y + rows - 1, cw, cc);
        assert(4 * (rr * cw + cc) == 4 * (rows - 1) * cw + 4 * cc) by (nonlinear_arith)
            requires rr == rows - 1
        {}
        assert(crop_rows(f, x, y, cw, rows).subrange(4 * (rr * cw + cc), 4 * (rr * cw + cc) + 4)
            =~= crop_row(f, x, y + rows - 1, cw).subrange(4 * cc, 4 * cc + 4));
    } else {
        lemma_crop_rows_index(f, x, y, cw, rows - 1, cc, rr);
        assert(4 * (rr * cw + cc) + 4 <= 4 * (rows - 1) * cw) by (nonlinear_arith)
            requires 0 <= cc < cw && 0 <= rr < rows - 1
        {}
        assert(crop_rows(f, x, y, cw, rows).subrange(4 * (rr * cw + cc), 4 * (rr * cw + cc) + 4)
            =~= crop_rows(f, x, y, cw, rows - 1).subrange(4 * (rr * cw + cc), 4 * (rr * cw + cc) + 4));
    }
}

/// Clamps the requested region to the frame and crops. Absent a region
/// the input frame is returned bit-identical; a region whose clamped
/// width or height is zero is the one rejected input.
pub fn extract(frame: Frame, region: Option<&CaptureRegion>) -> (r: Result<Frame, CaptureError>)
    requires
        frame.wf(),
    ensures
        match region {
            None => r == Ok::<Frame, CaptureError>(frame),
            Some(reg) => {
                if clamped_w(*reg, frame.width as int) > 0 && clamped_h(*reg, frame.height as int) > 0 {
                    &&& r is Ok
                    &&& r->Ok_0.width as int == clamped_w(*reg, frame.width as int)
                    &&& r->Ok_0.height as int == clamped_h(*reg, frame.height as int)
                    &&& r->Ok_0.wf()
                    &&& r->Ok_0.pixels@ == crop_rows(
                        frame,
                        clamped_x(*reg),
                        clamped_y(*reg),
                        clamped_w(*reg, frame.width as int),
                        clamped_h(*reg, frame.height as int),
                    )
                } else {
                    r == Err::<Frame, CaptureError>(CaptureError::InvalidRegion)
                }
            },
        },
{
    let reg = match region {
        None => { return Ok(frame); },
        Some(reg) => reg,
    };
    let fw = frame.width;
    let fh = frame.height;
    let x: u32 = if reg.x >= 0 { reg.x as u32 } else { 0 };
    let y: u32 = if reg.y >= 0 { reg.y as u32 } else { 0 };
    let avail_w: u32 = if fw >= x { fw - x } else { 0 };
    let avail_h: u32 = if fh >= y { fh - y } else { 0 };
    let cw: u32 = if reg.width <= avail_w { reg.width } else { avail_w };
    let ch: u32 = if reg.height <= avail_h { reg.height } else { avail_h };
    proof {
        assert(x as int == clamped_x(*reg));
        assert(y as int == clamped_y(*reg));
        assert(cw as int == clamped_w(*reg, fw as int));
        assert(ch as int == clamped_h(*reg, fh as int));
    }
    if cw == 0 || ch == 0 {
        return Err(CaptureError::InvalidRegion);
    }
    let mut out: Vec<u8> = Vec::new();
    let mut rr: u32 = 0;
    let plen = frame.pixels.len();
    proof {
        assert(x + cw <= fw && y + ch <= fh);
    }
    while rr < ch
        invariant
            frame.wf(),
            plen == frame.pixels@.len(),
            0 <= rr <= ch,
            x + cw <= fw,
            y + ch <= fh,
            cw > 0 && ch > 0,
            fw == frame.width && fh == frame.height,
            x as int == clamped_x(*reg),
            y as int == clamped_y(*reg),
            cw as int == clamped_w(*reg, fw as int),
            ch as int == clamped_h(*reg, fh as int),
            out@ == crop_rows(frame, x as int, y as int, cw as int, rr as int),
        decreases ch - rr,
    {
        let mut cc: u32 = 0;
        let ghost row_base = out@;
        while cc < cw
            invariant
                frame.wf(),
                plen == frame.pixels@.len(),
                0 <= rr < ch,
                0 <= cc <= cw,
                x + cw <= fw,
                y + ch <= fh,
                fw == frame.width && fh == frame.height,
                row_base == crop_rows(frame, x as int, y as int, cw as int, rr as int),
                out@ == row_base + crop_row(frame, x as int, (y + rr) as int, cc as int),
            decreases cw - cc,
        {
            let yy: usize = y as usize + rr as usize;
            let xx: usize = x as usize + cc as usize;
            proof {
                assert(yy < fh as int && xx < fw as int);
                assert(4 * ((yy as int) * (fw as int) + (xx as int)) + 4 <= 4 * (fw as int) * (fh as int))
                    by (nonlinear_arith)
                    requires
                        0 <= (yy as int) && (yy as int) < (fh as int),
                        0 <= (xx as int) && (xx as int) < (fw as int),
                {}
            }
            let base: usize = 4 * (yy * (fw as usize) + xx);
            let ghost pre = out@;
            let b0 = frame.pixels[base];
            let b1 = frame.pixels[base + 1];
            let b2 = frame.pixels[base + 2];
            let b3 = frame.pixels[base + 3];
            out.push(b0);
            out.push(b1);
            out.push(b2);
            out.push(b3);
            proof {
                let px = frame.pixel(xx as int, yy as int);
                assert(px.len() == 4);
                assert(px[0] == b0 && px[1] == b1 && px[2] == b2 && px[3] == b3);
                assert(out@ =~= pre + px);
                assert(crop_row(frame, x as int, (y + rr) as int, cc + 1 as int)
                    == crop_row(frame, x as int, (y + rr) as int, cc as int) + frame.pixel(
                        x as int + cc, (y + rr) as int));
                assert(out@ =~= row_base + crop_row(frame, x as int, (y + rr) as int, cc + 1 as int));
            }
            cc += 1;
        }
        proof {
            assert(crop_rows(frame, x as int, y as int, cw as int, rr + 1 as int)
                == crop_rows(frame, x as int, y as int, cw as int, rr as int)
                    + crop_row(frame, x as int, y as int + rr, cw as int));
            assert(out@ =~= crop_rows(frame, x as int, y as int, cw as int, rr + 1 as int));
        }
        rr += 1;
    }
    proof {
        lemma_crop_rows_len(frame, x as int, y as int, cw as int, ch as int);
        assert(4 * (ch as int) * (cw as int) == 4 * (cw as int) * (ch as int)) by (nonlinear_arith);
    }
    Ok(Frame { width: cw, height: ch, pixels: out })
}

} // verus!
