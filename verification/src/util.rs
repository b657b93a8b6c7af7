use vstd::prelude::*;

verus! {

/// Enumerates the cells of a `width` by `height` grid, row by row: entry
/// `k` is the cell `(k % width, k / width)`.
pub fn generate_2d_positions(width: u32, height: u32) -> (out: Vec<(usize, usize)>)
    requires
        width * height <= usize::MAX,
    ensures
        out@.len() == width * height,
        forall|k: int|
            0 <= k < out@.len() ==> (#[trigger] out@[k]).0 == k % (width as int) && out@[k].1 == k
                / (width as int),
{
    let mut out: Vec<(usize, usize)> = Vec::new();
    let mut y: u32 = 0;
    if width == 0 {
        return out;
    }
    while y < height
        invariant
            y <= height,
            width >= 1,
            width * height <= usize::MAX,
            out@.len() == width * y,
            forall|k: int|
                0 <= k < out@.len() ==> (#[trigger] out@[k]).0 == k % (width as int) && out@[k].1
                    == k / (width as int),
        decreases height - y,
    {
        let mut x: u32 = 0;
        proof {
            assert((width as int) * (y as int + 1) <= (width as int) * (height as int))
                by (nonlinear_arith)
                requires
                    y as int + 1 <= height as int,
                    width as int >= 1;
        }
        while x < width
            invariant
                x <= width,
                y < height,
                width >= 1,
                width * height <= usize::MAX,
                width * (y as int + 1) <= width * height,
                out@.len() == width * y + x,
                forall|k: int|
                    0 <= k < out@.len() ==> (#[trigger] out@[k]).0 == k % (width as int)
                        && out@[k].1 == k / (width as int),
            decreases width - x,
        {
            proof {
                assert((width as int) * (y as int) + (x as int) < (width as int) * (y as int + 1))
                    by (nonlinear_arith)
                    requires
                        (x as int) < (width as int);
                assert(((width as int) * (y as int) + (x as int)) % (width as int) == x as int
                    && ((width as int) * (y as int) + (x as int)) / (width as int) == y as int)
                    by (nonlinear_arith)
                    requires
                        0 <= (x as int),
                        (x as int) < (width as int),
                        0 <= (y as int);
            }
            out.push((x as usize, y as usize));
            x = x + 1;
        }
        proof {
            assert((width as int) * (y as int) + (width as int) == (width as int) * (y as int + 1))
                by (nonlinear_arith);
        }
        y = y + 1;
    }
    proof {
        assert((width as int) * (y as int) == (width as int) * (height as int));
    }
    out
}

} // verus!
