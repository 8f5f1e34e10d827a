//! Black pictures in the planar YUV 4:2:0 layout.
use vstd::prelude::*;

verus! {

/// The value of black in a plane: luma first, then the two chroma planes.
pub open spec fn black_value_spec(plane: int) -> u8 {
    if plane == 0 {
        16
    } else {
        128
    }
}

/// An extent of a picture in a plane: chroma planes have half of it.
pub open spec fn plane_extent(extent: int, plane: int) -> int {
    if plane == 0 {
        extent
    } else {
        extent / 2
    }
}

/// Whether position `i` of a plane lies in the picture, and not in the padding
/// behind a row or behind the last row.
pub open spec fn in_picture(i: int, width: int, height: int, stride: int) -> bool {
    exists|y: int| 0 <= y < height && #[trigger] (y * stride) <= i < y * stride + width
}

/// Fills the picture part of a plane with one value.
fn fill_rows(data: &mut [u8], width: usize, height: usize, stride: usize, value: u8)
    requires
        height > 0 ==> (height - 1) * stride + width <= old(data)@.len(),
    ensures
        final(data)@.len() == old(data)@.len(),
        forall|i: int|
            0 <= i < old(data)@.len() ==> #[trigger] final(data)@[i] == if in_picture(
                i,
                width as int,
                height as int,
                stride as int,
            ) {
                value
            } else {
                old(data)@[i]
            },
{
    let len: usize = data.len();
    let mut y: usize = 0;
    while y < height
        invariant
            y <= height,
            height > 0 ==> (height - 1) * stride + width <= len,
            data@.len() == len,
            len == old(data)@.len(),
            forall|i: int|
                0 <= i < len ==> #[trigger] data@[i] == if in_picture(
                    i,
                    width as int,
                    y as int,
                    stride as int,
                ) {
                    value
                } else {
                    old(data)@[i]
                },
        decreases height - y,
    {
        assert(0 <= y * stride <= (height - 1) * stride) by (nonlinear_arith)
            requires
                0 <= y <= height - 1,
                stride >= 0,
        ;
        let start: usize = y * stride;
        let mut x: usize = 0;
        while x < width
            invariant
                x <= width,
                start == y * stride,
                start + width <= len,
                    data@.len() == len,
                len == old(data)@.len(),
                forall|i: int|
                    0 <= i < len ==> #[trigger] data@[i] == if start <= i < start + x || in_picture(
                        i,
                        width as int,
                        y as int,
                        stride as int,
                    ) {
                        value
                    } else {
                        old(data)@[i]
                    },
            decreases width - x,
        {
            data[start + x] = value;
            x += 1;
        }
        assert forall|i: int| 0 <= i < len implies (#[trigger] data@[i]) == if in_picture(
            i,
            width as int,
            y + 1,
            stride as int,
        ) {
            value
        } else {
            old(data)@[i]
        } by {
            if start <= i < start + width {
                assert(y * stride <= i < y * stride + width);
            }
            if in_picture(i, width as int, y as int, stride as int) {
                let row = choose|row: int|
                    0 <= row < y && #[trigger] (row * stride) <= i < row * stride + width;
                assert(row * stride <= i < row * stride + width);
            }
        }
        y += 1;
    }
}

/// Makes the picture part of a plane black. `width` and `height` are those of
/// the whole picture.
pub fn fill_plane(data: &mut [u8], plane: usize, width: u32, height: u32, stride: usize)
    requires
        ({
            let rows = plane_extent(height as int, plane as int);
            rows > 0 ==> (rows - 1) * stride + plane_extent(width as int, plane as int) <= old(
                data,
            )@.len()
        }),
    ensures
        final(data)@.len() == old(data)@.len(),
        forall|i: int|
            0 <= i < old(data)@.len() ==> #[trigger] final(data)@[i] == if in_picture(
                i,
                plane_extent(width as int, plane as int),
                plane_extent(height as int, plane as int),
                stride as int,
            ) {
                black_value_spec(plane as int)
            } else {
                old(data)@[i]
            },
{
    if plane == 0 {
        fill_rows(data, width as usize, height as usize, stride, 16);
    } else {
        fill_rows(data, (width / 2) as usize, (height / 2) as usize, stride, 128);
    }
}

/// A picture turns black in every pixel and nowhere else: in the luma plane
/// each of its pixels, in a chroma plane each pixel of the half-size picture,
/// and no padding behind a row or behind the last row.
pub proof fn law_every_pixel_turns_black(
    width: int,
    height: int,
    stride: int,
    plane: int,
    x: int,
    y: int,
)
    requires
        width >= 0,
        height >= 0,
        0 <= x < stride,
        0 <= y,
    ensures
        plane == 0 ==> black_value_spec(plane) == 16,
        plane == 1 || plane == 2 ==> black_value_spec(plane) == 128,
        plane == 0 ==> (x < width && y < height ==> in_picture(
            y * stride + x,
            plane_extent(width, plane),
            plane_extent(height, plane),
            stride,
        )),
        plane == 1 || plane == 2 ==> (x < width / 2 && y < height / 2 ==> in_picture(
            y * stride + x,
            plane_extent(width, plane),
            plane_extent(height, plane),
            stride,
        )),
        plane == 0 && width <= stride ==> (in_picture(
            y * stride + x,
            plane_extent(width, plane),
            plane_extent(height, plane),
            stride,
        ) ==> x < width && y < height),
        (plane == 1 || plane == 2) && width / 2 <= stride ==> (in_picture(
            y * stride + x,
            plane_extent(width, plane),
            plane_extent(height, plane),
            stride,
        ) ==> x < width / 2 && y < height / 2),
{
    let at = y * stride + x;
    let w = if plane == 0 {
        width
    } else {
        width / 2
    };
    let h = if plane == 0 {
        height
    } else {
        height / 2
    };
    if x < w && y < h {
        assert(y * stride <= at < y * stride + w);
    }
    if w <= stride && in_picture(at, w, h, stride) {
        let row = choose|row: int|
            0 <= row < h && #[trigger] (row * stride) <= at < row * stride + w;
        assert(row == y) by (nonlinear_arith)
            requires
                0 <= x < stride,
                row * stride <= y * stride + x,
                y * stride + x < row * stride + w,
                w <= stride,
        ;
    }
}

} // verus!
