//! Conversion between [`Frame`] layouts and the internal 4:2:2(:4) planes.

use super::dct::{grid, set_sample};
use super::frame::{
    alpha_format, deep_format, halved_format, plane_holds, plane_sizes_of, Frame, PixelFormat, Plane,
};
use super::layout::Layout;
use vstd::prelude::*;

verus! {

/// Internal planes (Y, U, V, A), each `aligned_height` rows of samples.
pub struct Planes {
    /// Planes, rows, samples.
    pub rows: Vec<Vec<Vec<u16>>>,
}

impl View for Planes {
    type V = Seq<Seq<Seq<u16>>>;

    open spec fn view(&self) -> Seq<Seq<Seq<u16>>> {
        self.rows@.map_values(|p: Vec<Vec<u16>>| grid(p@))
    }
}

/// The planes have the geometry of `l`.
pub open spec fn planes_fit(p: Seq<Seq<Seq<u16>>>, l: Layout) -> bool {
    &&& p.len() == 4
    &&& forall|i: int| 0 <= i < 4 ==> plane_shape(#[trigger] p[i], l, i)
}

/// One plane has the geometry of plane `i` of `l`.
pub open spec fn plane_shape(p: Seq<Seq<u16>>, l: Layout, i: int) -> bool {
    &&& p.len() == l.aligned_height
    &&& forall|r: int| 0 <= r < p.len() ==> (#[trigger] p[r]).len() == l.stride_of(i)
}

/// Every sample of a plane is an 8-bit one.
pub open spec fn narrow(p: Seq<Seq<u16>>) -> bool {
    forall|r: int, x: int| 0 <= r < p.len() && 0 <= x < p[r].len() ==> #[trigger] p[r][x] <= 255
}

/// Every sample is an 8-bit one.
pub open spec fn all_narrow(p: Seq<Seq<Seq<u16>>>) -> bool {
    forall|i: int| 0 <= i < p.len() ==> narrow(#[trigger] p[i])
}

/// Fill of the 8-bit planes.
pub const FILL8: [u16; 4] = [0, 128, 128, 255];

/// Fill of the 10-bit planes.
pub const FILL16: [u16; 4] = [0, 0x8080, 0x8080, 0xFFFF];

/// Planes that hold one value each.
pub open spec fn filled(l: Layout, fill: Seq<u16>) -> Seq<Seq<Seq<u16>>> {
    Seq::new(
        4,
        |p: int|
            Seq::new(
                l.aligned_height as nat,
                |r: int| Seq::new(l.stride_of(p) as nat, |x: int| fill[p]),
            ),
    )
}

impl Planes {
    /// Allocates planes that hold one value each.
    pub fn new(l: &Layout, fill: &[u16; 4]) -> (r: Self)
        requires
            l.wf(),
        ensures
            r@ == filled(*l, fill@),
            planes_fit(r@, *l),
    {
        let mut rows: Vec<Vec<Vec<u16>>> = Vec::new();
        let mut p: usize = 0;
        while p < 4
            invariant
                p <= 4,
                l.wf(),
                rows@.len() == p,
                forall|i: int|
                    0 <= i < p ==> grid((#[trigger] rows@[i])@) == filled(*l, fill@)[i],
            decreases 4 - p,
        {
            let v: u16 = fill[p];
            assert(l.strides@[p as int] == l.stride_of(p as int));
            let n: usize = l.strides[p];
            let mut plane: Vec<Vec<u16>> = Vec::new();
            let mut r: usize = 0;
            while r < l.aligned_height
                invariant
                    r <= l.aligned_height,
                    n == l.stride_of(p as int),
                    plane@.len() == r,
                    forall|i: int|
                        0 <= i < r ==> (#[trigger] plane@[i])@ == Seq::new(n as nat, |x: int| v),
                decreases l.aligned_height - r,
            {
                let row: Vec<u16> = vec![v; n];
                assert(row@ =~= Seq::new(n as nat, |x: int| v));
                plane.push(row);
                r = r + 1;
            }
            assert(grid(plane@) =~~= filled(*l, fill@)[p as int]);
            rows.push(plane);
            p = p + 1;
        }
        let r = Planes { rows };
        assert(r@ =~= filled(*l, fill@));
        r
    }
}

// ---------------------------------------------------------------------------
// Frame to planes
// ---------------------------------------------------------------------------

/// Samples per image row of plane `p`.
pub open spec fn plane_width(l: Layout, p: int) -> int {
    if p == 1 || p == 2 {
        l.width as int / 2
    } else {
        l.width as int
    }
}

/// Where a frame keeps sample `x` of row `y` of plane `p`: the frame's plane,
/// the row in it, and the byte in the row.
pub open spec fn sample_place(f: PixelFormat, p: int, y: int, x: int) -> (int, int, int) {
    match f {
        PixelFormat::Uyvy | PixelFormat::Uyva => if p == 0 {
            (0, y, 2 * x + 1)
        } else if p == 1 {
            (0, y, 4 * x)
        } else if p == 2 {
            (0, y, 4 * x + 2)
        } else {
            (1, y, x)
        },
        PixelFormat::Yuy2 => if p == 0 {
            (0, y, 2 * x)
        } else if p == 1 {
            (0, y, 4 * x + 1)
        } else {
            (0, y, 4 * x + 3)
        },
        PixelFormat::Yuv422p | PixelFormat::Yuva422p => (p, y, x),
        PixelFormat::P216 | PixelFormat::Pa16 => if p == 0 {
            (0, y, 2 * x)
        } else if p == 1 {
            (1, y, 4 * x)
        } else if p == 2 {
            (1, y, 4 * x + 2)
        } else {
            (2, y, 2 * x)
        },
        PixelFormat::Nv12 => if p == 0 {
            (0, y, x)
        } else if p == 1 {
            (1, y / 2, 2 * x)
        } else {
            (1, y / 2, 2 * x + 1)
        },
        PixelFormat::I420 => if p == 0 {
            (0, y, x)
        } else {
            (p, y / 2, x)
        },
    }
}

/// Sample `x` of row `y` of plane `p` of a frame: one byte, or two with the
/// less significant one first.
pub open spec fn sample_of(format: PixelFormat, planes: Seq<Plane>, p: int, y: int, x: int) -> u16 {
    let (q, row, b) = sample_place(format, p, y, x);
    let at = row * planes[q].stride + b;
    let data = planes[q].data@;
    if deep_format(format) {
        (data[at] + 256 * data[at + 1]) as u16
    } else {
        data[at] as u16
    }
}

/// Plane `p` is part of the format.
pub open spec fn carries(format: PixelFormat, p: int) -> bool {
    0 <= p < 3 || p == 3 && alpha_format(format)
}

/// Plane `p` with the samples of a frame copied in. Padding rows and columns
/// keep what they held.
pub open spec fn loaded_plane(
    f: Frame,
    l: Layout,
    interlaced: bool,
    old: Seq<Seq<u16>>,
    p: int,
) -> Seq<Seq<u16>> {
    Seq::new(
        old.len(),
        |r: int|
            Seq::new(
                old[r].len(),
                |x: int|
                    match l.image_row_of(r, interlaced) {
                        Some(y) => if x < plane_width(l, p) {
                            sample_of(f.format, f.planes@, p, y, x)
                        } else {
                            old[r][x]
                        },
                        None => old[r][x],
                    },
            ),
    )
}

/// The planes with a frame copied in.
pub open spec fn loaded(f: Frame, l: Layout, interlaced: bool, old: Seq<Seq<Seq<u16>>>) -> Seq<
    Seq<Seq<u16>>,
> {
    Seq::new(
        old.len(),
        |p: int|
            if carries(f.format, p) {
                loaded_plane(f, l, interlaced, old[p], p)
            } else {
                old[p]
            },
    )
}

/// The frame can be copied to the planes of `l`.
pub open spec fn loadable(f: Frame, l: Layout, interlaced: bool) -> bool {
    &&& l.wf()
    &&& f.width == l.width
    &&& f.height == l.height
    &&& f.valid()
    &&& halved_format(f.format) ==> f.height % 2 == 0
    &&& interlaced ==> l.interlaceable()
}

/// A sample's bytes lie inside its plane.
proof fn lemma_sample_place(f: Frame, l: Layout, p: int, y: int, x: int)
    requires
        loadable(f, l, false),
        carries(f.format, p),
        0 <= y < l.height,
        0 <= x < plane_width(l, p),
    ensures
        ({
            let (q, row, b) = sample_place(f.format, p, y, x);
            let n = if deep_format(f.format) {
                2int
            } else {
                1
            };
            &&& 0 <= q < f.planes@.len()
            &&& 0 <= row
            &&& 0 <= b
            &&& 0 <= row * f.planes@[q].stride
            &&& row * f.planes@[q].stride + b + n <= f.planes@[q].data@.len()
        }),
{
    let (q, row, b) = sample_place(f.format, p, y, x);
    let size = f.sizes()[q];
    assert(plane_holds(f.planes@[q], size));
    let n = if deep_format(f.format) {
        2int
    } else {
        1
    };
    assert(0 <= row <= size.1 - 1);
    assert(b + n <= size.0);
    let s = f.planes@[q].stride as int;
    assert(0 <= row * s <= s * (size.1 - 1)) by (nonlinear_arith)
        requires
            0 <= row <= size.1 - 1,
            0 <= s,
    ;
}

/// Reads one sample of a frame.
fn read_sample(f: &Frame, l: &Layout, p: usize, y: usize, x: usize) -> (r: u16)
    requires
        loadable(*f, *l, false),
        carries(f.format, p as int),
        y < l.height,
        x < plane_width(*l, p as int),
    ensures
        r == sample_of(f.format, f.planes@, p as int, y as int, x as int),
        !deep_format(f.format) ==> r <= 255,
{
    proof {
        lemma_sample_place(*f, *l, p as int, y as int, x as int);
    }
    let (q, row, b): (usize, usize, usize) = match f.format {
        PixelFormat::Uyvy | PixelFormat::Uyva => if p == 0 {
            (0, y, 2 * x + 1)
        } else if p == 1 {
            (0, y, 4 * x)
        } else if p == 2 {
            (0, y, 4 * x + 2)
        } else {
            (1, y, x)
        },
        PixelFormat::Yuy2 => if p == 0 {
            (0, y, 2 * x)
        } else if p == 1 {
            (0, y, 4 * x + 1)
        } else {
            (0, y, 4 * x + 3)
        },
        PixelFormat::Yuv422p | PixelFormat::Yuva422p => (p, y, x),
        PixelFormat::P216 | PixelFormat::Pa16 => if p == 0 {
            (0, y, 2 * x)
        } else if p == 1 {
            (1, y, 4 * x)
        } else if p == 2 {
            (1, y, 4 * x + 2)
        } else {
            (2, y, 2 * x)
        },
        PixelFormat::Nv12 => if p == 0 {
            (0, y, x)
        } else if p == 1 {
            (1, y / 2, 2 * x)
        } else {
            (1, y / 2, 2 * x + 1)
        },
        PixelFormat::I420 => if p == 0 {
            (0, y, x)
        } else {
            (p, y / 2, x)
        },
    };
    let plane: &Plane = &f.planes[q];
    let len: usize = plane.data.len();
    assert(row * plane.stride + b < len);
    let at: usize = row * plane.stride + b;
    if f.format.is_10bit() {
        plane.data[at] as u16 + 256 * plane.data[at + 1] as u16
    } else {
        plane.data[at] as u16
    }
}

/// Copies plane `p` of a frame. Padding rows and columns keep what they held.
fn load_plane(f: &Frame, l: &Layout, interlaced: bool, p: usize, rows: &mut Vec<Vec<u16>>)
    requires
        loadable(*f, *l, interlaced),
        carries(f.format, p as int),
        plane_shape(grid(old(rows)@), *l, p as int),
    ensures
        grid(final(rows)@) == loaded_plane(*f, *l, interlaced, grid(old(rows)@), p as int),
        plane_shape(grid(final(rows)@), *l, p as int),
        !deep_format(f.format) && narrow(grid(old(rows)@)) ==> narrow(grid(final(rows)@)),
{
    let w: usize = if p == 1 || p == 2 {
        l.width / 2
    } else {
        l.width
    };
    let ghost g0 = grid(rows@);
    let ghost want = loaded_plane(*f, *l, interlaced, g0, p as int);
    let mut r: usize = 0;
    while r < l.aligned_height
        invariant
            r <= l.aligned_height,
            w == plane_width(*l, p as int),
            loadable(*f, *l, interlaced),
            carries(f.format, p as int),
            plane_shape(g0, *l, p as int),
            plane_shape(grid(rows@), *l, p as int),
            want == loaded_plane(*f, *l, interlaced, g0, p as int),
            forall|j: int| 0 <= j < r ==> #[trigger] grid(rows@)[j] == want[j],
            forall|j: int| r <= j < g0.len() ==> #[trigger] grid(rows@)[j] == g0[j],
            !deep_format(f.format) && narrow(g0) ==> narrow(grid(rows@)),
        decreases l.aligned_height - r,
    {
        match l.image_row(r, interlaced) {
            None => {
                assert(want[r as int] =~= g0[r as int]);
            },
            Some(y) => {
                proof {
                    assert(y < l.height);
                }
                let mut x: usize = 0;
                while x < w
                    invariant
                        x <= w,
                        w == plane_width(*l, p as int),
                        r < l.aligned_height,
                        y < l.height,
                        l.image_row_of(r as int, interlaced) == Some(y as int),
                        loadable(*f, *l, interlaced),
                        carries(f.format, p as int),
                        plane_shape(g0, *l, p as int),
                        plane_shape(grid(rows@), *l, p as int),
                        want == loaded_plane(*f, *l, interlaced, g0, p as int),
                        forall|j: int| 0 <= j < r ==> #[trigger] grid(rows@)[j] == want[j],
                        forall|j: int| r < j < g0.len() ==> #[trigger] grid(rows@)[j] == g0[j],
                        forall|i: int| 0 <= i < x ==> grid(rows@)[r as int][i] == want[r as int][i],
                        forall|i: int|
                            x <= i < g0[r as int].len() ==> grid(rows@)[r as int][i]
                                == g0[r as int][i],
                        !deep_format(f.format) && narrow(g0) ==> narrow(grid(rows@)),
                    decreases w - x,
                {
                    let v: u16 = read_sample(f, l, p, y, x);
                    assert(grid(rows@)[r as int].len() == l.stride_of(p as int));
                    set_sample(rows, r, x, v);
                    x = x + 1;
                }
                assert(grid(rows@)[r as int] =~= want[r as int]);
            },
        }
        r = r + 1;
    }
    assert(grid(rows@) =~= want);
}

/// Copies a frame into the planes.
pub fn frame_to_planes(f: &Frame, l: &Layout, interlaced: bool, pl: &mut Planes)
    requires
        loadable(*f, *l, interlaced),
        planes_fit(old(pl)@, *l),
    ensures
        final(pl)@ == loaded(*f, *l, interlaced, old(pl)@),
        planes_fit(final(pl)@, *l),
        !deep_format(f.format) && all_narrow(old(pl)@) ==> all_narrow(final(pl)@),
{
    let n: usize = if f.format.has_alpha() {
        4
    } else {
        3
    };
    let ghost v0 = pl@;
    let ghost want = loaded(*f, *l, interlaced, v0);
    let mut p: usize = 0;
    while p < n
        invariant
            p <= n,
            n == if alpha_format(f.format) {
                4int
            } else {
                3
            },
            loadable(*f, *l, interlaced),
            planes_fit(v0, *l),
            planes_fit(pl@, *l),
            want == loaded(*f, *l, interlaced, v0),
            forall|i: int| 0 <= i < p ==> #[trigger] pl@[i] == want[i],
            forall|i: int| p <= i < 4 ==> #[trigger] pl@[i] == v0[i],
            !deep_format(f.format) && all_narrow(v0) ==> all_narrow(pl@),
        decreases n - p,
    {
        let ghost before = pl@;
        let ghost b = pl.rows@;
        assert(plane_shape(before[p as int], *l, p as int));
        load_plane(f, l, interlaced, p, &mut pl.rows[p]);
        assert(pl@ =~= before.update(p as int, grid(pl.rows@[p as int]@)));
        assert(pl@[p as int] == want[p as int]);
        p = p + 1;
    }
    assert(pl@ =~= want);
}

// ---------------------------------------------------------------------------
// Planes to frame
// ---------------------------------------------------------------------------

/// Byte `b` of row `y` of the frame's plane `q`, taken from plane row `r`.
pub open spec fn out_byte(format: PixelFormat, pl: Seq<Seq<Seq<u16>>>, r: int, q: int, b: int) -> u8 {
    if deep_format(format) {
        let s = if q == 0 {
            pl[0][r][b / 2]
        } else if q == 1 {
            if b % 4 < 2 {
                pl[1][r][b / 4]
            } else {
                pl[2][r][b / 4]
            }
        } else {
            pl[3][r][b / 2]
        };
        if b % 2 == 0 {
            (s % 256) as u8
        } else {
            (s / 256) as u8
        }
    } else {
        let s = match format {
            PixelFormat::Uyvy | PixelFormat::Uyva => if q == 1 {
                pl[3][r][b]
            } else if b % 2 == 1 {
                pl[0][r][b / 2]
            } else if b % 4 == 0 {
                pl[1][r][b / 4]
            } else {
                pl[2][r][b / 4]
            },
            PixelFormat::Yuy2 => if b % 2 == 0 {
                pl[0][r][b / 2]
            } else if b % 4 == 1 {
                pl[1][r][b / 4]
            } else {
                pl[2][r][b / 4]
            },
            _ => pl[q][r][b],
        };
        (s % 256) as u8
    }
}

/// `s` with the bytes from `at` on replaced.
pub open spec fn put_at(s: Seq<u8>, at: int, b: Seq<u8>) -> Seq<u8> {
    Seq::new(
        s.len(),
        |i: int|
            if at <= i < at + b.len() {
                b[i - at]
            } else {
                s[i]
            },
    )
}

/// `data` with the first `n` rows overwritten.
pub open spec fn stored_rows(
    data: Seq<u8>,
    stride: int,
    n: int,
    len: int,
    row: spec_fn(int, int) -> u8,
) -> Seq<u8>
    decreases n,
{
    if n <= 0 {
        data
    } else {
        put_at(
            stored_rows(data, stride, n - 1, len, row),
            (n - 1) * stride,
            Seq::new(len as nat, |b: int| row(n - 1, b)),
        )
    }
}

/// The bytes of the frame's plane `q` after the planes are written to it.
pub open spec fn stored_plane(
    f: Frame,
    l: Layout,
    interlaced: bool,
    pl: Seq<Seq<Seq<u16>>>,
    q: int,
) -> Seq<u8> {
    let size = f.sizes()[q];
    stored_rows(
        f.planes@[q].data@,
        f.planes@[q].stride as int,
        size.1,
        size.0,
        |y: int, b: int| out_byte(f.format, pl, l.plane_row_of(y, interlaced), q, b),
    )
}

/// `g` is `f` with the planes written to it.
pub open spec fn stored(f: Frame, l: Layout, interlaced: bool, pl: Seq<Seq<Seq<u16>>>, g: Frame) -> bool {
    &&& g.width == f.width
    &&& g.height == f.height
    &&& g.format == f.format
    &&& g.interlaced == f.interlaced
    &&& g.planes@.len() == f.planes@.len()
    &&& forall|q: int|
        0 <= q < f.planes@.len() ==> (#[trigger] g.planes@[q]).stride == f.planes@[q].stride
            && g.planes@[q].data@ == stored_plane(f, l, interlaced, pl, q)
}

/// Computes one byte of a frame.
fn make_byte(format: PixelFormat, pl: &Planes, l: &Layout, r: usize, q: usize, b: usize) -> (res: u8)
    requires
        l.wf(),
        planes_fit(pl@, *l),
        !halved_format(format),
        r < l.aligned_height,
        q < plane_sizes_of(format, l.width as int, l.height as int).len(),
        b < plane_sizes_of(format, l.width as int, l.height as int)[q as int].0,
    ensures
        res == out_byte(format, pl@, r as int, q as int, b as int),
{
    proof {
        assert(pl@[0] == grid(pl.rows@[0]@) && pl@[1] == grid(pl.rows@[1]@) && pl@[2] == grid(
            pl.rows@[2]@,
        ) && pl@[3] == grid(pl.rows@[3]@));
        assert(plane_shape(pl@[0], *l, 0) && plane_shape(pl@[1], *l, 1) && plane_shape(pl@[2], *l, 2)
            && plane_shape(pl@[3], *l, 3));
        assert(pl@[0][r as int].len() == l.stride_of(0) && pl@[1][r as int].len() == l.stride_of(1)
            && pl@[2][r as int].len() == l.stride_of(2) && pl@[3][r as int].len() == l.stride_of(3));
    }
    if format.is_10bit() {
        let s: u16 = if q == 0 {
            pl.rows[0][r][b / 2]
        } else if q == 1 {
            if b % 4 < 2 {
                pl.rows[1][r][b / 4]
            } else {
                pl.rows[2][r][b / 4]
            }
        } else {
            pl.rows[3][r][b / 2]
        };
        if b % 2 == 0 {
            (s % 256) as u8
        } else {
            (s / 256) as u8
        }
    } else {
        let s: u16 = match format {
            PixelFormat::Uyvy | PixelFormat::Uyva => if q == 1 {
                pl.rows[3][r][b]
            } else if b % 2 == 1 {
                pl.rows[0][r][b / 2]
            } else if b % 4 == 0 {
                pl.rows[1][r][b / 4]
            } else {
                pl.rows[2][r][b / 4]
            },
            PixelFormat::Yuy2 => if b % 2 == 0 {
                pl.rows[0][r][b / 2]
            } else if b % 4 == 1 {
                pl.rows[1][r][b / 4]
            } else {
                pl.rows[2][r][b / 4]
            },
            _ => pl.rows[q][r][b],
        };
        (s % 256) as u8
    }
}

/// Overwrites bytes of a buffer.
fn overwrite(data: &mut Vec<u8>, at: usize, bytes: &Vec<u8>)
    requires
        at + bytes@.len() <= old(data)@.len(),
    ensures
        final(data)@ == put_at(old(data)@, at as int, bytes@),
{
    let mut i: usize = 0;
    let len: usize = data.len();
    while i < bytes.len()
        invariant
            i <= bytes@.len(),
            len == data@.len(),
            at + bytes@.len() <= len,
            data@.len() == old(data)@.len(),
            forall|k: int|
                0 <= k < data@.len() ==> #[trigger] data@[k] == (if at <= k < at + i {
                    bytes@[k - at]
                } else {
                    old(data)@[k]
                }),
        decreases bytes@.len() - i,
    {
        data[at + i] = bytes[i];
        i = i + 1;
    }
    assert(data@ =~= put_at(old(data)@, at as int, bytes@));
}

/// Overwriting keeps the length.
pub proof fn lemma_stored_rows_len(
    data: Seq<u8>,
    stride: int,
    n: int,
    len: int,
    row: spec_fn(int, int) -> u8,
)
    ensures
        stored_rows(data, stride, n, len, row).len() == data.len(),
    decreases n,
{
    if n > 0 {
        lemma_stored_rows_len(data, stride, n - 1, len, row);
    }
}

/// Writes the planes to the frame's plane `q`.
fn store_plane(
    pl: &Planes,
    l: &Layout,
    interlaced: bool,
    format: PixelFormat,
    q: usize,
    plane: &mut Plane,
    len: usize,
    n: usize,
)
    requires
        l.wf(),
        planes_fit(pl@, *l),
        !halved_format(format),
        interlaced ==> l.interlaceable(),
        q < plane_sizes_of(format, l.width as int, l.height as int).len(),
        (len as int, n as int) == plane_sizes_of(format, l.width as int, l.height as int)[q as int],
        plane_holds(*old(plane), (len as int, n as int)),
    ensures
        final(plane).stride == old(plane).stride,
        final(plane).data@ == stored_rows(
            old(plane).data@,
            old(plane).stride as int,
            n as int,
            len as int,
            |y: int, b: int| out_byte(format, pl@, l.plane_row_of(y, interlaced), q as int, b),
        ),
{
    let ghost row = |y: int, b: int| out_byte(format, pl@, l.plane_row_of(y, interlaced), q as int, b);
    let ghost d0 = plane.data@;
    let stride: usize = plane.stride;
    let size: usize = plane.data.len();
    let mut y: usize = 0;
    while y < n
        invariant
            y <= n,
            l.wf(),
            planes_fit(pl@, *l),
            !halved_format(format),
            interlaced ==> l.interlaceable(),
            q < plane_sizes_of(format, l.width as int, l.height as int).len(),
            (len as int, n as int) == plane_sizes_of(
                format,
                l.width as int,
                l.height as int,
            )[q as int],
            n == l.height,
            plane.stride == stride,
            old(plane).stride == stride,
            d0 == old(plane).data@,
            size == d0.len(),
            size >= stride * (n - 1) + len,
            row == (|y: int, b: int|
                out_byte(format, pl@, l.plane_row_of(y, interlaced), q as int, b)),
            plane.data@ == stored_rows(d0, stride as int, y as int, len as int, row),
        decreases n - y,
    {
        proof {
            lemma_stored_rows_len(d0, stride as int, y as int, len as int, row);
            assert(0 <= y * stride <= stride * (n - 1)) by (nonlinear_arith)
                requires
                    0 <= y <= n - 1,
                    0 <= stride,
            ;
        }
        let r: usize = if !interlaced {
            y
        } else if y % 2 == 0 {
            y / 2
        } else {
            l.aligned_height / 2 + y / 2
        };
        let mut bytes: Vec<u8> = Vec::new();
        let mut b: usize = 0;
        while b < len
            invariant
                b <= len,
                l.wf(),
                planes_fit(pl@, *l),
                !halved_format(format),
                r < l.aligned_height,
                q < plane_sizes_of(format, l.width as int, l.height as int).len(),
                len == plane_sizes_of(format, l.width as int, l.height as int)[q as int].0,
                bytes@.len() == b,
                forall|i: int|
                    0 <= i < b ==> #[trigger] bytes@[i] == out_byte(
                        format,
                        pl@,
                        r as int,
                        q as int,
                        i,
                    ),
            decreases len - b,
        {
            bytes.push(make_byte(format, pl, l, r, q, b));
            b = b + 1;
        }
        assert(r == l.plane_row_of(y as int, interlaced));
        assert(bytes@ =~= Seq::new(len as nat, |b: int| row(y as int, b)));
        overwrite(&mut plane.data, y * stride, &bytes);
        y = y + 1;
    }
}

/// Writes decoded planes into `f`, which must be allocated for its format.
pub fn planes_to_frame(pl: &Planes, l: &Layout, interlaced: bool, f: &mut Frame)
    requires
        loadable(*old(f), *l, interlaced),
        !halved_format(old(f).format),
        planes_fit(pl@, *l),
    ensures
        stored(*old(f), *l, interlaced, pl@, *final(f)),
{
    let ghost f0 = *f;
    let sizes: Vec<(usize, usize)> = f.format.plane_sizes(f.width, f.height);
    let format: PixelFormat = f.format;
    let mut q: usize = 0;
    while q < sizes.len()
        invariant
            q <= sizes@.len(),
            f0 == *old(f),
            loadable(f0, *l, interlaced),
            !halved_format(format),
            format == f0.format,
            planes_fit(pl@, *l),
            sizes@.len() == f0.sizes().len(),
            forall|i: int|
                0 <= i < sizes@.len() ==> (#[trigger] sizes@[i]).0 == f0.sizes()[i].0 && sizes@[i].1
                    == f0.sizes()[i].1,
            f.width == f0.width,
            f.height == f0.height,
            f.format == f0.format,
            f.interlaced == f0.interlaced,
            f.planes@.len() == f0.planes@.len(),
            forall|i: int|
                0 <= i < q ==> (#[trigger] f.planes@[i]).stride == f0.planes@[i].stride
                    && f.planes@[i].data@ == stored_plane(f0, *l, interlaced, pl@, i),
            forall|i: int| q <= i < f0.planes@.len() ==> #[trigger] f.planes@[i] == f0.planes@[i],
        decreases sizes@.len() - q,
    {
        let (len, n): (usize, usize) = sizes[q];
        assert(plane_holds(f0.planes@[q as int], f0.sizes()[q as int]));
        store_plane(pl, l, interlaced, format, q, &mut f.planes[q], len, n);
        q = q + 1;
    }
}

/// The first `n` rows hold what was written to them.
proof fn lemma_stored_rows(
    data: Seq<u8>,
    stride: int,
    n: int,
    len: int,
    row: spec_fn(int, int) -> u8,
    y: int,
    b: int,
)
    requires
        0 <= y < n,
        0 <= b < len <= stride,
        stride * (n - 1) + len <= data.len(),
    ensures
        0 <= y * stride + b < data.len(),
        stored_rows(data, stride, n, len, row)[y * stride + b] == row(y, b),
    decreases n,
{
    lemma_stored_rows_len(data, stride, n - 1, len, row);
    if y == n - 1 {
        assert(y * stride == stride * (n - 1) && 0 <= y * stride) by (nonlinear_arith)
            requires
                y == n - 1,
                0 <= y,
                0 <= stride,
        ;
    } else {
        assert((y + 1) * stride <= (n - 1) * stride && y * stride + stride == (y + 1) * stride && stride
            * (n - 1) == stride * (n - 2) + stride && 0 <= y * stride && (n - 1) * stride == stride * (n
            - 1)) by (nonlinear_arith)
            requires
                0 <= y,
                y + 1 <= n - 1,
                0 < stride,
        ;
        lemma_stored_rows(data, stride, n - 1, len, row, y, b);
    }
}

/// A frame that the planes were written to gives their samples back: reading
/// any sample of the image from it returns what the plane held (its 8 bits
/// where the format has 8).
pub proof fn law_stored_samples(
    f: Frame,
    l: Layout,
    interlaced: bool,
    pl: Seq<Seq<Seq<u16>>>,
    g: Frame,
    p: int,
    y: int,
    x: int,
)
    requires
        loadable(f, l, interlaced),
        !halved_format(f.format),
        stored(f, l, interlaced, pl, g),
        carries(f.format, p),
        0 <= y < l.height,
        0 <= x < plane_width(l, p),
    ensures
        sample_of(g.format, g.planes@, p, y, x) == (if deep_format(f.format) {
            pl[p][l.plane_row_of(y, interlaced)][x]
        } else {
            (pl[p][l.plane_row_of(y, interlaced)][x] % 256) as u16
        }),
{
    let (q, row, b) = sample_place(f.format, p, y, x);
    lemma_sample_place(f, l, p, y, x);
    let size = f.sizes()[q];
    assert(plane_holds(f.planes@[q], size));
    let fun = |y: int, b: int| out_byte(f.format, pl, l.plane_row_of(y, interlaced), q, b);
    let s = f.planes@[q].stride as int;
    assert(g.planes@[q].data@ == stored_plane(f, l, interlaced, pl, q));
    lemma_stored_rows(f.planes@[q].data@, s, size.1, size.0, fun, y, b);
    if deep_format(f.format) {
        lemma_stored_rows(f.planes@[q].data@, s, size.1, size.0, fun, y, b + 1);
    }
}

/// The 16-bit word at a place, the less significant byte first.
pub open spec fn word_at(d: Seq<u8>, at: int) -> int {
    d[at] + 256 * d[at + 1]
}

/// Where the samples of pair `i` of row `y` stand in frames of each format:
/// the order of the bytes of a packed pair, and the place of the pair in the
/// planes of the other formats. Formats with halved chroma share a chroma row
/// between two rows of luma.
pub proof fn law_sample_bytes(planes: Seq<Plane>, y: int, i: int)
    requires
        0 <= y,
        0 <= i,
    ensures
        ({
            let (a, b, c) = (planes[0].data@, planes[1].data@, planes[2].data@);
            let (ra, rb, rc) = (y * planes[0].stride, y * planes[1].stride, y * planes[2].stride);
            let (hb, hc) = (y / 2 * planes[1].stride, y / 2 * planes[2].stride);
            let at = |f: PixelFormat, p: int, x: int| sample_of(f, planes, p, y, x) as int;
            // U Y V Y, and with a plane of alpha behind it.
            &&& at(PixelFormat::Uyvy, 1, i) == a[ra + 4 * i]
            &&& at(PixelFormat::Uyvy, 0, 2 * i) == a[ra + 4 * i + 1]
            &&& at(PixelFormat::Uyvy, 2, i) == a[ra + 4 * i + 2]
            &&& at(PixelFormat::Uyvy, 0, 2 * i + 1) == a[ra + 4 * i + 3]
            &&& at(PixelFormat::Uyva, 1, i) == a[ra + 4 * i]
            &&& at(PixelFormat::Uyva, 0, 2 * i) == a[ra + 4 * i + 1]
            &&& at(PixelFormat::Uyva, 2, i) == a[ra + 4 * i + 2]
            &&& at(PixelFormat::Uyva, 0, 2 * i + 1) == a[ra + 4 * i + 3]
            &&& at(PixelFormat::Uyva, 3, i) == b[rb + i]
            // Y U Y V.
            &&& at(PixelFormat::Yuy2, 0, 2 * i) == a[ra + 4 * i]
            &&& at(PixelFormat::Yuy2, 1, i) == a[ra + 4 * i + 1]
            &&& at(PixelFormat::Yuy2, 0, 2 * i + 1) == a[ra + 4 * i + 2]
            &&& at(PixelFormat::Yuy2, 2, i) == a[ra + 4 * i + 3]
            // A plane each.
            &&& at(PixelFormat::Yuv422p, 0, i) == a[ra + i]
            &&& at(PixelFormat::Yuv422p, 1, i) == b[rb + i]
            &&& at(PixelFormat::Yuv422p, 2, i) == c[rc + i]
            &&& at(PixelFormat::Yuva422p, 0, i) == a[ra + i]
            &&& at(PixelFormat::Yuva422p, 1, i) == b[rb + i]
            &&& at(PixelFormat::Yuva422p, 2, i) == c[rc + i]
            &&& at(PixelFormat::Yuva422p, 3, i) == planes[3].data@[y * planes[3].stride + i]
            // Words: luma, then U and V in turn, then alpha.
            &&& at(PixelFormat::P216, 0, i) == word_at(a, ra + 2 * i)
            &&& at(PixelFormat::P216, 1, i) == word_at(b, rb + 4 * i)
            &&& at(PixelFormat::P216, 2, i) == word_at(b, rb + 4 * i + 2)
            &&& at(PixelFormat::Pa16, 0, i) == word_at(a, ra + 2 * i)
            &&& at(PixelFormat::Pa16, 1, i) == word_at(b, rb + 4 * i)
            &&& at(PixelFormat::Pa16, 2, i) == word_at(b, rb + 4 * i + 2)
            &&& at(PixelFormat::Pa16, 3, i) == word_at(c, rc + 2 * i)
            // Chroma of every other row: U and V in turn, or a plane each.
            &&& at(PixelFormat::Nv12, 0, i) == a[ra + i]
            &&& at(PixelFormat::Nv12, 1, i) == b[hb + 2 * i]
            &&& at(PixelFormat::Nv12, 2, i) == b[hb + 2 * i + 1]
            &&& at(PixelFormat::I420, 0, i) == a[ra + i]
            &&& at(PixelFormat::I420, 1, i) == b[hb + i]
            &&& at(PixelFormat::I420, 2, i) == c[hc + i]
        }),
{
}

} // verus!
