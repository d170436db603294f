//! What holds of every decoded video frame.

use crate::deframer::FrameView;
use crate::frame::{ExtendedHeader, VideoFlags, VideoHeader};
use crate::media::decoder::{
    data_fault, decodes, is_video_of, keeps_alpha, layout_for, lemma_preview_planar, matrix_for, picture_bytes,
    pixel_for, plane_start, planes_joined, preview_bytes, shows, VideoFrame,
};
use crate::media::colour::{law_bgra_places, law_plane_places, law_uyvy_places};
use crate::media::format::{law_preference_is_met, law_previews_are_8bit, plane_bytes, selected_for, PreferredVideoFormat, VideoFormat};
use crate::media::pixels::{
    bgra_of, bgra_row, bgra_rows, lemma_row_fits, plane_rows, uyvy_row, uyvy_rows, YUV_RGB_601, YUV_RGB_709,
};
use crate::vmx::convert::{lemma_stored_rows_len, out_byte, stored_plane};
use crate::vmx::decoder::{decoded_into, decoded_planes, is_preview_of};
use crate::vmx::frame::{plane_holds, plane_sizes_of, Frame, PixelFormat, Plane};
use crate::vmx::layout::{parse_of, Layout};
use vstd::prelude::*;

verus! {

/// There is one geometry for a size.
proof fn lemma_one_layout(a: Layout, b: Layout)
    requires
        a.wf(),
        b.wf(),
        a.width == b.width,
        a.height == b.height,
    ensures
        a == b,
{
    assert(a.strides@ =~= b.strides@);
    assert(a.strides =~= b.strides);
}

/// Planes with the same bytes are joined to the same bytes.
proof fn lemma_same_joined(a: Seq<Plane>, b: Seq<Plane>, n: int)
    requires
        0 <= n <= a.len(),
        a.len() == b.len(),
        forall|i: int| 0 <= i < a.len() ==> (#[trigger] a[i]).data@ == b[i].data@,
    ensures
        planes_joined(a, n) == planes_joined(b, n),
    decreases n,
{
    if n > 0 {
        lemma_same_joined(a, b, n - 1);
        assert(a[n - 1].data@ == b[n - 1].data@);
    }
}

/// Decoding into one blank frame gives the same bytes as into another.
proof fn lemma_same_decoded(l: Layout, data: Seq<u8>, pixel: PixelFormat, f: Frame, g: Frame, f2: Frame, g2: Frame)
    requires
        f.is_blank(l.width as int, l.height as int, pixel),
        f2.is_blank(l.width as int, l.height as int, pixel),
        decoded_into(l, data, f, g),
        decoded_into(l, data, f2, g2),
    ensures
        g.planes@.len() == g2.planes@.len(),
        planes_joined(g.planes@, g.planes@.len() as int) == planes_joined(g2.planes@, g2.planes@.len() as int),
{
    let c = parse_of(l, data)->Ok_0;
    let pl = decoded_planes(l, c, pixel)->0;
    assert forall|i: int| 0 <= i < g.planes@.len() implies (#[trigger] g.planes@[i]).data@ == g2.planes@[i].data@ by {
        assert(f.planes@[i].stride == f2.planes@[i].stride);
        assert(f.planes@[i].data@ == f2.planes@[i].data@);
        assert(g.planes@[i].data@ == stored_plane(f, l, c.interlaced, pl, i));
        assert(g2.planes@[i].data@ == stored_plane(f2, l, c.interlaced, pl, i));
    }
    lemma_same_joined(g.planes@, g2.planes@, g.planes@.len() as int);
}

/// A plane that was decoded into has the size of the blank one.
proof fn lemma_decoded_len(l: Layout, data: Seq<u8>, pixel: PixelFormat, f: Frame, g: Frame, i: int)
    requires
        f.is_blank(l.width as int, l.height as int, pixel),
        decoded_into(l, data, f, g),
        0 <= i < plane_sizes_of(pixel, l.width as int, l.height as int).len(),
    ensures
        g.planes@.len() == plane_sizes_of(pixel, l.width as int, l.height as int).len(),
        ({
            let (row, rows) = plane_sizes_of(pixel, l.width as int, l.height as int)[i];
            row >= 0 && rows >= 0 ==> g.planes@[i].data@.len() == row * rows
        }),
{
    let c = parse_of(l, data)->Ok_0;
    let pl = decoded_planes(l, c, pixel)->0;
    let (row, rows) = plane_sizes_of(pixel, l.width as int, l.height as int)[i];
    assert(f.planes@[i].stride == row);
    assert(g.planes@[i].data@ == stored_plane(f, l, c.interlaced, pl, i));
    lemma_stored_rows_len(
        f.planes@[i].data@,
        f.planes@[i].stride as int,
        f.sizes()[i].1,
        f.sizes()[i].0,
        |y: int, b: int| out_byte(f.format, pl, l.plane_row_of(y, c.interlaced), i, b),
    );
    if row >= 0 && rows >= 0 {
        assert(row * rows >= 0) by (nonlinear_arith)
            requires
                row >= 0,
                rows >= 0,
        ;
    }
}

proof fn lemma_bgra_row_len(f: Frame, t: Seq<i16>, r: int, n: int)
    requires
        n >= 0,
    ensures
        bgra_row(f, t, r, n).len() == 4 * n,
    decreases n,
{
    if n > 0 {
        lemma_bgra_row_len(f, t, r, n - 1);
    }
}

proof fn lemma_bgra_len(f: Frame, t: Seq<i16>, n: int)
    requires
        n >= 0,
    ensures
        bgra_rows(f, t, n).len() == 4 * f.width * n,
    decreases n,
{
    let w = f.width as int;
    if n > 0 {
        lemma_bgra_len(f, t, n - 1);
        lemma_bgra_row_len(f, t, n - 1, w);
        assert(4 * w * n == 4 * w * (n - 1) + 4 * w) by (nonlinear_arith);
    }
}

proof fn lemma_uyvy_row_len(f: Frame, r: int, n: int)
    requires
        n >= 0,
    ensures
        uyvy_row(f, r, n).len() == 4 * n,
    decreases n,
{
    if n > 0 {
        lemma_uyvy_row_len(f, r, n - 1);
    }
}

proof fn lemma_uyvy_len(f: Frame, n: int)
    requires
        n >= 0,
        f.width % 2 == 0,
    ensures
        uyvy_rows(f, n).len() == 2 * f.width * n,
    decreases n,
{
    let w = f.width as int;
    if n > 0 {
        lemma_uyvy_len(f, n - 1);
        lemma_uyvy_row_len(f, n - 1, w / 2);
        assert(2 * w * n == 2 * w * (n - 1) + 2 * w) by (nonlinear_arith);
    }
}

proof fn lemma_plane_rows_len(p: Plane, w: int, h: int, n: int)
    requires
        0 <= n <= h,
        0 <= w,
        plane_holds(p, (w, h)),
    ensures
        plane_rows(p, w, n).len() == w * n,
    decreases n,
{
    if n > 0 {
        lemma_plane_rows_len(p, w, h, n - 1);
        lemma_row_fits(p, (w, h), n - 1);
        assert(w * n == w * (n - 1) + w) by (nonlinear_arith);
    }
}

/// Bytes of all planes of a picture.
pub open spec fn all_bytes(format: VideoFormat, w: int, h: int) -> int {
    let sizes = plane_bytes(format, w, h);
    plane_start(sizes, sizes.len() as int)
}

/// The bytes of all planes, one layout at a time.
proof fn lemma_all_bytes(format: VideoFormat, w: int, h: int)
    ensures
        all_bytes(format, w, h) == (match format {
            VideoFormat::Uyvy => 2 * w * h,
            VideoFormat::Uyva => 2 * w * h + w * h,
            VideoFormat::Bgra => 4 * w * h,
            VideoFormat::P216 => 2 * w * h + 2 * w * h,
            VideoFormat::Pa16 => 2 * w * h + 2 * w * h + 2 * w * h,
        }),
{
    reveal_with_fuel(plane_start, 4);
}

/// The bytes of a picture fill its planes.
proof fn lemma_picture_len(
    p: PreferredVideoFormat,
    l: Layout,
    data: Seq<u8>,
    v: VideoHeader,
    format: VideoFormat,
    size: (int, int),
    bytes: Seq<u8>,
)
    requires
        layout_for(l, v),
        selected_for(p, v.flags) == Some(format),
        shows(l, data, v, format, size, bytes),
    ensures
        bytes.len() == all_bytes(format, size.0, size.1),
{
    let alpha = v.flags.has(VideoFlags::ALPHA);
    lemma_all_bytes(format, size.0, size.1);
    let t = matrix_for(v.color_space, v.height as int);
    if v.flags.has(VideoFlags::PREVIEW) {
        law_previews_are_8bit(p, alpha, v.flags.has(VideoFlags::HIGH_BIT_DEPTH));
        let keep = keeps_alpha(v, format);
        let pv = choose|pv: Frame|
            {
                &&& #[trigger] is_preview_of(pv, l, parse_of(l, data)->Ok_0, keep)
                &&& bytes == preview_bytes(pv, format, t)
                &&& size == (pv.width as int, pv.height as int)
            };
        lemma_preview_planar(pv, l, data, keep);
        lemma_bgra_len(pv, t, pv.height as int);
        lemma_uyvy_len(pv, pv.height as int);
        if format == VideoFormat::Uyva {
            lemma_plane_rows_len(pv.planes@[3], pv.width as int, pv.height as int, pv.height as int);
        }
    } else {
        let pixel = pixel_for(format, alpha);
        let (f, g) = choose|f: Frame, g: Frame|
            {
                &&& f.is_blank(v.width as int, v.height as int, pixel)
                &&& #[trigger] decoded_into(l, data, f, g)
                &&& bytes == picture_bytes(g, format, t)
                &&& size == (v.width as int, v.height as int)
            };
        lemma_bgra_len(g, t, g.height as int);
        let n = plane_sizes_of(pixel, l.width as int, l.height as int).len() as int;
        lemma_decoded_len(l, data, pixel, f, g, 0);
        if n > 1 {
            lemma_decoded_len(l, data, pixel, f, g, 1);
        }
        if n > 2 {
            lemma_decoded_len(l, data, pixel, f, g, 2);
        }
        reveal_with_fuel(planes_joined, 4);
    }
}

/// Every decoded video frame has the layout that the preference selects for
/// its flags, and carries what its headers said. Its bytes fill the planes of
/// that layout exactly. Those of a full frame that is not converted to BGRA
/// are the planes that the codec alone decodes the data to, one behind the
/// other.
pub proof fn law_decoded_video(
    p: PreferredVideoFormat,
    f: FrameView,
    v: VideoHeader,
    old_out: VideoFrame,
    out: VideoFrame,
)
    requires
        f.ext == ExtendedHeader::Video(v),
        decodes(p, f, old_out, out, Ok(())),
    ensures
        selected_for(p, v.flags) == Some(out.format),
        out.stride == out.format.row_bytes(out.width as int),
        out.data@.len() == all_bytes(out.format, out.width as int, out.height as int),
        out.timestamp == f.header.timestamp,
        out.frame_rate_n == v.frame_rate_n,
        out.frame_rate_d == v.frame_rate_d,
        out.color_space == v.color_space,
        out.flags == v.flags,
        out.metadata@ == f.metadata,
        !v.flags.has(VideoFlags::PREVIEW) ==> out.width == v.width && out.height == v.height,
        !v.flags.has(VideoFlags::PREVIEW) && out.format != VideoFormat::Bgra ==> forall|
            l: Layout,
            blank: Frame,
            g: Frame,
        |
            layout_for(l, v) && blank.is_blank(
                v.width as int,
                v.height as int,
                pixel_for(out.format, v.flags.has(VideoFlags::ALPHA)),
            ) && #[trigger] decoded_into(l, f.data, blank, g) ==> out.data@ == planes_joined(
                g.planes@,
                g.planes@.len() as int,
            ),
{
    let format = selected_for(p, v.flags)->0;
    let alpha = v.flags.has(VideoFlags::ALPHA);
    let l = choose|l: Layout|
        #[trigger] layout_for(l, v) && data_fault(l, f.data, v, format) is None && is_video_of(
            out,
            l,
            f,
            v,
            format,
        );
    let size = (out.width as int, out.height as int);
    lemma_picture_len(p, l, f.data, v, format, size, out.data@);
    if !v.flags.has(VideoFlags::PREVIEW) && format != VideoFormat::Bgra {
        let pixel = pixel_for(format, alpha);
        let t = matrix_for(v.color_space, v.height as int);
        let (f0, g0) = choose|f0: Frame, g0: Frame|
            {
                &&& f0.is_blank(v.width as int, v.height as int, pixel)
                &&& #[trigger] decoded_into(l, f.data, f0, g0)
                &&& out.data@ == picture_bytes(g0, format, t)
                &&& size == (v.width as int, v.height as int)
            };
        assert forall|l2: Layout, blank: Frame, g: Frame|
            layout_for(l2, v) && blank.is_blank(v.width as int, v.height as int, pixel)
                && #[trigger] decoded_into(l2, f.data, blank, g) implies out.data@ == planes_joined(
            g.planes@,
            g.planes@.len() as int,
        ) by {
            lemma_one_layout(l, l2);
            lemma_same_decoded(l, f.data, pixel, f0, g0, blank, g);
        }
    }
}

/// Every decoded BGRA picture is the conversion of the planes that the codec
/// decodes the data to, or of its preview, pixel by pixel and place by place:
/// by the BT.601 matrix where the sender says so, or says nothing of a frame
/// under 720 lines, else by that of BT.709.
pub proof fn law_decoded_bgra(
    p: PreferredVideoFormat,
    f: FrameView,
    v: VideoHeader,
    old_out: VideoFrame,
    out: VideoFrame,
)
    requires
        f.ext == ExtendedHeader::Video(v),
        decodes(p, f, old_out, out, Ok(())),
        out.format == VideoFormat::Bgra,
    ensures
        exists|l: Layout, g: Frame|
            {
                &&& #[trigger] layout_for(l, v)
                &&& #[trigger] source_of(l, f.data, v, g)
                &&& g.width == out.width && g.height == out.height
                &&& forall|r: int, x: int, k: int|
                    0 <= r < g.height && 0 <= x < g.width && 0 <= k < 4 ==> #[trigger] out.data@[place_of(
                        g.width as int,
                        r,
                        x,
                        k,
                    )] == bgra_of(
                        g.planes@[0].data@[r * g.planes@[0].stride + x],
                        g.planes@[1].data@[r * g.planes@[1].stride + x / 2],
                        g.planes@[2].data@[r * g.planes@[2].stride + x / 2],
                        if v.flags.has(VideoFlags::ALPHA) {
                            g.planes@[3].data@[r * g.planes@[3].stride + x]
                        } else {
                            255
                        },
                        if v.color_space == 601 || v.color_space == 0 && v.height < 720 {
                            YUV_RGB_601@
                        } else {
                            YUV_RGB_709@
                        },
                    )[k]
            },
{
    let format = VideoFormat::Bgra;
    let l = choose|l: Layout|
        #[trigger] layout_for(l, v) && data_fault(l, f.data, v, format) is None && is_video_of(out, l, f, v, format);
    let size = (out.width as int, out.height as int);
    let alpha = v.flags.has(VideoFlags::ALPHA);
    let t = matrix_for(v.color_space, v.height as int);
    let g = if v.flags.has(VideoFlags::PREVIEW) {
        choose|pv: Frame|
            {
                &&& #[trigger] is_preview_of(pv, l, parse_of(l, f.data)->Ok_0, keeps_alpha(v, format))
                &&& out.data@ == preview_bytes(pv, format, t)
                &&& size == (pv.width as int, pv.height as int)
            }
    } else {
        let (f0, g0) = choose|f0: Frame, g0: Frame|
            {
                &&& f0.is_blank(v.width as int, v.height as int, pixel_for(format, alpha))
                &&& #[trigger] decoded_into(l, f.data, f0, g0)
                &&& out.data@ == picture_bytes(g0, format, t)
                &&& size == (v.width as int, v.height as int)
            };
        g0
    };
    assert(shows(l, f.data, v, format, size, out.data@));
    assert(source_of(l, f.data, v, g));
    assert(out.data@ == bgra_rows(g, t, g.height as int));
    assert forall|r: int, x: int, k: int|
        0 <= r < g.height && 0 <= x < g.width && 0 <= k < 4 implies #[trigger] out.data@[place_of(
        g.width as int,
        r,
        x,
        k,
    )] == bgra_of(
        g.planes@[0].data@[r * g.planes@[0].stride + x],
        g.planes@[1].data@[r * g.planes@[1].stride + x / 2],
        g.planes@[2].data@[r * g.planes@[2].stride + x / 2],
        if alpha {
            g.planes@[3].data@[r * g.planes@[3].stride + x]
        } else {
            255
        },
        t,
    )[k] by {
        law_bgra_places(g, t, r, x, k);
    }
}

/// The byte of channel `k` of pixel `x` of row `r`, four bytes a pixel.
pub open spec fn place_of(width: int, r: int, x: int, k: int) -> int {
    4 * (r * width + x) + k
}

/// A planar picture that the codec decodes the data of a BGRA frame to: its
/// preview, or the full frame in a blank one.
pub open spec fn source_of(l: Layout, data: Seq<u8>, v: VideoHeader, g: Frame) -> bool {
    let alpha = v.flags.has(VideoFlags::ALPHA);
    let pixel = if alpha {
        PixelFormat::Yuva422p
    } else {
        PixelFormat::Yuv422p
    };
    &&& g.format == pixel
    &&& if v.flags.has(VideoFlags::PREVIEW) {
        is_preview_of(g, l, parse_of(l, data)->Ok_0, alpha)
    } else {
        exists|blank: Frame|
            blank.is_blank(v.width as int, v.height as int, pixel) && #[trigger] decoded_into(l, data, blank, g)
    }
}

/// Every decoded preview in UYVY holds the preview that the codec decodes the
/// data to, pair by pair and row by row; with opacity the alpha plane stands
/// behind it.
pub proof fn law_decoded_preview(
    p: PreferredVideoFormat,
    f: FrameView,
    v: VideoHeader,
    old_out: VideoFrame,
    out: VideoFrame,
)
    requires
        f.ext == ExtendedHeader::Video(v),
        decodes(p, f, old_out, out, Ok(())),
        v.flags.has(VideoFlags::PREVIEW),
        out.format != VideoFormat::Bgra,
    ensures
        out.format == VideoFormat::Uyvy || out.format == VideoFormat::Uyva,
        keeps_alpha(v, out.format) <==> out.format == VideoFormat::Uyva,
        exists|l: Layout, g: Frame|
            {
                &&& #[trigger] layout_for(l, v)
                &&& #[trigger] is_preview_of(g, l, parse_of(l, f.data)->Ok_0, keeps_alpha(v, out.format))
                &&& g.width == out.width && g.height == out.height
                &&& forall|r: int, i: int|
                    0 <= r < g.height && 0 <= i < g.width as int / 2 ==> #[trigger] pair_shows(out.data@, g, r, i)
                &&& out.format == VideoFormat::Uyva ==> forall|r: int, x: int|
                    0 <= r < g.height && 0 <= x < g.width ==> #[trigger] alpha_shows(out.data@, g, r, x)
            },
{
    let format = out.format;
    law_decoded_video(p, f, v, old_out, out);
    law_previews_are_8bit(p, v.flags.has(VideoFlags::ALPHA), v.flags.has(VideoFlags::HIGH_BIT_DEPTH));
    law_preference_is_met(
        p,
        v.flags.has(VideoFlags::ALPHA),
        v.flags.has(VideoFlags::HIGH_BIT_DEPTH),
        true,
    );
    let l = choose|l: Layout|
        #[trigger] layout_for(l, v) && data_fault(l, f.data, v, format) is None && is_video_of(out, l, f, v, format);
    let size = (out.width as int, out.height as int);
    let t = matrix_for(v.color_space, v.height as int);
    let keep = keeps_alpha(v, format);
    assert(shows(l, f.data, v, format, size, out.data@));
    let g = choose|pv: Frame|
        {
            &&& #[trigger] is_preview_of(pv, l, parse_of(l, f.data)->Ok_0, keep)
            &&& out.data@ == preview_bytes(pv, format, t)
            &&& size == (pv.width as int, pv.height as int)
        };
    assert(keep == (format == VideoFormat::Uyva));
    lemma_preview_planar(g, l, f.data, keep);
    let (w, h) = (g.width as int, g.height as int);
    let packed = uyvy_rows(g, h);
    assert forall|r: int, i: int| 0 <= r < h && 0 <= i < w / 2 implies #[trigger] pair_shows(out.data@, g, r, i) by {
        law_uyvy_places(g, r, i);
        assert(0 <= r * (w / 2) && r * (w / 2) + w / 2 <= h * (w / 2)) by (nonlinear_arith)
            requires
                0 <= r < h,
                0 <= w / 2,
        ;
        assert(out.data@.take(packed.len() as int) =~= packed);
        assert(forall|j: int| 0 <= j < packed.len() ==> out.data@[j] == packed[j]);
    }
    if format == VideoFormat::Uyva {
        lemma_uyvy_len(g, h);
        assert forall|r: int, x: int| 0 <= r < h && 0 <= x < w implies #[trigger] alpha_shows(out.data@, g, r, x) by {
            assert(plane_holds(g.planes@[3], (w, h)));
            law_plane_places(g.planes@[3], w, h, h, r, x);
            assert(0 <= r * w && r * w + w <= h * w) by (nonlinear_arith)
                requires
                    0 <= r < h,
                    0 <= w,
            ;
            assert(2 * w * h == 2 * (h * w)) by (nonlinear_arith);
        }
    }
}

/// Pair `i` of row `r` of UYVY data shows the samples of a planar picture.
pub open spec fn pair_shows(data: Seq<u8>, g: Frame, r: int, i: int) -> bool {
    let at = 4 * (r * (g.width as int / 2) + i);
    &&& data[at] == g.planes@[1].data@[r * g.planes@[1].stride + i]
    &&& data[at + 1] == g.planes@[0].data@[r * g.planes@[0].stride + 2 * i]
    &&& data[at + 2] == g.planes@[2].data@[r * g.planes@[2].stride + i]
    &&& data[at + 3] == g.planes@[0].data@[r * g.planes@[0].stride + 2 * i + 1]
}

/// The alpha behind UYVY data shows that of a planar picture.
pub open spec fn alpha_shows(data: Seq<u8>, g: Frame, r: int, x: int) -> bool {
    data[2 * (g.height * g.width) + r * g.width + x] == g.planes@[3].data@[r * g.planes@[3].stride + x]
}

} // verus!
