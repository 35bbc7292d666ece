use vstd::prelude::*;

verus! {

/// An 8-bit RGB color, as stored in a frame buffer.
#[derive(Clone, Copy, Debug, PartialEq, Eq, Structural)]
pub struct Rgb8 {
    pub r: u8,
    pub g: u8,
    pub b: u8,
}

/// Number of bytes in an RGB8 frame of `width` by `height` pixels.
pub open spec fn frame_size(width: nat, height: nat) -> nat {
    width * height * 3
}

/// Offset of the first byte of pixel `(x, y)`: rows top to bottom, pixels left
/// to right, three bytes (R, G, B) each.
pub open spec fn pixel_start(width: nat, x: nat, y: nat) -> nat {
    (y * width + x) * 3
}

/// The color that `bytes` holds at pixel `(x, y)`.
pub open spec fn pixel_at(bytes: Seq<u8>, width: nat, x: nat, y: nat) -> Rgb8 {
    let o = pixel_start(width, x, y) as int;
    Rgb8 { r: bytes[o], g: bytes[o + 1], b: bytes[o + 2] }
}

/// `bytes` is a `width` by `height` frame whose every pixel holds a color that
/// `shade` may return for that pixel.
pub open spec fn shaded_by<F: Fn(usize, usize) -> Rgb8>(
    bytes: Seq<u8>,
    width: usize,
    height: usize,
    shade: F,
) -> bool {
    &&& bytes.len() == frame_size(width as nat, height as nat)
    &&& forall|x: usize, y: usize|
        x < width && y < height ==> #[trigger] shade.ensures(
            (x, y),
            pixel_at(bytes, width as nat, x as nat, y as nat),
        )
}

/// The three bytes of a pixel lie inside the frame.
pub proof fn lemma_pixel_in_frame(width: nat, height: nat, x: nat, y: nat)
    requires
        x < width,
        y < height,
    ensures
        pixel_start(width, x, y) + 3 <= frame_size(width, height),
{
    assert(y * width + x < width * height) by (nonlinear_arith)
        requires
            x < width,
            y < height,
    ;
}

/// Distinct pixels occupy disjoint bytes.
pub proof fn lemma_pixels_disjoint(width: nat, x1: nat, y1: nat, x2: nat, y2: nat)
    requires
        x1 < width,
        x2 < width,
        x1 != x2 || y1 != y2,
    ensures
        pixel_start(width, x1, y1) + 3 <= pixel_start(width, x2, y2) || pixel_start(
            width,
            x2,
            y2,
        ) + 3 <= pixel_start(width, x1, y1),
{
    assert(y1 * width + x1 != y2 * width + x2) by (nonlinear_arith)
        requires
            x1 < width,
            x2 < width,
            x1 != x2 || y1 != y2,
    ;
}

/// Every byte of a frame belongs to exactly one pixel, so a frame in which every
/// pixel has been written has had every byte written.
pub proof fn lemma_byte_owned_by_pixel(width: nat, height: nat, i: nat) -> (xy: (nat, nat))
    requires
        i < frame_size(width, height),
    ensures
        xy.0 < width,
        xy.1 < height,
        pixel_start(width, xy.0, xy.1) <= i < pixel_start(width, xy.0, xy.1) + 3,
        forall|x: nat, y: nat|
            x < width && y < height && #[trigger] pixel_start(width, x, y) <= i < pixel_start(
                width,
                x,
                y,
            ) + 3 ==> x == xy.0 && y == xy.1,
{
    let k = i / 3;
    assert(width > 0) by (nonlinear_arith)
        requires
            i < width * height * 3,
    ;
    let x = k % width;
    let y = k / width;
    assert(k < width * height) by (nonlinear_arith)
        requires
            i < width * height * 3,
            k == i / 3,
    ;
    assert(y < height) by (nonlinear_arith)
        requires
            k < width * height,
            y == k / width,
            width > 0,
    ;
    assert(y * width + x == k) by (nonlinear_arith)
        requires
            x == k % width,
            y == k / width,
            width > 0,
    ;
    assert forall|x2: nat, y2: nat|
        x2 < width && y2 < height && #[trigger] pixel_start(width, x2, y2) <= i < pixel_start(
            width,
            x2,
            y2,
        ) + 3 implies x2 == x && y2 == y by {
        if x2 != x || y2 != y {
            lemma_pixels_disjoint(width, x, y, x2, y2);
        }
    }
    (x, y)
}

/// Length of an RGB8 frame buffer, or `None` where it does not fit in `usize`.
pub fn frame_len(width: usize, height: usize) -> (r: Option<usize>)
    ensures
        r matches Some(n) ==> n == frame_size(width as nat, height as nat),
        r is None <==> frame_size(width as nat, height as nat) > usize::MAX,
{
    match width.checked_mul(height) {
        Some(p) => p.checked_mul(3),
        None => None,
    }
}

/// Byte offset of pixel `(x, y)` in a `width` by `height` frame.
pub fn pixel_offset(width: usize, height: usize, x: usize, y: usize) -> (r: usize)
    requires
        x < width,
        y < height,
        frame_size(width as nat, height as nat) <= usize::MAX,
    ensures
        r == pixel_start(width as nat, x as nat, y as nat),
        r + 3 <= frame_size(width as nat, height as nat),
{
    proof {
        lemma_pixel_in_frame(width as nat, height as nat, x as nat, y as nat);
    }
    (y * width + x) * 3
}

/// A `width` by `height` frame with every byte zero, or `None` where its size
/// does not fit in `usize`.
pub fn blank_frame(width: usize, height: usize) -> (r: Option<Vec<u8>>)
    ensures
        r is None <==> frame_size(width as nat, height as nat) > usize::MAX,
        r matches Some(v) ==> v@.len() == frame_size(width as nat, height as nat) && forall|i: int|
            0 <= i < v@.len() ==> #[trigger] v@[i] == 0u8,
{
    match frame_len(width, height) {
        None => None,
        Some(n) => {
            let mut v: Vec<u8> = Vec::with_capacity(n);
            let mut i: usize = 0;
            while i < n
                invariant
                    i <= n,
                    v@.len() == i,
                    forall|j: int| 0 <= j < i ==> #[trigger] v@[j] == 0u8,
                decreases n - i,
            {
                v.push(0u8);
                i = i + 1;
            }
            Some(v)
        },
    }
}

/// Writes color `c` into pixel `(x, y)` of a `width` by `height` frame, leaving
/// every other byte as it was.
pub fn put_pixel(pixels: &mut Vec<u8>, width: usize, height: usize, x: usize, y: usize, c: Rgb8)
    requires
        old(pixels)@.len() == frame_size(width as nat, height as nat),
        x < width,
        y < height,
    ensures
        final(pixels)@.len() == old(pixels)@.len(),
        pixel_at(final(pixels)@, width as nat, x as nat, y as nat) == c,
        forall|i: int|
            0 <= i < old(pixels)@.len() && !(pixel_start(width as nat, x as nat, y as nat) <= i
                < pixel_start(width as nat, x as nat, y as nat) + 3) ==> #[trigger] final(pixels)@[i]
                == old(pixels)@[i],
{
    let n = pixels.len();
    assert(frame_size(width as nat, height as nat) == n);
    let o = pixel_offset(width, height, x, y);
    pixels.set(o, c.r);
    pixels.set(o + 1, c.g);
    pixels.set(o + 2, c.b);
}

/// Renders a frame of `bounds.0` by `bounds.1` pixels into `pixels`, row by row
/// from the top and left to right within a row, with the color that `shade`
/// gives for each pixel `(x, y)`.
pub fn render<F: Fn(usize, usize) -> Rgb8>(pixels: &mut Vec<u8>, bounds: (usize, usize), shade: F)
    requires
        old(pixels)@.len() == frame_size(bounds.0 as nat, bounds.1 as nat),
        forall|x: usize, y: usize|
            x < bounds.0 && y < bounds.1 ==> #[trigger] shade.requires((x, y)),
    ensures
        shaded_by(final(pixels)@, bounds.0, bounds.1, shade),
{
    let width = bounds.0;
    let height = bounds.1;
    let mut y: usize = 0;
    while y < height
        invariant
            y <= height,
            pixels@.len() == frame_size(width as nat, height as nat),
            forall|x: usize, y: usize| x < width && y < height ==> #[trigger] shade.requires((x, y)),
            forall|x1: usize, y1: usize|
                x1 < width && y1 < y ==> #[trigger] shade.ensures(
                    (x1, y1),
                    pixel_at(pixels@, width as nat, x1 as nat, y1 as nat),
                ),
        decreases height - y,
    {
        let mut x: usize = 0;
        while x < width
            invariant
                y < height,
                x <= width,
                pixels@.len() == frame_size(width as nat, height as nat),
                forall|x: usize, y: usize|
                    x < width && y < height ==> #[trigger] shade.requires((x, y)),
                forall|x1: usize, y1: usize|
                    x1 < width && (y1 < y || (y1 == y && x1 < x)) ==> #[trigger] shade.ensures(
                        (x1, y1),
                        pixel_at(pixels@, width as nat, x1 as nat, y1 as nat),
                    ),
            decreases width - x,
        {
            let c = shade(x, y);
            let ghost before = pixels@;
            put_pixel(pixels, width, height, x, y, c);
            proof {
                assert forall|x1: usize, y1: usize|
                    x1 < width && (y1 < y || (y1 == y && x1 <= x)) implies #[trigger] shade.ensures(
                    (x1, y1),
                    pixel_at(pixels@, width as nat, x1 as nat, y1 as nat),
                ) by {
                    if x1 != x || y1 != y {
                        lemma_pixels_disjoint(width as nat, x as nat, y as nat, x1 as nat, y1 as nat);
                        lemma_pixel_in_frame(width as nat, height as nat, x1 as nat, y1 as nat);
                        let o = pixel_start(width as nat, x1 as nat, y1 as nat) as int;
                        assert(pixels@[o] == before[o]);
                        assert(pixels@[o + 1] == before[o + 1]);
                        assert(pixels@[o + 2] == before[o + 2]);
                        assert(pixel_at(pixels@, width as nat, x1 as nat, y1 as nat) == pixel_at(
                            before,
                            width as nat,
                            x1 as nat,
                            y1 as nat,
                        ));
                    }
                }
            }
            x = x + 1;
        }
        y = y + 1;
    }
}

/// Every byte of a rendered frame has been written: the frame is exactly
/// `width * height * 3` bytes long, and each byte is a channel of the color that
/// `shade` gave for the one pixel that holds it.
pub proof fn lemma_every_byte_written<F: Fn(usize, usize) -> Rgb8>(
    bytes: Seq<u8>,
    width: usize,
    height: usize,
    shade: F,
    i: nat,
) -> (xy: (usize, usize))
    requires
        shaded_by(bytes, width, height, shade),
        i < bytes.len(),
    ensures
        bytes.len() == width * height * 3,
        xy.0 < width,
        xy.1 < height,
        pixel_start(width as nat, xy.0 as nat, xy.1 as nat) <= i < pixel_start(
            width as nat,
            xy.0 as nat,
            xy.1 as nat,
        ) + 3,
        shade.ensures(xy, pixel_at(bytes, width as nat, xy.0 as nat, xy.1 as nat)),
{
    let (x, y) = lemma_byte_owned_by_pixel(width as nat, height as nat, i);
    let xy = (x as usize, y as usize);
    assert(shade.ensures((xy.0, xy.1), pixel_at(bytes, width as nat, x, y)));
    xy
}

/// Rendering is reproducible: two frames rendered with a shader that gives
/// one color per pixel are byte for byte the same.
pub proof fn lemma_render_reproducible<F: Fn(usize, usize) -> Rgb8>(
    a: Seq<u8>,
    b: Seq<u8>,
    width: usize,
    height: usize,
    shade: F,
)
    requires
        shaded_by(a, width, height, shade),
        shaded_by(b, width, height, shade),
        forall|x: usize, y: usize, c1: Rgb8, c2: Rgb8|
            #[trigger] shade.ensures((x, y), c1) && #[trigger] shade.ensures((x, y), c2) ==> c1
                == c2,
    ensures
        a == b,
{
    assert forall|i: int| 0 <= i < a.len() implies #[trigger] a[i] == b[i] by {
        let (x, y) = lemma_every_byte_written(a, width, height, shade, i as nat);
        let o = pixel_start(width as nat, x as nat, y as nat) as int;
        lemma_pixel_in_frame(width as nat, height as nat, x as nat, y as nat);
        let ca = pixel_at(a, width as nat, x as nat, y as nat);
        let cb = pixel_at(b, width as nat, x as nat, y as nat);
        assert(shade.ensures((x, y), cb));
        assert(ca == cb);
        assert(i == o || i == o + 1 || i == o + 2);
    }
    assert(a =~= b);
}

} // verus!
