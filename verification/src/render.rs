//! The render loop: one colour per pixel.
use crate::canvas::Canvas;
use vstd::prelude::*;

verus! {

/// Renders a `width × height` image by asking `color_at` for the colour of
/// every pixel.
///
/// The canvas starts out filled with `fill`; then each pixel `(x, y)`,
/// column by column, receives what `color_at(x, y)` returned. No pixel is
/// skipped and none is written with the colour of another, so in the result
/// every pixel holds a value that `color_at` produced for its own
/// coordinates.
pub fn render<P: Copy, F: Fn(usize, usize) -> P>(
    width: usize,
    height: usize,
    fill: P,
    color_at: F,
) -> (canvas: Canvas<P>)
    requires
        width * height <= usize::MAX,
        forall|x: usize, y: usize| x < width && y < height ==> call_requires(color_at, (x, y)),
    ensures
        canvas.spec_width() == width,
        canvas.spec_height() == height,
        canvas@.len() == width * height,
        forall|x: usize, y: usize|
            x < width && y < height ==> call_ensures(
                color_at,
                (x, y),
                #[trigger] canvas.at(x as int, y as int),
            ),
{
    let mut canvas = Canvas::new(width, height, fill);
    let mut x: usize = 0;
    while x < width
        invariant
            x <= width,
            canvas.spec_width() == width,
            canvas.spec_height() == height,
            canvas@.len() == width * height,
            forall|i: usize, j: usize| i < width && j < height ==> call_requires(color_at, (i, j)),
            forall|i: usize, j: usize|
                i < x && j < height ==> call_ensures(
                    color_at,
                    (i, j),
                    #[trigger] canvas.at(i as int, j as int),
                ),
        decreases width - x,
    {
        let mut y: usize = 0;
        while y < height
            invariant
                x < width,
                y <= height,
                canvas.spec_width() == width,
                canvas.spec_height() == height,
                canvas@.len() == width * height,
                forall|i: usize, j: usize|
                    i < width && j < height ==> call_requires(color_at, (i, j)),
                forall|i: usize, j: usize|
                    (i < x && j < height) || (i == x && j < y) ==> call_ensures(
                        color_at,
                        (i, j),
                        #[trigger] canvas.at(i as int, j as int),
                    ),
            decreases height - y,
        {
            let color = color_at(x, y);
            canvas.set_pixel(x, y, &color);
            y += 1;
        }
        x += 1;
    }
    canvas
}

} // verus!
