use raytracer::{render, Canvas};

#[derive(Clone, Copy, Debug, PartialEq)]
struct Color {
    r: f64,
    g: f64,
    b: f64,
}

impl Color {
    fn new(r: f64, g: f64, b: f64) -> Self {
        Self { r, g, b }
    }

    fn black() -> Self {
        Self::new(0., 0., 0.)
    }
}

fn blank(width: usize, height: usize) -> Canvas<Color> {
    Canvas::new(width, height, Color::black())
}

#[test]
fn canvas_init() {
    let black = Color::new(0., 0., 0.);
    assert!(
        blank(10, 20).pixels().iter().all(|pixel| pixel == &black),
        "Not all pixels were initialized to black"
    );
}

#[test]
fn canvas_get_width() {
    assert_eq!(blank(10, 20).width(), 10);
}

#[test]
fn canvas_get_height() {
    assert_eq!(blank(10, 20).height(), 20);
}

#[test]
fn canvas_get_pixel() {
    assert_eq!(blank(10, 20).pixel(0, 0), &Color::new(0., 0., 0.));
    assert_eq!(blank(10, 20).pixel(7, 15), &Color::new(0., 0., 0.));
}

#[test]
fn canvas_get_pixels() {
    assert_eq!(blank(10, 20).pixels().len(), 200);
}

#[test]
fn canvas_set_pixel() {
    let mut canvas = blank(10, 20);
    let color = Color::new(-0.3, 0.45, 1.);
    canvas.set_pixel(3, 14, &color);
    assert_eq!(canvas.pixel(3, 14), &color);
}

#[test]
fn init() {
    let black = Color::black();
    assert!(
        blank(10, 20).pixels().iter().all(|pixel| pixel == &black),
        "Not all pixels were initialized to black"
    );
}

#[test]
fn width() {
    assert_eq!(blank(10, 20).width(), 10);
}

#[test]
fn height() {
    assert_eq!(blank(10, 20).height(), 20);
}

#[test]
fn pixel() {
    assert_eq!(blank(10, 20).pixel(0, 0), &Color::black());
    assert_eq!(blank(10, 20).pixel(7, 15), &Color::black());
}

#[test]
fn pixels() {
    assert_eq!(blank(10, 20).pixels().len(), 200);
}

#[test]
fn get_set_pixel() {
    let mut canvas = blank(10, 20);
    let color = Color::new(-0.3, 0.45, 1.);
    canvas.set_pixel(3, 14, &color);
    assert_eq!(canvas.pixel(3, 14), &color);
}

#[test]
fn set_pixel_leaves_the_other_pixels_alone() {
    let mut canvas = blank(4, 3);
    let color = Color::new(0.25, 0.5, 0.75);
    canvas.set_pixel(1, 2, &color);
    for y in 0..3 {
        for x in 0..4 {
            let expected = if (x, y) == (1, 2) { color } else { Color::black() };
            assert_eq!(canvas.pixel(x, y), &expected);
        }
    }
}

#[test]
fn pixels_are_stored_row_by_row() {
    let mut canvas = Canvas::new(3, 2, 0u32);
    canvas.set_pixel(0, 0, &1);
    canvas.set_pixel(2, 0, &2);
    canvas.set_pixel(0, 1, &3);
    canvas.set_pixel(2, 1, &4);
    assert_eq!(canvas.pixels(), &[1, 0, 2, 3, 0, 4]);
}

#[test]
fn corner_pixels_are_distinct() {
    let mut canvas = Canvas::new(5, 4, 0u32);
    canvas.set_pixel(0, 0, &1);
    canvas.set_pixel(4, 0, &2);
    canvas.set_pixel(0, 3, &3);
    canvas.set_pixel(4, 3, &4);
    assert_eq!(canvas.pixel(0, 0), &1);
    assert_eq!(canvas.pixel(4, 0), &2);
    assert_eq!(canvas.pixel(0, 3), &3);
    assert_eq!(canvas.pixel(4, 3), &4);
}

#[test]
fn empty_canvas_has_no_pixels() {
    assert_eq!(Canvas::new(0, 7, 1u8).pixels().len(), 0);
    assert_eq!(Canvas::new(7, 0, 1u8).pixels().len(), 0);
    assert_eq!(Canvas::new(0, 7, 1u8).width(), 0);
    assert_eq!(Canvas::new(0, 7, 1u8).height(), 7);
}

#[test]
fn render_asks_for_every_pixel_once() {
    let canvas = render(4, 3, (usize::MAX, usize::MAX), |x, y| (x, y));
    assert_eq!(canvas.width(), 4);
    assert_eq!(canvas.height(), 3);
    for y in 0..3 {
        for x in 0..4 {
            assert_eq!(canvas.pixel(x, y), &(x, y));
        }
    }
}

#[test]
fn render_walks_column_by_column() {
    let order = std::cell::RefCell::new(Vec::new());
    let canvas = render(2, 3, 0usize, |x, y| {
        order.borrow_mut().push((x, y));
        order.borrow().len()
    });
    assert_eq!(
        order.into_inner(),
        vec![(0, 0), (0, 1), (0, 2), (1, 0), (1, 1), (1, 2)]
    );
    assert_eq!(canvas.pixels(), &[1, 4, 2, 5, 3, 6]);
}

#[test]
fn render_of_nothing_is_empty() {
    let canvas = render(0, 0, 9u8, |_, _| 1u8);
    assert_eq!(canvas.pixels().len(), 0);
}
