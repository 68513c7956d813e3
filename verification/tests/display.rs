use raytracer::display::{
    after_redraw, frame_pixel, on_event, render_frame, render_pixmap, Step, WindowEvent,
};
use raytracer::render::get_raydistance_color;

#[test]
fn frame_holds_every_pixel_row_by_row() {
    let frame = render_frame();
    assert_eq!(frame.len(), 255 * 255 * 4);
    for p in [0usize, 1, 254, 255, 256, 32512, 40000, 65024] {
        let (x, y) = ((p % 255) as u16, (p / 255) as u16);
        assert_eq!(frame[4 * p..4 * p + 4], get_raydistance_color(x, y));
    }
}

#[test]
fn pixmap_holds_every_pixel_column_by_column() {
    let body = render_pixmap();
    assert_eq!(body.len(), 255 * 255 * 3);
    for p in [0usize, 1, 254, 255, 256, 32512, 40000, 65024] {
        let (x, y) = ((p / 255) as u16, (p % 255) as u16);
        assert_eq!(body[3 * p..3 * p + 3], get_raydistance_color(x, y)[..3]);
    }
}

#[test]
fn frame_pixels_count_along_the_first_coordinate() {
    assert_eq!(frame_pixel(0), (0, 0));
    assert_eq!(frame_pixel(254), (254, 0));
    assert_eq!(frame_pixel(255), (0, 1));
    assert_eq!(frame_pixel(65024), (254, 254));
}

#[test]
fn window_steps() {
    assert_eq!(on_event(WindowEvent::CloseRequested), Step::Exit);
    assert_eq!(on_event(WindowEvent::EventsCleared), Step::Redraw);
    assert_eq!(on_event(WindowEvent::Other), Step::Wait);
    assert_eq!(after_redraw(true), Step::Wait);
    assert_eq!(after_redraw(false), Step::Exit);
}
