//! Whole images of the scene, and the steps of a window that shows them.

use vstd::prelude::*;
use crate::render::{get_raydistance_color, raydistance_color};
use crate::{HEIGHT, WIDTH};

verus! {

/// Number of pixels of the image.
pub const PIXELS: u32 = 65025;

/// The pixels fill the image: there are as many as its width times its
/// height.
pub proof fn lemma_pixels_fill_the_image()
    ensures
        PIXELS == WIDTH * HEIGHT,
{
}

/// Byte `k` of a frame for a window: four bytes a pixel, red, green, blue,
/// alpha; pixel number `p` has the first coordinate `p % WIDTH` and the
/// second `p / WIDTH`.
pub open spec fn frame_byte(k: int) -> u8 {
    let p = k / 4;
    raydistance_color((p % (WIDTH as int)) as u16, (p / (WIDTH as int)) as u16)[k % 4]
}

/// The frame for a window.
pub open spec fn frame() -> Seq<u8> {
    Seq::new((PIXELS * 4) as nat, |k: int| frame_byte(k))
}

/// Byte `k` of the body of a portable pixmap: three bytes a pixel, red,
/// green, blue; pixel number `p` has the first coordinate `p / WIDTH` and
/// the second `p % WIDTH`.
pub open spec fn pixmap_byte(k: int) -> u8 {
    let p = k / 3;
    raydistance_color((p / (WIDTH as int)) as u16, (p % (WIDTH as int)) as u16)[k % 3]
}

/// The body of a portable pixmap.
pub open spec fn pixmap() -> Seq<u8> {
    Seq::new((PIXELS * 3) as nat, |k: int| pixmap_byte(k))
}

/// Coordinates of pixel number `p` of a frame.
pub fn frame_pixel(p: u32) -> (at: (u16, u16))
    requires
        p < PIXELS,
    ensures
        at.0 == p % (WIDTH as u32),
        at.1 == p / (WIDTH as u32),
        at.0 < WIDTH,
        at.1 < HEIGHT,
{
    let across: u32 = WIDTH as u32;
    assert(across == 255 && p < 255 * 255);
    ((p % across) as u16, (p / across) as u16)
}

/// The frame for a window: every pixel of the scene, four bytes each.
pub fn render_frame() -> (bytes: Vec<u8>)
    ensures
        bytes@ == frame(),
{
    let mut bytes: Vec<u8> = Vec::new();
    let mut p: u32 = 0;
    while p < PIXELS
        invariant
            p <= PIXELS,
            bytes@.len() == 4 * p,
            forall|k: int| 0 <= k < 4 * p ==> bytes@[k] == frame_byte(k),
        decreases PIXELS - p,
    {
        let (x, y) = frame_pixel(p);
        let rgba = get_raydistance_color(x, y);
        let ghost before = bytes@;
        bytes.push(rgba[0]);
        bytes.push(rgba[1]);
        bytes.push(rgba[2]);
        bytes.push(rgba[3]);
        proof {
            assert forall|k: int| 0 <= k < 4 * (p + 1) implies bytes@[k] == frame_byte(k) by {
                if k < 4 * p {
                    assert(bytes@[k] == before[k]);
                } else {
                    assert(k / 4 == p);
                    assert(bytes@[k] == rgba@[k % 4]);
                }
            }
        }
        p = p + 1;
    }
    assert(bytes@ =~= frame());
    bytes
}

/// The body of a portable pixmap: every pixel of the scene, three bytes
/// each.
pub fn render_pixmap() -> (bytes: Vec<u8>)
    ensures
        bytes@ == pixmap(),
{
    let mut bytes: Vec<u8> = Vec::new();
    let mut i: u16 = 0;
    while i < HEIGHT
        invariant
            i <= HEIGHT,
            bytes@.len() == 3 * (i * WIDTH),
            forall|k: int| 0 <= k < 3 * (i * WIDTH) ==> bytes@[k] == pixmap_byte(k),
        decreases HEIGHT - i,
    {
        let mut j: u16 = 0;
        while j < WIDTH
            invariant
                i < HEIGHT,
                j <= WIDTH,
                bytes@.len() == 3 * (i * WIDTH + j),
                forall|k: int| 0 <= k < 3 * (i * WIDTH + j) ==> bytes@[k] == pixmap_byte(k),
            decreases WIDTH - j,
        {
            let rgba = get_raydistance_color(i, j);
            let ghost before = bytes@;
            let ghost p = i * WIDTH + j;
            bytes.push(rgba[0]);
            bytes.push(rgba[1]);
            bytes.push(rgba[2]);
            proof {
                assert forall|k: int| 0 <= k < 3 * (p + 1) implies bytes@[k] == pixmap_byte(k) by {
                    if k < 3 * p {
                        assert(bytes@[k] == before[k]);
                    } else {
                        assert(k / 3 == p);
                        assert(p / (WIDTH as int) == i && p % (WIDTH as int) == j);
                        assert(bytes@[k] == rgba@[k % 3]);
                    }
                }
            }
            j = j + 1;
        }
        i = i + 1;
    }
    assert(bytes@ =~= pixmap());
    bytes
}

/// What a window reports to its loop.
#[derive(Clone, Copy, Debug, PartialEq, Eq, Structural)]
pub enum WindowEvent {
    /// The user asked to close the window.
    CloseRequested,
    /// All pending events are handled: time to draw.
    EventsCleared,
    /// Anything else.
    Other,
}

/// What the loop of a window does next.
#[derive(Clone, Copy, Debug, PartialEq, Eq, Structural)]
pub enum Step {
    /// Leave the loop.
    Exit,
    /// Fill the frame and show it.
    Redraw,
    /// Wait for the next event.
    Wait,
}

/// The step that answers an event: a request to close ends the loop, cleared
/// events bring a redraw, and nothing else is acted on.
pub open spec fn step_for(event: WindowEvent) -> Step {
    match event {
        WindowEvent::CloseRequested => Step::Exit,
        WindowEvent::EventsCleared => Step::Redraw,
        WindowEvent::Other => Step::Wait,
    }
}

/// The step after a frame was handed to the screen: the loop goes on if that
/// went well and ends if it failed.
pub open spec fn step_after_redraw(shown: bool) -> Step {
    if shown {
        Step::Wait
    } else {
        Step::Exit
    }
}

/// The step that answers an event.
pub fn on_event(event: WindowEvent) -> (step: Step)
    ensures
        step == step_for(event),
{
    match event {
        WindowEvent::CloseRequested => Step::Exit,
        WindowEvent::EventsCleared => Step::Redraw,
        WindowEvent::Other => Step::Wait,
    }
}

/// The step after a frame was handed to the screen.
pub fn after_redraw(shown: bool) -> (step: Step)
    ensures
        step == step_after_redraw(shown),
{
    if shown {
        Step::Wait
    } else {
        Step::Exit
    }
}

} // verus!
