//! The application's window, which keeps its size.

use vstd::prelude::*;

verus! {

/// The bit of a window's style for a border by which the window can be resized.
pub const THICK_FRAME: isize = 0x0004_0000;

/// The bit of a window's style for a button by which the window can be maximized.
pub const MAXIMIZE_BOX: isize = 0x0001_0000;

/// How often the window is looked for.
pub const WINDOW_ATTEMPTS: u32 = 100;

/// How long to wait before the window is looked for again, in milliseconds.
pub const WINDOW_PAUSE: u64 = 25;

/// Whether a window is the one to be locked: it belongs to this process, is visible, and has a
/// title.
pub fn is_main_window(owner: u32, process: u32, visible: bool, title_length: i32) -> (r: bool)
    ensures
        r == (owner == process && visible && title_length > 0),
{
    owner == process && visible && title_length > 0
}

/// The style of a window that can be neither resized nor maximized, and is otherwise as it was.
pub fn lock_native_window(style: isize) -> (locked: isize)
    ensures
        locked & THICK_FRAME == 0,
        locked & MAXIMIZE_BOX == 0,
        locked | THICK_FRAME | MAXIMIZE_BOX == style | THICK_FRAME | MAXIMIZE_BOX,
{
    let locked: isize = style & !0x0005_0000;
    proof {
        assert((style & !0x0005_0000isize) & 0x0004_0000isize == 0) by (bit_vector);
        assert((style & !0x0005_0000isize) & 0x0001_0000isize == 0) by (bit_vector);
        assert((style & !0x0005_0000isize) | 0x0004_0000isize | 0x0001_0000isize == style
            | 0x0004_0000isize | 0x0001_0000isize) by (bit_vector);
    }
    locked
}

/// The bits that are taken from a window's style are the two by which it could change its size. The
/// window is looked for a hundred times, forty times a second.
pub proof fn law_size_is_locked()
    ensures
        WINDOW_ATTEMPTS == 100,
        WINDOW_PAUSE * 40 == 1000,
        THICK_FRAME == 0x0004_0000,
        MAXIMIZE_BOX == 0x0001_0000,
{
}

} // verus!
