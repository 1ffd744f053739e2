//! Menu settings that are plain values: the default font size of new notes.
use vstd::prelude::*;

verus! {

/// Font size of a note that was never resized.
pub const DEFAULT_FONT_SIZE: u8 = 16;

/// How far one "larger" or "smaller" command moves the font size.
pub const FONT_SIZE_STEP: u8 = 2;

/// Smallest font size a note can have.
pub const MIN_FONT_SIZE: u8 = 12;

/// Largest font size a note can have.
pub const MAX_FONT_SIZE: u8 = 32;

/// The value of `size` that lies nearest to it between the two font-size limits.
pub open spec fn clamped_font_size(size: int) -> int {
    if size < MIN_FONT_SIZE {
        MIN_FONT_SIZE as int
    } else if size > MAX_FONT_SIZE {
        MAX_FONT_SIZE as int
    } else {
        size
    }
}

/// Brings a requested font size between `MIN_FONT_SIZE` and `MAX_FONT_SIZE`.
pub fn clamp_font_size(font_size: i64) -> (clamped: u8)
    ensures
        clamped == clamped_font_size(font_size as int),
{
    if font_size < MIN_FONT_SIZE as i64 {
        MIN_FONT_SIZE
    } else if font_size > MAX_FONT_SIZE as i64 {
        MAX_FONT_SIZE
    } else {
        font_size as u8
    }
}

/// The settings of the menu bar that the program keeps itself.
///
/// The two check marks of the menu ("bring to front", "launch on startup")
/// live in the menu items; the default font size lives here.
pub struct MenuSettings {
    default_font_size: u8,
}

impl View for MenuSettings {
    type V = int;

    closed spec fn view(&self) -> int {
        self.default_font_size as int
    }
}

impl MenuSettings {
    #[verifier::type_invariant]
    spec fn in_limits(self) -> bool {
        MIN_FONT_SIZE <= self.default_font_size <= MAX_FONT_SIZE
    }

    /// Settings that start from a stored default font size, brought between the limits.
    pub fn new(default_font_size: u8) -> (settings: Self)
        ensures
            settings@ == clamped_font_size(default_font_size as int),
    {
        MenuSettings { default_font_size: clamp_font_size(default_font_size as i64) }
    }

    /// The font size that a new note starts with.
    pub fn default_font_size(&self) -> (font_size: u8)
        ensures
            font_size == self@,
            MIN_FONT_SIZE <= font_size <= MAX_FONT_SIZE,
    {
        proof {
            use_type_invariant(self);
        }
        self.default_font_size
    }

    /// Replaces the default font size and hands back the one it replaced.
    pub fn set_default_font_size(&mut self, font_size: u8) -> (previous: u8)
        ensures
            previous == old(self)@,
            final(self)@ == clamped_font_size(font_size as int),
    {
        let previous: u8 = self.default_font_size;
        self.default_font_size = clamp_font_size(font_size as i64);
        previous
    }
}

/// A clamped font size is a legal one, and clamping a legal one changes nothing.
pub proof fn law_clamping_is_idempotent(size: int)
    ensures
        MIN_FONT_SIZE <= clamped_font_size(size) <= MAX_FONT_SIZE,
        clamped_font_size(clamped_font_size(size)) == clamped_font_size(size),
        MIN_FONT_SIZE <= size <= MAX_FONT_SIZE ==> clamped_font_size(size) == size,
{
}

/// No font size from 12 to 32 is nearer to a requested one than the one it is brought
/// to.
pub proof fn law_clamping_goes_to_the_nearest(size: int, other: int)
    requires
        12 <= other <= 32,
    ensures
        12 <= clamped_font_size(size) <= 32,
        size <= other ==> size <= clamped_font_size(size) <= other,
        size >= other ==> other <= clamped_font_size(size) <= size,
{
}

} // verus!
