//! Positions, sizes and rectangles on the desktop, and the cache of window geometry.
//!
//! Physical values are device pixels; logical values are physical values
//! divided by the scale factor of the display a window is on.
use vstd::prelude::*;

use crate::table::Table;

verus! {

/// A position in device pixels.
#[derive(Debug, Clone, Copy, PartialEq, Eq, Structural)]
pub struct PhysicalPosition {
    pub x: i32,
    pub y: i32,
}

/// A size in device pixels.
#[derive(Debug, Clone, Copy, PartialEq, Eq, Structural)]
pub struct PhysicalSize {
    pub width: u32,
    pub height: u32,
}

/// A position in scale-independent pixels.
#[derive(Debug, Clone, Copy, PartialEq, Eq, Structural)]
pub struct LogicalPosition {
    pub x: i32,
    pub y: i32,
}

/// A size in scale-independent pixels.
#[derive(Debug, Clone, Copy, PartialEq, Eq, Structural)]
pub struct LogicalSize {
    pub width: u32,
    pub height: u32,
}

impl PhysicalPosition {
    pub fn new(x: i32, y: i32) -> (position: Self)
        ensures
            position.x == x,
            position.y == y,
    {
        PhysicalPosition { x, y }
    }
}

impl PhysicalSize {
    pub fn new(width: u32, height: u32) -> (size: Self)
        ensures
            size.width == width,
            size.height == height,
    {
        PhysicalSize { width, height }
    }
}

impl LogicalPosition {
    pub fn new(x: i32, y: i32) -> (position: Self)
        ensures
            position.x == x,
            position.y == y,
    {
        LogicalPosition { x, y }
    }
}

impl LogicalSize {
    pub fn new(width: u32, height: u32) -> (size: Self)
        ensures
            size.width == width,
            size.height == height,
    {
        LogicalSize { width, height }
    }
}

impl View for PhysicalPosition {
    type V = PhysicalPosition;

    open spec fn view(&self) -> PhysicalPosition {
        *self
    }
}

/// Where a window was last seen, and how large.
#[derive(Debug, Clone, Copy, PartialEq, Eq, Structural)]
pub struct NoteGeometry {
    pub position: PhysicalPosition,
    pub size: PhysicalSize,
}

impl View for NoteGeometry {
    type V = NoteGeometry;

    open spec fn view(&self) -> NoteGeometry {
        *self
    }
}

/// Whether `v` is a value of `i64`.
pub open spec fn fits_i64(v: int) -> bool {
    i64::MIN <= v <= i64::MAX
}

/// Whether `v` is a value of `i32`.
pub open spec fn fits_i32(v: int) -> bool {
    i32::MIN <= v <= i32::MAX
}

/// A rectangle on the desktop: a window, a display, or the part of a display
/// that the menu bar and the dock leave free.
#[derive(Debug, Clone, Copy, PartialEq, Eq, Structural)]
pub struct WindowRect {
    pub x: i64,
    pub y: i64,
    pub width: i64,
    pub height: i64,
}

impl WindowRect {
    /// First column to the right of the rectangle.
    pub open spec fn spec_right(self) -> int {
        self.x + self.width
    }

    /// First row below the rectangle.
    pub open spec fn spec_bottom(self) -> int {
        self.y + self.height
    }

    /// Twice the centre, so that it is a pair of integers.
    pub open spec fn spec_center_twice(self) -> (int, int) {
        (2 * self.x + self.width, 2 * self.y + self.height)
    }

    /// Whether the point that is half of `center` lies in the rectangle, its
    /// left and top edges included, its right and bottom edges not.
    pub open spec fn spec_contains_center_twice(self, center: (int, int)) -> bool {
        &&& 2 * self.x <= center.0 < 2 * self.spec_right()
        &&& 2 * self.y <= center.1 < 2 * self.spec_bottom()
    }

    /// Whether every value that `contains_center_twice` computes for `center`,
    /// left edge first, is one of `i64`.
    pub open spec fn containment_fits(self, center: (int, int)) -> bool {
        &&& fits_i64(2 * self.x)
        &&& 2 * self.x <= center.0 ==> {
            &&& fits_i64(self.spec_right())
            &&& fits_i64(2 * self.spec_right())
            &&& center.0 < 2 * self.spec_right() ==> {
                &&& fits_i64(2 * self.y)
                &&& 2 * self.y <= center.1 ==> {
                    &&& fits_i64(self.spec_bottom())
                    &&& fits_i64(2 * self.spec_bottom())
                }
            }
        }
    }

    /// Whether twice the centre is a pair of `i64` values and can be computed as such.
    pub open spec fn center_fits(self) -> bool {
        &&& fits_i64(2 * self.x)
        &&& fits_i64(2 * self.x + self.width)
        &&& fits_i64(2 * self.y)
        &&& fits_i64(2 * self.y + self.height)
    }

    /// The rectangle of a window or display that the window system reported.
    pub fn from_physical(position: PhysicalPosition, size: PhysicalSize) -> (rect: Self)
        ensures
            rect.x == position.x,
            rect.y == position.y,
            rect.width == size.width,
            rect.height == size.height,
    {
        WindowRect {
            x: position.x as i64,
            y: position.y as i64,
            width: size.width as i64,
            height: size.height as i64,
        }
    }

    /// First column to the right of the rectangle.
    pub fn right(self) -> (edge: i64)
        requires
            fits_i64(self.spec_right()),
        ensures
            edge == self.spec_right(),
    {
        self.x + self.width
    }

    /// First row below the rectangle.
    pub fn bottom(self) -> (edge: i64)
        requires
            fits_i64(self.spec_bottom()),
        ensures
            edge == self.spec_bottom(),
    {
        self.y + self.height
    }

    /// Twice the centre of the rectangle.
    pub fn center_twice(self) -> (center: (i64, i64))
        requires
            self.center_fits(),
        ensures
            center.0 == self.spec_center_twice().0,
            center.1 == self.spec_center_twice().1,
    {
        (2 * self.x + self.width, 2 * self.y + self.height)
    }

    /// Whether a centre, given as its double, lies in the rectangle.
    pub fn contains_center_twice(self, center: (i64, i64)) -> (contained: bool)
        requires
            self.containment_fits((center.0 as int, center.1 as int)),
        ensures
            contained == self.spec_contains_center_twice((center.0 as int, center.1 as int)),
    {
        2 * self.x <= center.0 && center.0 < 2 * self.right() && 2 * self.y <= center.1 && center.1
            < 2 * self.bottom()
    }
}

/// The rectangle that a cached geometry describes.
pub open spec fn geometry_rect(geometry: NoteGeometry) -> WindowRect {
    WindowRect {
        x: geometry.position.x as i64,
        y: geometry.position.y as i64,
        width: geometry.size.width as i64,
        height: geometry.size.height as i64,
    }
}

/// No window in the geometry cache has the given identifier.
#[derive(Debug)]
pub struct MissingGeometry {
    pub id: String,
}

/// The last known geometry of every open window, by window identifier.
pub struct GeometryIndex {
    geometries: Table<NoteGeometry>,
}

impl View for GeometryIndex {
    type V = Map<Seq<char>, NoteGeometry>;

    closed spec fn view(&self) -> Map<Seq<char>, NoteGeometry> {
        self.geometries@
    }
}

impl Default for GeometryIndex {
    fn default() -> (index: Self)
        ensures
            index@ == Map::<Seq<char>, NoteGeometry>::empty(),
    {
        GeometryIndex { geometries: Table::new() }
    }
}

impl GeometryIndex {
    /// The cached geometry of a window.
    pub fn get(&self, id: &str) -> (found: Result<NoteGeometry, MissingGeometry>)
        ensures
            match found {
                Ok(geometry) => self@.contains_key(id@) && geometry == self@[id@],
                Err(missing) => !self@.contains_key(id@) && missing.id@ == id@,
            },
    {
        match self.geometries.get(id) {
            Some(geometry) => Ok(*geometry),
            None => Err(MissingGeometry { id: id.to_owned() }),
        }
    }

    /// Caches the geometry of a window, replacing what was known of it.
    pub fn insert(&mut self, id: String, geometry: NoteGeometry)
        ensures
            final(self)@ == old(self)@.insert(id@, geometry),
    {
        self.geometries.insert(id, geometry);
    }

    /// Replaces the position of a window that is in the cache.
    pub fn set_position(&mut self, id: &str, position: PhysicalPosition) -> (cached: Result<
        (),
        MissingGeometry,
    >)
        ensures
            match cached {
                Ok(()) => old(self)@.contains_key(id@) && final(self)@ == old(self)@.insert(
                    id@,
                    NoteGeometry { position, ..old(self)@[id@] },
                ),
                Err(missing) => !old(self)@.contains_key(id@) && missing.id@ == id@ && final(self)@
                    == old(self)@,
            },
    {
        match self.get(id) {
            Ok(geometry) => {
                self.geometries.insert(id.to_owned(), NoteGeometry { position, ..geometry });
                Ok(())
            },
            Err(missing) => Err(missing),
        }
    }

    /// Replaces the size of a window that is in the cache.
    pub fn set_size(&mut self, id: &str, size: PhysicalSize) -> (cached: Result<
        (),
        MissingGeometry,
    >)
        ensures
            match cached {
                Ok(()) => old(self)@.contains_key(id@) && final(self)@ == old(self)@.insert(
                    id@,
                    NoteGeometry { size, ..old(self)@[id@] },
                ),
                Err(missing) => !old(self)@.contains_key(id@) && missing.id@ == id@ && final(self)@
                    == old(self)@,
            },
    {
        match self.get(id) {
            Ok(geometry) => {
                self.geometries.insert(id.to_owned(), NoteGeometry { size, ..geometry });
                Ok(())
            },
            Err(missing) => Err(missing),
        }
    }
}

/// The rectangle of a reported window always has a centre that can be computed,
/// and can always be asked whether it contains such a centre.
pub proof fn law_reported_rectangles_are_computable(a: NoteGeometry, b: NoteGeometry)
    ensures
        geometry_rect(a).center_fits(),
        geometry_rect(a).containment_fits(geometry_rect(b).spec_center_twice()),
{
}

} // verus!
