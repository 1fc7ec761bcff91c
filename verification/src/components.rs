//! The replicated component types and their delta pairs. Every
//! component taking part in replication declares how to diff itself
//! against a snapshot value and how to rebuild itself from the
//! snapshot value plus that diff.

use vstd::prelude::*;

verus! {

/// The empty diff of a component type whose only meaningful delta
/// signal is "unchanged".
#[derive(Clone, Copy, PartialEq, Eq, Structural, Debug)]
pub struct Unchanged;

/// A component's delta pair: `delta` computes a compact diff of
/// `current` against the snapshot value `self`, or None when the
/// change is not representable (the full value is sent instead);
/// `apply` rebuilds the current value from the snapshot value and a
/// diff. The law `lemma_delta_apply` binds the two: a successful diff
/// always rebuilds the current value exactly.
pub trait Delta: Sized + Copy {
    type DeltaType: Copy;

    spec fn delta_spec(self, current: Self) -> Option<Self::DeltaType>;

    spec fn apply_spec(self, d: Self::DeltaType) -> Self;

    proof fn lemma_delta_apply(self, current: Self)
        requires
            self.delta_spec(current) is Some,
        ensures
            self.apply_spec(self.delta_spec(current).unwrap()) == current,
    ;

    fn delta(&self, current: &Self) -> (r: Option<Self::DeltaType>)
        ensures
            r == self.delta_spec(*current),
    ;

    fn apply(&self, d: &Self::DeltaType) -> (r: Self)
        ensures
            r == self.apply_spec(*d),
    ;
}

/// A 2D position on the playing field.
#[derive(Clone, Copy, PartialEq, Eq, Structural, Debug)]
pub struct Position {
    pub x: i32,
    pub y: i32,
}

/// The compact diff of two positions: one signed byte per axis.
#[derive(Clone, Copy, PartialEq, Eq, Structural, Debug)]
pub struct DeltaPosition {
    pub dx: i8,
    pub dy: i8,
}

impl Position {
    pub fn new(x: i32, y: i32) -> (r: Position)
        ensures
            r == (Position { x, y }),
    {
        Position { x, y }
    }
}

impl Delta for Position {
    type DeltaType = DeltaPosition;

    /// The diff exists exactly when both axis offsets fit a signed byte.
    open spec fn delta_spec(self, current: Self) -> Option<DeltaPosition> {
        let dx = current.x - self.x;
        let dy = current.y - self.y;
        if -128 <= dx <= 127 && -128 <= dy <= 127 {
            Some(DeltaPosition { dx: dx as i8, dy: dy as i8 })
        } else {
            None
        }
    }

    open spec fn apply_spec(self, d: DeltaPosition) -> Self {
        Position {
            x: vstd::wrapping::i32_specs::wrapping_add(self.x, d.dx as i32),
            y: vstd::wrapping::i32_specs::wrapping_add(self.y, d.dy as i32),
        }
    }

    proof fn lemma_delta_apply(self, current: Self) {
    }

    fn delta(&self, current: &Self) -> (r: Option<DeltaPosition>) {
        let dx: i64 = (current.x as i64) - (self.x as i64);
        let dy: i64 = (current.y as i64) - (self.y as i64);
        if -128 <= dx && dx <= 127 && -128 <= dy && dy <= 127 {
            Some(DeltaPosition { dx: dx as i8, dy: dy as i8 })
        } else {
            None
        }
    }

    fn apply(&self, d: &DeltaPosition) -> (r: Self) {
        Position {
            x: self.x.wrapping_add(d.dx as i32),
            y: self.y.wrapping_add(d.dy as i32),
        }
    }
}

/// An RGBA color with one byte per channel.
#[derive(Clone, Copy, PartialEq, Eq, Structural, Debug)]
pub struct Color {
    pub r: u8,
    pub g: u8,
    pub b: u8,
    pub a: u8,
}

impl Color {
    pub fn new(r: u8, g: u8, b: u8, a: u8) -> (c: Color)
        ensures
            c == (Color { r, g, b, a }),
    {
        Color { r, g, b, a }
    }
}

impl Delta for Color {
    type DeltaType = Unchanged;

    /// A color carries no compact diff: the only signal is
    /// changed / unchanged, and a change sends the full value.
    open spec fn delta_spec(self, current: Self) -> Option<Unchanged> {
        if current == self {
            Some(Unchanged)
        } else {
            None
        }
    }

    open spec fn apply_spec(self, d: Unchanged) -> Self {
        self
    }

    proof fn lemma_delta_apply(self, current: Self) {
    }

    fn delta(&self, current: &Self) -> (r: Option<Unchanged>) {
        if current.r == self.r && current.g == self.g && current.b == self.b && current.a
            == self.a {
            Some(Unchanged)
        } else {
            None
        }
    }

    fn apply(&self, d: &Unchanged) -> (r: Self) {
        *self
    }
}

/// An axis-aligned rectangle extent.
#[derive(Clone, Copy, PartialEq, Eq, Structural, Debug)]
pub struct Rectangle {
    pub width: u32,
    pub height: u32,
}

impl Rectangle {
    pub fn new(width: u32, height: u32) -> (r: Rectangle)
        ensures
            r == (Rectangle { width, height }),
    {
        Rectangle { width, height }
    }
}

impl Delta for Rectangle {
    type DeltaType = Unchanged;

    /// A rectangle carries no compact diff either: unchanged extents
    /// diff to unit, changed extents fall back to the full value.
    open spec fn delta_spec(self, current: Self) -> Option<Unchanged> {
        if current == self {
            Some(Unchanged)
        } else {
            None
        }
    }

    open spec fn apply_spec(self, d: Unchanged) -> Self {
        self
    }

    proof fn lemma_delta_apply(self, current: Self) {
    }

    fn delta(&self, current: &Self) -> (r: Option<Unchanged>) {
        if current.width == self.width && current.height == self.height {
            Some(Unchanged)
        } else {
            None
        }
    }

    fn apply(&self, d: &Unchanged) -> (r: Self) {
        *self
    }
}

/// A client's input state, sent to the server on every client message.
#[derive(Clone, Copy, PartialEq, Eq, Structural, Debug)]
pub struct ClientState {
    pub up: bool,
    pub down: bool,
    pub left: bool,
    pub right: bool,
}

impl Default for ClientState {
    /// All directions released.
    fn default() -> (r: ClientState)
        ensures
            r == (ClientState { up: false, down: false, left: false, right: false }),
    {
        ClientState { up: false, down: false, left: false, right: false }
    }
}

} // verus!
