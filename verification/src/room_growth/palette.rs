//! The colours of room growth and what they stand for.

use vstd::prelude::*;

verus! {

/// What room growth takes a square for, going by its colour.
#[derive(Debug, PartialEq, Eq, PartialOrd, Ord, Clone, Copy, Hash)]
pub enum CRGC {
    Door,
    Empty,
    Floor,
    RoomStart,
    Stairs,
    Wall,
    Other((u8, u8, u8)),
}

impl CRGC {
    /// The class of a colour: black is wall, white is empty, green is
    /// stairs, red is a room start, blue is a door, grey is floor, and any
    /// other colour is `Other` and is kept.
    pub open spec fn of(color: (u8, u8, u8)) -> CRGC {
        if color == (0u8, 0u8, 0u8) {
            CRGC::Wall
        } else if color == (255u8, 255u8, 255u8) {
            CRGC::Empty
        } else if color == (0u8, 255u8, 0u8) {
            CRGC::Stairs
        } else if color == (255u8, 0u8, 0u8) {
            CRGC::RoomStart
        } else if color == (0u8, 0u8, 255u8) {
            CRGC::Door
        } else if color == (140u8, 140u8, 140u8) {
            CRGC::Floor
        } else {
            CRGC::Other(color)
        }
    }

    /// The colour that stands for a class.
    pub open spec fn paint(self) -> (u8, u8, u8) {
        match self {
            CRGC::Door => (0u8, 0u8, 255u8),
            CRGC::Empty => (255u8, 255u8, 255u8),
            CRGC::Floor => (140u8, 140u8, 140u8),
            CRGC::RoomStart => (255u8, 0u8, 0u8),
            CRGC::Stairs => (0u8, 255u8, 0u8),
            CRGC::Wall => (0u8, 0u8, 0u8),
            CRGC::Other(c) => c,
        }
    }

    /// The class of a colour.
    pub fn classify(color: (u8, u8, u8)) -> (class: CRGC)
        ensures
            class == CRGC::of(color),
    {
        if color.0 == 0 && color.1 == 0 && color.2 == 0 {
            CRGC::Wall
        } else if color.0 == 255 && color.1 == 255 && color.2 == 255 {
            CRGC::Empty
        } else if color.0 == 0 && color.1 == 255 && color.2 == 0 {
            CRGC::Stairs
        } else if color.0 == 255 && color.1 == 0 && color.2 == 0 {
            CRGC::RoomStart
        } else if color.0 == 0 && color.1 == 0 && color.2 == 255 {
            CRGC::Door
        } else if color.0 == 140 && color.1 == 140 && color.2 == 140 {
            CRGC::Floor
        } else {
            CRGC::Other(color)
        }
    }

    /// The colour that stands for the class.
    pub fn color(&self) -> (color: (u8, u8, u8))
        ensures
            color == self.paint(),
    {
        match self {
            CRGC::Door => (0, 0, 255),
            CRGC::Empty => (255, 255, 255),
            CRGC::Floor => (140, 140, 140),
            CRGC::RoomStart => (255, 0, 0),
            CRGC::Stairs => (0, 255, 0),
            CRGC::Wall => (0, 0, 0),
            CRGC::Other(c) => *c,
        }
    }

    /// The colours that carry a meaning for room growth: room start, door,
    /// wall, empty, stairs and floor, in that order.
    pub fn colors_vec() -> (colors: Vec<(u8, u8, u8)>)
        ensures
            colors@ == seq![
                CRGC::RoomStart.paint(),
                CRGC::Door.paint(),
                CRGC::Wall.paint(),
                CRGC::Empty.paint(),
                CRGC::Stairs.paint(),
                CRGC::Floor.paint(),
            ],
    {
        let mut color_vec = Vec::new();
        color_vec.push((255, 0, 0));
        color_vec.push((0, 0, 255));
        color_vec.push((0, 0, 0));
        color_vec.push((255, 255, 255));
        color_vec.push((0, 255, 0));
        color_vec.push((140, 140, 140));
        assert(color_vec@ =~= seq![
            CRGC::RoomStart.paint(),
            CRGC::Door.paint(),
            CRGC::Wall.paint(),
            CRGC::Empty.paint(),
            CRGC::Stairs.paint(),
            CRGC::Floor.paint(),
        ]);
        color_vec
    }

    /// Classifying a colour and painting the class gives the colour back.
    pub proof fn lemma_classify_then_paint(color: (u8, u8, u8))
        ensures
            CRGC::of(color).paint() == color,
    {
    }
}

} // verus!
