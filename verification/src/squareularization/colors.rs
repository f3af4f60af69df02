//! Colours and how near they are to each other: pulling a pixel towards
//! the colours that carry a meaning.

use vstd::prelude::*;

verus! {

/// The colour of stairs, whose votes count five hundredfold.
pub open spec fn stairs_color() -> (u8, u8, u8) {
    (0u8, 255u8, 0u8)
}

/// Magenta, the colour that marks unpainted canvas: it is never pulled
/// towards a preferred colour, and its votes count for nothing.
pub open spec fn debug_color() -> (u8, u8, u8) {
    (255u8, 0u8, 255u8)
}

/// The colour of a square in which no colour has a vote that counts.
pub open spec fn fallback_color() -> (u8, u8, u8) {
    (40u8, 40u8, 40u8)
}

/// The largest gap at which a colour is still pulled towards a preferred
/// colour: 450 over the three channels, which is a mean of 150 a channel.
pub open spec fn snap_reach() -> int {
    450
}

/// How far apart two values of one channel are.
pub open spec fn channel_gap(a: u8, b: u8) -> int {
    if a >= b {
        a - b
    } else {
        b - a
    }
}

/// How far apart two colours are: the gaps of their three channels, summed.
pub open spec fn color_gap(a: (u8, u8, u8), b: (u8, u8, u8)) -> int {
    channel_gap(a.0, b.0) + channel_gap(a.1, b.1) + channel_gap(a.2, b.2)
}

/// `i` is the place of the preferred colour nearest to `color`: none is
/// nearer, and none before it is as near.
pub open spec fn is_nearest(palette: Seq<(u8, u8, u8)>, color: (u8, u8, u8), i: int) -> bool {
    &&& 0 <= i < palette.len()
    &&& forall|j: int|
        0 <= j < palette.len() ==> color_gap(#[trigger] palette[j], color) >= color_gap(
            palette[i],
            color,
        )
    &&& forall|j: int|
        0 <= j < i ==> color_gap(#[trigger] palette[j], color) > color_gap(palette[i], color)
}

/// The colour that a pixel votes for. With no preferred colours it is the
/// pixel's own. With preferred colours, a pixel that is none of them and
/// not magenta votes for the nearest of them, provided that one is within
/// reach; any other pixel votes for its own colour.
pub open spec fn snapped(palette: Option<Seq<(u8, u8, u8)>>, color: (u8, u8, u8)) -> (
    u8,
    u8,
    u8,
) {
    match palette {
        None => color,
        Some(preferred) => {
            let i = choose|i: int| is_nearest(preferred, color, i);
            if !preferred.contains(color) && color != debug_color() && preferred.len() > 0
                && color_gap(preferred[i], color) <= snap_reach() {
                preferred[i]
            } else {
                color
            }
        },
    }
}

/// Only one place can be that of the nearest preferred colour.
proof fn lemma_nearest_unique(palette: Seq<(u8, u8, u8)>, color: (u8, u8, u8), i: int, j: int)
    requires
        is_nearest(palette, color, i),
        is_nearest(palette, color, j),
    ensures
        i == j,
{
    if i < j {
        assert(color_gap(palette[i], color) > color_gap(palette[j], color));
    } else if j < i {
        assert(color_gap(palette[j], color) > color_gap(palette[i], color));
    }
}

/// The gap between two values of one channel.
fn gap_of_channel(a: u8, b: u8) -> (gap: u16)
    ensures
        gap == channel_gap(a, b),
{
    if a >= b {
        (a - b) as u16
    } else {
        (b - a) as u16
    }
}

/// The gap between two colours.
fn gap_of_colors(a: (u8, u8, u8), b: (u8, u8, u8)) -> (gap: u16)
    ensures
        gap == color_gap(a, b),
        gap <= 765,
{
    gap_of_channel(a.0, b.0) + gap_of_channel(a.1, b.1) + gap_of_channel(a.2, b.2)
}

/// Whether two colours are the same.
pub(crate) fn same_color(a: (u8, u8, u8), b: (u8, u8, u8)) -> (same: bool)
    ensures
        same == (a == b),
{
    a.0 == b.0 && a.1 == b.1 && a.2 == b.2
}

/// The place of `color` among `colors`, if it is there: the first such
/// place.
pub(crate) fn position_of(colors: &Vec<(u8, u8, u8)>, color: (u8, u8, u8)) -> (place: Option<usize>)
    ensures
        place is Some == colors@.contains(color),
        place matches Some(i) ==> {
            &&& i < colors@.len()
            &&& colors@[i as int] == color
            &&& forall|j: int| 0 <= j < i ==> colors@[j] != color
        },
{
    let mut i: usize = 0;
    while i < colors.len()
        invariant
            i <= colors.len(),
            forall|j: int| 0 <= j < i ==> colors@[j] != color,
        decreases colors.len() - i,
    {
        if same_color(colors[i], color) {
            return Some(i);
        }
        i += 1;
    }
    None
}

/// The colour that a pixel of colour `color` votes for.
pub(crate) fn snap_color(preferred_colors: Option<&Vec<(u8, u8, u8)>>, color: (u8, u8, u8)) -> (vote: (
    u8,
    u8,
    u8,
))
    ensures
        vote == snapped(
            match preferred_colors {
                Some(pcs) => Some(pcs@),
                None => None,
            },
            color,
        ),
{
    let pcs = match preferred_colors {
        Some(pcs) => pcs,
        None => {
            return color;
        },
    };
    if position_of(pcs, color).is_some() || pcs.len() == 0 {
        return color;
    }
    let mut closest: usize = 0;
    let mut closest_gap: u16 = gap_of_colors(pcs[0], color);
    let mut idx: usize = 1;
    while idx < pcs.len()
        invariant
            1 <= idx <= pcs.len(),
            closest < idx,
            closest_gap == color_gap(pcs@[closest as int], color),
            forall|j: int|
                0 <= j < idx ==> color_gap(#[trigger] pcs@[j], color) >= closest_gap,
            forall|j: int|
                0 <= j < closest ==> color_gap(#[trigger] pcs@[j], color) > closest_gap,
        decreases pcs.len() - idx,
    {
        let gap = gap_of_colors(pcs[idx], color);
        if gap < closest_gap {
            closest = idx;
            closest_gap = gap;
        }
        idx += 1;
    }
    proof {
        assert(is_nearest(pcs@, color, closest as int));
        let chosen = choose|i: int| is_nearest(pcs@, color, i);
        lemma_nearest_unique(pcs@, color, closest as int, chosen);
    }
    if closest_gap <= 450 && !same_color(color, (255, 0, 255)) {
        pcs[closest]
    } else {
        color
    }
}

} // verus!
