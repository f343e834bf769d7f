//! Geometry helpers for laying a maze out on a character screen.

use vstd::prelude::*;
use crate::dims::{Dims, Dims3D};
use crate::maze::Maze;

verus! {

/// Half of `n`, rounded towards zero.
pub open spec fn half(n: int) -> int {
    if n >= 0 {
        n / 2
    } else {
        -((-n) / 2)
    }
}

/// Where an item of width `width` starts when it is centred between `start`
/// and `end`.
pub open spec fn centered(start: int, end: int, width: int) -> int {
    half(end - start - width) + start
}

/// Whether `n` can be held in an `i32`.
pub open spec fn fits_i32(n: int) -> bool {
    i32::MIN <= n <= i32::MAX
}

/// The start of an item of width `item_width` centred in the span from
/// `container_start` to `container_end`.
pub fn line_center(container_start: i32, container_end: i32, item_width: i32) -> (start: i32)
    requires
        fits_i32(centered(container_start as int, container_end as int, item_width as int)),
    ensures
        start == centered(container_start as int, container_end as int, item_width as int),
{
    let free = container_end as i64 - container_start as i64 - item_width as i64;
    (free / 2 + container_start as i64) as i32
}

/// The top left corner of a box of extent `box_dims` centred in the
/// rectangle from `container_start` to `container_end`.
pub fn box_center(container_start: Dims, container_end: Dims, box_dims: Dims) -> (corner: Dims)
    requires
        fits_i32(centered(container_start.0 as int, container_end.0 as int, box_dims.0 as int)),
        fits_i32(centered(container_start.1 as int, container_end.1 as int, box_dims.1 as int)),
    ensures
        corner.0 == centered(container_start.0 as int, container_end.0 as int, box_dims.0 as int),
        corner.1 == centered(container_start.1 as int, container_end.1 as int, box_dims.1 as int),
{
    Dims(
        line_center(container_start.0, container_end.0, box_dims.0),
        line_center(container_start.1, container_end.1, box_dims.1),
    )
}

/// The extent of the drawing of one floor of `maze`: every cell takes one
/// character, and so does every wall line between and around the cells.
pub fn maze_render_size(maze: &Maze) -> (extent: Dims)
    requires
        maze.wf(),
        fits_i32(maze.spec_size().0 * 2 + 1),
        fits_i32(maze.spec_size().1 * 2 + 1),
    ensures
        extent.0 == maze.spec_size().0 * 2 + 1,
        extent.1 == maze.spec_size().1 * 2 + 1,
{
    let msize = maze.size();
    Dims(msize.0 * 2 + 1, msize.1 * 2 + 1)
}

/// The number that the four arms of a line crossing stand for: 8 for an arm
/// to the left, 4 for one to the top, 2 for one to the right, 1 for one to
/// the bottom.
pub open spec fn corner_index(left: bool, top: bool, right: bool, bottom: bool) -> int {
    (if left {
        8int
    } else {
        0int
    }) + (if top {
        4int
    } else {
        0int
    }) + (if right {
        2int
    } else {
        0int
    }) + (if bottom {
        1int
    } else {
        0int
    })
}

/// The double-line crossings, in the order of `corner_index`.  A crossing
/// with fewer than two arms is drawn as `#`.
pub open spec fn double_line_corners() -> Seq<char> {
    "###╔#║╚╠#╗═╦╝╣╩╬"@
}

/// The rounded single-line crossings, in the order of `corner_index`.  A
/// crossing with fewer than two arms is drawn as `#`.
pub open spec fn round_line_corners() -> Seq<char> {
    "###╭#│╰├#╮─┬╯┤┴┼"@
}

/// The double-line character for a crossing with the given arms.
pub fn double_line_corner(left: bool, top: bool, right: bool, bottom: bool) -> (corner: &'static str)
    ensures
        corner@ == seq![double_line_corners()[corner_index(left, top, right, bottom)]],
{
    proof {
        reveal_strlit("###╔#║╚╠#╗═╦╝╣╩╬");
        reveal_strlit("#");
        reveal_strlit("╔");
        reveal_strlit("║");
        reveal_strlit("╚");
        reveal_strlit("╠");
        reveal_strlit("╗");
        reveal_strlit("═");
        reveal_strlit("╦");
        reveal_strlit("╝");
        reveal_strlit("╣");
        reveal_strlit("╩");
        reveal_strlit("╬");
    }
    let corner = match (left, top, right, bottom) {
        (false, false, false, false) => "#",
        (false, false, false, true) => "#",
        (false, false, true, false) => "#",
        (false, false, true, true) => "╔",
        (false, true, false, false) => "#",
        (false, true, false, true) => "║",
        (false, true, true, false) => "╚",
        (false, true, true, true) => "╠",
        (true, false, false, false) => "#",
        (true, false, false, true) => "╗",
        (true, false, true, false) => "═",
        (true, false, true, true) => "╦",
        (true, true, false, false) => "╝",
        (true, true, false, true) => "╣",
        (true, true, true, false) => "╩",
        (true, true, true, true) => "╬",
    };
    assert(corner@ =~= seq![double_line_corners()[corner_index(left, top, right, bottom)]]);
    corner
}

/// The rounded single-line character for a crossing with the given arms.
pub fn round_line_corner(left: bool, top: bool, right: bool, bottom: bool) -> (corner: &'static str)
    ensures
        corner@ == seq![round_line_corners()[corner_index(left, top, right, bottom)]],
{
    proof {
        reveal_strlit("###╭#│╰├#╮─┬╯┤┴┼");
        reveal_strlit("#");
        reveal_strlit("╭");
        reveal_strlit("│");
        reveal_strlit("╰");
        reveal_strlit("├");
        reveal_strlit("╮");
        reveal_strlit("─");
        reveal_strlit("┬");
        reveal_strlit("╯");
        reveal_strlit("┤");
        reveal_strlit("┴");
        reveal_strlit("┼");
    }
    let corner = match (left, top, right, bottom) {
        (false, false, false, false) => "#",
        (false, false, false, true) => "#",
        (false, false, true, false) => "#",
        (false, false, true, true) => "╭",
        (false, true, false, false) => "#",
        (false, true, false, true) => "│",
        (false, true, true, false) => "╰",
        (false, true, true, true) => "├",
        (true, false, false, false) => "#",
        (true, false, false, true) => "╮",
        (true, false, true, false) => "─",
        (true, false, true, true) => "┬",
        (true, true, false, false) => "╯",
        (true, true, false, true) => "┤",
        (true, true, true, false) => "┴",
        (true, true, true, true) => "┼",
    };
    assert(corner@ =~= seq![round_line_corners()[corner_index(left, top, right, bottom)]]);
    corner
}

/// The screen position, within the drawing of a floor, of the cell at
/// `maze_pos`.
pub fn from_maze_to_real(maze_pos: Dims3D) -> (pos: Dims)
    requires
        fits_i32(maze_pos.0 * 2 + 1),
        fits_i32(maze_pos.1 * 2 + 1),
    ensures
        pos.0 == maze_pos.0 * 2 + 1,
        pos.1 == maze_pos.1 * 2 + 1,
{
    Dims(maze_pos.0 * 2 + 1, maze_pos.1 * 2 + 1)
}

} // verus!
