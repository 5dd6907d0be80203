use vstd::prelude::*;

use crate::instance::LineType;

verus! {

/// A rectangle of terminal cells: its top-left corner and its size.
#[derive(Clone, Copy, PartialEq, Eq, Debug, Structural)]
pub struct Rect {
    pub x: u16,
    pub y: u16,
    pub width: u16,
    pub height: u16,
}

/// The prompt's area cut into the one-cell indicator and the rest.
pub fn split_prompt(area: Rect) -> (r: (Rect, Rect))
    requires
        area.width >= 1,
        area.x < u16::MAX,
    ensures
        r.0 == (Rect { width: 1, ..area }),
        r.1 == (Rect { x: (area.x + 1) as u16, width: (area.width - 1) as u16, ..area }),
{
    let mut indicator_chunk = area;
    indicator_chunk.width = 1;
    let mut data_chunk = area;
    data_chunk.width = data_chunk.width - 1;
    data_chunk.x = data_chunk.x + 1;
    (indicator_chunk, data_chunk)
}

/// An area cut into a strip of `top_height` rows at the top and the rows
/// below it.
pub fn split_top(area: Rect, top_height: u16) -> (r: (Rect, Rect))
    requires
        area.y + top_height <= u16::MAX,
    ensures
        r.0 == (Rect { height: top_height, ..area }),
        r.1 == (Rect {
            y: (area.y + top_height) as u16,
            height: if area.height >= top_height {
                (area.height - top_height) as u16
            } else {
                0
            },
            ..area
        }),
{
    let mut tab_chunk = area;
    tab_chunk.height = top_height;
    let mut data_chunk = area;
    data_chunk.y = data_chunk.y + top_height;
    data_chunk.height = data_chunk.height.saturating_sub(top_height);
    (tab_chunk, data_chunk)
}

/// An area cut into the rows above a strip of `bottom_height` rows at the
/// bottom, and that strip, no taller than the area.
pub fn split_bottom(area: Rect, bottom_height: u16) -> (r: (Rect, Rect))
    requires
        area.y + area.height <= u16::MAX,
    ensures
        ({
            let view_height = if area.height >= bottom_height {
                (area.height - bottom_height) as u16
            } else {
                0
            };
            &&& r.0 == (Rect { height: view_height, ..area })
            &&& r.1 == (Rect {
                y: (area.y + view_height) as u16,
                height: if bottom_height < area.height {
                    bottom_height
                } else {
                    area.height
                },
                ..area
            })
        }),
{
    let mut view_chunk = area;
    view_chunk.height = view_chunk.height.saturating_sub(bottom_height);
    let mut filter_chunk = area;
    filter_chunk.y = area.y + view_chunk.height;
    filter_chunk.height = if bottom_height < area.height {
        bottom_height
    } else {
        area.height
    };
    (view_chunk, filter_chunk)
}

/// An area cut into a strip of `left_width` columns on the left and the
/// columns to its right.
pub fn split_left(area: Rect, left_width: u16) -> (r: (Rect, Rect))
    requires
        area.x + left_width <= u16::MAX,
    ensures
        r.0 == (Rect { width: left_width, ..area }),
        r.1 == (Rect {
            x: (area.x + left_width) as u16,
            width: if area.width >= left_width {
                (area.width - left_width) as u16
            } else {
                0
            },
            ..area
        }),
{
    let mut left_chunk = area;
    left_chunk.width = left_width;
    let mut right_chunk = area;
    right_chunk.x = right_chunk.x + left_width;
    right_chunk.width = right_chunk.width.saturating_sub(left_width);
    (left_chunk, right_chunk)
}

/// An area cut into two halves side by side, the right one the wider by
/// the odd column.
pub fn split_half(area: Rect) -> (r: (Rect, Rect))
    requires
        area.x + area.width / 2 <= u16::MAX,
    ensures
        r.0 == (Rect { width: area.width / 2, ..area }),
        r.1 == (Rect {
            x: (area.x + area.width / 2) as u16,
            width: (area.width - area.width / 2) as u16,
            ..area
        }),
{
    split_left(area, area.width / 2)
}

/// The width of the marks between the gutter and a line's text.
pub const SPECIAL_SIZE: u16 = 3;

/// A row of the view cut into its gutter of `gutter_size` columns, the
/// column of the cursor mark, and the text; only the text where the row
/// shows neither line numbers nor the cursor.
pub fn split_line(area: Rect, gutter_size: Option<u16>, show_selection: bool) -> (r: (
    Option<Rect>,
    Option<Rect>,
    Rect,
))
    requires
        ({
            let g = match gutter_size {
                Some(g) => g as int,
                None => 0,
            };
            area.x + g + SPECIAL_SIZE <= u16::MAX
        }),
    ensures
        gutter_size is None && !show_selection ==> r == (None::<Rect>, None::<Rect>, area),
        !(gutter_size is None && !show_selection) ==> ({
            let g = match gutter_size {
                Some(g) => g as int,
                None => 0,
            };
            &&& r.0 == Some(Rect { width: g as u16, ..area })
            &&& r.1 == Some(Rect { x: (area.x + g + 1) as u16, width: 1, ..area })
            &&& r.2 == (Rect {
                x: (area.x + g + SPECIAL_SIZE) as u16,
                width: if area.width >= g + SPECIAL_SIZE {
                    (area.width - g - SPECIAL_SIZE) as u16
                } else {
                    0
                },
                ..area
            })
        }),
{
    if gutter_size.is_none() && !show_selection {
        return (None, None, area);
    }
    let gutter = match gutter_size {
        Some(g) => g,
        None => 0,
    };
    let mut gutter_chunk = area;
    gutter_chunk.width = gutter;
    let mut cursor_chunk = area;
    cursor_chunk.x = cursor_chunk.x + gutter + 1;
    cursor_chunk.width = 1;
    let mut data_chunk = area;
    data_chunk.x = data_chunk.x + gutter + SPECIAL_SIZE;
    data_chunk.width = data_chunk.width.saturating_sub(gutter + SPECIAL_SIZE);
    (Some(gutter_chunk), Some(cursor_chunk), data_chunk)
}

/// The mark a row shows beside its line number: the corner of a selection
/// at its first or last row, an arrow at the cursor, a bar inside a
/// selection, nothing elsewhere.
pub open spec fn gutter_mark(ty: LineType) -> &'static str {
    if ty.origin {
        if ty.origin_start {
            "┌ "
        } else if ty.origin_end {
            "└"
        } else {
            "▶"
        }
    } else if ty.within {
        "│"
    } else {
        ""
    }
}

/// The mark a row shows beside its line number.
pub fn gutter_selection(ty: LineType) -> (r: &'static str)
    ensures
        r == gutter_mark(ty),
{
    if ty.origin {
        if ty.origin_start {
            "┌ "
        } else if ty.origin_end {
            "└"
        } else {
            "▶"
        }
    } else if ty.within {
        "│"
    } else {
        ""
    }
}

} // verus!
