//! The map of the game as a picture: its colours and the turning of its
//! tiles.

use vstd::prelude::*;

verus! {

/// The two pictures of the map, each as the bytes of an image file.
pub struct SpoilerMaps {
    pub explored: Vec<u8>,
    pub outline: Vec<u8>,
}

/// A colour component of five bits as one of eight bits.
pub open spec fn scaled(component: int) -> int {
    component * 255 / 31
}

/// Whether `value` is a colour component of five bits.
pub open spec fn five_bits(component: int) -> bool {
    0 <= component <= 31
}

/// The colour with the five-bit components `r`, `g` and `b`, as three bytes.
pub fn get_rgb(r: isize, g: isize, b: isize) -> (rgb: (u8, u8, u8))
    requires
        five_bits(r as int),
        five_bits(g as int),
        five_bits(b as int),
    ensures
        rgb.0 == scaled(r as int),
        rgb.1 == scaled(g as int),
        rgb.2 == scaled(b as int),
{
    ((r * 255 / 31) as u8, (g * 255 / 31) as u8, (b * 255 / 31) as u8)
}

/// The colour of the cool rooms of an area, in five-bit components.
pub open spec fn cool_area_color(area: int) -> (int, int, int) {
    if area == 0 {
        (18, 0, 27)
    } else if area == 1 {
        (0, 18, 0)
    } else if area == 2 {
        (23, 0, 0)
    } else if area == 3 {
        (16, 17, 0)
    } else if area == 4 {
        (3, 12, 29)
    } else {
        (21, 12, 0)
    }
}

/// The colour of the hot rooms of an area, in five-bit components.
pub open spec fn hot_area_color(area: int) -> (int, int, int) {
    if area == 0 {
        (27, 15, 31)
    } else if area == 1 {
        (12, 25, 12)
    } else if area == 2 {
        (31, 12, 12)
    } else if area == 3 {
        (23, 23, 11)
    } else if area == 4 {
        (12, 20, 31)
    } else {
        (29, 17, 12)
    }
}

/// Whether `value` is one of the colour values that a tile of the map holds.
pub open spec fn is_color_value(value: u8) -> bool {
    value <= 4 || 6 <= value <= 8 || 12 <= value <= 15
}

/// The colour that the explored map shows for `value` in `area`, in five-bit
/// components.
pub open spec fn explored_color(value: u8, area: int) -> (int, int, int) {
    if value == 1 {
        cool_area_color(area)
    } else if value == 2 {
        hot_area_color(area)
    } else if value == 3 || value == 13 {
        (31, 31, 31)
    } else if value == 6 {
        (29, 15, 0)
    } else if value == 7 {
        (27, 2, 27)
    } else if value == 8 {
        (4, 13, 31)
    } else if value == 14 {
        (7, 31, 7)
    } else if value == 15 {
        (18, 12, 14)
    } else {
        (0, 0, 0)
    }
}

/// The colour that the outline of the map shows for `value`, in five-bit
/// components: grey for walls and passages, black for all else.
pub open spec fn outline_color(value: u8) -> (int, int, int) {
    if value == 3 || value == 12 {
        (16, 16, 16)
    } else {
        (0, 0, 0)
    }
}

/// The three bytes of a colour given in five-bit components.
pub open spec fn as_bytes(color: (int, int, int)) -> (int, int, int) {
    (scaled(color.0), scaled(color.1), scaled(color.2))
}

/// The colour that the explored map shows for `value` in `area`.
pub fn get_explored_color(value: u8, area: usize) -> (rgb: (u8, u8, u8))
    requires
        area <= 5,
        is_color_value(value),
    ensures
        (rgb.0 as int, rgb.1 as int, rgb.2 as int) == as_bytes(explored_color(value, area as int)),
{
    let cool_area_color: (u8, u8, u8) = match area {
        0 => get_rgb(18, 0, 27),  // Crateria
        1 => get_rgb(0, 18, 0),  // Brinstar
        2 => get_rgb(23, 0, 0),  // Norfair
        3 => get_rgb(16, 17, 0),  // Wrecked Ship
        4 => get_rgb(3, 12, 29),  // Maridia
        _ => get_rgb(21, 12, 0),  // Tourian
    };
    let hot_area_color: (u8, u8, u8) = match area {
        0 => get_rgb(27, 15, 31),  // Crateria
        1 => get_rgb(12, 25, 12),  // Brinstar
        2 => get_rgb(31, 12, 12),  // Norfair
        3 => get_rgb(23, 23, 11),  // Wrecked Ship
        4 => get_rgb(12, 20, 31),  // Maridia
        _ => get_rgb(29, 17, 12),  // Tourian
    };
    match value {
        0 => get_rgb(0, 0, 0),
        1 => cool_area_color,
        2 => hot_area_color,
        3 => get_rgb(31, 31, 31),  // Wall/passage (white)
        4 => get_rgb(0, 0, 0),  // Opaque black (elevators; covers the dotted grid)
        6 => get_rgb(29, 15, 0),  // Yellow (orange) door (Power Bomb, Spazer)
        7 => get_rgb(27, 2, 27),  // Red (pink) door (Missile, Wave)
        8 => get_rgb(4, 13, 31),  // Blue door (Ice)
        12 => get_rgb(0, 0, 0),  // Door lock shadow covering wall (black)
        13 => get_rgb(31, 31, 31),  // Item dots (white)
        14 => get_rgb(7, 31, 7),  // Green door (Super, Plasma)
        _ => get_rgb(18, 12, 14),  // Gray door (including Charge)
    }
}

/// The colour that the outline of the map shows for `value`.
pub fn get_outline_color(value: u8) -> (rgb: (u8, u8, u8))
    requires
        is_color_value(value),
    ensures
        (rgb.0 as int, rgb.1 as int, rgb.2 as int) == as_bytes(outline_color(value)),
{
    match value {
        3 => get_rgb(16, 16, 16),  // Wall/passage (grey)
        12 => get_rgb(16, 16, 16),  // Door lock shadow, should appear same as wall/passage (grey)
        _ => get_rgb(0, 0, 0),
    }
}

/// Whether the word of a tile asks for the tile to be turned left to right.
pub open spec fn flips_x(tilemap_word: u16) -> bool {
    tilemap_word & 0x4000 != 0
}

/// Whether the word of a tile asks for the tile to be turned upside down.
pub open spec fn flips_y(tilemap_word: u16) -> bool {
    tilemap_word & 0x8000 != 0
}

/// The number of the tile that a word of the map names.
pub fn tile_index(tilemap_word: u16) -> (idx: usize)
    ensures
        idx == tilemap_word & 0x3FF,
        idx < 0x400,
{
    assert(tilemap_word & 0x3FF < 0x400) by (bit_vector);
    (tilemap_word & 0x3FF) as usize
}

/// The tile as the word of the map shows it: turned left to right, upside
/// down, both or not at all.
pub fn render_tile(tile: &[[u8; 8]; 8], tilemap_word: u16) -> (out: [[u8; 8]; 8])
    ensures
        forall|y: int, x: int|
            0 <= y < 8 && 0 <= x < 8 ==> #[trigger] out[y][x] == tile[if flips_y(tilemap_word) {
                7 - y
            } else {
                y
            }][if flips_x(tilemap_word) {
                7 - x
            } else {
                x
            }],
{
    let x_flip: bool = tilemap_word & 0x4000 != 0;
    let y_flip: bool = tilemap_word & 0x8000 != 0;
    let mut out: [[u8; 8]; 8] = [[0u8; 8]; 8];
    let mut y: usize = 0;
    while y < 8
        invariant
            y <= 8,
            x_flip == flips_x(tilemap_word),
            y_flip == flips_y(tilemap_word),
            forall|j: int, i: int|
                0 <= j < y && 0 <= i < 8 ==> #[trigger] out[j][i] == tile[if y_flip {
                    7 - j
                } else {
                    j
                }][if x_flip {
                    7 - i
                } else {
                    i
                }],
        decreases 8 - y,
    {
        let y1: usize = if !y_flip {
            y
        } else {
            7 - y
        };
        let mut row: [u8; 8] = [0u8; 8];
        let mut x: usize = 0;
        while x < 8
            invariant
                x <= 8,
                y < 8,
                y1 < 8,
                forall|i: int|
                    0 <= i < x ==> #[trigger] row[i] == tile[y1 as int][if x_flip {
                        7 - i
                    } else {
                        i
                    }],
            decreases 8 - x,
        {
            let x1: usize = if !x_flip {
                x
            } else {
                7 - x
            };
            row[x] = tile[y1][x1];
            x += 1;
        }
        out[y] = row;
        y += 1;
    }
    out
}

} // verus!
