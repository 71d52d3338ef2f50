//! The icon of the window, out of an icon file, and the version that the program shows.

use vstd::prelude::*;
use crate::text;

verus! {

/// The edge of the icon, in pixels.
pub const EDGE: usize = 48;

/// How many bytes the pixels of the icon take.
pub const PIXEL_BYTES: usize = 9216;

/// The number in the two bytes from `i` on, the low one first.
pub open spec fn short_at(b: Seq<u8>, i: int) -> int {
    b[i] + 256 * b[i + 1]
}

/// The number in the four bytes from `i` on, the low ones first.
pub open spec fn long_at(b: Seq<u8>, i: int) -> int {
    b[i] + 256 * b[i + 1] + 65536 * b[i + 2] + 16777216 * b[i + 3]
}

fn read_short(b: &[u8], i: usize) -> (r: u64)
    requires
        i + 2 <= b@.len(),
    ensures
        r == short_at(b@, i as int),
{
    b[i] as u64 + 256 * (b[i + 1] as u64)
}

fn read_long(b: &[u8], i: usize) -> (r: u64)
    requires
        i + 4 <= b@.len(),
    ensures
        r == long_at(b@, i as int),
        r <= 0xffff_ffff,
{
    b[i] as u64 + 256 * (b[i + 1] as u64) + 65536 * (b[i + 2] as u64) + 16777216 * (b[i + 3] as u64)
}

/// A picture of the right size begins at `at`: an uncompressed bitmap of 32 bits a pixel, whose
/// height counts the mask as well.
pub open spec fn is_bitmap(b: Seq<u8>, at: int) -> bool {
    &&& long_at(b, at) == 40
    &&& long_at(b, at + 8) == 96
    &&& short_at(b, at + 14) == 32
    &&& long_at(b, at + 16) == 0
}

/// Where the pixels of the icon begin, looking at the entries from `index` on of `count`; nothing
/// where there is no such picture or the file is cut short.
pub open spec fn pixels_at(b: Seq<u8>, index: int, count: int) -> Option<int>
    decreases count - index,
{
    let entry = 6 + 16 * index;
    if index >= count || entry + 16 > b.len() {
        None
    } else if b[entry] != 48 {
        pixels_at(b, index + 1, count)
    } else {
        let at = long_at(b, entry + 12);
        if at + 20 > b.len() {
            None
        } else if !is_bitmap(b, at) {
            pixels_at(b, index + 1, count)
        } else if at + 40 + PIXEL_BYTES > b.len() {
            None
        } else {
            Some(at + 40)
        }
    }
}

/// Where the pixels of the icon begin in an icon file.
pub open spec fn pixels_in(b: Seq<u8>) -> Option<int> {
    if b.len() < 6 {
        None
    } else {
        pixels_at(b, 0, short_at(b, 4))
    }
}

/// The place of byte `k` of the picture in the file: the rows stand upside down there, and blue
/// comes before green and red.
pub open spec fn source_of(k: int) -> int {
    let row = k / 192;
    let in_row = k % 192;
    let channel = in_row % 4;
    (47 - row) * 192 + (in_row - channel) + if channel == 3 {
        3
    } else {
        2 - channel
    }
}

/// The picture as red, green, blue and opacity, row by row from the top.
pub open spec fn picture(b: Seq<u8>, at: int) -> Seq<u8> {
    Seq::new(PIXEL_BYTES as nat, |k: int| b[at + source_of(k)])
}

fn find_pixels(b: &[u8]) -> (r: Option<usize>)
    ensures
        match r {
            Some(at) => pixels_in(b@) == Some(at as int) && at + PIXEL_BYTES <= b@.len(),
            None => pixels_in(b@) is None,
        },
{
    let len = b.len();
    if len < 6 {
        return None;
    }
    let count = read_short(b, 4);
    let mut index: u64 = 0;
    while index < count
        invariant
            index <= count,
            count == short_at(b@, 4),
            count <= 65535,
            len == b@.len(),
            pixels_in(b@) == pixels_at(b@, index as int, count as int),
        decreases count - index,
    {
        let end: u64 = 22 + 16 * index;
        if end > len as u64 {
            return None;
        }
        let entry: usize = (6 + 16 * index) as usize;
        if b[entry] == 48 {
            let at = read_long(b, entry + 12);
            if at + 20 > len as u64 {
                return None;
            }
            let start: usize = at as usize;
            if read_long(b, start) == 40 && read_long(b, start + 8) == 96 && read_short(
                b,
                start + 14,
            ) == 32 && read_long(b, start + 16) == 0 {
                if at + 40 + PIXEL_BYTES as u64 > len as u64 {
                    return None;
                }
                return Some(start + 40);
            }
        }
        index += 1;
    }
    None
}

/// The icon of 48 pixels in an icon file, as red, green, blue and opacity, row by row from the top;
/// nothing where there is none or the file is cut short.
pub fn window_icon(ico: &[u8]) -> (r: Option<Vec<u8>>)
    ensures
        match r {
            Some(rgba) => pixels_in(ico@) matches Some(at) && rgba@ == picture(ico@, at),
            None => pixels_in(ico@) is None,
        },
{
    let at = match find_pixels(ico) {
        Some(at) => at,
        None => {
            return None;
        },
    };
    let mut rgba: Vec<u8> = Vec::new();
    let mut k: usize = 0;
    while k < PIXEL_BYTES
        invariant
            k <= PIXEL_BYTES,
            at + PIXEL_BYTES <= ico.len(),
            rgba@ == picture(ico@, at as int).take(k as int),
        decreases PIXEL_BYTES - k,
    {
        let row: usize = k / 192;
        let in_row: usize = k % 192;
        let channel: usize = in_row % 4;
        let swapped: usize = if channel == 3 {
            3
        } else {
            2 - channel
        };
        let from: usize = (47 - row) * 192 + (in_row - channel) + swapped;
        assert(from == source_of(k as int));
        rgba.push(ico[at + from]);
        k += 1;
        assert(rgba@ =~= picture(ico@, at as int).take(k as int));
    }
    assert(rgba@ =~= picture(ico@, at as int));
    Some(rgba)
}

/// Every byte of the picture comes from its own byte of the file: nothing is lost or doubled.
pub proof fn law_no_pixel_is_lost(k: int)
    requires
        0 <= k < PIXEL_BYTES,
    ensures
        0 <= source_of(k) < PIXEL_BYTES,
        source_of(source_of(k)) == k,
{
    let row = k / 192;
    let in_row = k % 192;
    let channel = in_row % 4;
    let s = source_of(k);
    let moved = (in_row - channel) + if channel == 3 {
        3
    } else {
        2 - channel
    };
    assert(s == (47 - row) * 192 + moved);
    assert(0 <= moved < 192);
    assert(s / 192 == 47 - row);
    assert(s % 192 == moved);
}

// ---------------------------------------------------------------- the version

/// A line of the version file without what does not belong to it.
pub open spec fn version_line(line: Seq<char>) -> Seq<char> {
    text::trim(text::strip_start(text::trim(line), '\u{feff}', '\u{feff}'))
}

/// The first line from `i` on that holds anything, else `fallback`.
pub open spec fn version_from(lines: Seq<Seq<char>>, i: int, fallback: Seq<char>) -> Seq<char>
    decreases lines.len() - i,
{
    if i >= lines.len() {
        fallback
    } else if version_line(lines[i]).len() > 0 {
        version_line(lines[i])
    } else {
        version_from(lines, i + 1, fallback)
    }
}

/// The version that the program shows: the first line of the version file that holds anything, else
/// that of the package.
pub fn display_version(file: &str, package: &str) -> (r: String)
    ensures
        r@ == version_from(text::lines(file@), 0, package@),
{
    let lines = text::lines_of(file);
    let ghost lv = text::views(lines@);
    let mut i: usize = 0;
    while i < lines.len()
        invariant
            i <= lines.len(),
            lv == text::views(lines@),
            lv == text::lines(file@),
            version_from(lv, 0, package@) == version_from(lv, i as int, package@),
        decreases lines.len() - i,
    {
        assert(lv[i as int] == lines@[i as int]@);
        let t = text::trimmed(lines[i].as_str());
        let t = text::stripped_start(t.as_str(), '\u{feff}', '\u{feff}');
        let t = text::trimmed(t.as_str());
        if !t.as_str().is_empty() {
            return t;
        }
        i += 1;
    }
    package.to_owned()
}

/// Whether a path holds no blank: the command interpreter takes no others unquoted.
pub fn no_space(path: &str) -> (r: bool)
    ensures
        r == !text::occurs(path@, " "@),
{
    !text::contains(path, " ")
}

// ---------------------------------------------------------------- laws

/// The pixel in column `x` of row `y`, counted from the top, is taken from the row that stands as
/// far from the end of the file's picture; there blue comes first, then green, red and opacity.
pub proof fn law_pixels_are_turned(b: Seq<u8>, at: int, x: int, y: int)
    requires
        0 <= x < 48,
        0 <= y < 48,
    ensures
        ({
            let to = (y * 48 + x) * 4;
            let from = at + ((47 - y) * 48 + x) * 4;
            &&& picture(b, at).len() == 48 * 48 * 4
            &&& picture(b, at)[to] == b[from + 2]
            &&& picture(b, at)[to + 1] == b[from + 1]
            &&& picture(b, at)[to + 2] == b[from]
            &&& picture(b, at)[to + 3] == b[from + 3]
        }),
{
    let to = (y * 48 + x) * 4;
    assert(to / 192 == y && to % 192 == x * 4);
    assert((to + 1) / 192 == y && (to + 1) % 192 == x * 4 + 1);
    assert((to + 2) / 192 == y && (to + 2) % 192 == x * 4 + 2);
    assert((to + 3) / 192 == y && (to + 3) % 192 == x * 4 + 3);
    assert((x * 4) % 4 == 0 && (x * 4 + 1) % 4 == 1 && (x * 4 + 2) % 4 == 2 && (x * 4 + 3) % 4
        == 3);
}

/// The picture that is found is one of 48 pixels with 32 bits each and no compression, and all of
/// it is in the file.
pub proof fn law_found_pictures_fit(b: Seq<u8>, index: int, count: int)
    requires
        0 <= index,
    ensures
        pixels_at(b, index, count) matches Some(at) ==> {
            &&& at + 48 * 48 * 4 <= b.len()
            &&& long_at(b, at - 40) == 40
            &&& long_at(b, at - 32) == 96
            &&& short_at(b, at - 26) == 32
            &&& long_at(b, at - 24) == 0
            &&& exists|i: int|
                index <= i < count && b[6 + 16 * i] == 48 && #[trigger] long_at(
                    b,
                    6 + 16 * i + 12,
                ) == at - 40
        },
    decreases count - index,
{
    let entry = 6 + 16 * index;
    if index < count && entry + 16 <= b.len() {
        if b[entry] == 48 && long_at(b, entry + 12) + 20 <= b.len() && is_bitmap(
            b,
            long_at(b, entry + 12),
        ) {
            assert(b[6 + 16 * index] == 48 && long_at(b, 6 + 16 * index + 12) == long_at(
                b,
                entry + 12,
            ));
        } else {
            law_found_pictures_fit(b, index + 1, count);
        }
    }
}

/// The version is the first line that holds more than white space and byte order marks.
pub proof fn law_the_first_filled_line_is_the_version(
    lines: Seq<Seq<char>>,
    i: int,
    k: int,
    fallback: Seq<char>,
)
    requires
        0 <= i <= k,
    ensures
        k < lines.len() && version_line(lines[k]).len() > 0 && (forall|j: int|
            i <= j < k ==> version_line(#[trigger] lines[j]).len() == 0) ==> version_from(
            lines,
            i,
            fallback,
        ) == version_line(lines[k]),
        (forall|j: int| i <= j < lines.len() ==> version_line(#[trigger] lines[j]).len() == 0)
            ==> version_from(lines, i, fallback) == fallback,
    decreases lines.len() - i,
{
    if i < lines.len() && version_line(lines[i]).len() == 0 {
        if i < k {
            law_the_first_filled_line_is_the_version(lines, i + 1, k, fallback);
        } else {
            law_the_first_filled_line_is_the_version(lines, i + 1, i + 1, fallback);
        }
    }
}

} // verus!
