//! Room geometry read from a decoded map: the rooms are the children of the
//! root's first child named "levels", each placed by its integer attributes
//! "x", "y", "width" and "height".
use vstd::prelude::*;
use crate::tree::{first_attribute, first_child, AttrView, Element, ElementView, LevelMap, MapView};

verus! {

/// The rectangle that holds every room.
#[derive(Debug, Clone, Copy, PartialEq, Eq, Structural)]
pub struct BoundingBox {
    pub x: i64,
    pub y: i64,
    pub width: i64,
    pub height: i64,
}

/// One room's placement and its tile text.
#[derive(Debug, Clone)]
pub struct RoomDetail {
    pub x: i64,
    pub y: i64,
    pub width: i64,
    pub height: i64,
    pub tiles: String,
}

impl View for RoomDetail {
    type V = (i64, i64, i64, i64, Seq<char>);

    open spec fn view(&self) -> (i64, i64, i64, i64, Seq<char>) {
        (self.x, self.y, self.width, self.height, self.tiles@)
    }
}

/// The integer value of the first attribute of `e` named `key`.
pub open spec fn integer_attribute(e: ElementView, key: Seq<char>) -> Option<i64> {
    match first_attribute(e.attributes, key) {
        Some(v) => v.integer(),
        None => None,
    }
}

/// A room's x, y, width and height, when all four are integer attributes.
pub open spec fn room_rect(room: ElementView) -> Option<(i64, i64, i64, i64)> {
    match (
        integer_attribute(room, "x"@),
        integer_attribute(room, "y"@),
        integer_attribute(room, "width"@),
        integer_attribute(room, "height"@),
    ) {
        (Some(x), Some(y), Some(w), Some(h)) => Some((x, y, w, h)),
        _ => None,
    }
}

/// The rooms of a map: the children of the root's first "levels" child.
pub open spec fn rooms_of(m: MapView) -> Option<Seq<ElementView>> {
    match first_child(m.root.children, "levels"@) {
        Some(levels) => Some(levels.children),
        None => None,
    }
}

/// The smaller of two integers.
pub open spec fn min(a: int, b: int) -> int {
    if a <= b {
        a
    } else {
        b
    }
}

/// The larger of two integers.
pub open spec fn max(a: int, b: int) -> int {
    if a >= b {
        a
    } else {
        b
    }
}

/// Left, top, right and bottom edges of the rectangle that holds the given
/// rooms, all of which have a rectangle; `None` for no rooms.
pub open spec fn edges(rooms: Seq<ElementView>) -> Option<(int, int, int, int)>
    decreases rooms.len(),
{
    if rooms.len() == 0 {
        None
    } else {
        let (x, y, w, h) = room_rect(rooms.last())->Some_0;
        match edges(rooms.drop_last()) {
            None => Some((x as int, y as int, x + w, y + h)),
            Some((l, t, r, b)) => Some((min(l, x as int), min(t, y as int), max(r, x + w), max(b, y + h))),
        }
    }
}

/// `v` is a value of `i64`.
pub open spec fn fits_i64(v: int) -> bool {
    i64::MIN <= v <= i64::MAX
}

/// The bounding box of a map's rooms: `None` when there is no "levels" child,
/// no room, a room without its four integer attributes, or a result that does
/// not fit in `i64`.
pub open spec fn spec_bounding_box(m: MapView) -> Option<BoundingBox> {
    match rooms_of(m) {
        None => None,
        Some(rooms) => if rooms.len() == 0 || exists|i: int|
            0 <= i < rooms.len() && (#[trigger] room_rect(rooms[i])) is None {
            None
        } else {
            let (l, t, r, b) = edges(rooms)->Some_0;
            if fits_i64(r - l) && fits_i64(b - t) {
                Some(BoundingBox { x: l as i64, y: t as i64, width: (r - l) as i64, height: (b - t) as i64 })
            } else {
                None
            }
        },
    }
}

/// The integer value of the first attribute of `e` named `key`.
fn read_integer(e: &Element, key: &str) -> (r: Option<i64>)
    ensures
        r == integer_attribute(e@, key@),
{
    match e.get_attribute(key) {
        Some(a) => a.as_integer(),
        None => None,
    }
}

/// A room's x, y, width and height, when all four are integer attributes.
fn read_rect(room: &Element) -> (r: Option<(i64, i64, i64, i64)>)
    ensures
        r == room_rect(room@),
{
    let x = read_integer(room, "x")?;
    let y = read_integer(room, "y")?;
    let width = read_integer(room, "width")?;
    let height = read_integer(room, "height")?;
    Some((x, y, width, height))
}

/// The rectangle that holds every room of the map.
pub fn bounding_box(map: &LevelMap) -> (r: Option<BoundingBox>)
    ensures
        r == spec_bounding_box(map@),
{
    let levels = map.root.get_child("levels")?;
    let ghost rooms = levels@.children;
    assert(map@.root == map.root@);
    let n = levels.children.len();
    if n == 0 {
        return None;
    }
    let mut left: i128 = 0;
    let mut top: i128 = 0;
    let mut right: i128 = 0;
    let mut bottom: i128 = 0;
    let mut i: usize = 0;
    while i < n
        invariant
            i <= n,
            n == levels.children.len(),
            rooms == levels@.children,
            rooms_of(map@) == Some(rooms),
            rooms.len() == n,
            forall|j: int| 0 <= j < i ==> (#[trigger] room_rect(rooms[j])) is Some,
            i > 0 ==> edges(rooms.subrange(0, i as int)) == Some(
                (left as int, top as int, right as int, bottom as int),
            ),
            i > 0 ==> i64::MIN <= left <= i64::MAX && i64::MIN <= top <= i64::MAX,
            i > 0 ==> 2 * i64::MIN <= right <= 2 * i64::MAX && 2 * i64::MIN <= bottom <= 2
                * i64::MAX,
        decreases n - i,
    {
        let room = &levels.children[i];
        assert(room@ == rooms[i as int]);
        let rect = read_rect(room);
        let (x, y, w, h) = match rect {
            Some(t) => t,
            None => {
                assert(room_rect(rooms[i as int]) is None);
                return None;
            },
        };
        let x = x as i128;
        let y = y as i128;
        let far_x = x + w as i128;
        let far_y = y + h as i128;
        proof {
            let s = rooms.subrange(0, i + 1);
            assert(s.drop_last() =~= rooms.subrange(0, i as int));
            assert(s.last() == rooms[i as int]);
        }
        if i == 0 {
            left = x;
            top = y;
            right = far_x;
            bottom = far_y;
        } else {
            if x < left {
                left = x;
            }
            if y < top {
                top = y;
            }
            if far_x > right {
                right = far_x;
            }
            if far_y > bottom {
                bottom = far_y;
            }
        }
        i = i + 1;
    }
    assert(rooms.subrange(0, n as int) =~= rooms);
    let width = right - left;
    let height = bottom - top;
    if width < i64::MIN as i128 || width > i64::MAX as i128 || height < i64::MIN as i128 || height
        > i64::MAX as i128 {
        return None;
    }
    Some(BoundingBox { x: left as i64, y: top as i64, width: width as i64, height: height as i64 })
}

/// The tile text of a room: the string attribute "innerText" of its first
/// child named "solids".
pub open spec fn room_tiles(room: ElementView) -> Option<Seq<char>> {
    match first_child(room.children, "solids"@) {
        Some(solids) => match first_attribute(solids.attributes, "innerText"@) {
            Some(AttrView::String(s)) => Some(s),
            _ => None,
        },
        None => None,
    }
}

/// A room's placement and tile text, when it has them all.
pub open spec fn room_detail(room: ElementView) -> Option<(i64, i64, i64, i64, Seq<char>)> {
    match (room_rect(room), room_tiles(room)) {
        (Some((x, y, w, h)), Some(t)) => Some((x, y, w, h, t)),
        _ => None,
    }
}

/// The details of every room in order: `None` when there is no "levels"
/// child or some room lacks one of its details.
pub open spec fn spec_room_details(m: MapView) -> Option<Seq<(i64, i64, i64, i64, Seq<char>)>> {
    match rooms_of(m) {
        None => None,
        Some(rooms) => if forall|i: int| 0 <= i < rooms.len() ==> (#[trigger] room_detail(rooms[i])) is Some {
            Some(Seq::new(rooms.len(), |i: int| room_detail(rooms[i])->Some_0))
        } else {
            None
        },
    }
}

/// The views of a sequence of room details.
pub open spec fn detail_views(v: Seq<RoomDetail>) -> Seq<(i64, i64, i64, i64, Seq<char>)> {
    Seq::new(v.len(), |i: int| v[i]@)
}

/// The details of every room of the map, in order.
pub fn room_details(map: &LevelMap) -> (r: Option<Vec<RoomDetail>>)
    ensures
        match spec_room_details(map@) {
            Some(s) => r is Some && detail_views(r->Some_0@) == s,
            None => r is None,
        },
{
    let levels = map.root.get_child("levels")?;
    let ghost rooms = levels@.children;
    assert(map@.root == map.root@);
    let mut details: Vec<RoomDetail> = Vec::new();
    let mut i: usize = 0;
    while i < levels.children.len()
        invariant
            i <= levels.children.len(),
            rooms == levels@.children,
            rooms_of(map@) == Some(rooms),
            rooms.len() == levels.children.len(),
            details@.len() == i,
            forall|j: int| 0 <= j < i ==> (#[trigger] room_detail(rooms[j])) is Some,
            forall|j: int| 0 <= j < i ==> Some(#[trigger] details@[j]@) == room_detail(rooms[j]),
        decreases levels.children.len() - i,
    {
        let room = &levels.children[i];
        assert(room@ == rooms[i as int]);
        let rect = read_rect(room);
        let tiles = match room.get_child("solids") {
            Some(solids) => match solids.get_attribute("innerText") {
                Some(a) => a.as_string(),
                None => None,
            },
            None => None,
        };
        match (rect, tiles) {
            (Some((x, y, width, height)), Some(t)) => {
                details.push(RoomDetail { x, y, width, height, tiles: t.clone() });
            },
            _ => {
                assert(room_detail(rooms[i as int]) is None);
                return None;
            },
        }
        i = i + 1;
    }
    assert(detail_views(details@) =~= Seq::new(
        rooms.len(),
        |j: int| room_detail(rooms[j])->Some_0,
    ));
    Some(details)
}

} // verus!
