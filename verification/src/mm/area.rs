//! Memory areas: ranges of virtual pages that are mapped alike.
//!
//! What a list of areas says is told page by page: every page either lies in
//! no area or has the attributes of the one area that holds it. How the pages
//! are divided into areas matters only where an operation asks for it.

use vstd::prelude::*;

use super::address::{PageSize, SimpleRange, VPNRange, VirtAddr, VirtPageNum, PAGE_SIZE, VPN_LIMIT};
use super::pte::MapPermission;

verus! {

/// How the pages of an area get their frames.
#[derive(Clone, Copy, Debug, PartialEq, Eq, Structural)]
pub enum MapType {
    /// Each page is the frame of the same number.
    Identical,
    /// Each page gets a frame of its own on first use.
    Framed,
    /// Each page comes from a file on first use.
    File,
    /// The pages belong to the kernel's tables.
    BorrowedKernel,
    /// Each page is the frame that it shows through the kernel window.
    Windowed,
    /// The pages are never mapped.
    Guard,
}

/// The file behind an area.
#[derive(Clone, Copy, Debug, PartialEq, Eq, Structural)]
pub struct Backing {
    /// The file's number.
    pub file: u64,
    /// The page of the file that the area's first page shows.
    pub page_offset: u64,
    /// The file may be written.
    pub writable: bool,
}

/// A range of virtual pages that are mapped alike.
#[derive(Clone, Copy, Debug, PartialEq, Eq, Structural)]
pub struct MapArea {
    /// First page.
    pub start: u64,
    /// First page behind the area.
    pub end: u64,
    /// How pages get their frames.
    pub map_type: MapType,
    /// What the user may do.
    pub map_perm: MapPermission,
    /// Writes are seen by the other users of the pages.
    pub is_shared: bool,
    /// The file behind the area.
    pub backing_file: Option<Backing>,
    /// The group of address spaces that share the frames of a shared area without a file.
    pub shared_group: Option<u64>,
    /// Size of the area's pages.
    pub page_size: PageSize,
}

/// The attributes of one page.
pub struct PageAttr {
    /// How the page gets its frame.
    pub map_type: MapType,
    /// What the user may do.
    pub perm: MapPermission,
    /// Writes are seen by the other users of the page.
    pub shared: bool,
    /// The file behind the page, and the page of it that is shown.
    pub file: Option<(u64, int)>,
    /// The file may be written.
    pub file_writable: bool,
    /// The group that shares the page's frame.
    pub group: Option<u64>,
    /// Size of the pages of the page's area.
    pub page_size: PageSize,
}

impl MapArea {
    /// The area holds page `v`.
    pub open spec fn holds(self, v: int) -> bool {
        self.start <= v < self.end
    }

    /// The attributes that the area gives page `v`.
    pub open spec fn attr(self, v: int) -> PageAttr {
        PageAttr {
            map_type: self.map_type,
            perm: self.map_perm,
            shared: self.is_shared,
            file: match self.backing_file {
                None => None,
                Some(b) => Some((b.file, b.page_offset + (v - self.start))),
            },
            file_writable: match self.backing_file {
                None => false,
                Some(b) => b.writable,
            },
            group: self.shared_group,
            page_size: self.page_size,
        }
    }

    /// The area is a range of user pages, and its file offsets are small enough to count.
    pub open spec fn wf(self) -> bool {
        &&& self.start <= self.end <= VPN_LIMIT
        &&& self.backing_file matches Some(b) ==> b.page_offset <= u64::MAX - 0x1_0000_0000
            + self.start
    }

    /// The part of the area from page `a` to page `b`.
    pub open spec fn part(self, a: int, b: int) -> MapArea {
        MapArea {
            start: a as u64,
            end: b as u64,
            backing_file: match self.backing_file {
                None => None,
                Some(file) => Some(
                    Backing { page_offset: (file.page_offset + (a - self.start)) as u64, ..file },
                ),
            },
            ..self
        }
    }

    /// Makes an area of the pages that the addresses from `start_va` to `end_va` touch.
    pub fn new(
        start_va: VirtAddr,
        end_va: VirtAddr,
        map_type: MapType,
        map_perm: MapPermission,
        page_size: PageSize,
    ) -> (area: Self)
        requires
            end_va.0 <= VPN_LIMIT * PAGE_SIZE,
            start_va.0 / 4096 <= super::address::pages_to_cover(end_va.0 as int),
        ensures
            area.wf(),
            area == (MapArea {
                start: (start_va.0 / 4096) as u64,
                end: super::address::pages_to_cover(end_va.0 as int) as u64,
                map_type,
                map_perm,
                is_shared: false,
                backing_file: None,
                shared_group: None,
                page_size,
            }),
    {
        MapArea {
            start: start_va.std_floor().0,
            end: end_va.std_ceil().0,
            map_type,
            map_perm,
            is_shared: false,
            backing_file: None,
            shared_group: None,
            page_size,
        }
    }

    /// Returns the area's pages.
    pub fn get_vpn_range(&self) -> (range: VPNRange)
        requires
            self.wf(),
        ensures
            range.start() == VirtPageNum(self.start),
            range.end() == VirtPageNum(self.end),
            range.wf(),
    {
        SimpleRange::new(VirtPageNum(self.start), VirtPageNum(self.end))
    }

    /// Makes an area like another one; the frames are not taken over.
    pub fn from_another(another: &Self) -> (area: Self)
        ensures
            area == *another,
    {
        *another
    }

    /// Returns the part of the area from `start` to `end`; the file offset moves along.
    pub fn clone_meta_with_new_range(&self, start: VirtPageNum, end: VirtPageNum) -> (area: Self)
        requires
            self.wf(),
            self.start <= start.0 <= end.0 <= VPN_LIMIT,
        ensures
            area == self.part(start.0 as int, end.0 as int),
            area.wf(),
            forall|v: int| #![trigger area.attr(v)] area.attr(v) == self.attr(v),
    {
        let backing_file = match self.backing_file {
            None => None,
            Some(b) => Some(Backing { page_offset: b.page_offset + (start.0 - self.start), ..b }),
        };
        MapArea { start: start.0, end: end.0, backing_file, ..*self }
    }

    /// Moves the bounds; the file offset follows a start that moves up, and
    /// stays where the start moves down.
    pub fn resize(&mut self, start: VirtPageNum, end: VirtPageNum)
        requires
            old(self).wf(),
            start.0 <= end.0 <= VPN_LIMIT,
        ensures
            start.0 >= old(self).start ==> *final(self) == old(self).part(
                start.0 as int,
                end.0 as int,
            ),
            start.0 < old(self).start ==> *final(self) == (MapArea {
                start: start.0,
                end: end.0,
                ..*old(self)
            }),
            start.0 >= old(self).start ==> final(self).wf(),
    {
        if start.0 > self.start {
            if let Some(b) = self.backing_file {
                self.backing_file = Some(
                    Backing { page_offset: b.page_offset + (start.0 - self.start), ..b },
                );
            }
        }
        self.start = start.0;
        self.end = end.0;
    }

    /// Returns what the user may do.
    pub fn get_map_permission(&self) -> (perm: MapPermission)
        ensures
            perm == self.map_perm,
    {
        self.map_perm
    }

    /// Tells whether the area holds a page.
    pub fn contains(&self, page: VirtPageNum) -> (b: bool)
        ensures
            b == self.holds(page.0 as int),
    {
        self.start <= page.0 && page.0 < self.end
    }

    /// The user may not reach the pages at all.
    pub open spec fn closed_to_user(self) -> bool {
        !self.map_perm.u || self.map_perm.only_user()
    }

    /// Tells whether the user may not reach the pages at all.
    pub fn is_closed(&self) -> (b: bool)
        ensures
            b == self.closed_to_user(),
    {
        !self.map_perm.u || (!self.map_perm.r && !self.map_perm.w && !self.map_perm.x)
    }
}

/// The areas are in order and apart from each other.
pub open spec fn areas_ok(s: Seq<MapArea>) -> bool {
    &&& forall|i: int| 0 <= i < s.len() ==> (#[trigger] s[i]).wf()
    &&& forall|i: int, j: int|
        0 <= i < j < s.len() ==> (#[trigger] s[i]).start < (#[trigger] s[j]).start && s[i].end
            <= s[j].start
}

/// The attributes of page `v`, where an area holds it.
pub open spec fn page_at(s: Seq<MapArea>, v: int) -> Option<PageAttr> {
    if exists|i: int| 0 <= i < s.len() && (#[trigger] s[i]).holds(v) {
        let i = choose|i: int| 0 <= i < s.len() && (#[trigger] s[i]).holds(v);
        Some(s[i].attr(v))
    } else {
        None
    }
}

/// The area that holds a page gives it its attributes.
pub proof fn lemma_page_at(s: Seq<MapArea>, i: int, v: int)
    requires
        areas_ok(s),
        0 <= i < s.len(),
        s[i].holds(v),
    ensures
        page_at(s, v) == Some(s[i].attr(v)),
{
    let k = choose|k: int| 0 <= k < s.len() && (#[trigger] s[k]).holds(v);
    assert(s[i].holds(v));
    assert(s[k].holds(v));
    if k < i {
        assert(s[k].end <= s[i].start);
    } else if i < k {
        assert(s[i].end <= s[k].start);
    }
}

/// What is left of an area when the pages from `a` to `b` are cut out of it.
pub open spec fn cut_one(area: MapArea, a: int, b: int) -> Seq<MapArea> {
    if area.start < b && area.end > a {
        (if area.start < a {
            seq![area.part(area.start as int, a)]
        } else {
            Seq::empty()
        }) + (if area.end > b {
            seq![area.part(b, area.end as int)]
        } else {
            Seq::empty()
        })
    } else {
        seq![area]
    }
}

/// What is left of the areas when the pages from `a` to `b` are cut out.
pub open spec fn cut(s: Seq<MapArea>, a: int, b: int) -> Seq<MapArea>
    decreases s.len(),
{
    if s.len() == 0 {
        Seq::empty()
    } else {
        cut(s.drop_last(), a, b) + cut_one(s.last(), a, b)
    }
}

proof fn lemma_areas_ok_prefix(s: Seq<MapArea>)
    requires
        areas_ok(s),
        s.len() > 0,
    ensures
        areas_ok(s.drop_last()),
        s.last().wf(),
        forall|i: int| 0 <= i < s.len() - 1 ==> (#[trigger] s[i]).end <= s.last().start && s[i].start
            < s.last().start,
{
}

/// Attributes of a part are those of the whole.
proof fn lemma_part_attr(area: MapArea, a: int, b: int, v: int)
    requires
        area.wf(),
        area.start <= a <= b <= VPN_LIMIT,
    ensures
        area.part(a, b).attr(v) == area.attr(v),
        area.part(a, b).wf(),
{
}

/// Joining areas that come behind the others keeps the list in order.
proof fn lemma_areas_ok_join(s: Seq<MapArea>, t: Seq<MapArea>)
    requires
        areas_ok(s),
        areas_ok(t),
        forall|i: int, j: int|
            0 <= i < s.len() && 0 <= j < t.len() ==> (#[trigger] s[i]).end <= (#[trigger] t[j]).start
                && s[i].start < t[j].start,
    ensures
        areas_ok(s + t),
{
    let u = s + t;
    assert forall|i: int, j: int| 0 <= i < j < u.len() implies (#[trigger] u[i]).start < (
    #[trigger] u[j]).start && u[i].end <= u[j].start by {
        if i < s.len() && j >= s.len() {
            assert(u[i] == s[i] && u[j] == t[j - s.len()]);
        } else if i >= s.len() {
            assert(u[i] == t[i - s.len()] && u[j] == t[j - s.len()]);
        } else {
            assert(u[i] == s[i] && u[j] == s[j]);
        }
    }
}

/// The areas of a joined list are those of its two parts.
proof fn lemma_page_at_join(s: Seq<MapArea>, t: Seq<MapArea>, v: int)
    requires
        areas_ok(s + t),
        areas_ok(s),
        areas_ok(t),
    ensures
        page_at(s + t, v) == match page_at(s, v) {
            Some(attr) => Some(attr),
            None => page_at(t, v),
        },
{
    let u = s + t;
    if exists|i: int| 0 <= i < s.len() && (#[trigger] s[i]).holds(v) {
        let i = choose|i: int| 0 <= i < s.len() && (#[trigger] s[i]).holds(v);
        assert(u[i] == s[i]);
        lemma_page_at(s, i, v);
        lemma_page_at(u, i, v);
    } else if exists|i: int| 0 <= i < t.len() && (#[trigger] t[i]).holds(v) {
        let i = choose|i: int| 0 <= i < t.len() && (#[trigger] t[i]).holds(v);
        assert(u[s.len() + i] == t[i]);
        lemma_page_at(t, i, v);
        lemma_page_at(u, s.len() + i, v);
    } else {
        assert forall|i: int| 0 <= i < u.len() implies !(#[trigger] u[i]).holds(v) by {
            if i < s.len() {
                assert(u[i] == s[i]);
            } else {
                assert(u[i] == t[i - s.len()]);
            }
        }
    }
}

/// A cut takes the pages from `a` to `b` out and leaves every other page with its attributes.
pub proof fn law_cut(s: Seq<MapArea>, a: int, b: int)
    requires
        areas_ok(s),
        0 <= a <= b <= VPN_LIMIT,
    ensures
        areas_ok(cut(s, a, b)),
        forall|v: int| #[trigger]
            page_at(cut(s, a, b), v) == if a <= v < b {
                None
            } else {
                page_at(s, v)
            },
        s.len() > 0 ==> forall|i: int|
            0 <= i < cut(s, a, b).len() ==> (#[trigger] cut(s, a, b)[i]).end <= s.last().end,
    decreases s.len(),
{
    if s.len() > 0 {
        let front = s.drop_last();
        let last = s.last();
        lemma_areas_ok_prefix(s);
        law_cut(front, a, b);
        let c = cut(front, a, b);
        let d = cut_one(last, a, b);
        if last.start < b && last.end > a {
            if last.start < a {
                lemma_part_attr(last, last.start as int, a, 0);
            }
            if last.end > b {
                lemma_part_attr(last, b, last.end as int, 0);
            }
        }
        assert(areas_ok(d));
        assert forall|i: int, j: int| 0 <= i < c.len() && 0 <= j < d.len() implies (
        #[trigger] c[i]).end <= (#[trigger] d[j]).start && c[i].start < d[j].start by {
            assert(c[i].end <= front.last().end);
            assert(front.last() == s[s.len() - 2]);
            lemma_cut_starts(front, a, b, i);
        }
        lemma_areas_ok_join(c, d);
        assert(s =~= front + seq![last]);
        assert forall|v: int| #[trigger] page_at(cut(s, a, b), v) == if a <= v < b {
            None
        } else {
            page_at(s, v)
        } by {
            lemma_page_at_join(c, d, v);
            assert(areas_ok(seq![last]));
            lemma_page_at_join(front, seq![last], v);
            assert(page_at(c, v) == if a <= v < b {
                None
            } else {
                page_at(front, v)
            });
            lemma_cut_one(last, a, b, v);
        }
    }
}

/// A cut leaves no area that starts behind the last one or behind its own end.
proof fn lemma_cut_starts(s: Seq<MapArea>, a: int, b: int, i: int)
    requires
        areas_ok(s),
        0 <= a <= b <= VPN_LIMIT,
        0 <= i < cut(s, a, b).len(),
        s.len() > 0,
    ensures
        cut(s, a, b)[i].start <= s.last().start || cut(s, a, b)[i].start < s.last().end,
    decreases s.len(),
{
    let front = s.drop_last();
    let c = cut(front, a, b);
    if i < c.len() {
        assert(cut(s, a, b)[i] == c[i]);
        if front.len() > 0 {
            lemma_areas_ok_prefix(s);
            lemma_cut_starts(front, a, b, i);
            assert(front.last() == s[s.len() - 2]);
        }
    } else {
        assert(cut(s, a, b)[i] == cut_one(s.last(), a, b)[i - c.len()]);
    }
}

proof fn lemma_cut_one(area: MapArea, a: int, b: int, v: int)
    requires
        area.wf(),
        0 <= a <= b <= VPN_LIMIT,
        areas_ok(cut_one(area, a, b)),
    ensures
        page_at(cut_one(area, a, b), v) == if a <= v < b || !area.holds(v) {
            None
        } else {
            Some(area.attr(v))
        },
{
    let d = cut_one(area, a, b);
    if area.holds(v) && !(a <= v < b) {
        if area.start < b && area.end > a {
            if v < a {
                assert(d[0] == area.part(area.start as int, a));
                lemma_part_attr(area, area.start as int, a, v);
                lemma_page_at(d, 0, v);
            } else {
                let k = d.len() - 1;
                assert(d[k] == area.part(b, area.end as int));
                lemma_part_attr(area, b, area.end as int, v);
                lemma_page_at(d, k, v);
            }
        } else {
            assert(d[0] == area);
            lemma_page_at(d, 0, v);
        }
    } else {
        assert forall|i: int| 0 <= i < d.len() implies !(#[trigger] d[i]).holds(v) by {}
    }
}

/// A change of the attributes of pages.
#[derive(Clone, Copy, Debug, PartialEq, Eq, Structural)]
pub enum Change {
    /// The user may do something else.
    Permit(MapPermission),
    /// Writes are no longer seen by others.
    Unshare,
    /// Nothing: the area is only divided.
    Keep,
}

impl Change {
    /// The area with the change made.
    pub open spec fn on_area(self, area: MapArea) -> MapArea {
        match self {
            Change::Permit(perm) => MapArea { map_perm: perm, ..area },
            Change::Unshare => MapArea { is_shared: false, ..area },
            Change::Keep => area,
        }
    }

    /// The attributes with the change made.
    pub open spec fn on_attr(self, attr: PageAttr) -> PageAttr {
        match self {
            Change::Permit(perm) => PageAttr { perm, ..attr },
            Change::Unshare => PageAttr { shared: false, ..attr },
            Change::Keep => attr,
        }
    }

    /// Returns the area with the change made.
    pub fn apply(&self, area: MapArea) -> (changed: MapArea)
        ensures
            changed == self.on_area(area),
    {
        match self {
            Change::Permit(perm) => MapArea { map_perm: *perm, ..area },
            Change::Unshare => MapArea { is_shared: false, ..area },
            Change::Keep => area,
        }
    }
}

/// The lesser of two numbers.
pub open spec fn min_of(a: int, b: int) -> int {
    if a <= b {
        a
    } else {
        b
    }
}

/// The greater of two numbers.
pub open spec fn max_of(a: int, b: int) -> int {
    if a >= b {
        a
    } else {
        b
    }
}

/// The area lies, at least in part, in the pages from `a` to `b`.
pub open spec fn meets(area: MapArea, a: int, b: int) -> bool {
    area.start < b && (area.end > a || area.start >= a)
}

/// The pieces of an area when its pages from `a` to `b` are changed.
pub open spec fn change_one(area: MapArea, a: int, b: int, change: Change) -> Seq<MapArea> {
    if meets(area, a, b) {
        let lo = max_of(a, area.start as int);
        let hi = min_of(b, area.end as int);
        (if area.start < a {
            seq![area.part(area.start as int, a)]
        } else {
            Seq::empty()
        }) + seq![change.on_area(area.part(lo, hi))] + (if area.end > b {
            seq![area.part(b, area.end as int)]
        } else {
            Seq::empty()
        })
    } else {
        seq![area]
    }
}

/// The areas when the pages from `a` to `b` are changed.
pub open spec fn changed(s: Seq<MapArea>, a: int, b: int, change: Change) -> Seq<MapArea>
    decreases s.len(),
{
    if s.len() == 0 {
        Seq::empty()
    } else {
        changed(s.drop_last(), a, b, change) + change_one(s.last(), a, b, change)
    }
}

proof fn lemma_change_one(area: MapArea, a: int, b: int, change: Change)
    requires
        area.wf(),
        0 <= a < b <= VPN_LIMIT,
    ensures
        areas_ok(change_one(area, a, b, change)),
        forall|i: int|
            0 <= i < change_one(area, a, b, change).len() ==> area.start <= (#[trigger] change_one(
                area,
                a,
                b,
                change,
            )[i]).start && change_one(area, a, b, change)[i].end <= area.end && (change_one(
                area,
                a,
                b,
                change,
            )[i].start < area.end || change_one(area, a, b, change)[i].start == area.start),
        forall|v: int| #[trigger]
            page_at(change_one(area, a, b, change), v) == if !area.holds(v) {
                None
            } else if a <= v < b {
                Some(change.on_attr(area.attr(v)))
            } else {
                Some(area.attr(v))
            },
{
    let d = change_one(area, a, b, change);
    if meets(area, a, b) {
        let lo = max_of(a, area.start as int);
        let hi = min_of(b, area.end as int);
        lemma_part_attr(area, lo, hi, 0);
        if area.start < a {
            lemma_part_attr(area, area.start as int, a, 0);
        }
        if area.end > b {
            lemma_part_attr(area, b, area.end as int, 0);
        }
    }
    assert(areas_ok(d));
    assert forall|v: int| #[trigger] page_at(d, v) == if !area.holds(v) {
        None
    } else if a <= v < b {
        Some(change.on_attr(area.attr(v)))
    } else {
        Some(area.attr(v))
    } by {
        if area.holds(v) {
            if meets(area, a, b) {
                let lo = max_of(a, area.start as int);
                let hi = min_of(b, area.end as int);
                let first: int = if area.start < a {
                    1
                } else {
                    0
                };
                if v < a {
                    assert(d[0] == area.part(area.start as int, a));
                    lemma_part_attr(area, area.start as int, a, v);
                    lemma_page_at(d, 0, v);
                } else if v < b {
                    assert(d[first] == change.on_area(area.part(lo, hi)));
                    lemma_part_attr(area, lo, hi, v);
                    lemma_page_at(d, first, v);
                } else {
                    assert(d[first + 1] == area.part(b, area.end as int));
                    lemma_part_attr(area, b, area.end as int, v);
                    lemma_page_at(d, first + 1, v);
                }
            } else {
                assert(d[0] == area);
                lemma_page_at(d, 0, v);
            }
        } else {
            assert forall|i: int| 0 <= i < d.len() implies !(#[trigger] d[i]).holds(v) by {}
        }
    }
}

/// A change is made on the pages from `a` to `b` that lie in an area, and on no others.
pub proof fn law_changed(s: Seq<MapArea>, a: int, b: int, change: Change)
    requires
        areas_ok(s),
        0 <= a < b <= VPN_LIMIT,
    ensures
        areas_ok(changed(s, a, b, change)),
        forall|v: int| #[trigger]
            page_at(changed(s, a, b, change), v) == match page_at(s, v) {
                None => None,
                Some(attr) => if a <= v < b {
                    Some(change.on_attr(attr))
                } else {
                    Some(attr)
                },
            },
        s.len() > 0 ==> forall|i: int|
            0 <= i < changed(s, a, b, change).len() ==> (#[trigger] changed(s, a, b, change)[i]).end
                <= s.last().end && (changed(s, a, b, change)[i].start < s.last().end || changed(
                s,
                a,
                b,
                change,
            )[i].start <= s.last().start),
    decreases s.len(),
{
    if s.len() > 0 {
        let front = s.drop_last();
        let last = s.last();
        lemma_areas_ok_prefix(s);
        law_changed(front, a, b, change);
        lemma_change_one(last, a, b, change);
        let c = changed(front, a, b, change);
        let d = change_one(last, a, b, change);
        assert forall|i: int, j: int| 0 <= i < c.len() && 0 <= j < d.len() implies (
        #[trigger] c[i]).end <= (#[trigger] d[j]).start && c[i].start < d[j].start by {
            assert(front.last() == s[s.len() - 2]);
            assert(c[i].end <= front.last().end);
            assert(last.start <= d[j].start);
        }
        lemma_areas_ok_join(c, d);
        assert(s =~= front + seq![last]);
        assert(areas_ok(seq![last]));
        assert forall|v: int| #[trigger] page_at(changed(s, a, b, change), v) == match page_at(
            s,
            v,
        ) {
            None => None,
            Some(attr) => if a <= v < b {
                Some(change.on_attr(attr))
            } else {
                Some(attr)
            },
        } by {
            lemma_page_at_join(c, d, v);
            lemma_page_at_join(front, seq![last], v);
            assert(page_at(c, v) == match page_at(front, v) {
                None => None,
                Some(attr) => if a <= v < b {
                    Some(change.on_attr(attr))
                } else {
                    Some(attr)
                },
            });
            assert(page_at(d, v) == if !last.holds(v) {
                None
            } else if a <= v < b {
                Some(change.on_attr(last.attr(v)))
            } else {
                Some(last.attr(v))
            });
            if last.holds(v) {
                lemma_page_at(seq![last], 0, v);
            } else {
                assert(!seq![last][0].holds(v));
            }
        }
    }
}

/// Cuts the pages from `a` to `b` out of the areas.
pub fn cut_areas(areas: &Vec<MapArea>, a: u64, b: u64) -> (left: Vec<MapArea>)
    requires
        areas_ok(areas@),
        a <= b <= VPN_LIMIT,
    ensures
        left@ == cut(areas@, a as int, b as int),
{
    let mut left: Vec<MapArea> = Vec::new();
    let mut i: usize = 0;
    assert(areas@.take(0) =~= Seq::<MapArea>::empty());
    while i < areas.len()
        invariant
            i <= areas@.len(),
            areas_ok(areas@),
            a <= b <= VPN_LIMIT,
            left@ == cut(areas@.take(i as int), a as int, b as int),
        decreases areas@.len() - i,
    {
        let area = areas[i];
        let ghost before = left@;
        proof {
            assert(areas@.take(i + 1).drop_last() =~= areas@.take(i as int));
        }
        if area.start < b && area.end > a {
            if area.start < a {
                left.push(
                    area.clone_meta_with_new_range(VirtPageNum(area.start), VirtPageNum(a)),
                );
            }
            if area.end > b {
                left.push(area.clone_meta_with_new_range(VirtPageNum(b), VirtPageNum(area.end)));
            }
        } else {
            left.push(area);
        }
        assert(left@ =~= before + cut_one(area, a as int, b as int));
        i = i + 1;
    }
    assert(areas@.take(areas@.len() as int) =~= areas@);
    left
}

/// Changes the pages from `a` to `b`, splitting areas at these pages where needed.
pub fn change_areas(areas: &Vec<MapArea>, a: u64, b: u64, change: Change) -> (all: Vec<MapArea>)
    requires
        areas_ok(areas@),
        a < b <= VPN_LIMIT,
    ensures
        all@ == changed(areas@, a as int, b as int, change),
{
    let mut all: Vec<MapArea> = Vec::new();
    let mut i: usize = 0;
    assert(areas@.take(0) =~= Seq::<MapArea>::empty());
    while i < areas.len()
        invariant
            i <= areas@.len(),
            areas_ok(areas@),
            a < b <= VPN_LIMIT,
            all@ == changed(areas@.take(i as int), a as int, b as int, change),
        decreases areas@.len() - i,
    {
        let area = areas[i];
        let ghost before = all@;
        proof {
            assert(areas@.take(i + 1).drop_last() =~= areas@.take(i as int));
        }
        if area.start < b && (area.end > a || area.start >= a) {
            let lo: u64 = if a >= area.start {
                a
            } else {
                area.start
            };
            let hi: u64 = if b <= area.end {
                b
            } else {
                area.end
            };
            if area.start < a {
                all.push(area.clone_meta_with_new_range(VirtPageNum(area.start), VirtPageNum(a)));
            }
            all.push(
                change.apply(area.clone_meta_with_new_range(VirtPageNum(lo), VirtPageNum(hi))),
            );
            if area.end > b {
                all.push(area.clone_meta_with_new_range(VirtPageNum(b), VirtPageNum(area.end)));
            }
        } else {
            all.push(area);
        }
        assert(all@ =~= before + change_one(area, a as int, b as int, change));
        i = i + 1;
    }
    assert(areas@.take(areas@.len() as int) =~= areas@);
    all
}

/// An area meets the pages from `a` to `b`, or lies strictly between these bounds.
pub open spec fn conflicts(area: MapArea, a: int, b: int) -> bool {
    b > area.start && a < area.end
}

/// Some area conflicts with the pages from `a` to `b`.
pub open spec fn any_conflicts(s: Seq<MapArea>, a: int, b: int) -> bool {
    exists|i: int| 0 <= i < s.len() && conflicts(#[trigger] s[i], a, b)
}

/// Tells whether an area conflicts with the pages from `a` to `b`.
pub fn any_conflict(areas: &Vec<MapArea>, a: u64, b: u64) -> (found: bool)
    ensures
        found == any_conflicts(areas@, a as int, b as int),
{
    let mut i: usize = 0;
    while i < areas.len()
        invariant
            i <= areas@.len(),
            forall|j: int| 0 <= j < i ==> !conflicts(#[trigger] areas@[j], a as int, b as int),
        decreases areas@.len() - i,
    {
        if b > areas[i].start && a < areas[i].end {
            assert(conflicts(areas@[i as int], a as int, b as int));
            return true;
        }
        i = i + 1;
    }
    false
}

/// Returns the area that holds a page.
pub fn find_area(areas: &Vec<MapArea>, page: VirtPageNum) -> (found: Option<usize>)
    requires
        areas_ok(areas@),
    ensures
        match found {
            None => page_at(areas@, page.0 as int) is None && forall|i: int|
                0 <= i < areas@.len() ==> !(#[trigger] areas@[i]).holds(page.0 as int),
            Some(i) => i < areas@.len() && areas@[i as int].holds(page.0 as int) && page_at(
                areas@,
                page.0 as int,
            ) == Some(areas@[i as int].attr(page.0 as int)),
        },
{
    let mut i: usize = 0;
    while i < areas.len()
        invariant
            i <= areas@.len(),
            areas_ok(areas@),
            forall|j: int| 0 <= j < i ==> !(#[trigger] areas@[j]).holds(page.0 as int),
        decreases areas@.len() - i,
    {
        if areas[i].contains(page) {
            proof {
                lemma_page_at(areas@, i as int, page.0 as int);
            }
            return Some(i);
        }
        i = i + 1;
    }
    None
}

/// Puts an area in its place, where it is apart from all others.
pub fn insert_area(areas: &mut Vec<MapArea>, area: MapArea) -> (at: usize)
    requires
        areas_ok(old(areas)@),
        area.wf(),
        forall|i: int|
            0 <= i < old(areas)@.len() ==> !conflicts(
                #[trigger] old(areas)@[i],
                area.start as int,
                area.end as int,
            ) && old(areas)@[i].start != area.start,
    ensures
        areas_ok(final(areas)@),
        0 <= at <= old(areas)@.len(),
        final(areas)@ == old(areas)@.insert(at as int, area),
        forall|v: int| #[trigger]
            page_at(final(areas)@, v) == if area.holds(v) {
                Some(area.attr(v))
            } else {
                page_at(old(areas)@, v)
            },
{
    let mut at: usize = 0;
    while at < areas.len() && areas[at].start < area.start
        invariant
            at <= areas@.len(),
            forall|j: int| 0 <= j < at ==> (#[trigger] areas@[j]).start < area.start,
        decreases areas@.len() - at,
    {
        at = at + 1;
    }
    let ghost s = areas@;
    areas.insert(at, area);
    proof {
        let u = areas@;
        assert forall|i: int, j: int| 0 <= i < j < u.len() implies (#[trigger] u[i]).start < (
        #[trigger] u[j]).start && u[i].end <= u[j].start by {
            let si = if i < at {
                i
            } else {
                i - 1
            };
            let sj = if j < at {
                j
            } else {
                j - 1
            };
            if i != at {
                assert(u[i] == s[si]);
            }
            if j != at {
                assert(u[j] == s[sj]);
            }
            if i == at && at < s.len() {
                assert(s[at as int].start <= s[sj].start);
                assert(!conflicts(s[sj], area.start as int, area.end as int));
            }
        }
        assert forall|v: int| #[trigger] page_at(u, v) == if area.holds(v) {
            Some(area.attr(v))
        } else {
            page_at(s, v)
        } by {
            if area.holds(v) {
                assert(u[at as int] == area);
                lemma_page_at(u, at as int, v);
            } else if exists|i: int| 0 <= i < s.len() && (#[trigger] s[i]).holds(v) {
                let i = choose|i: int| 0 <= i < s.len() && (#[trigger] s[i]).holds(v);
                let k = if i < at {
                    i
                } else {
                    i + 1
                };
                assert(u[k] == s[i]);
                lemma_page_at(s, i, v);
                lemma_page_at(u, k, v);
            } else {
                assert forall|k: int| 0 <= k < u.len() implies !(#[trigger] u[k]).holds(v) by {
                    if k < at {
                        assert(u[k] == s[k]);
                    } else if k > at {
                        assert(u[k] == s[k - 1]);
                    }
                }
            }
        }
    }
    at
}

/// Where the first gap of `length` bytes lies that begins at `from` or behind it, before the areas end.
pub open spec fn gap(s: Seq<MapArea>, from: int, length: int, limit: int) -> Option<int>
    decreases s.len(),
{
    if s.len() == 0 {
        if from + length < limit {
            Some(from)
        } else {
            None
        }
    } else if from + length <= s[0].start * 4096 {
        Some(from)
    } else {
        gap(s.drop_first(), max_of(from, s[0].end * 4096), length, limit)
    }
}

/// The areas after area `i` became a larger one; an area without pages that starts where the
/// larger one has pages now goes.
pub open spec fn extended(s: Seq<MapArea>, i: int, area: MapArea) -> Seq<MapArea> {
    if i + 1 < s.len() && s[i + 1].start < area.end {
        s.update(i, area).remove(i + 1)
    } else {
        s.update(i, area)
    }
}

/// Makes an area a larger one.
pub fn extend_area(areas: &mut Vec<MapArea>, i: usize, area: MapArea)
    requires
        i < old(areas)@.len(),
    ensures
        final(areas)@ == extended(old(areas)@, i as int, area),
{
    areas[i] = area;
    if areas.len() - i > 1 && areas[i + 1].start < area.end {
        areas.remove(i + 1);
    }
}

/// An area that became larger over pages that no area has is in order with the others, which
/// are those that were there.
pub proof fn lemma_extended(s: Seq<MapArea>, i: int, area: MapArea)
    requires
        areas_ok(s),
        0 <= i < s.len(),
        area.wf(),
        s[i].start <= area.start,
        s[i].end <= area.end,
        area.start < area.end || area.start == s[i].start,
        !any_conflicts(s, s[i].end as int, area.end as int),
    ensures
        areas_ok(extended(s, i, area)),
        forall|k: int|
            0 <= k < extended(s, i, area).len() ==> (#[trigger] extended(s, i, area)[k]) == area
                || s.contains(extended(s, i, area)[k]),
        forall|k: int|
            0 <= k < s.len() && k != i && (#[trigger] s[k]).start < s[k].end ==> extended(
                s,
                i,
                area,
            ).contains(s[k]),
        extended(s, i, area)[i] == area,
        i < extended(s, i, area).len(),
{
    let u = extended(s, i, area);
    let gone = i + 1 < s.len() && s[i + 1].start < area.end;
    assert forall|k: int| i < k < s.len() && (#[trigger] s[k]).start < area.end implies k == i + 1
        && s[k].start == s[k].end by {
        assert(!conflicts(s[k], s[i].end as int, area.end as int));
        assert(s[k].wf() && s[i].wf());
        assert(s[i].end <= s[k].start);
        if k > i + 1 {
            assert(!conflicts(s[i + 1], s[i].end as int, area.end as int));
            assert(s[i + 1].wf());
            assert(s[i].end <= s[i + 1].start && s[i + 1].start < s[k].start);
        }
    }
    assert forall|k: int| 0 <= k < u.len() && k != i implies (#[trigger] u[k]) == s[if gone && k
        > i {
        k + 1
    } else {
        k
    }] by {}
    assert forall|k: int| 0 <= k < u.len() implies (#[trigger] u[k]) == area || s.contains(u[k]) by {
        if k != i {
            assert(s.contains(s[if gone && k > i {
                k + 1
            } else {
                k
            }]));
        }
    }
    assert forall|k: int| 0 <= k < s.len() && k != i && (#[trigger] s[k]).start < s[k].end implies
        u.contains(s[k]) by {
        assert(u[if gone && k > i {
            k - 1
        } else {
            k
        }] == s[k]);
    }
    assert forall|j: int, k: int| 0 <= j < k < u.len() implies (#[trigger] u[j]).start < (
    #[trigger] u[k]).start && u[j].end <= u[k].start by {
        let a = if gone && j > i {
            j + 1
        } else {
            j
        };
        let b = if gone && k > i {
            k + 1
        } else {
            k
        };
        assert(s[a].start < s[b].start && s[a].end <= s[b].start);
        assert(s[i].wf());
        if j == i {
            assert(s[b].start >= area.end);
        }
    }
    assert forall|k: int| 0 <= k < u.len() implies (#[trigger] u[k]).wf() by {
        if k != i {
            assert(s[if gone && k > i {
                k + 1
            } else {
                k
            }].wf());
        }
    }
}

/// Finds the first gap of `length` bytes at `from` or behind it; behind the
/// last area the gap ends before `limit`.
pub fn find_gap(areas: &Vec<MapArea>, from: u64, length: u64, limit: u64) -> (at: Option<u64>)
    requires
        areas_ok(areas@),
        from + length <= u64::MAX,
        VPN_LIMIT * 4096 + length <= u64::MAX,
    ensures
        match gap(areas@, from as int, length as int, limit as int) {
            None => at is None,
            Some(a) => at is Some && at->Some_0 == a,
        },
{
    let mut current: u64 = from;
    let mut i: usize = 0;
    assert(areas@.skip(0) =~= areas@);
    while i < areas.len()
        invariant
            i <= areas@.len(),
            areas_ok(areas@),
            VPN_LIMIT * 4096 + length <= u64::MAX,
            current + length <= u64::MAX,
            gap(areas@, from as int, length as int, limit as int) == gap(
                areas@.skip(i as int),
                current as int,
                length as int,
                limit as int,
            ),
        decreases areas@.len() - i,
    {
        assert(areas@[i as int].wf());
        proof {
            assert(areas@.skip(i as int)[0] == areas@[i as int]);
            assert(areas@.skip(i as int).drop_first() =~= areas@.skip(i + 1));
        }
        if current + length <= areas[i].start * 4096 {
            return Some(current);
        }
        let end: u64 = areas[i].end * 4096;
        if end > current {
            current = end;
        }
        i = i + 1;
    }
    if current + length < limit {
        Some(current)
    } else {
        None
    }
}

/// A gap that was found conflicts with no area.
pub proof fn law_gap_is_free(s: Seq<MapArea>, from: int, length: int, limit: int)
    requires
        areas_ok(s),
        from >= 0,
        length >= 0,
        gap(s, from, length, limit) is Some,
    ensures
        ({
            let at = gap(s, from, length, limit)->Some_0;
            &&& at >= from
            &&& forall|i: int|
                0 <= i < s.len() ==> !conflicts(
                    #[trigger] s[i],
                    at / 4096,
                    super::address::pages_to_cover(at + length),
                )
        }),
    decreases s.len(),
{
    let at = gap(s, from, length, limit)->Some_0;
    if s.len() > 0 {
        if from + length <= s[0].start * 4096 {
            assert forall|i: int| 0 <= i < s.len() implies !conflicts(
                #[trigger] s[i],
                at / 4096,
                super::address::pages_to_cover(at + length),
            ) by {
                assert(s[0].start <= s[i].start);
            }
        } else {
            let rest = s.drop_first();
            assert forall|i: int| 0 <= i < rest.len() implies (#[trigger] rest[i]).wf() by {
                assert(rest[i] == s[i + 1]);
            }
            assert forall|i: int, j: int| 0 <= i < j < rest.len() implies (
            #[trigger] rest[i]).start < (#[trigger] rest[j]).start && rest[i].end
                <= rest[j].start by {
                assert(rest[i] == s[i + 1] && rest[j] == s[j + 1]);
            }
            law_gap_is_free(rest, max_of(from, s[0].end * 4096), length, limit);
            assert forall|i: int| 0 <= i < s.len() implies !conflicts(
                #[trigger] s[i],
                at / 4096,
                super::address::pages_to_cover(at + length),
            ) by {
                if i > 0 {
                    assert(rest[i - 1] == s[i]);
                }
            }
        }
    }
}

} // verus!
