//! The desktop's icon list view as plain values: how many icons to read,
//! the text of an icon, and moving listed items onto the icons' real places.
use vstd::prelude::*;
use crate::desktop::{DesktopItem, DesktopItemView, views_of};
use crate::order::{first_index_where, lemma_first_index_where_is, lemma_first_index_where_none};
use crate::text::{eq_ignore_ascii_case, equal_ignoring_ascii_case};

verus! {

/// The bounds of an icon on screen, in physical pixels.
#[derive(Debug, Clone, Copy, PartialEq, Eq, Structural)]
pub struct IconRect {
    pub left: i32,
    pub top: i32,
    pub right: i32,
    pub bottom: i32,
}

/// An icon of the desktop list view: its label and its bounds.
#[derive(Debug, Clone)]
pub struct DesktopIconEntry {
    pub name: String,
    pub rect: IconRect,
}

/// An icon entry as values.
pub struct IconEntryView {
    pub name: Seq<char>,
    pub rect: IconRect,
}

impl View for DesktopIconEntry {
    type V = IconEntryView;

    open spec fn view(&self) -> IconEntryView {
        IconEntryView { name: self.name@, rect: self.rect }
    }
}

/// The views of a list of icon entries.
pub open spec fn entry_views(s: Seq<DesktopIconEntry>) -> Seq<IconEntryView> {
    Seq::new(s.len(), |i: int| s[i]@)
}

/// The first icon whose label equals `name` up to ASCII case.
pub open spec fn entry_for(entries: Seq<IconEntryView>, name: Seq<char>) -> Option<int> {
    first_index_where(entries, |e: IconEntryView| equal_ignoring_ascii_case(e.name, name))
}

/// The length from `lo` to `hi`, at least 1.
pub open spec fn extent(lo: i32, hi: i32) -> u32 {
    if hi - lo < 1 {
        1
    } else {
        (hi - lo) as u32
    }
}

/// The width and height of the rectangle fit in `i32`.
pub open spec fn rect_fits(r: IconRect) -> bool {
    &&& i32::MIN <= r.right - r.left <= i32::MAX
    &&& i32::MIN <= r.bottom - r.top <= i32::MAX
}

/// An item moved onto the first icon that carries its name; unchanged
/// when no icon does.
pub open spec fn enriched(v: DesktopItemView, entries: Seq<IconEntryView>) -> DesktopItemView {
    match entry_for(entries, v.name) {
        Some(k) => {
            let r = entries[k].rect;
            DesktopItemView {
                name: v.name,
                path: v.path,
                x: Some(r.left),
                y: Some(r.top),
                width: Some(extent(r.left, r.right)),
                height: Some(extent(r.top, r.bottom)),
            }
        },
        None => v,
    }
}

fn extent_of(lo: i32, hi: i32) -> (r: u32)
    requires
        i32::MIN <= hi - lo <= i32::MAX,
    ensures
        r == extent(lo, hi),
{
    let d = hi - lo;
    if d < 1 {
        1
    } else {
        d as u32
    }
}

/// The position of the first icon whose label equals `name` up to ASCII case.
pub fn icon_entry_for(entries: &Vec<DesktopIconEntry>, name: &str) -> (r: Option<usize>)
    ensures
        match r {
            Some(k) => k < entries.len() && entry_for(entry_views(entries@), name@) == Some(k as int),
            None => entry_for(entry_views(entries@), name@) is None,
        },
{
    let ghost ev = entry_views(entries@);
    let ghost p = |e: IconEntryView| equal_ignoring_ascii_case(e.name, name@);
    let mut i: usize = 0;
    while i < entries.len()
        invariant
            ev == entry_views(entries@),
            p == (|e: IconEntryView| equal_ignoring_ascii_case(e.name, name@)),
            i <= entries.len(),
            forall|j: int| 0 <= j < i ==> !p(#[trigger] ev[j]),
        decreases entries.len() - i,
    {
        if eq_ignore_ascii_case(entries[i].name.as_str(), name) {
            proof {
                lemma_first_index_where_is(ev, p, i as int);
            }
            return Some(i);
        }
        i += 1;
    }
    proof {
        lemma_first_index_where_none(ev, p);
    }
    None
}

/// Moves every item onto the first listed icon whose label equals its
/// name up to ASCII case, taking the icon's origin and size (at least 1).
pub fn enrich_desktop_item_positions(items: &mut Vec<DesktopItem>, entries: &Vec<DesktopIconEntry>)
    requires
        forall|i: int|
            0 <= i < old(items).len() ==> (entry_for(entry_views(entries@), #[trigger] old(
                items,
            )@[i].name@) matches Some(k) ==> rect_fits(entries@[k].rect)),
    ensures
        views_of(final(items)@) == Seq::new(
            old(items)@.len(),
            |i: int| enriched(old(items)@[i]@, entry_views(entries@)),
        ),
{
    let ghost all = items@;
    let ghost ev = entry_views(entries@);
    let n = items.len();
    let mut rest: Vec<DesktopItem> = Vec::new();
    std::mem::swap(&mut rest, items);
    let mut out: Vec<DesktopItem> = Vec::new();
    let mut i: usize = 0;
    while rest.len() > 0
        invariant
            ev == entry_views(entries@),
            all.len() == n,
            i <= n,
            rest.len() == n - i,
            forall|j: int| 0 <= j < rest.len() ==> #[trigger] rest@[j] == all[i + j],
            forall|j: int|
                0 <= j < n ==> (entry_for(ev, #[trigger] all[j].name@) matches Some(k)
                    ==> rect_fits(entries@[k].rect)),
            out.len() == i,
            forall|j: int| 0 <= j < i ==> #[trigger] out@[j]@ == enriched(all[j]@, ev),
        decreases rest.len(),
    {
        let item = rest.remove(0);
        assert(item == all[i as int]);
        let found = icon_entry_for(entries, item.name.as_str());
        match found {
            Some(k) => {
                let r = entries[k].rect;
                assert(ev[k as int].rect == r);
                let moved = DesktopItem {
                    name: item.name,
                    path: item.path,
                    x: Some(r.left),
                    y: Some(r.top),
                    width: Some(extent_of(r.left, r.right)),
                    height: Some(extent_of(r.top, r.bottom)),
                };
                out.push(moved);
            },
            None => {
                out.push(item);
            },
        }
        i += 1;
    }
    assert(views_of(out@) =~= Seq::new(all.len(), |j: int| enriched(all[j]@, ev)));
    *items = out;
}

/// Only icons with a non-empty label are listed; their bounds are read next.
pub fn is_listed_icon_label(label: &str) -> (r: bool)
    ensures
        r == (label@.len() > 0),
{
    !label.is_empty()
}

/// Most icons read from the list view.
pub const MAX_LISTED_ICONS: i32 = 512;

/// How many icons to read for the count the list view reports: the count
/// taken as `i32`, kept within `0..=512`.
pub fn listview_item_count(reported: isize) -> (r: i32)
    ensures
        r == (if (reported as i32) < 0 {
            0
        } else if (reported as i32) > MAX_LISTED_ICONS {
            MAX_LISTED_ICONS
        } else {
            reported as i32
        }),
        0 <= r <= MAX_LISTED_ICONS,
{
    #[verifier::truncate]
    let count = reported as i32;
    if count < 0 {
        0
    } else if count > MAX_LISTED_ICONS {
        MAX_LISTED_ICONS
    } else {
        count
    }
}

/// A UTF-16 unit that opens a surrogate pair.
pub open spec fn is_high_surrogate(u: u16) -> bool {
    0xD800 <= u <= 0xDBFF
}

/// A UTF-16 unit that closes a surrogate pair.
pub open spec fn is_low_surrogate(u: u16) -> bool {
    0xDC00 <= u <= 0xDFFF
}

/// UTF-16 decoding: a high surrogate followed by a low one is joined into
/// one character, every other surrogate becomes U+FFFD, and every other
/// unit is the character with that code.
pub open spec fn utf16_lossy(units: Seq<u16>) -> Seq<char>
    decreases units.len(),
{
    if units.len() == 0 {
        Seq::empty()
    } else if units.len() > 1 && is_high_surrogate(units[0]) && is_low_surrogate(units[1]) {
        seq![(0x10000 + (units[0] - 0xD800) * 0x400 + (units[1] - 0xDC00)) as char] + utf16_lossy(
            units.subrange(2, units.len() as int),
        )
    } else if is_high_surrogate(units[0]) || is_low_surrogate(units[0]) {
        seq!['\u{FFFD}'] + utf16_lossy(units.drop_first())
    } else {
        seq![(units[0] as u32) as char] + utf16_lossy(units.drop_first())
    }
}

/// `String::from_utf16_lossy`: the units decoded as `utf16_lossy` states.
#[verifier::external_body]
fn decode_utf16_lossy(units: &Vec<u16>) -> (r: String)
    ensures
        r@ == utf16_lossy(units@),
{
    String::from_utf16_lossy(units)
}

/// The units of a text buffer up to its first NUL, or all of them.
pub open spec fn units_before_nul(buffer: Seq<u16>) -> Seq<u16> {
    match first_index_where(buffer, |u: u16| u == 0) {
        Some(k) => buffer.take(k),
        None => buffer,
    }
}

/// The label read back from an icon's text buffer.
pub fn icon_text_from_buffer(buffer: &Vec<u16>) -> (r: String)
    ensures
        r@ == utf16_lossy(units_before_nul(buffer@)),
{
    let ghost p = |u: u16| u == 0;
    let mut units: Vec<u16> = Vec::new();
    let mut i: usize = 0;
    while i < buffer.len() && buffer[i] != 0
        invariant
            p == (|u: u16| u == 0),
            i <= buffer.len(),
            units@ == buffer@.take(i as int),
            forall|j: int| 0 <= j < i ==> !p(#[trigger] buffer@[j]),
        decreases buffer.len() - i,
    {
        units.push(buffer[i]);
        i += 1;
        assert(units@ =~= buffer@.take(i as int));
    }
    proof {
        if i < buffer.len() {
            lemma_first_index_where_is(buffer@, p, i as int);
        } else {
            lemma_first_index_where_none(buffer@, p);
            assert(buffer@.take(i as int) =~= buffer@);
        }
    }
    decode_utf16_lossy(&units)
}

} // verus!
