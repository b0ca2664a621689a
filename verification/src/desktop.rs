//! Desktop items: display names from file paths, the listing order,
//! duplicate removal, estimated grid positions, locating a search target,
//! and the frame drawn around a highlighted icon.
use vstd::prelude::*;
use vstd::string::*;
use crate::order::{is_stable_sort, key_view, keys_view, placed_before, sort_by_keys};
use crate::text::{
    chars_of, eq_ignore_ascii_case, equal_ignoring_ascii_case, joined, lowercase_of, same_text,
    text_order, to_lowercase,
};

verus! {

/// One file or shortcut on the desktop, with where its icon is shown.
#[derive(Debug, Clone)]
pub struct DesktopItem {
    pub name: String,
    pub path: Option<String>,
    pub x: Option<i32>,
    pub y: Option<i32>,
    pub width: Option<u32>,
    pub height: Option<u32>,
}

/// A desktop item as values: texts as character sequences.
pub struct DesktopItemView {
    pub name: Seq<char>,
    pub path: Option<Seq<char>>,
    pub x: Option<i32>,
    pub y: Option<i32>,
    pub width: Option<u32>,
    pub height: Option<u32>,
}

/// The characters of an optional text.
pub open spec fn text_option_view(o: Option<String>) -> Option<Seq<char>> {
    match o {
        Some(s) => Some(s@),
        None => None,
    }
}

impl View for DesktopItem {
    type V = DesktopItemView;

    open spec fn view(&self) -> DesktopItemView {
        DesktopItemView {
            name: self.name@,
            path: text_option_view(self.path),
            x: self.x,
            y: self.y,
            width: self.width,
            height: self.height,
        }
    }
}

/// The characters of an optional borrowed text.
pub open spec fn str_option_view(o: Option<&str>) -> Option<Seq<char>> {
    match o {
        Some(s) => Some(s@),
        None => None,
    }
}

/// The views of a list of desktop items.
pub open spec fn views_of(s: Seq<DesktopItem>) -> Seq<DesktopItemView> {
    Seq::new(s.len(), |i: int| s[i]@)
}

/// The views of a list of texts.
pub open spec fn texts_of(s: Seq<String>) -> Seq<Seq<char>> {
    Seq::new(s.len(), |i: int| s[i]@)
}

// ---------------------------------------------------------------- names

/// `s` ends with `suffix`.
pub open spec fn ends_with(s: Seq<char>, suffix: Seq<char>) -> bool {
    suffix.len() <= s.len() && s.subrange(s.len() - suffix.len(), s.len() as int) == suffix
}

/// A file name without a trailing ".lnk", or else without a trailing ".url".
pub open spec fn without_shortcut_suffix(f: Seq<char>) -> Seq<char> {
    if ends_with(f, ".lnk"@) {
        f.subrange(0, f.len() - ".lnk"@.len())
    } else if ends_with(f, ".url"@) {
        f.subrange(0, f.len() - ".url"@.len())
    } else {
        f
    }
}

fn text_ends_with(s: &Vec<char>, suffix: &Vec<char>) -> (r: bool)
    ensures
        r == ends_with(s@, suffix@),
{
    if suffix.len() > s.len() {
        return false;
    }
    let start = s.len() - suffix.len();
    let mut i: usize = 0;
    while i < suffix.len()
        invariant
            start == s.len() - suffix.len(),
            i <= suffix.len(),
            forall|j: int| 0 <= j < i ==> #[trigger] suffix@[j] == s@[start + j],
        decreases suffix.len() - i,
    {
        if s[start + i] != suffix[i] {
            assert(s@.subrange(start as int, s.len() as int)[i as int] != suffix@[i as int]);
            return false;
        }
        i += 1;
    }
    assert(s@.subrange(start as int, s.len() as int) =~= suffix@);
    true
}

/// The display name of a file: its name without the shortcut suffix
/// ".lnk" or ".url" (case-sensitive; ".lnk" is tried first).
pub fn strip_shortcut_suffix(file_name: &str) -> (r: String)
    ensures
        r@ == without_shortcut_suffix(file_name@),
{
    let chars = chars_of(file_name);
    let lnk = chars_of(".lnk");
    if text_ends_with(&chars, &lnk) {
        return file_name.substring_char(0, chars.len() - lnk.len()).to_owned();
    }
    let url = chars_of(".url");
    if text_ends_with(&chars, &url) {
        return file_name.substring_char(0, chars.len() - url.len()).to_owned();
    }
    file_name.to_owned()
}

/// `n` occurs in `p` as a contiguous run of characters.
pub open spec fn is_infix_of(n: Seq<char>, p: Seq<char>) -> bool {
    exists|i: int| 0 <= i && i + n.len() <= p.len() && #[trigger] p.subrange(i, i + n.len()) == n
}

/// What the last component of path `p` can be: a non-empty run of `p`.
pub open spec fn could_be_file_name(n: Seq<char>, p: Seq<char>) -> bool {
    n.len() > 0 && is_infix_of(n, p)
}

/// The part of `p` after its last '/' (all of `p` when it has none).
pub open spec fn last_segment(p: Seq<char>) -> Seq<char>
    decreases p.len(),
{
    if p.len() == 0 {
        p
    } else if p.last() == '/' {
        Seq::empty()
    } else {
        last_segment(p.drop_last()).push(p.last())
    }
}

/// A path whose last component every platform reads the same way: it has
/// no '\\', does not start with "//" (a network share on Windows), ends in
/// a segment that is neither empty, "." nor "..", and, when it has no '/'
/// at all, has no ':' (a drive on Windows). Its last component is
/// `last_segment`.
pub open spec fn has_portable_file_name(p: Seq<char>) -> bool {
    let s = last_segment(p);
    &&& !p.contains('\\')
    &&& !(p.len() >= 2 && p[0] == '/' && p[1] == '/')
    &&& s.len() > 0
    &&& s != seq!['.']
    &&& s != seq!['.', '.']
    &&& (p.contains('/') || !s.contains(':'))
}

/// '/' or '\\', the characters that separate path components on Windows.
pub open spec fn is_path_separator(c: char) -> bool {
    c == '/' || c == '\\'
}

/// The part of `p` after its last '/' or '\\' (all of `p` when it has neither).
pub open spec fn last_part(p: Seq<char>) -> Seq<char>
    decreases p.len(),
{
    if p.len() == 0 {
        p
    } else if is_path_separator(p.last()) {
        Seq::empty()
    } else {
        last_part(p.drop_last()).push(p.last())
    }
}

/// A path that has a last component on every platform: it does not start
/// with two separators (a network share or device on Windows), and the part
/// after its last separator is neither empty, "." nor "..", and has no ':'
/// (a drive on Windows). Every entry of a desktop folder read on Windows,
/// such as `C:\\Users\\me\\Desktop\\微信.lnk`, is such a path.
pub open spec fn has_file_name_everywhere(p: Seq<char>) -> bool {
    let s = last_part(p);
    &&& !(p.len() >= 2 && is_path_separator(p[0]) && is_path_separator(p[1]))
    &&& s.len() > 0
    &&& s != seq!['.']
    &&& s != seq!['.', '.']
    &&& !s.contains(':')
}

/// `f` is a last component of `p` as some platform reads it: a suffix of
/// `p` without '/' that ends with `last_part(p)` (exactly that on Windows;
/// the part after the last '/' elsewhere).
pub open spec fn is_trailing_component(f: Seq<char>, p: Seq<char>) -> bool {
    &&& ends_with(p, f)
    &&& ends_with(f, last_part(p))
    &&& !f.contains('/')
}

/// A path without a last normal component on every platform: empty, "/",
/// ".", "..", or a path without '\\' that ends in "/..".
pub open spec fn has_no_file_name(p: Seq<char>) -> bool {
    ||| p.len() == 0
    ||| p == seq!['/']
    ||| p == seq!['.']
    ||| p == seq!['.', '.']
    ||| (!p.contains('\\') && ends_with(p, seq!['/', '.', '.']))
}

/// `Path::file_name`: the last component of the path, if it is a normal
/// one. Which characters separate components, and what a prefix is, depend
/// on the platform, so the result gets no name. The contract states that a
/// result is a non-empty run of the path; that on a path with a portable
/// file name it is `last_segment`; and that the paths of `has_no_file_name`
/// give `None`; and that a path with a file name on every platform gets one
/// that is a trailing component of it. Which trailing component comes back
/// for a path with '\\' (the whole last '/'-segment, or only the part
/// after the last '\\') depends on the platform and is left unsaid.
#[verifier::external_body]
fn file_name_of(path: &str) -> (r: Option<String>)
    ensures
        match r {
            Some(n) => could_be_file_name(n@, path@) && (has_portable_file_name(path@) ==> n@
                == last_segment(path@)) && !has_no_file_name(path@) && (has_file_name_everywhere(
                path@,
            ) ==> is_trailing_component(n@, path@)),
            None => !has_portable_file_name(path@) && !has_file_name_everywhere(path@),
        },
{
    match std::path::Path::new(path).file_name() {
        Some(n) => Some(n.to_string_lossy().into_owned()),
        None => None,
    }
}

/// `o` is a display name that `path` can have: taken from a possible last
/// component, exact for a path with a portable file name, and absent for
/// the paths of `has_no_file_name`.
pub open spec fn is_display_name_of(o: Option<Seq<char>>, path: Seq<char>) -> bool {
    &&& (o matches Some(n) ==> exists|f: Seq<char>|
        #[trigger] could_be_file_name(f, path) && n == without_shortcut_suffix(f))
    &&& (has_portable_file_name(path) ==> o == Some(without_shortcut_suffix(last_segment(path))))
    &&& (has_no_file_name(path) ==> o is None)
    &&& (has_file_name_everywhere(path) ==> (o matches Some(n) && exists|f: Seq<char>|
        #[trigger] is_trailing_component(f, path) && n == without_shortcut_suffix(f)))
}

/// The name shown for a desktop path: its file name, as the platform reads
/// the path, without the shortcut suffix; `None` when the platform finds no
/// file name.
pub fn display_name(path: &str) -> (r: Option<String>)
    ensures
        is_display_name_of(text_option_view(r), path@),
{
    match file_name_of(path) {
        Some(f) => {
            let n = strip_shortcut_suffix(f.as_str());
            assert(could_be_file_name(f@, path@));
            assert(has_file_name_everywhere(path@) ==> is_trailing_component(f@, path@));
            Some(n)
        },
        None => None,
    }
}

proof fn lemma_last_part_after_separator(q: Seq<char>, name: Seq<char>)
    requires
        q.len() > 0,
        is_path_separator(q.last()),
        forall|i: int| 0 <= i < name.len() ==> !is_path_separator(#[trigger] name[i]),
    ensures
        last_part(q + name) == name,
    decreases name.len(),
{
    if name.len() == 0 {
        assert(q + name =~= q);
    } else {
        assert((q + name).drop_last() =~= q + name.drop_last());
        assert((q + name).last() == name.last());
        lemma_last_part_after_separator(q, name.drop_last());
        assert(name.drop_last().push(name.last()) =~= name);
    }
}

/// A desktop entry `dir`, a separator, then `name` (no separator or ':'
/// in it, not "." or "..") always gets a display name, taken from a
/// trailing component of the path that ends with `name`: on Windows
/// `C:\\Users\\me\\Desktop\\微信.lnk` is named, never dropped.
pub proof fn lemma_desktop_entry_is_named(
    dir: Seq<char>,
    sep: char,
    name: Seq<char>,
    o: Option<Seq<char>>,
)
    requires
        is_path_separator(sep),
        name.len() > 0,
        name != seq!['.'],
        name != seq!['.', '.'],
        forall|i: int|
            0 <= i < name.len() ==> !is_path_separator(#[trigger] name[i]) && name[i] != ':',
        !((dir + seq![sep] + name).len() >= 2 && is_path_separator((dir + seq![sep] + name)[0])
            && is_path_separator((dir + seq![sep] + name)[1])),
        is_display_name_of(o, dir + seq![sep] + name),
    ensures
        o matches Some(n) && exists|f: Seq<char>|
            #[trigger] is_trailing_component(f, dir + seq![sep] + name) && ends_with(f, name) && n
                == without_shortcut_suffix(f),
{
    let q = dir + seq![sep];
    let p = dir + seq![sep] + name;
    assert(q.last() == sep);
    lemma_last_part_after_separator(q, name);
    assert(q + name == p);
    assert(!name.contains(':')) by {
        if name.contains(':') {
            let i = choose|i: int| 0 <= i < name.len() && name[i] == ':';
            assert(name[i] != ':');
        }
    }
    assert(has_file_name_everywhere(p));
}

/// A new desktop item for `path` named `name`, without a position.
pub open spec fn unplaced_item(name: Seq<char>, path: Seq<char>) -> DesktopItemView {
    DesktopItemView { name, path: Some(path), x: None, y: None, width: None, height: None }
}

/// The items collected from `paths` whose display names are `names`:
/// one per path that has a name, in order.
pub open spec fn collected_items(paths: Seq<Seq<char>>, names: Seq<Option<Seq<char>>>) -> Seq<
    DesktopItemView,
>
    decreases paths.len(),
{
    if paths.len() == 0 || names.len() == 0 {
        Seq::empty()
    } else {
        let rest = collected_items(paths.drop_last(), names.drop_last());
        match names.last() {
            Some(n) => rest.push(unplaced_item(n, paths.last())),
            None => rest,
        }
    }
}

/// Appends one item per entry path that has a display name, in order.
pub fn collect_desktop_dir(items: &mut Vec<DesktopItem>, paths: Vec<String>)
    ensures
        exists|names: Seq<Option<Seq<char>>>|
            {
                &&& names.len() == paths.len()
                &&& forall|i: int|
                    0 <= i < paths.len() ==> is_display_name_of(
                        #[trigger] names[i],
                        paths@[i]@,
                    )
                &&& #[trigger] views_of(final(items)@) == views_of(old(items)@)
                    + collected_items(texts_of(paths@), names)
            },
{
    let ghost start = views_of(items@);
    let ghost all = texts_of(paths@);
    let n = paths.len();
    let mut rest = paths;
    let ghost mut names: Seq<Option<Seq<char>>> = Seq::empty();
    let mut i: usize = 0;
    assert(all.take(0) =~= Seq::<Seq<char>>::empty());
    assert(views_of(items@) =~= start + collected_items(all.take(0), names));
    while rest.len() > 0
        invariant
            all.len() == n,
            i <= n,
            rest.len() == n - i,
            forall|j: int| 0 <= j < rest.len() ==> #[trigger] rest@[j]@ == all[i + j],
            names.len() == i,
            forall|j: int| 0 <= j < i ==> is_display_name_of(#[trigger] names[j], all[j]),
            views_of(items@) == start + collected_items(all.take(i as int), names),
        decreases rest.len(),
    {
        let p = rest.remove(0);
        assert(p@ == all[i as int]);
        let o = display_name(p.as_str());
        let ghost ov = text_option_view(o);
        let ghost old_items = items@;
        match o {
            Some(name) => {
                items.push(DesktopItem { name, path: Some(p), x: None, y: None, width: None, height: None });
                assert(views_of(items@) =~= views_of(old_items).push(unplaced_item(ov->0, all[i as int])));
            },
            None => {},
        }
        proof {
            let ghost old_names = names;
            names = names.push(ov);
            assert(all.take(i + 1).drop_last() =~= all.take(i as int));
            assert(names.drop_last() =~= old_names);
            assert(all.take(i + 1).last() == all[i as int]);
            assert(views_of(items@) =~= start + collected_items(all.take(i + 1), names));
        }
        i += 1;
    }
    assert(all.take(n as int) =~= all);
}

// ---------------------------------------------------------------- order

/// Items are listed by their lower-cased name.
pub open spec fn name_keys(s: Seq<DesktopItem>) -> Seq<Seq<Seq<char>>> {
    Seq::new(s.len(), |i: int| seq![lowercase_of(s[i].name@)])
}

/// Two neighbouring entries are the same desktop item: equal names up to
/// ASCII case and equal paths.
pub open spec fn same_desktop_entry(later: DesktopItemView, kept: DesktopItemView) -> bool {
    equal_ignoring_ascii_case(later.name, kept.name) && later.path == kept.path
}

/// `Vec::dedup_by` with `same_desktop_entry`: an item is dropped when it
/// repeats the last item kept.
pub open spec fn deduplicated(s: Seq<DesktopItemView>) -> Seq<DesktopItemView>
    decreases s.len(),
{
    if s.len() == 0 {
        s
    } else {
        let d = deduplicated(s.drop_last());
        if d.len() > 0 && same_desktop_entry(s.last(), d.last()) {
            d
        } else {
            d.push(s.last())
        }
    }
}

fn same_path(a: &Option<String>, b: &Option<String>) -> (r: bool)
    ensures
        r == (text_option_view(*a) == text_option_view(*b)),
{
    match (a, b) {
        (Some(x), Some(y)) => same_text(x.as_str(), y.as_str()),
        (None, None) => true,
        _ => false,
    }
}

/// Drops each item that repeats the item kept just before it.
pub fn dedup_desktop_items(items: Vec<DesktopItem>) -> (r: Vec<DesktopItem>)
    ensures
        views_of(r@) == deduplicated(views_of(items@)),
        r.len() <= items.len(),
{
    let ghost all = views_of(items@);
    let n = items.len();
    let mut rest = items;
    let mut out: Vec<DesktopItem> = Vec::new();
    let mut i: usize = 0;
    assert(views_of(out@) =~= deduplicated(all.take(0)));
    while rest.len() > 0
        invariant
            all.len() == n,
            i <= n,
            rest.len() == n - i,
            forall|j: int| 0 <= j < rest.len() ==> #[trigger] rest@[j]@ == all[i + j],
            views_of(out@) == deduplicated(all.take(i as int)),
            out.len() <= i,
        decreases rest.len(),
    {
        let item = rest.remove(0);
        assert(item@ == all[i as int]);
        assert(all.take(i + 1).drop_last() =~= all.take(i as int));
        assert(all.take(i + 1).last() == all[i as int]);
        let keep = if out.len() == 0 {
            true
        } else {
            let last = &out[out.len() - 1];
            assert(last@ == views_of(out@).last());
            !(eq_ignore_ascii_case(item.name.as_str(), last.name.as_str()) && same_path(
                &item.path,
                &last.path,
            ))
        };
        let ghost old_out = out@;
        if keep {
            out.push(item);
            assert(views_of(out@) =~= views_of(old_out).push(all[i as int]));
        }
        i += 1;
    }
    assert(all.take(n as int) =~= all);
    out
}

/// Adjacent items of a deduplicated list are never the same entry.
pub proof fn lemma_deduplicated_has_no_adjacent_repeats(s: Seq<DesktopItemView>)
    ensures
        forall|k: int|
            0 < k < deduplicated(s).len() ==> !same_desktop_entry(
                #[trigger] deduplicated(s)[k],
                deduplicated(s)[k - 1],
            ),
        deduplicated(s).len() <= s.len(),
    decreases s.len(),
{
    if s.len() > 0 {
        lemma_deduplicated_has_no_adjacent_repeats(s.drop_last());
        let d = deduplicated(s.drop_last());
        if !(d.len() > 0 && same_desktop_entry(s.last(), d.last())) {
            assert forall|k: int| 0 < k < d.push(s.last()).len() implies !same_desktop_entry(
                #[trigger] d.push(s.last())[k],
                d.push(s.last())[k - 1],
            ) by {
                if k < d.len() {
                    assert(d.push(s.last())[k] == d[k]);
                    assert(d.push(s.last())[k - 1] == d[k - 1]);
                }
            }
        }
    }
}

// ---------------------------------------------------------------- grid

/// At most this many items get an estimated position without `i32` overflow.
pub const MAX_POSITIONED_ITEMS: usize = 178956976;

/// Estimated icon column origin of the item at `index`: 8 rows per column.
pub open spec fn estimated_x(index: int) -> int {
    24 + (index / 8) * 96
}

/// Estimated icon row origin of the item at `index`.
pub open spec fn estimated_y(index: int) -> int {
    24 + (index % 8) * 92
}

/// The item at `index` placed on the estimated grid with an 88 x 76 icon.
pub open spec fn placed_at(v: DesktopItemView, index: int) -> DesktopItemView {
    DesktopItemView {
        name: v.name,
        path: v.path,
        x: Some(estimated_x(index) as i32),
        y: Some(estimated_y(index) as i32),
        width: Some(88),
        height: Some(76),
    }
}

/// Every item placed by its position in the list.
pub open spec fn with_positions(s: Seq<DesktopItemView>) -> Seq<DesktopItemView> {
    Seq::new(s.len(), |i: int| placed_at(s[i], i))
}

/// Gives every item its estimated grid position and icon size.
pub fn assign_estimated_positions(items: &mut Vec<DesktopItem>)
    requires
        old(items).len() <= MAX_POSITIONED_ITEMS,
    ensures
        views_of(final(items)@) == with_positions(views_of(old(items)@)),
{
    let ghost all = views_of(items@);
    let n = items.len();
    let mut rest: Vec<DesktopItem> = Vec::new();
    std::mem::swap(&mut rest, items);
    let mut out: Vec<DesktopItem> = Vec::new();
    let mut index: usize = 0;
    while rest.len() > 0
        invariant
            n <= MAX_POSITIONED_ITEMS,
            all.len() == n,
            index <= n,
            rest.len() == n - index,
            forall|j: int| 0 <= j < rest.len() ==> #[trigger] rest@[j]@ == all[index + j],
            out.len() == index,
            forall|j: int| 0 <= j < index ==> #[trigger] out@[j]@ == placed_at(all[j], j),
        decreases rest.len(),
    {
        let item = rest.remove(0);
        assert(item@ == all[index as int]);
        let column = (index / 8) as i32;
        let row = (index % 8) as i32;
        let placed = DesktopItem {
            name: item.name,
            path: item.path,
            x: Some(24 + column * 96),
            y: Some(24 + row * 92),
            width: Some(88),
            height: Some(76),
        };
        out.push(placed);
        index += 1;
    }
    assert(views_of(out@) =~= with_positions(all));
    *items = out;
}

/// No two items get the same estimated position.
pub proof fn lemma_estimated_positions_distinct(i: int, j: int)
    requires
        0 <= i < j < MAX_POSITIONED_ITEMS,
    ensures
        estimated_x(i) != estimated_x(j) || estimated_y(i) != estimated_y(j),
        i32::MIN <= estimated_x(j) <= i32::MAX,
        i32::MIN <= estimated_y(j) <= i32::MAX,
{
    if i / 8 == j / 8 {
        assert(i % 8 != j % 8);
    }
}

/// Sorts items by lower-cased name; items whose keys tie keep their order.
pub fn sort_desktop_items(items: Vec<DesktopItem>) -> (r: Vec<DesktopItem>)
    ensures
        exists|perm: Seq<int>| #[trigger] is_stable_sort(items@, name_keys(items@), r@, perm),
{
    let ghost input = items@;
    let mut keys: Vec<Vec<Vec<char>>> = Vec::new();
    let mut i: usize = 0;
    while i < items.len()
        invariant
            input == items@,
            i <= items.len(),
            keys.len() == i,
            forall|j: int| 0 <= j < i ==> #[trigger] key_view(keys@[j]) == name_keys(input)[j],
        decreases items.len() - i,
    {
        let lower = to_lowercase(items[i].name.as_str());
        let key = vec![chars_of(lower.as_str())];
        assert(key_view(key) =~= seq![lowercase_of(input[i as int].name@)]);
        keys.push(key);
        i += 1;
    }
    assert(keys_view(keys@) =~= name_keys(input));
    sort_by_keys(items, keys)
}

/// The desktop listing built from the collected items: sorted by
/// lower-cased name (ties keep their order), repeats dropped, then placed
/// on the estimated grid. `None` when more than `MAX_POSITIONED_ITEMS`
/// items remain to be placed, whose positions would overflow `i32`.
pub fn list_desktop_items(items: Vec<DesktopItem>) -> (r: Option<Vec<DesktopItem>>)
    ensures
        match r {
            Some(listed) => exists|sorted: Seq<DesktopItem>, perm: Seq<int>|
                {
                    &&& #[trigger] is_stable_sort(items@, name_keys(items@), sorted, perm)
                    &&& deduplicated(views_of(sorted)).len() <= MAX_POSITIONED_ITEMS
                    &&& views_of(listed@) == with_positions(deduplicated(views_of(sorted)))
                },
            None => exists|sorted: Seq<DesktopItem>, perm: Seq<int>|
                {
                    &&& #[trigger] is_stable_sort(items@, name_keys(items@), sorted, perm)
                    &&& deduplicated(views_of(sorted)).len() > MAX_POSITIONED_ITEMS
                },
        },
        items.len() <= MAX_POSITIONED_ITEMS ==> r is Some,
{
    let ghost input = items@;
    let sorted = sort_desktop_items(items);
    let ghost sv = sorted@;
    let ghost perm = choose|perm: Seq<int>| is_stable_sort(input, name_keys(input), sv, perm);
    assert(is_stable_sort(input, name_keys(input), sv, perm));
    let mut unique = dedup_desktop_items(sorted);
    if unique.len() > MAX_POSITIONED_ITEMS {
        return None;
    }
    assign_estimated_positions(&mut unique);
    Some(unique)
}

/// The positions of the items that deduplication keeps, in increasing order.
pub proof fn lemma_deduplicated_subsequence(s: Seq<DesktopItemView>) -> (idx: Seq<int>)
    ensures
        idx.len() == deduplicated(s).len(),
        forall|k: int|
            0 <= k < idx.len() ==> 0 <= #[trigger] idx[k] < s.len() && deduplicated(s)[k]
                == s[idx[k]],
        forall|k1: int, k2: int| 0 <= k1 < k2 < idx.len() ==> #[trigger] idx[k1] < #[trigger] idx[k2],
    decreases s.len(),
{
    if s.len() == 0 {
        Seq::empty()
    } else {
        let rest = lemma_deduplicated_subsequence(s.drop_last());
        let d = deduplicated(s.drop_last());
        if d.len() > 0 && same_desktop_entry(s.last(), d.last()) {
            assert forall|k: int| 0 <= k < rest.len() implies 0 <= #[trigger] rest[k] < s.len()
                && deduplicated(s)[k] == s[rest[k]] by {
                assert(s.drop_last()[rest[k]] == s[rest[k]]);
            }
            rest
        } else {
            let idx = rest.push(s.len() - 1);
            assert forall|k: int| 0 <= k < idx.len() implies 0 <= #[trigger] idx[k] < s.len()
                && deduplicated(s)[k] == s[idx[k]] by {
                if k < rest.len() {
                    assert(idx[k] == rest[k]);
                    assert(s.drop_last()[rest[k]] == s[rest[k]]);
                }
            }
            assert forall|k1: int, k2: int| 0 <= k1 < k2 < idx.len() implies #[trigger] idx[k1]
                < #[trigger] idx[k2] by {
                if k2 < rest.len() {
                    assert(idx[k1] == rest[k1] && idx[k2] == rest[k2]);
                } else {
                    assert(idx[k1] == rest[k1]);
                }
            }
            idx
        }
    }
}

/// The listing keeps the order of the sort: its lower-cased names never
/// decrease once repeats are dropped.
pub proof fn lemma_listing_ordered_by_name(
    items: Seq<DesktopItem>,
    sorted: Seq<DesktopItem>,
    perm: Seq<int>,
)
    requires
        is_stable_sort(items, name_keys(items), sorted, perm),
    ensures
        forall|k1: int, k2: int|
            0 <= k1 < k2 < deduplicated(views_of(sorted)).len() ==> text_order(
                lowercase_of((#[trigger] deduplicated(views_of(sorted))[k1]).name),
                lowercase_of((#[trigger] deduplicated(views_of(sorted))[k2]).name),
            ) <= 0,
{
    let sv = views_of(sorted);
    let d = deduplicated(sv);
    let idx = lemma_deduplicated_subsequence(sv);
    let keys = name_keys(items);
    assert forall|k1: int, k2: int| 0 <= k1 < k2 < d.len() implies text_order(
        lowercase_of((#[trigger] d[k1]).name),
        lowercase_of((#[trigger] d[k2]).name),
    ) <= 0 by {
        let i = idx[k1];
        let j = idx[k2];
        assert(i < j);
        assert(placed_before(keys[perm[i]], perm[i], keys[perm[j]], perm[j]));
        assert(sorted[i] == items[perm[i]]);
        assert(sorted[j] == items[perm[j]]);
        let a = lowercase_of(sorted[i].name@);
        let b = lowercase_of(sorted[j].name@);
        assert(keys[perm[i]] == seq![a]);
        assert(keys[perm[j]] == seq![b]);
        assert(seq![a].drop_first() =~= Seq::<Seq<char>>::empty());
        assert(seq![b].drop_first() =~= Seq::<Seq<char>>::empty());
        assert(d[k1] == sv[i]);
        assert(d[k2] == sv[j]);
    }
}

// ---------------------------------------------------------------- search

/// The item the search window asked for: its path matches the requested
/// one up to ASCII case, or its name matches the requested name.
pub open spec fn is_target(v: DesktopItemView, name: Seq<char>, path: Option<Seq<char>>) -> bool {
    ||| (path matches Some(p) && v.path matches Some(q) && equal_ignoring_ascii_case(q, p))
    ||| equal_ignoring_ascii_case(v.name, name)
}

/// `k` is the position of the first target item.
pub open spec fn is_first_target(
    items: Seq<DesktopItem>,
    name: Seq<char>,
    path: Option<Seq<char>>,
    k: int,
) -> bool {
    &&& 0 <= k < items.len()
    &&& is_target(items[k]@, name, path)
    &&& forall|j: int| 0 <= j < k ==> !is_target(#[trigger] items[j]@, name, path)
}

/// The position of the first target item, if any.
pub fn find_desktop_item(items: &Vec<DesktopItem>, name: &str, path: Option<&str>) -> (r: Option<
    usize,
>)
    ensures
        match r {
            Some(k) => k < items.len() && is_target(items@[k as int]@, name@, str_option_view(path))
                && forall|j: int|
                0 <= j < k ==> !is_target(#[trigger] items@[j]@, name@, str_option_view(path)),
            None => forall|j: int|
                0 <= j < items.len() ==> !is_target(#[trigger] items@[j]@, name@, str_option_view(path)),
        },
{
    let ghost pv = str_option_view(path);
    let mut i: usize = 0;
    while i < items.len()
        invariant
            pv == str_option_view(path),
            i <= items.len(),
            forall|j: int| 0 <= j < i ==> !is_target(#[trigger] items@[j]@, name@, pv),
        decreases items.len() - i,
    {
        let item = &items[i];
        let by_path = match (path, &item.path) {
            (Some(p), Some(q)) => eq_ignore_ascii_case(q.as_str(), p),
            _ => false,
        };
        if by_path || eq_ignore_ascii_case(item.name.as_str(), name) {
            return Some(i);
        }
        i += 1;
    }
    None
}

/// Where the highlight frame goes, in physical pixels.
#[derive(Debug, Clone, Copy, PartialEq, Eq, Structural)]
pub struct OverlayRect {
    pub x: i32,
    pub y: i32,
    pub width: u32,
    pub height: u32,
}

/// Room between the icon and the frame.
pub const OVERLAY_PADDING: i32 = 8;

/// `x - 8`, stopping at `i32::MIN`.
pub open spec fn padded_origin(x: i32) -> i32 {
    if x - 8 < i32::MIN {
        i32::MIN
    } else {
        (x - 8) as i32
    }
}

/// The frame for an item: its box (24, 24, 88 x 76 when unknown, each side
/// at least 24) grown by 8 pixels on every side.
pub open spec fn overlay_of(v: DesktopItemView) -> OverlayRect {
    let x = match v.x {
        Some(x) => x,
        None => 24i32,
    };
    let y = match v.y {
        Some(y) => y,
        None => 24i32,
    };
    let w = match v.width {
        Some(w) => w,
        None => 88u32,
    };
    let h = match v.height {
        Some(h) => h,
        None => 76u32,
    };
    let w = if w < 24 {
        24u32
    } else {
        w
    };
    let h = if h < 24 {
        24u32
    } else {
        h
    };
    OverlayRect {
        x: padded_origin(x),
        y: padded_origin(y),
        width: (w + 16) as u32,
        height: (h + 16) as u32,
    }
}

/// An item whose frame fits in `u32`: width and height at most `u32::MAX - 16`.
pub open spec fn frame_fits(v: DesktopItemView) -> bool {
    &&& (v.width matches Some(w) ==> w <= u32::MAX - 16)
    &&& (v.height matches Some(h) ==> h <= u32::MAX - 16)
}

fn saturating_minus_padding(v: i32) -> (r: i32)
    ensures
        r == padded_origin(v),
{
    if v >= i32::MIN + OVERLAY_PADDING {
        v - OVERLAY_PADDING
    } else {
        i32::MIN
    }
}

/// The highlight frame around an item's icon.
pub fn overlay_rect(item: &DesktopItem) -> (r: OverlayRect)
    requires
        frame_fits(item@),
    ensures
        r == overlay_of(item@),
{
    let x = match item.x {
        Some(x) => x,
        None => 24,
    };
    let y = match item.y {
        Some(y) => y,
        None => 24,
    };
    let w = match item.width {
        Some(w) => w,
        None => 88,
    };
    let h = match item.height {
        Some(h) => h,
        None => 76,
    };
    let w = if w < 24 {
        24
    } else {
        w
    };
    let h = if h < 24 {
        24
    } else {
        h
    };
    OverlayRect {
        x: saturating_minus_padding(x),
        y: saturating_minus_padding(y),
        width: w + 16,
        height: h + 16,
    }
}

/// The message for a target that is not on the desktop.
pub open spec fn not_found_on_desktop(name: Seq<char>) -> Seq<char> {
    "未在桌面找到："@ + name
}

/// Locates the target among the listed items and gives the frame to draw
/// around its icon; an error names the target when nothing matches.
pub fn highlight_desktop_item(items: Vec<DesktopItem>, name: &str, path: Option<&str>) -> (r: Result<
    OverlayRect,
    String,
>)
    requires
        forall|k: int|
            #[trigger] is_first_target(items@, name@, str_option_view(path), k) ==> frame_fits(
                items@[k]@,
            ),
    ensures
        match r {
            Ok(rect) => exists|k: int|
                #[trigger] is_first_target(items@, name@, str_option_view(path), k) && rect
                    == overlay_of(items@[k]@),
            Err(e) => e@ == not_found_on_desktop(name@) && forall|j: int|
                0 <= j < items.len() ==> !is_target(#[trigger] items@[j]@, name@, str_option_view(path)),
        },
{
    match find_desktop_item(&items, name, path) {
        Some(k) => {
            assert(is_first_target(items@, name@, str_option_view(path), k as int));
            let rect = overlay_rect(&items[k]);
            Ok(rect)
        },
        None => Err(joined("未在桌面找到：", name)),
    }
}

} // verus!
