use desktop_find::desktop::DesktopItem;
use desktop_find::icons::{
    enrich_desktop_item_positions, icon_text_from_buffer, is_listed_icon_label, listview_item_count, DesktopIconEntry,
    IconRect,
};

fn item(name: &str) -> DesktopItem {
    DesktopItem {
        name: name.to_string(),
        path: None,
        x: Some(24),
        y: Some(24),
        width: Some(88),
        height: Some(76),
    }
}

#[test]
fn enrich_moves_items_onto_matching_icons() {
    let mut items = vec![item("WeChat"), item("报告"), item("none")];
    let entries = vec![
        DesktopIconEntry { name: "wechat".to_string(), rect: IconRect { left: 5, top: 6, right: 80, bottom: 90 } },
        DesktopIconEntry { name: "WECHAT".to_string(), rect: IconRect { left: 0, top: 0, right: 1, bottom: 1 } },
        DesktopIconEntry { name: "报告".to_string(), rect: IconRect { left: 10, top: 20, right: 10, bottom: 5 } },
    ];
    enrich_desktop_item_positions(&mut items, &entries);
    assert_eq!((items[0].x, items[0].y, items[0].width, items[0].height), (Some(5), Some(6), Some(75), Some(84)));
    assert_eq!((items[1].x, items[1].y, items[1].width, items[1].height), (Some(10), Some(20), Some(1), Some(1)));
    assert_eq!((items[2].x, items[2].width), (Some(24), Some(88)));
    assert_eq!(items[1].name, "报告");
}

#[test]
fn item_count_is_clamped() {
    assert_eq!(listview_item_count(-5), 0);
    assert_eq!(listview_item_count(0), 0);
    assert_eq!(listview_item_count(37), 37);
    assert_eq!(listview_item_count(512), 512);
    assert_eq!(listview_item_count(100_000), 512);
}

#[test]
fn icon_text_stops_at_nul() {
    let mut buffer: Vec<u16> = "微信".encode_utf16().collect();
    buffer.push(0);
    buffer.extend("garbage".encode_utf16());
    assert_eq!(icon_text_from_buffer(&buffer), "微信");
    let full: Vec<u16> = "abc".encode_utf16().collect();
    assert_eq!(icon_text_from_buffer(&full), "abc");
    assert_eq!(icon_text_from_buffer(&vec![0xD800, 0x61, 0]), "\u{FFFD}a");
    assert_eq!(icon_text_from_buffer(&vec![0, 0x61]), "");
}

#[test]
fn icon_text_joins_surrogate_pairs() {
    let mut buffer: Vec<u16> = "a😀b".encode_utf16().collect();
    buffer.push(0);
    assert_eq!(icon_text_from_buffer(&buffer), "a😀b");
    assert_eq!(icon_text_from_buffer(&vec![0xD83D, 0xD83D, 0xDE00, 0xDE00]), "\u{FFFD}😀\u{FFFD}");
    assert!(is_listed_icon_label("微信"));
    assert!(!is_listed_icon_label(""));
}
