use desktop_find::desktop::{
    assign_estimated_positions, collect_desktop_dir, dedup_desktop_items, display_name,
    find_desktop_item, highlight_desktop_item, list_desktop_items, overlay_rect,
    strip_shortcut_suffix, DesktopItem, OverlayRect,
};

fn item(name: &str, path: Option<&str>) -> DesktopItem {
    DesktopItem {
        name: name.to_string(),
        path: path.map(|p| p.to_string()),
        x: None,
        y: None,
        width: None,
        height: None,
    }
}

#[test]
fn display_name_removes_shortcut_suffix() {
    assert_eq!(display_name("微信.lnk"), Some("微信".to_string()));
    assert_eq!(display_name("网站.url"), Some("网站".to_string()));
    assert_eq!(display_name("资料夹"), Some("资料夹".to_string()));
}

#[test]
fn assign_estimated_positions_sets_coordinates() {
    let mut items = vec![DesktopItem {
        name: "微信".to_string(),
        path: None,
        x: None,
        y: None,
        width: None,
        height: None,
    }];

    assign_estimated_positions(&mut items);

    assert_eq!(items[0].x, Some(24));
    assert_eq!(items[0].y, Some(24));
    assert_eq!(items[0].width, Some(88));
    assert_eq!(items[0].height, Some(76));
}

#[test]
fn positions_fill_columns_of_eight() {
    let mut items: Vec<DesktopItem> = (0..10).map(|i| item(&format!("n{i}"), None)).collect();
    assign_estimated_positions(&mut items);
    assert_eq!((items[7].x, items[7].y), (Some(24), Some(24 + 7 * 92)));
    assert_eq!((items[8].x, items[8].y), (Some(120), Some(24)));
    assert_eq!((items[9].x, items[9].y), (Some(120), Some(116)));
    assert_eq!(items[9].name, "n9");
    for i in 0..items.len() {
        for j in (i + 1)..items.len() {
            assert_ne!((items[i].x, items[i].y), (items[j].x, items[j].y));
        }
    }
}

#[test]
fn strip_shortcut_suffix_cases() {
    assert_eq!(strip_shortcut_suffix("a.lnk.url"), "a.lnk");
    assert_eq!(strip_shortcut_suffix("a.url.lnk"), "a.url");
    assert_eq!(strip_shortcut_suffix("x.LNK"), "x.LNK");
    assert_eq!(strip_shortcut_suffix(".lnk"), "");
    assert_eq!(strip_shortcut_suffix("lnk"), "lnk");
    assert_eq!(strip_shortcut_suffix("报告.docx"), "报告.docx");
}

#[test]
fn display_name_takes_last_component() {
    assert_eq!(display_name("desk/网站.url"), Some("网站".to_string()));
    assert_eq!(display_name("desk/sub/notes.txt"), Some("notes.txt".to_string()));
    assert_eq!(display_name("/home/u/Desktop/a.lnk"), Some("a".to_string()));
    assert_eq!(display_name("C:/Users/me/Desktop/微信.lnk"), Some("微信".to_string()));
    assert_eq!(display_name(""), None);
    assert_eq!(display_name(".."), None);
    assert_eq!(display_name("desk/.."), None);
    assert_eq!(display_name("/"), None);
    assert_eq!(display_name("."), None);
}

#[test]
fn collect_desktop_dir_names_each_path() {
    let mut items = vec![item("old", None)];
    collect_desktop_dir(
        &mut items,
        vec!["d/微信.lnk".to_string(), "..".to_string(), "d/报告.docx".to_string()],
    );
    assert_eq!(items.len(), 3);
    assert_eq!(items[0].name, "old");
    assert_eq!(items[1].name, "微信");
    assert_eq!(items[1].path, Some("d/微信.lnk".to_string()));
    assert_eq!(items[2].name, "报告.docx");
    assert_eq!(items[2].x, None);
}

#[test]
fn list_sorts_by_lowercase_name_and_keeps_ties_in_order() {
    let items = vec![
        item("b", Some("p1")),
        item("B", Some("p2")),
        item("a", Some("p3")),
        item("Ä", Some("p4")),
        item("ä", Some("p5")),
    ];
    let listed = list_desktop_items(items).unwrap();
    let names: Vec<&str> = listed.iter().map(|i| i.name.as_str()).collect();
    assert_eq!(names, vec!["a", "b", "B", "Ä", "ä"]);
    assert_eq!(listed[1].path, Some("p1".to_string()));
    assert_eq!(listed[2].path, Some("p2".to_string()));
    assert_eq!(listed[0].x, Some(24));
    assert_eq!(listed[4].y, Some(24 + 4 * 92));
}

#[test]
fn list_drops_repeated_items() {
    let items = vec![
        item("Readme", Some("C:\\Users\\a\\Desktop\\Readme")),
        item("README", Some("C:\\Users\\a\\Desktop\\Readme")),
        item("readme", Some("C:\\Users\\Public\\Desktop\\Readme")),
    ];
    let listed = list_desktop_items(items).unwrap();
    assert_eq!(listed.len(), 2);
    assert_eq!(listed[0].name, "Readme");
    assert_eq!(listed[1].name, "readme");
    assert_eq!(listed[1].y, Some(116));
}

#[test]
fn dedup_compares_with_last_kept() {
    let items = vec![item("x", None), item("X", None), item("x", None), item("y", None), item("x", None)];
    let kept = dedup_desktop_items(items);
    let names: Vec<&str> = kept.iter().map(|i| i.name.as_str()).collect();
    assert_eq!(names, vec!["x", "y", "x"]);
}

#[test]
fn find_prefers_first_match_by_path_or_name() {
    let items = vec![item("a", Some("D/A.LNK")), item("WeChat", Some("D/w.lnk")), item("wechat", None)];
    assert_eq!(find_desktop_item(&items, "wechat", None), Some(1));
    assert_eq!(find_desktop_item(&items, "zzz", Some("d/a.lnk")), Some(0));
    assert_eq!(find_desktop_item(&items, "zzz", Some("d/b.lnk")), None);
    assert_eq!(find_desktop_item(&items, "ＷeChat", None), None);
}

#[test]
fn overlay_grows_the_icon_box() {
    let mut it = item("a", None);
    assert_eq!(overlay_rect(&it), OverlayRect { x: 16, y: 16, width: 104, height: 92 });
    it.x = Some(i32::MIN + 3);
    it.y = Some(100);
    it.width = Some(10);
    it.height = Some(30);
    assert_eq!(overlay_rect(&it), OverlayRect { x: i32::MIN, y: 92, width: 40, height: 46 });
}

#[test]
fn highlight_reports_missing_items() {
    let items = vec![item("a", None)];
    assert_eq!(highlight_desktop_item(items, "微信", None), Err("未在桌面找到：微信".to_string()));
    let mut placed = vec![item("微信", Some("d/微信.lnk"))];
    assign_estimated_positions(&mut placed);
    assert_eq!(
        highlight_desktop_item(placed, "x", Some("D/微信.LNK")),
        Ok(OverlayRect { x: 16, y: 16, width: 104, height: 92 })
    );
}

#[test]
fn checked_listing_places_items() {
    let listed = list_desktop_items(vec![item("b", None), item("a", None), item("A", None)]).unwrap();
    let names: Vec<&str> = listed.iter().map(|i| i.name.as_str()).collect();
    assert_eq!(names, vec!["a", "b"]);
    assert_eq!(listed[0].x, Some(24));
    assert_eq!(listed[1].y, Some(116));
}
