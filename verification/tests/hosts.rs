use kite_gcs::apple_host::{place, remove, remove_all, replace_item, restack_moves, set_orient, AppleHost, INITIAL_RECT};
use kite_gcs::linux_host::{
    attach, detach, install_tree, needs_drag_handler, new_seats, prepare_install, restack, seat_layout, set_rect, set_visible,
    to_logical, uninstall, InstallPrep, WindowTree, PARK_POS, SLOTS,
};
use kite_gcs::win_aspect::{bend_rect, drag_lead, DragRect, Lead, WMSZ_BOTTOM, WMSZ_BOTTOMRIGHT, WMSZ_LEFT, WMSZ_TOPLEFT};

#[test]
fn apple_host_places_removes_and_orients() {
    let mut host: AppleHost<&str> = AppleHost::new();
    assert!(host.insert("main/a".to_string(), "views a"));
    assert!(!host.insert("main/a".to_string(), "again"));
    assert!(host.insert("video/b".to_string(), "views b"));
    assert_eq!(host.get(&"main/a".to_string()).unwrap().rect, INITIAL_RECT);
    let r = [1, 2, 3, 4, 5, 6, 7, 8];
    assert!(place(&mut host, "main/a".to_string(), r));
    assert_eq!(host.get(&"main/a".to_string()).unwrap().rect, r);
    assert!(!place(&mut host, "nope".to_string(), r));
    assert!(!host.contains(&"nope".to_string()));
    assert_eq!(remove(&mut host, "main/a".to_string()), Some("views a"));
    assert_eq!(remove(&mut host, "main/a".to_string()), None);
    assert!(!place(&mut host, "main/a".to_string(), r));
    assert_eq!(host.orient(), (false, false));
    set_orient(&mut host, true, false);
    assert_eq!(host.orient(), (true, false));
    host.insert("main/c".to_string(), "views c");
    let keys = vec!["main/c".to_string(), "gone".to_string(), "video/b".to_string()];
    assert_eq!(restack_moves(&host, &keys), vec![2, 0]);
    assert_eq!(remove_all(&mut host), vec!["views b", "views c"]);
    assert!(!host.contains(&"video/b".to_string()));
    assert_eq!(host.orient(), (true, false));
}

#[test]
fn logical_px_round_to_nearest() {
    assert_eq!(to_logical(10, 1), 10);
    assert_eq!(to_logical(3, 2), 2);
    assert_eq!(to_logical(-3, 2), -2);
    assert_eq!(to_logical(5, 3), 2);
    assert_eq!(to_logical(4, 3), 1);
    assert_eq!(to_logical(i32::MAX, 1), i32::MAX);
    assert_eq!(to_logical(i32::MIN, 1), i32::MIN);
    assert_eq!(to_logical(i32::MIN, 2), i32::MIN / 2);
}

#[test]
fn logical_px_take_a_scale_below_one_as_one() {
    assert_eq!(to_logical(7, 0), 7);
    assert_eq!(to_logical(-7, -3), -7);
    let g = seat_layout([4, 6, 8, 10, 4, 6, 8, 10], false, 0);
    let h = seat_layout([4, 6, 8, 10, 4, 6, 8, 10], false, 1);
    assert_eq!((g.clip_pos, g.clip_size, g.video_pos, g.video_size), (h.clip_pos, h.clip_size, h.video_pos, h.video_size));
    assert_eq!(g.clip_pos, (4, 6));
}

#[test]
fn seats_park_place_and_detach() {
    let mut seats = new_seats::<&str>();
    assert_eq!(seats.len(), SLOTS);
    let parked = seat_layout(seats[0].rect, seats[0].parked, 2);
    assert_eq!(parked.clip_pos, (PARK_POS, PARK_POS));
    assert_eq!(parked.clip_size, (1, 1));
    assert!(set_rect(&mut seats, 0, [100, 50, 640, 360, 120, 60, 600, 300]));
    assert!(!set_rect(&mut seats, 5, [0; 8]));
    assert!(set_visible(&mut seats, 0, true));
    let g = seat_layout(seats[0].rect, seats[0].parked, 2);
    assert_eq!(g.clip_pos, (60, 30));
    assert_eq!(g.clip_size, (300, 150));
    assert_eq!(g.video_pos, (-10, -5));
    assert_eq!(g.video_size, (320, 180));
    let tiny = seat_layout([0, 0, 1, 0, 0, 0, 0, 0], false, 3);
    assert_eq!(tiny.clip_size, (1, 1));
    assert_eq!(tiny.video_size, (1, 1));
    let (old, placed) = attach(&mut seats, 0, Some("widget"));
    assert_eq!(old, None);
    assert!(placed);
    let (old, placed) = attach(&mut seats, 0, Some("widget 2"));
    assert_eq!(old, Some("widget"));
    assert!(placed);
    let (old, placed) = attach(&mut seats, 9, Some("widget 3"));
    assert_eq!(old, None);
    assert!(!placed);
    assert_eq!(detach(&mut seats, 0, SLOTS), vec!["widget 2"]);
    assert!(seats[0].parked);
    assert!(seats[0].video.is_none());
    assert_eq!(restack(SLOTS, &vec![1, 7, 0]), vec![1, 0]);
}

#[test]
fn resize_drag_bends_away_from_the_held_corner() {
    let r = DragRect { left: 100, top: 100, right: 500, bottom: 400 };
    assert_eq!(drag_lead(WMSZ_BOTTOM), Lead::Height);
    assert_eq!(drag_lead(WMSZ_LEFT), Lead::Width);
    assert_eq!(drag_lead(WMSZ_TOPLEFT), Lead::Further);
    let b = bend_rect(r, WMSZ_BOTTOMRIGHT, 640, 360);
    assert_eq!(b, DragRect { left: 100, top: 100, right: 740, bottom: 460 });
    let b = bend_rect(r, WMSZ_TOPLEFT, 640, 360);
    assert_eq!(b, DragRect { left: -140, top: 40, right: 500, bottom: 400 });
    let b = bend_rect(r, WMSZ_LEFT, 320, 180);
    assert_eq!(b, DragRect { left: 180, top: 100, right: 500, bottom: 280 });
}

#[test]
fn apple_host_replaces_an_outputs_layer() {
    let mut host: AppleHost<&str> = AppleHost::new();
    host.insert("main/a".to_string(), "layer 1");
    let r = [1, 2, 3, 4, 5, 6, 7, 8];
    place(&mut host, "main/a".to_string(), r);
    assert_eq!(replace_item(&mut host, &"main/a".to_string(), "layer 2"), Ok("layer 1"));
    let out = host.get(&"main/a".to_string()).unwrap();
    assert_eq!((out.rect, out.item), (r, "layer 2"));
    assert_eq!(replace_item(&mut host, &"video/b".to_string(), "layer 3"), Err("layer 3"));
    assert!(!host.contains(&"video/b".to_string()));
}

#[test]
fn a_window_tree_is_built_once_and_rebuilt_for_a_new_window() {
    let mut trees: Vec<WindowTree<&str>> = Vec::new();
    let main = "main".to_string();
    let video = "video".to_string();
    assert!(matches!(prepare_install(&mut trees, &main, 7), InstallPrep::Fresh));
    assert!(install_tree(&mut trees, &main, 7));
    assert!(!install_tree(&mut trees, &main, 7), "a label that has a tree is left alone");
    assert_eq!(trees.len(), 1);
    assert_eq!(trees[0].seats.len(), SLOTS);
    assert!(trees[0].seats.iter().all(|s| s.parked && s.video.is_none()));
    assert!(matches!(prepare_install(&mut trees, &main, 7), InstallPrep::Installed));

    assert!(install_tree(&mut trees, &video, 9));
    attach(&mut trees[1].seats, 1, Some("widget"));
    // The detached window was closed without an uninstall and opened again: start over.
    match prepare_install(&mut trees, &video, 11) {
        InstallPrep::Rebuild(gone) => assert_eq!(gone, vec!["widget"]),
        _ => panic!("a tree of a gone window must be rebuilt"),
    }
    assert_eq!(trees.len(), 1);
    assert!(install_tree(&mut trees, &video, 11));
    assert_eq!(trees[1].window, 11);
    assert_eq!(uninstall(&mut trees, &video), Some(vec![]));
    assert_eq!(uninstall(&mut trees, &video), None);
    assert!(!needs_drag_handler(&main));
    assert!(needs_drag_handler(&video));
}
