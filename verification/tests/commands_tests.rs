use usb_disk_remover::commands::{
    menu_action, mount_points_match, remove_drive, str_equal, toggle_window, MenuAction,
    WindowAction,
};
use usb_disk_remover::drives::{BusType, RemovableDrive};
use usb_disk_remover::eject::EjectStep;

fn drive(root: &str) -> RemovableDrive {
    RemovableDrive {
        mount_point: root.to_string(),
        label: String::new(),
        vendor: String::new(),
        product: String::new(),
        bus_type: BusType::Usb,
        is_card_reader: false,
    }
}

#[test]
fn mount_points_ignore_trailing_backslashes() {
    assert!(mount_points_match("E:\\", "E:"));
    assert!(mount_points_match("E:", "E:\\\\"));
    assert!(!mount_points_match("E:\\", "F:\\"));
    assert!(!mount_points_match("E:\\x", "E:\\"));
}

#[test]
fn remove_drive_finds_the_drive() {
    let drives = vec![drive("D:\\"), drive("E:\\")];
    let e = remove_drive(&drives, "E:", &vec![]).unwrap();
    assert_eq!(e.mount_point, "E:\\");
    assert_eq!(e.step, EjectStep::LockVolume(0));
    let e = remove_drive(&drives, "E:\\", &vec!["E:".to_string(), "H:\\".to_string()]).unwrap();
    assert_eq!(e.mount_point, "E:\\");
    assert_eq!(e.volumes, vec!["E:\\".to_string(), "H:\\".to_string()]);
}

#[test]
fn remove_drive_not_found() {
    let drives = vec![drive("D:\\")];
    match remove_drive(&drives, "Z:", &vec![]) {
        Err(msg) => assert_eq!(msg, "Drive not found"),
        Ok(_) => panic!("expected an error"),
    }
}

#[test]
fn tray_click() {
    assert_eq!(toggle_window(None), WindowAction::Create);
    assert_eq!(toggle_window(Some(true)), WindowAction::Hide);
    assert_eq!(toggle_window(Some(false)), WindowAction::ShowAndFocus);
}

#[test]
fn menu_entries() {
    assert_eq!(menu_action("quit"), MenuAction::Quit);
    assert_eq!(menu_action("about"), MenuAction::About);
    assert_eq!(menu_action("Quit"), MenuAction::Ignore);
    assert_eq!(menu_action(""), MenuAction::Ignore);
    assert!(str_equal("abc", "abc"));
    assert!(!str_equal("abc", "abd"));
}

fn visible_after(action: WindowAction) -> Option<bool> {
    match action {
        WindowAction::Create | WindowAction::ShowAndFocus => Some(true),
        WindowAction::Hide => Some(false),
    }
}

#[test]
fn two_clicks_restore_visibility() {
    for start in [Some(true), Some(false)] {
        let after_one = visible_after(toggle_window(start));
        let after_two = visible_after(toggle_window(after_one));
        assert_eq!(after_two, start);
    }
    assert_eq!(visible_after(toggle_window(None)), Some(true));
}
