use usb_disk_remover::drives::{BusType, RemovableDrive};
use usb_disk_remover::eject::EjectError;
use usb_disk_remover::ui::{
    background_color, bus_type_name, control_theme, no_selection_status, ThemedControl, device_description, drive_count_status, eject_error_name,
    eject_failure_message, is_dark_mode, list_colors, removed_message, selection_status,
    status_bar_background, status_text_length, CLR_DEFAULT, DARK_BACKGROUND, DARK_TEXT,
};

fn drive() -> RemovableDrive {
    RemovableDrive {
        mount_point: "E:\\".to_string(),
        label: "Stick".to_string(),
        vendor: "SanDisk".to_string(),
        product: "Ultra".to_string(),
        bus_type: BusType::Usb,
        is_card_reader: false,
    }
}

#[test]
fn count_status_texts() {
    assert_eq!(drive_count_status(0), "No removable drives found.");
    assert_eq!(drive_count_status(1), "1 removable drive(s) detected.");
    assert_eq!(drive_count_status(12), "12 removable drive(s) detected.");
}

#[test]
fn device_and_selection_texts() {
    assert_eq!(device_description(&drive()), "SanDisk Ultra");
    assert_eq!(selection_status(&drive()), "E:\\  \u{2014}  SanDisk Ultra  \u{2014}  Usb");
}

#[test]
fn names_match_debug() {
    for b in [BusType::Usb, BusType::Firewire, BusType::Unknown] {
        assert_eq!(bus_type_name(b), format!("{:?}", b));
    }
    for e in [EjectError::LockFailed, EjectError::DismountFailed, EjectError::EjectFailed, EjectError::DeviceNotFound] {
        assert_eq!(eject_error_name(e), format!("{:?}", e));
    }
}

#[test]
fn removal_messages() {
    assert_eq!(removed_message("E:\\"), "E:\\ was safely removed.");
    assert_eq!(eject_failure_message("E:\\", EjectError::LockFailed), "Could not eject E:\\: LockFailed");
}

#[test]
fn dark_mode_decision() {
    assert!(is_dark_mode(true, 0));
    assert!(!is_dark_mode(true, 1));
    assert!(!is_dark_mode(false, 0));
}

#[test]
fn theme_colors() {
    assert_eq!(background_color(true, 7), DARK_BACKGROUND);
    assert_eq!(background_color(false, 7), 7);
    assert_eq!(list_colors(true, 1, 2), (DARK_BACKGROUND, DARK_TEXT));
    assert_eq!(list_colors(false, 1, 2), (1, 2));
    assert_eq!(status_bar_background(true), 0x00191919);
    assert_eq!(status_bar_background(false), CLR_DEFAULT);
}

#[test]
fn status_text_lengths() {
    assert_eq!(status_text_length(0), None);
    assert_eq!(status_text_length(12), Some(12));
    assert_eq!(status_text_length(0x0003_0200), Some(512));
    assert_eq!(status_text_length(513), None);
    assert_eq!(status_text_length(-1), None);
}

#[test]
fn no_selection_text_counts_even_zero() {
    assert_eq!(no_selection_status(0), "0 removable drive(s) detected.");
    assert_eq!(no_selection_status(3), "3 removable drive(s) detected.");
}

#[test]
fn control_themes() {
    assert_eq!(control_theme(ThemedControl::Window, true).as_deref(), Some("DarkMode_Explorer"));
    assert_eq!(control_theme(ThemedControl::Window, false).as_deref(), Some(""));
    assert_eq!(control_theme(ThemedControl::ListHeader, true).as_deref(), Some("DarkMode_ItemsView"));
    assert_eq!(control_theme(ThemedControl::RemoveButton, true).as_deref(), Some("DarkMode_Explorer"));
    assert_eq!(control_theme(ThemedControl::DriveList, true).as_deref(), Some(" "));
    assert_eq!(control_theme(ThemedControl::DriveList, false), None);
    assert_eq!(control_theme(ThemedControl::StatusBar, true).as_deref(), Some(" "));
    assert_eq!(control_theme(ThemedControl::StatusBar, false), None);
}
