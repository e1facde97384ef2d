use usb_disk_remover::drives::{
    bus_type_from_drive, device_path, drive_info, enumerate_drives, is_removable, is_removable_bus,
    is_removable_device, logical_drive_letters, query_device_properties, volume_label, BusType,
    DeviceProperties, DriveProbe, DRIVE_FIXED, DRIVE_REMOVABLE,
};
use usb_disk_remover::utils::str_to_utf16vec;

fn put_u32(buf: &mut [u8], at: usize, v: u32) {
    buf[at..at + 4].copy_from_slice(&v.to_le_bytes());
}

fn descriptor(bus: u32, vendor: &[u8], product: &[u8]) -> Vec<u8> {
    let mut buf = vec![0u8; 1024];
    put_u32(&mut buf, 28, bus);
    put_u32(&mut buf, 12, 40);
    put_u32(&mut buf, 16, 80);
    buf[40..40 + vendor.len()].copy_from_slice(vendor);
    buf[80..80 + product.len()].copy_from_slice(product);
    buf
}

fn props(bus: BusType) -> DeviceProperties {
    DeviceProperties { bus_type: bus, vendor: "SanDisk".to_string(), product: "Ultra".to_string() }
}

#[test]
fn drive_letters_follow_the_bitmask() {
    // bits 2 (C), 4 (E) and 5 (F)
    let mask = (1u32 << 2) | (1u32 << 4) | (1u32 << 5);
    assert_eq!(logical_drive_letters(mask), vec!["C:\\", "E:\\", "F:\\"]);
}

#[test]
fn drive_letters_of_empty_mask() {
    assert!(logical_drive_letters(0).is_empty());
}

#[test]
fn drive_letters_cover_a_to_z() {
    let letters = logical_drive_letters(u32::MAX);
    assert_eq!(letters.len(), 26);
    assert_eq!(letters[0], "A:\\");
    assert_eq!(letters[25], "Z:\\");
    let expected: Vec<String> = (0u8..26).map(|i| format!("{}:\\", (b'A' + i) as char)).collect();
    assert_eq!(letters, expected);
}

#[test]
fn drive_letters_ignore_bits_above_z() {
    assert!(logical_drive_letters(1u32 << 26).is_empty());
    assert!(logical_drive_letters(1u32 << 27 | 1u32 << 31).is_empty());
}

#[test]
fn drive_letter_count_matches_set_bits() {
    for mask in [0u32, 1, 0x0300_0001, 0xFFFF_FFFF, 0x0155_5555, 0x04AA_AAAA] {
        let letters = logical_drive_letters(mask);
        assert_eq!(letters.len() as u32, (mask & 0x03FF_FFFF).count_ones());
        for w in letters.windows(2) {
            assert!(w[0] < w[1]);
        }
    }
}

#[test]
fn removable_and_fixed_types_qualify() {
    assert!(is_removable(DRIVE_REMOVABLE));
    assert!(is_removable(DRIVE_FIXED));
    assert!(!is_removable(4)); // remote
    assert!(!is_removable(5)); // cd-rom
    assert!(!is_removable(0));
}

#[test]
fn removable_buses() {
    assert!(is_removable_bus(&BusType::Usb));
    assert!(is_removable_bus(&BusType::Firewire));
    assert!(!is_removable_bus(&BusType::Unknown));
}

#[test]
fn removable_device_by_type_or_bus() {
    assert!(is_removable_device(DRIVE_REMOVABLE, None));
    assert!(is_removable_device(DRIVE_FIXED, Some(BusType::Usb)));
    assert!(!is_removable_device(DRIVE_FIXED, Some(BusType::Unknown)));
    assert!(!is_removable_device(DRIVE_FIXED, None));
}

#[test]
fn volume_label_reads_up_to_nul() {
    let mut buf = vec![0u16; 260];
    let label: Vec<u16> = "My USB Drive".encode_utf16().collect();
    buf[..label.len()].copy_from_slice(&label);
    assert_eq!(volume_label(true, &buf), Some("My USB Drive".to_string()));
}

#[test]
fn volume_label_failure_is_none() {
    let buf = vec![0u16; 260];
    assert_eq!(volume_label(false, &buf), None);
}

#[test]
fn volume_label_without_nul_is_empty() {
    let buf = vec![0x41u16; 8];
    assert_eq!(volume_label(true, &buf), Some(String::new()));
}

#[test]
fn volume_label_replaces_lone_surrogates() {
    let buf = vec![0x41u16, 0xD800, 0x42, 0];
    assert_eq!(volume_label(true, &buf), Some("A\u{FFFD}B".to_string()));
}

#[test]
fn volume_label_round_trip_of_wide_string() {
    for s in ["", "KINGSTON", "Über 😀 Laufwerk"] {
        let wide = str_to_utf16vec(s);
        assert_eq!(volume_label(true, &wide), Some(s.to_string()));
    }
}

#[test]
fn descriptor_usb_bus() {
    let d = descriptor(7, b"SanDisk\0", b"Ultra\0");
    assert_eq!(bus_type_from_drive(&d), Some(BusType::Usb));
}

#[test]
fn descriptor_firewire_and_other_buses() {
    assert_eq!(bus_type_from_drive(&descriptor(4, b"\0", b"\0")), Some(BusType::Firewire));
    assert_eq!(bus_type_from_drive(&descriptor(11, b"\0", b"\0")), Some(BusType::Unknown));
    assert_eq!(bus_type_from_drive(&[0u8; 16]), None);
}

#[test]
fn descriptor_strings_are_trimmed() {
    let d = descriptor(7, b"  SanDisk \0", b"Ultra   \0");
    let p = query_device_properties(&d).unwrap();
    assert_eq!(p.bus_type, BusType::Usb);
    assert_eq!(p.vendor, "SanDisk");
    assert_eq!(p.product, "Ultra");
}

#[test]
fn descriptor_zero_offset_gives_empty_string() {
    let mut d = descriptor(4, b"Vendor\0", b"Product\0");
    put_u32(&mut d, 12, 0);
    let p = query_device_properties(&d).unwrap();
    assert_eq!(p.vendor, "");
    assert_eq!(p.product, "Product");
    assert_eq!(p.bus_type, BusType::Firewire);
}

#[test]
fn descriptor_invalid_utf8_is_replaced() {
    let d = descriptor(7, b"Ven\xffdor\0", b"X\0");
    let p = query_device_properties(&d).unwrap();
    assert_eq!(p.vendor, "Ven\u{FFFD}dor");
}

#[test]
fn descriptor_unterminated_or_outside_string_is_rejected() {
    let mut d = vec![0u8; 64];
    put_u32(&mut d, 12, 60);
    d[60..64].copy_from_slice(b"ABCD");
    assert!(query_device_properties(&d).is_none());
    let mut d = vec![0u8; 64];
    put_u32(&mut d, 16, 1000);
    assert!(query_device_properties(&d).is_none());
    assert!(query_device_properties(&[0u8; 31]).is_none());
}

#[test]
fn device_path_of_root() {
    assert_eq!(device_path("E:\\"), "\\\\.\\E:");
}

#[test]
fn drive_info_needs_label_and_properties() {
    assert!(drive_info("E:\\", None, Some(props(BusType::Usb))).is_none());
    assert!(drive_info("E:\\", Some("L".to_string()), None).is_none());
    let d = drive_info("E:\\", Some("Stick".to_string()), Some(props(BusType::Usb))).unwrap();
    assert_eq!(d.mount_point, "E:\\");
    assert_eq!(d.label, "Stick");
    assert_eq!(d.vendor, "SanDisk");
    assert_eq!(d.product, "Ultra");
    assert_eq!(d.bus_type, BusType::Usb);
    assert!(!d.is_card_reader);
}

#[test]
fn enumerate_keeps_only_removable_drives_in_order() {
    // C, D, E, F, G present
    let mask = 0b111_1100u32;
    let probes = vec![
        DriveProbe { drive_type: DRIVE_FIXED, label: Some("Sys".to_string()), properties: Some(props(BusType::Unknown)) },
        DriveProbe { drive_type: 5, label: Some("CD".to_string()), properties: Some(props(BusType::Usb)) },
        DriveProbe { drive_type: DRIVE_REMOVABLE, label: Some("Stick".to_string()), properties: Some(props(BusType::Usb)) },
        DriveProbe { drive_type: DRIVE_FIXED, label: Some("Disk".to_string()), properties: Some(props(BusType::Firewire)) },
        DriveProbe { drive_type: DRIVE_REMOVABLE, label: None, properties: Some(props(BusType::Usb)) },
    ];
    let drives = enumerate_drives(mask, probes);
    let roots: Vec<&str> = drives.iter().map(|d| d.mount_point.as_str()).collect();
    assert_eq!(roots, vec!["E:\\", "F:\\"]);
    assert_eq!(drives[1].bus_type, BusType::Firewire);
    assert_eq!(drives[0].label, "Stick");
    assert!(drives.iter().all(|d| !d.is_card_reader));
}

#[test]
fn enumerate_pairs_probes_with_roots() {
    // only E present; a second probe has no root and is ignored
    let mask = 1u32 << 4;
    let probes = vec![
        DriveProbe { drive_type: DRIVE_REMOVABLE, label: Some("A".to_string()), properties: Some(props(BusType::Usb)) },
        DriveProbe { drive_type: DRIVE_REMOVABLE, label: Some("B".to_string()), properties: Some(props(BusType::Usb)) },
    ];
    let drives = enumerate_drives(mask, probes);
    assert_eq!(drives.len(), 1);
    assert_eq!(drives[0].mount_point, "E:\\");
    assert_eq!(drives[0].label, "A");
    // a root without a probe yields nothing
    assert!(enumerate_drives(0b11 << 4, vec![]).is_empty());
}

#[test]
fn enumerate_of_nothing() {
    assert!(enumerate_drives(0, Vec::new()).is_empty());
}
