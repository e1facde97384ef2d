use usb_disk_remover::drives::{BusType, RemovableDrive};
use usb_disk_remover::eject::{
    dismount_volume, eject_drive, get_device_node, get_parent_node, lock_volume, request_eject,
    volumes_on_device, EjectError, EjectStep, StepOutcome, VolumeDevice,
};
use usb_disk_remover::eject::StepOutcome::{Failed, Found, Succeeded
};

fn drive() -> RemovableDrive {
    RemovableDrive {
        mount_point: "E:\\".to_string(),
        label: "Stick".to_string(),
        vendor: "SanDisk".to_string(),
        product: "Ultra".to_string(),
        bus_type: BusType::Usb,
        is_card_reader: false,
    }
}

fn run(outcomes: &[StepOutcome]) -> (EjectStep, Option<Result<(), EjectError>>) {
    run_with(&[], outcomes)
}

fn run_with(volumes: &[&str], outcomes: &[StepOutcome]) -> (EjectStep, Option<Result<(), EjectError>>) {
    let volumes: Vec<String> = volumes.iter().map(|v| v.to_string()).collect();
    let mut e = eject_drive(&drive(), &volumes);
    for o in outcomes {
        e.advance(*o);
    }
    (e.step, e.result())
}

#[test]
fn ejection_starts_by_locking() {
    let e = eject_drive(&drive(), &vec![]);
    assert_eq!(e.mount_point, "E:\\");
    assert_eq!(e.volumes, vec!["E:\\".to_string()]);
    assert_eq!(e.step, EjectStep::LockVolume(0));
    assert_eq!(e.result(), None);
}

#[test]
fn successful_ejection() {
    let (step, result) = run(&[Succeeded, Succeeded, Found(11), Found(22), Succeeded]);
    assert_eq!(step, EjectStep::Ejected);
    assert_eq!(result, Some(Ok(())));
}

#[test]
fn eject_request_goes_to_parent() {
    let (step, _) = run(&[Succeeded, Succeeded, Found(11), Found(22)]);
    assert_eq!(step, EjectStep::RequestEject(22));
    let (step, _) = run(&[Succeeded, Succeeded, Found(11)]);
    assert_eq!(step, EjectStep::LocateParent(11));
    let (step, _) = run(&[Succeeded, Succeeded]);
    assert_eq!(step, EjectStep::LocateDevice);
}

#[test]
fn each_failure_has_its_error() {
    assert_eq!(run(&[Failed]).1, Some(Err(EjectError::LockFailed)));
    assert_eq!(run(&[Succeeded, Failed]).1, Some(Err(EjectError::DismountFailed)));
    assert_eq!(run(&[Succeeded, Succeeded, Failed]).1, Some(Err(EjectError::DeviceNotFound)));
    assert_eq!(run(&[Succeeded, Succeeded, Found(1), Succeeded]).1, Some(Err(EjectError::DeviceNotFound)));
    assert_eq!(run(&[Succeeded, Succeeded, Found(1), Found(2), Failed]).1, Some(Err(EjectError::EjectFailed)));
}

#[test]
fn finished_ejection_stays_finished() {
    assert_eq!(run(&[Failed, Succeeded, Succeeded]).1, Some(Err(EjectError::LockFailed)));
    assert_eq!(
        run(&[Succeeded, Succeeded, Found(1), Found(2), Succeeded, Failed]).1,
        Some(Ok(()))
    );
}

#[test]
fn step_results() {
    assert_eq!(lock_volume(true), Ok(()));
    assert_eq!(lock_volume(false), Err(EjectError::LockFailed));
    assert_eq!(dismount_volume(false), Err(EjectError::DismountFailed));
    assert_eq!(get_device_node(Some(5)), Ok(5));
    assert_eq!(get_device_node(None), Err(EjectError::DeviceNotFound));
    assert_eq!(get_parent_node(None), Err(EjectError::DeviceNotFound));
    assert_eq!(request_eject(false), Err(EjectError::EjectFailed));
    assert_eq!(request_eject(true), Ok(()));
}

#[test]
fn first_interface_path_of_list() {
    use_first_interface_path();
}

fn use_first_interface_path() {
    let list = [0x5Cu16, 0x41, 0, 0x42, 0, 0];
    assert_eq!(usb_disk_remover::eject::first_interface_path(&list), Some(vec![0x5C, 0x41, 0]));
    assert_eq!(usb_disk_remover::eject::first_interface_path(&[0, 0]), None);
    assert_eq!(usb_disk_remover::eject::first_interface_path(&[]), None);
    assert_eq!(usb_disk_remover::eject::first_interface_path(&[0x41, 0x42]), None);
}

#[test]
fn every_volume_of_the_device_is_torn_down_first() {
    let vols = ["F:\\", "E:", "G:\\"];
    let v: Vec<String> = vols.iter().map(|s| s.to_string()).collect();
    let e = eject_drive(&drive(), &v);
    // the drive's own volume first, then the others, without repeating it
    assert_eq!(e.volumes, vec!["E:\\".to_string(), "F:\\".to_string(), "G:\\".to_string()]);
    assert_eq!(run_with(&vols, &[Succeeded, Succeeded]).0, EjectStep::LockVolume(1));
    assert_eq!(run_with(&vols, &[Succeeded, Succeeded, Succeeded]).0, EjectStep::DismountVolume(1));
    assert_eq!(run_with(&vols, &[Succeeded; 6]).0, EjectStep::LocateDevice);
    let mut all = vec![Succeeded; 6];
    all.extend([Found(1), Found(2), Succeeded]);
    assert_eq!(run_with(&vols, &all).1, Some(Ok(())));
    // an eject request after tearing down only the first volume is not made
    assert_eq!(
        run_with(&vols, &[Succeeded, Succeeded, Found(1), Found(2), Succeeded]).1,
        Some(Err(EjectError::LockFailed))
    );
    assert_eq!(run_with(&vols, &[Succeeded, Succeeded, Succeeded, Failed]).1, Some(Err(EjectError::DismountFailed)));
}

#[test]
fn volumes_grouped_by_device() {
    let vols = vec![
        VolumeDevice { mount_point: "C:\\".to_string(), device_number: Some(0) },
        VolumeDevice { mount_point: "E:\\".to_string(), device_number: Some(3) },
        VolumeDevice { mount_point: "F:\\".to_string(), device_number: None },
        VolumeDevice { mount_point: "G:\\".to_string(), device_number: Some(3) },
    ];
    assert_eq!(volumes_on_device(&vols, 3), vec!["E:\\".to_string(), "G:\\".to_string()]);
    assert!(volumes_on_device(&vols, 9).is_empty());
}
