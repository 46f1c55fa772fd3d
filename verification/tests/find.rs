use furiosa_device::{
    find_devices_in, Arch, CoreId, CoreStatus, Device, DeviceConfig, DeviceError, DeviceFile,
    DeviceMode, DeviceWithStatus,
};

fn single_file(dev: u8, core: u8) -> DeviceFile {
    DeviceFile {
        filename: format!("npu{}pe{}", dev, core),
        mode: DeviceMode::Single,
        core_indices: vec![core],
        is_multicore: false,
    }
}

fn fused_file(dev: u8, a: u8, b: u8) -> DeviceFile {
    DeviceFile {
        filename: format!("npu{}pe{}-{}", dev, a, b),
        mode: DeviceMode::Fusion,
        core_indices: vec![a, b],
        is_multicore: false,
    }
}

fn whole_device_file(dev: u8) -> DeviceFile {
    DeviceFile {
        filename: format!("npu{}", dev),
        mode: DeviceMode::MultiCore,
        core_indices: vec![0, 1],
        is_multicore: true,
    }
}

/// A two-core Warboy device exposing the whole device, each core, and the
/// fused pair, with the given per-core statuses.
fn warboy_device(idx: u8, status0: CoreStatus, status1: CoreStatus) -> DeviceWithStatus {
    DeviceWithStatus {
        device: Device {
            device_index: idx,
            arch: Arch::Warboy,
            cores: vec![0, 1],
            dev_files: vec![
                whole_device_file(idx),
                single_file(idx, 0),
                single_file(idx, 1),
                fused_file(idx, 0, 1),
            ],
        },
        statuses: vec![(0, status0), (1, status1)],
    }
}

fn two_free_warboys() -> Vec<DeviceWithStatus> {
    vec![
        warboy_device(0, CoreStatus::Available, CoreStatus::Available),
        warboy_device(1, CoreStatus::Available, CoreStatus::Available),
    ]
}

fn filenames(files: &[DeviceFile]) -> Vec<&str> {
    files.iter().map(|f| f.filename()).collect()
}

#[test]
fn four_single_cores_fill_devices_in_order() {
    let devices = two_free_warboys();
    let found = find_devices_in(&DeviceConfig::warboy().count(4), &devices).unwrap();
    assert_eq!(
        filenames(&found),
        vec!["npu0pe0", "npu0pe1", "npu1pe0", "npu1pe1"]
    );
}

#[test]
fn five_single_cores_exceed_capacity_and_yield_nothing() {
    let devices = two_free_warboys();
    let found = find_devices_in(&DeviceConfig::warboy().count(5), &devices).unwrap();
    assert!(found.is_empty());
}

#[test]
fn two_fused_pairs_take_one_per_device() {
    let devices = two_free_warboys();
    let found = find_devices_in(&DeviceConfig::warboy().fused().count(2), &devices).unwrap();
    assert_eq!(filenames(&found), vec!["npu0pe0-1", "npu1pe0-1"]);
}

#[test]
fn three_fused_pairs_exceed_capacity_and_yield_nothing() {
    let devices = two_free_warboys();
    let found = find_devices_in(&DeviceConfig::warboy().fused().count(3), &devices).unwrap();
    assert!(found.is_empty());
}

#[test]
fn multicore_units_take_whole_devices() {
    let devices = two_free_warboys();
    let found = find_devices_in(&DeviceConfig::warboy().multicore().count(2), &devices).unwrap();
    assert_eq!(filenames(&found), vec!["npu0", "npu1"]);

    let found = find_devices_in(&DeviceConfig::warboy().multicore().count(3), &devices).unwrap();
    assert!(found.is_empty());
}

#[test]
fn occupied_cores_are_never_allocated() {
    let devices = vec![
        warboy_device(0, CoreStatus::Occupied, CoreStatus::Available),
        warboy_device(1, CoreStatus::Available, CoreStatus::Available),
    ];
    let found = find_devices_in(&DeviceConfig::warboy().count(3), &devices).unwrap();
    assert_eq!(filenames(&found), vec!["npu0pe1", "npu1pe0", "npu1pe1"]);

    let found = find_devices_in(&DeviceConfig::warboy().fused().count(1), &devices).unwrap();
    assert_eq!(filenames(&found), vec!["npu1pe0-1"]);
}

#[test]
fn multicore_skips_devices_with_any_occupied_core() {
    let devices = vec![
        warboy_device(0, CoreStatus::Available, CoreStatus::Occupied),
        warboy_device(1, CoreStatus::Available, CoreStatus::Available),
    ];
    let found = find_devices_in(&DeviceConfig::warboy().multicore().count(1), &devices).unwrap();
    assert_eq!(filenames(&found), vec!["npu1"]);
}

#[test]
fn a_multicore_flagged_file_consumes_the_entire_device() {
    // The first file spans only core 0 but is flagged as consuming the whole
    // device, so after it is taken even core 1 of the device is claimed.
    let devices = vec![DeviceWithStatus {
        device: Device {
            device_index: 0,
            arch: Arch::Warboy,
            cores: vec![0, 1],
            dev_files: vec![
                DeviceFile {
                    filename: format!("npu0pe0"),
                    mode: DeviceMode::Single,
                    core_indices: vec![0],
                    is_multicore: true,
                },
                single_file(0, 1),
            ],
        },
        statuses: vec![(0, CoreStatus::Available), (1, CoreStatus::Available)],
    }];
    let found = find_devices_in(&DeviceConfig::warboy().count(1), &devices).unwrap();
    assert_eq!(filenames(&found), vec!["npu0pe0"]);
    let found = find_devices_in(&DeviceConfig::warboy().count(2), &devices).unwrap();
    assert!(found.is_empty());
}

#[test]
fn count_zero_yields_an_empty_allocation() {
    let devices = two_free_warboys();
    let found = find_devices_in(&DeviceConfig::warboy().count(0), &devices).unwrap();
    assert!(found.is_empty());
}

#[test]
fn architecture_must_match() {
    let mut devices = two_free_warboys();
    devices[0].device.arch = Arch::Renegade;
    devices[1].device.arch = Arch::Renegade;
    let found = find_devices_in(&DeviceConfig::warboy().count(1), &devices).unwrap();
    assert!(found.is_empty());
}

#[test]
fn returned_files_share_no_core_on_one_device() {
    let devices = two_free_warboys();
    let found = find_devices_in(&DeviceConfig::warboy().count(4), &devices).unwrap();
    // npu0pe0 and npu0pe1 came from device 0, npu1pe0 and npu1pe1 from
    // device 1; within each device the claimed cores are disjoint.
    assert_eq!(found[0].core_indices(), &vec![0u8]);
    assert_eq!(found[1].core_indices(), &vec![1u8]);
    assert_eq!(found[2].core_indices(), &vec![0u8]);
    assert_eq!(found[3].core_indices(), &vec![1u8]);
}

#[test]
fn named_requests_have_no_resolution_policy() {
    let devices = two_free_warboys();
    let config = DeviceConfig::Named {
        device_id: 0,
        core_id: CoreId::Range(0, 1),
    };
    assert!(matches!(
        find_devices_in(&config, &devices),
        Err(DeviceError::UnsupportedConfig)
    ));
}
