use furiosa_device::{Arch, CoreId, DeviceConfig, DeviceError, DeviceMode};

#[test]
fn test_config_from_named_text_repr() -> Result<(), DeviceError> {
    assert!("0".parse::<DeviceConfig>().is_err());
    assert!("0:".parse::<DeviceConfig>().is_err());
    assert!(":0".parse::<DeviceConfig>().is_err());
    assert!("0:0-1-".parse::<DeviceConfig>().is_err());

    assert_eq!(
        "0:0".parse::<DeviceConfig>(),
        Ok(DeviceConfig::Named {
            device_id: 0,
            core_id: CoreId::Id(0)
        })
    );
    assert_eq!(
        "0:1".parse::<DeviceConfig>(),
        Ok(DeviceConfig::Named {
            device_id: 0,
            core_id: CoreId::Id(1)
        })
    );
    assert_eq!(
        "1:1".parse::<DeviceConfig>(),
        Ok(DeviceConfig::Named {
            device_id: 1,
            core_id: CoreId::Id(1)
        })
    );
    assert_eq!(
        "0:0-1".parse::<DeviceConfig>(),
        Ok(DeviceConfig::Named {
            device_id: 0,
            core_id: CoreId::Range(0, 1)
        })
    );

    Ok(())
}

#[test]
fn test_config_from_unnamed_text_repr() -> Result<(), DeviceError> {
    assert!("warboy".parse::<DeviceConfig>().is_err());
    assert!("warboy*".parse::<DeviceConfig>().is_err());
    assert!("*1".parse::<DeviceConfig>().is_err());
    assert!("some_npu*10".parse::<DeviceConfig>().is_err());
    assert!("warboy(2*10".parse::<DeviceConfig>().is_err());
    assert_eq!(
        "warboy(1)*2".parse::<DeviceConfig>(),
        Ok(DeviceConfig::Unnamed {
            arch: Arch::Warboy,
            mode: DeviceMode::Single,
            count: 2
        })
    );
    assert_eq!(
        "warboy(2)*4".parse::<DeviceConfig>(),
        Ok(DeviceConfig::Unnamed {
            arch: Arch::Warboy,
            mode: DeviceMode::Fusion,
            count: 4
        })
    );
    assert_eq!(
        "warboy*12".parse::<DeviceConfig>(),
        Ok(DeviceConfig::Unnamed {
            arch: Arch::Warboy,
            mode: DeviceMode::MultiCore,
            count: 12
        })
    );

    Ok(())
}

#[test]
fn parse_rejects_values_that_do_not_fit() {
    assert!("300:0".parse::<DeviceConfig>().is_err());
    assert!("0:300".parse::<DeviceConfig>().is_err());
    assert!("0:0-999".parse::<DeviceConfig>().is_err());
    assert!("warboy*300".parse::<DeviceConfig>().is_err());
    assert!("warboy(3)*2".parse::<DeviceConfig>().is_err());
    assert!("warboy(2)*".parse::<DeviceConfig>().is_err());
}

#[test]
fn parse_rejects_a_reversed_core_range() {
    // A range runs from a lower to a higher core index.
    assert!("0:5-2".parse::<DeviceConfig>().is_err());
    assert!("1:1-0".parse::<DeviceConfig>().is_err());
    assert_eq!(
        "0:2-2".parse::<DeviceConfig>(),
        Ok(DeviceConfig::Named {
            device_id: 0,
            core_id: CoreId::Range(2, 2)
        })
    );
}

#[test]
fn parse_accepts_leading_zeros() {
    assert_eq!(
        "00:007".parse::<DeviceConfig>(),
        Ok(DeviceConfig::Named {
            device_id: 0,
            core_id: CoreId::Id(7)
        })
    );
}

#[test]
fn parse_accepts_every_canonical_arch_token() {
    assert_eq!(
        "warboy-b0*2".parse::<DeviceConfig>(),
        Ok(DeviceConfig::Unnamed {
            arch: Arch::WarboyB0,
            mode: DeviceMode::MultiCore,
            count: 2
        })
    );
    assert_eq!(
        "renegade(1)*1".parse::<DeviceConfig>(),
        Ok(DeviceConfig::Unnamed {
            arch: Arch::Renegade,
            mode: DeviceMode::Single,
            count: 1
        })
    );
    assert_eq!(
        "u250(2)*3".parse::<DeviceConfig>(),
        Ok(DeviceConfig::Unnamed {
            arch: Arch::U250,
            mode: DeviceMode::Fusion,
            count: 3
        })
    );
}

#[test]
fn parse_error_carries_the_offending_input() {
    match "not a config".parse::<DeviceConfig>() {
        Err(DeviceError::ParseError { input }) => assert_eq!(input, "not a config"),
        other => panic!("expected a parse error, got {:?}", other),
    }
}

#[test]
fn builder_defaults_to_one_single_warboy_core() {
    assert_eq!(
        DeviceConfig::warboy().build(),
        DeviceConfig::Unnamed {
            arch: Arch::Warboy,
            mode: DeviceMode::Single,
            count: 1
        }
    );
}

#[test]
fn builder_chains_mode_and_count() {
    assert_eq!(
        DeviceConfig::warboy().count(2),
        DeviceConfig::Unnamed {
            arch: Arch::Warboy,
            mode: DeviceMode::Single,
            count: 2
        }
    );
    assert_eq!(
        DeviceConfig::warboy().fused().count(2),
        DeviceConfig::Unnamed {
            arch: Arch::Warboy,
            mode: DeviceMode::Fusion,
            count: 2
        }
    );
    assert_eq!(
        DeviceConfig::warboy().multicore().build(),
        DeviceConfig::Unnamed {
            arch: Arch::Warboy,
            mode: DeviceMode::MultiCore,
            count: 1
        }
    );
}

#[test]
fn default_config_is_one_fused_warboy() {
    assert_eq!(
        DeviceConfig::default(),
        DeviceConfig::Unnamed {
            arch: Arch::Warboy,
            mode: DeviceMode::Fusion,
            count: 1
        }
    );
}
