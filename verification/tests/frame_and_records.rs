use scheduler_core::config::{ExtensionConfig, SchedulerConfig};
use scheduler_core::errors::DlxError;
use scheduler_core::extensions::map_extension_entries;
use scheduler_core::frame::{
    read_exact_or_none, read_exact_required, read_u16, read_u32, u16_to_be, u32_to_be, write_u16,
    write_u32,
};
use scheduler_core::model::{Resource, SchedulerProblem, Task, TimeSlot};
use scheduler_core::net::TcpEndpoint;
use scheduler_core::satellite::{AntennaCapability, Fep, FrequencyRange, SatelliteExtension};
use scheduler_core::stream::{MemSink, MemSource};

#[test]
fn integers_round_trip_in_network_byte_order() {
    let mut sink = MemSink::new();
    write_u32(&mut sink, 0x01020304).expect("write u32");
    write_u16(&mut sink, 0xBEEF).expect("write u16");
    let bytes = sink.into_bytes();
    assert_eq!(bytes, vec![0x01, 0x02, 0x03, 0x04, 0xBE, 0xEF]);

    let mut source = MemSource::new(bytes);
    assert_eq!(read_u32(&mut source).expect("read u32"), 0x01020304);
    assert_eq!(read_u16(&mut source).expect("read u16"), 0xBEEF);
}

#[test]
fn byte_helpers_emit_big_endian() {
    assert_eq!(u32_to_be(0xA1B2C3D4), vec![0xA1, 0xB2, 0xC3, 0xD4]);
    assert_eq!(u16_to_be(0x0102), vec![0x01, 0x02]);
}

#[test]
fn exact_reads_distinguish_clean_eof_from_truncation() {
    // Zero bytes available at the very start: "no more data".
    let mut source = MemSource::new(Vec::new());
    let got = read_exact_or_none(&mut source, 4).expect("clean eof");
    assert!(got.is_none());

    // Some bytes, but fewer than requested: a hard decode error.
    let mut source = MemSource::new(vec![1, 2]);
    let err = read_exact_or_none(&mut source, 4).unwrap_err();
    assert!(matches!(err, DlxError::UnexpectedEof { needed: 4, read: 2 }));

    // The required variant treats even a clean end as truncation.
    let mut source = MemSource::new(Vec::new());
    let err = read_exact_required(&mut source, 4).unwrap_err();
    assert!(matches!(err, DlxError::UnexpectedEof { needed: 4, read: 0 }));
}

#[test]
fn exact_reads_survive_fragmentation_and_interrupts() {
    let mut source = MemSource::throttled(vec![9, 8, 7, 6, 5], 2, 3);
    let got = read_exact_or_none(&mut source, 5).expect("read").expect("bytes");
    assert_eq!(got, vec![9, 8, 7, 6, 5]);
}

#[test]
fn config_defaults_apply_only_when_fields_are_absent() {
    let empty = SchedulerConfig {
        slot_interval_minutes: None,
        rest_port: None,
        resources_path: None,
        extensions: None,
    };
    assert_eq!(empty.slot_interval_minutes(), 5);
    assert_eq!(empty.rest_port(), 8080);
    assert_eq!(empty.resources_path(), "config/resources.yaml");
    assert!(empty.extensions().is_none());

    let full = SchedulerConfig {
        slot_interval_minutes: Some(15),
        rest_port: Some(9000),
        resources_path: Some("etc/inventory.yaml".to_string()),
        extensions: Some(vec![ExtensionConfig {
            id: "satellite".to_string(),
            path: "libsat.so".to_string(),
            enabled: true,
        }]),
    };
    assert_eq!(full.slot_interval_minutes(), 15);
    assert_eq!(full.rest_port(), 9000);
    assert_eq!(full.resources_path(), "etc/inventory.yaml");
    assert_eq!(full.extensions().expect("extensions").len(), 1);
}

#[test]
fn extension_entries_mirror_configuration() {
    let configs = vec![
        ExtensionConfig { id: "a".to_string(), path: "p1".to_string(), enabled: true },
        ExtensionConfig { id: "b".to_string(), path: "p2".to_string(), enabled: false },
    ];
    let entries = map_extension_entries(&configs);
    assert_eq!(entries.len(), 2);
    assert_eq!(entries[0].id, "a");
    assert_eq!(entries[0].path, "p1");
    assert!(entries[0].enabled);
    assert_eq!(entries[1].id, "b");
    assert_eq!(entries[1].path, "p2");
    assert!(!entries[1].enabled);
}

#[test]
fn tcp_endpoint_renders_host_and_port() {
    let endpoint = TcpEndpoint::new("solver.example".to_string(), 7000);
    assert_eq!(endpoint.to_string(), "solver.example:7000");
    let endpoint = TcpEndpoint::new("localhost".to_string(), 0);
    assert_eq!(endpoint.to_string(), "localhost:0");
    let endpoint = TcpEndpoint::new("10.0.0.1".to_string(), 65535);
    assert_eq!(endpoint.to_string(), "10.0.0.1:65535");
}

#[test]
fn domain_records_hold_their_fields() {
    let problem = SchedulerProblem {
        resources: vec![Resource { id: "ant-1".to_string(), capacity: 2 }],
        tasks: vec![Task {
            id: "pass-7".to_string(),
            required: vec!["ant-1".to_string()],
            duration_slots: 3,
        }],
    };
    assert_eq!(problem.resources[0].capacity, 2);
    assert_eq!(problem.tasks[0].required, vec!["ant-1".to_string()]);

    let slot = TimeSlot {
        id: "slot-0".to_string(),
        start_epoch_seconds: 1000,
        end_epoch_seconds: 1300,
        horizon_index: 0,
    };
    assert_eq!(slot.end_epoch_seconds - slot.start_epoch_seconds, 300);

    let _marker = SatelliteExtension::new();
    let fep = Fep { id: "fep-1".to_string(), bands: vec!["S".to_string()], region: None };
    assert_eq!(fep.bands.len(), 1);
    let capability = AntennaCapability {
        band: "S".to_string(),
        tracking_modes: vec!["L1".to_string(), "L2".to_string()],
    };
    assert_eq!(capability.tracking_modes.len(), 2);
    let range = FrequencyRange {
        uplink_mhz: Some(vec![2025, 2110]),
        downlink_mhz: Some(vec![2200, 2290]),
    };
    assert_eq!(range.uplink_mhz.as_deref(), Some(&[2025, 2110][..]));
}
