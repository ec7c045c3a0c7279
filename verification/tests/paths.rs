use mjoy_core::joypaths::{
    DiscoveredEntry, EventPathLookup, MinimalPathLookup, NamedPath, repath,
};
use mjoy_core::session::Config;

fn config_with_cap(cap: u32) -> Config {
    Config {
        path_common_name_max_length: 16,
        hat_only_players: Vec::new(),
        number_of_multi_port_controllers_to_use: cap,
        controller_bindings_file: String::from("bindings.json"),
        binding_names_file: String::from("names.txt"),
    }
}

fn entry(full: &str, link: &str) -> DiscoveredEntry {
    DiscoveredEntry {
        full_path: String::from(full),
        link_target: String::from(link),
    }
}

fn named(minimal: &str, event: &str, name: Option<&str>) -> NamedPath {
    NamedPath {
        full_path: format!("/dev/input/by-path/pci-0000:00:14.0-usb-0:{}-event-joystick", minimal),
        minimal_path: String::from(minimal),
        root_event_path: String::from(event),
        common_name: name.map(String::from),
    }
}

#[test]
fn discovery_parses_stable_path() {
    let entries = vec![entry(
        "/dev/input/by-path/pci-0000:00:14.0-usb-0:1:1.0-event-joystick",
        "../event26",
    )];
    let found = repath(&entries, &config_with_cap(2)).unwrap();
    assert_eq!(found.len(), 1);
    assert_eq!(found[0].minimal_path, "1:1.0");
    assert_eq!(found[0].root_event_path, "/dev/input/event26");
    assert!(found[0].common_name.is_none());
}

#[test]
fn discovery_ignores_non_joystick_entries() {
    let entries = vec![
        entry("/dev/input/by-path/pci-0000:00:14.0-usb-0:1:1.0-event-kbd", "../event3"),
        entry(
            "/dev/input/by-path/pci-0000:00:14.0-usb-0:2:1.0-event-joystick",
            "../event4",
        ),
    ];
    let found = repath(&entries, &config_with_cap(3)).unwrap();
    assert_eq!(found.len(), 1);
    assert_eq!(found[0].minimal_path, "2:1.0");
}

#[test]
fn discovery_caps_multi_port_index() {
    // Multi-controller indices at or above the cap are silently dropped.
    let entries = vec![
        entry(
            "/dev/input/by-path/pci-0000:00:14.0-usb-0:1:1.0-event-joystick",
            "../event5",
        ),
        entry(
            "/dev/input/by-path/pci-0000:00:14.0-usb-0:1:1.1-event-joystick",
            "../event6",
        ),
        entry(
            "/dev/input/by-path/pci-0000:00:14.0-usb-0:1:1.2-event-joystick",
            "../event7",
        ),
    ];
    let found = repath(&entries, &config_with_cap(1)).unwrap();
    assert_eq!(found.len(), 1);
    assert_eq!(found[0].minimal_path, "1:1.0");

    let found2 = repath(&entries, &config_with_cap(2)).unwrap();
    assert_eq!(found2.len(), 2);
    assert_eq!(found2[1].minimal_path, "1:1.1");
}

#[test]
fn discovery_rejects_malformed_joystick_entry() {
    // Carries the joystick marker but breaks the naming convention.
    let entries = vec![entry("/dev/input/by-path/weird-event-joystick", "../event1")];
    assert!(repath(&entries, &config_with_cap(2)).is_err());
}

#[test]
fn discovery_rejects_link_without_numeric_suffix() {
    let entries = vec![entry(
        "/dev/input/by-path/pci-0000:00:14.0-usb-0:1:1.0-event-joystick",
        "../eventX",
    )];
    assert!(repath(&entries, &config_with_cap(2)).is_err());
}

#[test]
fn event_lookup_keeps_last_discovery_per_event_path() {
    let a = named("1:1.0", "/dev/input/event3", None);
    let b = named("2:1.0", "/dev/input/event3", None);
    let epl = EventPathLookup::repath(&vec![a, b]);
    assert_eq!(epl.0.len(), 1);
    assert_eq!(epl.0[0].minimal_path, "2:1.0");
    let got = epl.get("/dev/input/event3");
    assert_eq!(got.as_deref(), Some("2:1.0"));
    assert!(epl.get("/dev/input/event9").is_none());
}

#[test]
fn merge_keeps_existing_names_over_rediscovery() {
    let mut mpl = MinimalPathLookup(vec![named("1:1.0", "/dev/input/event3", Some("Alice"))]);
    let discovered = vec![
        named("1:1.0", "/dev/input/event5", None),
        named("2:1.0", "/dev/input/event6", None),
    ];
    mpl.add_missing_paths_for_joys(&discovered);
    assert_eq!(mpl.0.len(), 2);
    assert_eq!(mpl.0[0].common_name.as_deref(), Some("Alice"));
    assert_eq!(mpl.0[0].root_event_path, "/dev/input/event3");
    assert_eq!(mpl.0[1].minimal_path, "2:1.0");
}

#[test]
fn bindings_roundtrip_preserves_name_mapping() {
    let mpl = MinimalPathLookup(vec![
        named("1:1.0", "/dev/input/event3", Some("Alice")),
        named("2:1.0", "/dev/input/event4", None),
        named("3:1.0", "/dev/input/event5", Some("Bo\"b\\")),
    ]);
    let text = mpl.to_json();
    let back = MinimalPathLookup::from_json(text.as_str()).expect("own output must reload");
    assert_eq!(back.0.len(), 3);
    for (orig, re) in mpl.0.iter().zip(back.0.iter()) {
        assert_eq!(orig.full_path, re.full_path);
        assert_eq!(orig.minimal_path, re.minimal_path);
        assert_eq!(orig.root_event_path, re.root_event_path);
        assert_eq!(orig.common_name, re.common_name);
    }
}

#[test]
fn bindings_empty_roundtrip() {
    let mpl = MinimalPathLookup(Vec::new());
    let text = mpl.to_json();
    assert_eq!(text, "[]");
    let back = MinimalPathLookup::from_json(text.as_str()).unwrap();
    assert!(back.0.is_empty());
}

#[test]
fn bindings_file_is_pretty_json_shape() {
    let mpl = MinimalPathLookup(vec![named("1:1.0", "/dev/input/event3", None)]);
    let text = mpl.to_json();
    assert!(text.starts_with("[\n  {\n    \"full_path\": \""));
    assert!(text.contains("\"common_name\": null"));
    assert!(text.ends_with("\n  }\n]"));
}

#[test]
fn corrupt_bindings_text_is_unreadable() {
    assert!(MinimalPathLookup::from_json("not json at all").is_none());
    assert!(MinimalPathLookup::from_json("[\ngarbage\n]").is_none());
    assert!(MinimalPathLookup::from_json("").is_none());
}

#[test]
fn bind_name_steals_from_previous_holder() {
    let mut mpl = MinimalPathLookup(vec![
        named("1:1.0", "/dev/input/event3", Some("Alice")),
        named("2:1.0", "/dev/input/event4", None),
    ]);
    mpl.bind_name("2:1.0", "Alice");
    assert_eq!(mpl.0[0].common_name, None);
    assert_eq!(mpl.0[1].common_name.as_deref(), Some("Alice"));
    let holders = mpl.0.iter().filter(|np| np.common_name.as_deref() == Some("Alice")).count();
    assert_eq!(holders, 1);
}

#[test]
fn bindings_roundtrip_with_control_characters() {
    let mpl = MinimalPathLookup(vec![named("1:1.0", "/dev/input/event3", Some("Li\nne\t1"))]);
    let text = mpl.to_json();
    assert!(text.contains("\\u000a"));
    assert!(text.contains("\\u0009"));
    let back = MinimalPathLookup::from_json(text.as_str()).unwrap();
    assert_eq!(back.0[0].common_name.as_deref(), Some("Li\nne\t1"));
}

#[test]
fn duplicate_keys_in_bindings_text_keep_the_last_record() {
    let dup = MinimalPathLookup(vec![
        named("1:1.0", "/dev/input/event3", Some("Old")),
        named("2:1.0", "/dev/input/event4", None),
        named("1:1.0", "/dev/input/event5", Some("New")),
    ]);
    let text = dup.to_json();
    let back = MinimalPathLookup::from_json(text.as_str()).unwrap();
    assert_eq!(back.0.len(), 2);
    assert_eq!(back.0[0].minimal_path, "2:1.0");
    assert_eq!(back.0[1].minimal_path, "1:1.0");
    assert_eq!(back.0[1].common_name.as_deref(), Some("New"));
    assert_eq!(back.0[1].root_event_path, "/dev/input/event5");
}

#[test]
fn unknown_escape_in_bindings_text_is_unreadable() {
    let mpl = MinimalPathLookup(vec![named("1:1.0", "/dev/input/event3", Some("Ann"))]);
    let text = mpl.to_json().replace("Ann", "A\\nn");
    assert!(MinimalPathLookup::from_json(text.as_str()).is_none());
}
