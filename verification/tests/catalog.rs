use hid_scanner::catalog::{DeviceCatalog, DeviceDescriptor, DeviceFilter};

fn device(vendor_id: u16, product_id: u16, path: &str) -> DeviceDescriptor {
    DeviceDescriptor::new(vendor_id, product_id, None, path.to_string())
}

#[test]
fn enumerate_returns_exactly_the_matching_descriptor() {
    let catalog = DeviceCatalog::new(vec![
        device(0x1234, 0x5678, "/dev/hidraw0"),
        device(0x9999, 0x1111, "/dev/hidraw1"),
    ]);
    let found = catalog.enumerate(DeviceFilter::new(0x1234, 0x5678));
    assert_eq!(found, vec![device(0x1234, 0x5678, "/dev/hidraw0")]);
}

#[test]
fn enumerate_without_a_match_is_empty() {
    let catalog = DeviceCatalog::new(vec![
        device(0x1234, 0x5678, "a"),
        device(0x9999, 0x1111, "b"),
    ]);
    assert_eq!(catalog.enumerate(DeviceFilter::new(0x1234, 0x1111)), vec![]);
    assert_eq!(DeviceCatalog::new(vec![]).enumerate(DeviceFilter::new(1, 2)), vec![]);
}

#[test]
fn enumerate_needs_both_identifiers_to_match() {
    let catalog = DeviceCatalog::new(vec![
        device(0x1234, 0x0001, "vendor only"),
        device(0x0001, 0x5678, "product only"),
        device(0x5678, 0x1234, "swapped"),
        device(0x1234, 0x5678, "both"),
    ]);
    let found = catalog.enumerate(DeviceFilter::new(0x1234, 0x5678));
    assert_eq!(found.len(), 1);
    assert_eq!(found[0].path(), "both");
}

#[test]
fn enumerate_keeps_the_order_of_the_snapshot() {
    let catalog = DeviceCatalog::new(vec![
        device(1, 2, "first"),
        device(3, 4, "other"),
        device(1, 2, "second"),
        device(1, 2, "third"),
    ]);
    let found = catalog.enumerate(DeviceFilter::new(1, 2));
    let paths: Vec<&str> = found.iter().map(|d| d.path()).collect();
    assert_eq!(paths, vec!["first", "second", "third"]);
    assert_eq!(catalog.len(), 4);
}

#[test]
fn a_descriptor_gives_back_what_it_was_made_of() {
    let named = DeviceDescriptor::new(0x05E0, 0x1200, Some("Scanner".to_string()), "p".to_string());
    assert_eq!(named.vendor_id(), 0x05E0);
    assert_eq!(named.product_id(), 0x1200);
    assert_eq!(named.product_string(), Some("Scanner"));
    assert_eq!(named.path(), "p");
    assert_eq!(device(1, 2, "q").product_string(), None);
}

#[test]
fn a_cloned_descriptor_is_equal_to_its_source() {
    let named = DeviceDescriptor::new(7, 8, Some("Scanner".to_string()), "p".to_string());
    assert_eq!(named.clone(), named);
    assert_eq!(device(1, 2, "q").clone(), device(1, 2, "q"));
}

#[test]
fn a_filter_matches_on_vendor_and_product() {
    let filter = DeviceFilter::new(0x1234, 0x5678);
    assert!(filter.matches(&device(0x1234, 0x5678, "")));
    assert!(!filter.matches(&device(0x1234, 0x5679, "")));
    assert!(!filter.matches(&device(0x1235, 0x5678, "")));
}

#[test]
fn a_filter_from_configuration_takes_sixteen_bit_identifiers() {
    assert_eq!(
        DeviceFilter::from_config(0x1234, 0x5678),
        Some(DeviceFilter { vendor_id: 0x1234, product_id: 0x5678 })
    );
    assert_eq!(
        DeviceFilter::from_config(0, 0xFFFF),
        Some(DeviceFilter { vendor_id: 0, product_id: 0xFFFF })
    );
}

#[test]
fn a_filter_from_configuration_refuses_wider_identifiers() {
    assert_eq!(DeviceFilter::from_config(0x1_0000, 0x5678), None);
    assert_eq!(DeviceFilter::from_config(0x1234, 0x1_0000), None);
    assert_eq!(DeviceFilter::from_config(u64::MAX, u64::MAX), None);
}
