use altc_gui::version::{all, version_options, LiveVersion};

#[test]
fn version_numbers() {
    assert_eq!(LiveVersion::Live10.as_u8(), 10);
    assert_eq!(LiveVersion::Live11.as_u8(), 11);
    assert_eq!(LiveVersion::Live12.as_u8(), 12);
}

#[test]
fn from_u8_knows_only_three_versions() {
    assert_eq!(LiveVersion::from_u8(10), Some(LiveVersion::Live10));
    assert_eq!(LiveVersion::from_u8(11), Some(LiveVersion::Live11));
    assert_eq!(LiveVersion::from_u8(12), Some(LiveVersion::Live12));
    for n in 0..=255u8 {
        if !(10..=12).contains(&n) {
            assert_eq!(LiveVersion::from_u8(n), None);
        }
    }
}

#[test]
fn number_round_trip() {
    for v in all() {
        assert_eq!(LiveVersion::from_u8(v.as_u8()), Some(v));
    }
}

#[test]
fn all_versions_oldest_first() {
    assert_eq!(all(), vec![LiveVersion::Live10, LiveVersion::Live11, LiveVersion::Live12]);
}

#[test]
fn option_values_and_labels() {
    assert_eq!(LiveVersion::Live10.option_value(), "10");
    assert_eq!(LiveVersion::Live12.option_value(), "12");
    assert_eq!(LiveVersion::Live11.label(), "Live 11");
    assert_eq!(LiveVersion::Live12.label(), "Live 12");
}

#[test]
fn option_value_reads_back() {
    for v in all() {
        assert_eq!(LiveVersion::from_option_value(&v.option_value()), Some(v));
    }
    assert_eq!(LiveVersion::from_option_value("+11"), Some(LiveVersion::Live11));
}

#[test]
fn unknown_option_values() {
    assert_eq!(LiveVersion::from_option_value("9"), None);
    assert_eq!(LiveVersion::from_option_value("13"), None);
    assert_eq!(LiveVersion::from_option_value("266"), None);
    assert_eq!(LiveVersion::from_option_value("Live 12"), None);
    assert_eq!(LiveVersion::from_option_value(""), None);
}

#[test]
fn options_mark_exactly_the_current_version() {
    for current in all() {
        let opts = version_options(current);
        assert_eq!(opts.len(), 3);
        assert_eq!(opts.iter().filter(|o| o.selected).count(), 1);
        for (o, v) in opts.iter().zip(all()) {
            assert_eq!(o.version, v);
            assert_eq!(o.selected, v == current);
            assert_eq!(o.value, v.option_value());
            assert_eq!(o.label, v.label());
        }
    }
}

#[test]
fn options_for_live_11() {
    let opts = version_options(LiveVersion::Live11);
    let values: Vec<&str> = opts.iter().map(|o| o.value.as_str()).collect();
    let labels: Vec<&str> = opts.iter().map(|o| o.label.as_str()).collect();
    let selected: Vec<bool> = opts.iter().map(|o| o.selected).collect();
    assert_eq!(values, vec!["10", "11", "12"]);
    assert_eq!(labels, vec!["Live 10", "Live 11", "Live 12"]);
    assert_eq!(selected, vec![false, true, false]);
}
