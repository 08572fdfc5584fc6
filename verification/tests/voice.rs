use lan_chat::voice::{
    conversion, device_names, device_options, picked, resolve_device, selected_text, Conversion,
    DeviceChoice, Direction, SampleFormat, Voice,
};

fn found(names: &[Option<&str>]) -> Vec<Option<String>> {
    names.iter().map(|n| n.map(|s| s.to_string())).collect()
}

#[test]
fn nameless_devices_are_not_offered() {
    assert_eq!(device_names(&found(&[Some("a"), None, Some("b")])), vec!["a", "b"]);
}

#[test]
fn devices_are_found_by_name() {
    let list = found(&[None, Some("a"), Some("b"), Some("a")]);
    let a = resolve_device(Direction::Input, &Some("a".into()), &list, false);
    assert_eq!(a, Ok(DeviceChoice::Listed(1)));
    let none = resolve_device(Direction::Input, &None, &list, true);
    assert_eq!(none, Ok(DeviceChoice::SystemDefault));
}

#[test]
fn missing_devices_are_reported() {
    let list = found(&[Some("a")]);
    assert_eq!(
        resolve_device(Direction::Input, &Some("mic".into()), &list, true),
        Err("input device 'mic' not found".into())
    );
    assert_eq!(
        resolve_device(Direction::Output, &Some("x".into()), &list, true),
        Err("output device 'x' not found".into())
    );
    assert_eq!(
        resolve_device(Direction::Input, &None, &list, false),
        Err("no default input device".into())
    );
    assert_eq!(
        resolve_device(Direction::Output, &None, &list, false),
        Err("no default output device".into())
    );
}

#[test]
fn three_formats_are_supported() {
    assert_eq!(conversion(Direction::Input, &SampleFormat::F32), Ok(Conversion::F32));
    assert_eq!(conversion(Direction::Input, &SampleFormat::I16), Ok(Conversion::I16));
    assert_eq!(conversion(Direction::Output, &SampleFormat::U16), Ok(Conversion::U16));
    assert_eq!(
        conversion(Direction::Output, &SampleFormat::Other("F64".into())),
        Err("unsupported output sample format: F64".into())
    );
}

#[test]
fn the_microphone_needs_a_stream() {
    let mut v = Voice::new(44_100);
    assert!(!v.mic_on() && !v.capturing());
    assert_eq!(v.out_rate(), 44_100);
    assert!(v.needs_capture(true) && !v.needs_capture(false));
    assert_eq!(v.set_mic(true, Err("busy".into())), Err("busy".into()));
    assert!(!v.mic_on());
    assert_eq!(v.set_mic(true, Ok(())), Ok(()));
    assert!(v.mic_on() && v.capturing() && !v.needs_capture(true));
    // Already open: nothing has to be opened, so nothing can fail.
    assert_eq!(v.set_mic(true, Err("ignored".into())), Ok(()));
    assert_eq!(v.set_mic(false, Err("ignored".into())), Ok(()));
    assert!(!v.mic_on() && !v.capturing());
}

#[test]
fn another_microphone_replaces_the_stream() {
    let mut v = Voice::new(48_000);
    assert_eq!(v.set_input(Some("a".into()), Err("ignored".into())), Ok(()));
    assert_eq!(*v.input_name(), Some("a".to_string()));
    v.set_mic(true, Ok(())).unwrap();
    assert_eq!(v.set_input(Some("b".into()), Err("gone".into())), Err("gone".into()));
    assert_eq!(*v.input_name(), Some("b".to_string()));
    assert!(v.mic_on() && !v.capturing() && v.needs_capture(true));
    assert_eq!(v.set_input(None, Ok(())), Ok(()));
    assert!(v.capturing());
    assert_eq!(*v.input_name(), None);
}

#[test]
fn speakers_stay_if_the_new_ones_fail() {
    let mut v = Voice::new(48_000);
    assert_eq!(v.set_output(Some("hdmi".into()), Err("no".into())), Err("no".into()));
    assert_eq!(*v.output_name(), None);
    assert_eq!(v.out_rate(), 48_000);
    assert_eq!(v.set_output(Some("hdmi".into()), Ok(96_000)), Ok(()));
    assert_eq!(*v.output_name(), Some("hdmi".to_string()));
    assert_eq!(v.out_rate(), 96_000);
}

#[test]
fn what_is_picked_is_selected() {
    let devices = vec!["a".to_string(), "b".to_string()];
    for k in 0..3 {
        let current = picked(k, &devices);
        let options = device_options(&current, &devices);
        let labels: Vec<&str> = options.iter().map(|o| o.label.as_str()).collect();
        assert_eq!(labels, vec!["Default", "a", "b"]);
        for (i, o) in options.iter().enumerate() {
            assert_eq!(o.selected, i == k);
        }
        assert_eq!(selected_text(&current), options[k].label);
    }
}
