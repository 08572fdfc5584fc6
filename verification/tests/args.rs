use lan_chat::args::{parse_args, phone_name, Args};
use lan_chat::net::{DEFAULT_GROUP, DEFAULT_PORT};

fn parse(words: &[&str]) -> Option<Args> {
    let words: Vec<String> = words.iter().map(|w| w.to_string()).collect();
    let groups = words
        .iter()
        .map(|w| if w == "ff15::1" { Some([0xff15, 0, 0, 0, 0, 0, 0, 1]) } else { None })
        .collect();
    parse_args(&words, &groups, "host".to_string())
}

#[test]
fn defaults_hold_without_words() {
    let args = parse(&[]).unwrap();
    assert_eq!(args.name, "host");
    assert_eq!(args.group, DEFAULT_GROUP);
    assert_eq!(args.port, DEFAULT_PORT);
    assert_eq!(args.iface, 0);
}

#[test]
fn words_and_options() {
    let args = parse(&["alice", "--iface", "2", "--group", "ff15::1", "--port", "+99"]).unwrap();
    assert_eq!(args.name, "alice");
    assert_eq!(args.iface, 2);
    assert_eq!(args.group, [0xff15, 0, 0, 0, 0, 0, 0, 1]);
    assert_eq!(args.port, 99);
    // The last name counts; one dash is no option.
    assert_eq!(parse(&["alice", "bob", "-x"]).unwrap().name, "-x");
    assert_eq!(parse(&["-"]).unwrap().name, "-");
    assert_eq!(parse(&[""]).unwrap().name, "");
}

#[test]
fn bad_values_give_the_defaults() {
    let args = parse(&["--iface", "x", "--port", "65536"]).unwrap();
    assert_eq!(args.iface, 0);
    assert_eq!(args.port, DEFAULT_PORT);
    assert_eq!(parse(&["--iface", "3", "--iface", "-1"]).unwrap().iface, 0);
    assert_eq!(parse(&["--iface", "4294967295"]).unwrap().iface, u32::MAX);
    assert_eq!(parse(&["--iface", "4294967296"]).unwrap().iface, 0);
    assert_eq!(parse(&["--port", "+"]).unwrap().port, DEFAULT_PORT);
    assert_eq!(parse(&["--port", ""]).unwrap().port, DEFAULT_PORT);
    assert_eq!(parse(&["--port", "0000000000000000000000080"]).unwrap().port, 80);
    // A bad address changes nothing.
    let args = parse(&["--group", "ff15::1", "--group", "nonsense"]).unwrap();
    assert_eq!(args.group, [0xff15, 0, 0, 0, 0, 0, 0, 1]);
}

#[test]
fn values_are_taken_whatever_they_look_like() {
    // The value of an option is never a name, an option or a call for help.
    let args = parse(&["--iface", "--help", "x"]).unwrap();
    assert_eq!(args.name, "x");
    // Without a value an option does nothing.
    assert_eq!(parse(&["a", "--port"]).unwrap().port, DEFAULT_PORT);
    assert_eq!(parse(&["a", "--iface"]).unwrap().iface, 0);
    assert_eq!(parse(&["a", "--group"]).unwrap().group, DEFAULT_GROUP);
}

#[test]
fn help_and_unknown_options() {
    assert!(parse(&["a", "--help"]).is_none());
    assert!(parse(&["-h"]).is_none());
    assert_eq!(parse(&["--verbose", "a", "--"]).unwrap().name, "a");
}

#[test]
fn phones_get_a_telling_name() {
    assert_eq!(phone_name(String::new()), "android");
    assert_eq!(phone_name("localhost".into()), "android");
    assert_eq!(phone_name("pixel".into()), "pixel");
}
