use gts_port_cfg::sorting::sorted_devices;
use gts_port_cfg::text::{numbered, push_decimal, str_lt};
use gts_port_cfg::Device;

fn named(name: &str, link: &str) -> Device {
    Device { name: name.to_string(), link: link.to_string() }
}

#[test]
fn decimal_numerals() {
    assert_eq!(numbered("link", 0), "link0");
    assert_eq!(numbered("link", 7), "link7");
    assert_eq!(numbered("link", 10), "link10");
    assert_eq!(numbered("ens", 109), "ens109");
    assert_eq!(numbered("", 1000), "1000");
    assert_eq!(numbered("", u128::MAX), "340282366920938463463374607431768211455");
}

#[test]
fn decimal_numerals_are_appended() {
    let mut out = String::from("p");
    push_decimal(&mut out, 42);
    push_decimal(&mut out, 0);
    assert_eq!(out, "p420");
}

#[test]
fn names_are_ordered_by_characters() {
    assert!(str_lt("a", "b"));
    assert!(!str_lt("b", "a"));
    assert!(!str_lt("a", "a"));
    assert!(str_lt("", "a"));
    assert!(!str_lt("a", ""));
    assert!(!str_lt("", ""));
    assert!(str_lt("ens1", "ens10"));
    assert!(str_lt("ens10", "ens7"));
    assert!(str_lt("Z", "a"));
    assert!(str_lt("linkA", "linkB"));
    assert!(str_lt("z", "\u{e9}"));
    assert!(str_lt("\u{e9}", "\u{1f600}"));
}

#[test]
fn names_are_ordered_as_strings_are() {
    let names = ["", "a", "ab", "b", "ens10", "ens7", "ens8", "Link", "link", "\u{e9}t\u{e9}"];
    for a in names {
        for b in names {
            assert_eq!(str_lt(a, b), a < b);
        }
    }
}

#[test]
fn devices_are_sorted_by_name() {
    let devices = vec![
        named("ens8", "b"),
        named("ens10", "d"),
        named("ens7", "a"),
        named("ens9", "c"),
    ];
    assert_eq!(
        sorted_devices(&devices),
        vec![named("ens10", "d"), named("ens7", "a"), named("ens8", "b"), named("ens9", "c")]
    );
    assert!(sorted_devices(&Vec::new()).is_empty());
}

#[test]
fn devices_of_one_name_keep_their_order() {
    let devices = vec![named("ens7", "second"), named("ens6", "x"), named("ens7", "first")];
    assert_eq!(
        sorted_devices(&devices),
        vec![named("ens6", "x"), named("ens7", "second"), named("ens7", "first")]
    );
}
