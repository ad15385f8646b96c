use kaspa_resolver::text::contains_char;
use kaspa_resolver::text::format_decimal;
use kaspa_resolver::text::format_hex16;
use kaspa_resolver::text::format_hex_bytes;
use kaspa_resolver::text::replace_char;
use kaspa_resolver::text::same_text;
use kaspa_resolver::text::starts_with;
use kaspa_resolver::tpl::Tpl;

#[test]
fn hex16_pads_to_sixteen_digits() {
    assert_eq!(format_hex16(0), "0000000000000000");
    assert_eq!(format_hex16(0x42), "0000000000000042");
    assert_eq!(format_hex16(u64::MAX), "ffffffffffffffff");
    assert_eq!(format_hex16(0x0123_4567_89ab_cdef), "0123456789abcdef");
    assert_eq!(format_hex16(0x8000_0000_0000_0000), "8000000000000000");
}

#[test]
fn hex_bytes_writes_two_digits_per_byte() {
    assert_eq!(format_hex_bytes(&vec![]), "");
    assert_eq!(format_hex_bytes(&vec![0x00, 0x0f, 0xf0, 0xff, 0xa5]), "000ff0ffa5");
}

#[test]
fn decimal_has_no_leading_zeros() {
    assert_eq!(format_decimal(0), "0");
    assert_eq!(format_decimal(7), "7");
    assert_eq!(format_decimal(10), "10");
    assert_eq!(format_decimal(1024), "1024");
    assert_eq!(format_decimal(u64::MAX), "18446744073709551615");
}

#[test]
fn prefix_and_equality_tests_compare_characters() {
    assert!(starts_with("wss://host", "wss://"));
    assert!(!starts_with("ws://host", "wss://"));
    assert!(starts_with("abc", ""));
    assert!(!starts_with("ws", "wss://"));
    assert!(starts_with("é-host", "é"));
    assert!(same_text("abc", "abc"));
    assert!(!same_text("abc", "abd"));
    assert!(!same_text("abc", "ab"));
    assert!(contains_char("*.example.org", '*'));
    assert!(!contains_char("n.example.org", '*'));
}

#[test]
fn replace_char_replaces_every_occurrence() {
    assert_eq!(replace_char("*.example.org", '*', "n1"), "n1.example.org");
    assert_eq!(replace_char("a*b*c", '*', "--"), "a--b--c");
    assert_eq!(replace_char("plain", '*', "x"), "plain");
    assert_eq!(replace_char("**", '*', ""), "");
}

#[test]
fn render_replaces_bound_placeholders() {
    let mut tpl = Tpl::new();
    tpl.insert("fqdn", "n1.example.org");
    tpl.insert("service", "kaspa");
    assert_eq!(tpl.render("wss://${fqdn}/${service}"), "wss://n1.example.org/kaspa");
    assert_eq!(tpl.render("${fqdn}${fqdn}"), "n1.example.orgn1.example.org");
    assert_eq!(tpl.render(""), "");
    assert_eq!(tpl.render("no placeholders"), "no placeholders");
}

#[test]
fn render_allows_white_space_inside_the_braces() {
    let mut tpl = Tpl::new();
    tpl.insert("a_1", "X");
    assert_eq!(tpl.render("<${ a_1 }>"), "<X>");
    assert_eq!(tpl.render("<${\ta_1\n}>"), "<X>");
    assert_eq!(tpl.render("<${a_1 }>"), "<X>");
}

#[test]
fn render_keeps_what_is_not_a_bound_placeholder() {
    let mut tpl = Tpl::new();
    tpl.insert("a", "X");
    assert_eq!(tpl.render("${b}"), "${b}");
    assert_eq!(tpl.render("${ b }${a}"), "${ b }X");
    assert_eq!(tpl.render("$a {a} ${} ${a"), "$a {a} ${} ${a");
    assert_eq!(tpl.render("${a-b}"), "${a-b}");
    assert_eq!(tpl.render("${a b}"), "${a b}");
    assert_eq!(tpl.render("$${a}"), "$X");
    assert_eq!(tpl.render("${${a}}"), "${X}");
    assert_eq!(tpl.render("é${a}ü"), "éXü");
}

#[test]
fn later_bindings_override_earlier_ones() {
    let mut tpl = Tpl::new();
    assert_eq!(tpl.get("k"), None);
    tpl.insert("k", "first");
    assert_eq!(tpl.get("k"), Some("first"));
    tpl.insert("k", "second");
    assert_eq!(tpl.get("k"), Some("second"));
    assert_eq!(tpl.render("${k}"), "second");
}
