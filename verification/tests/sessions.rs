use kaspa_resolver::args::RateLimit;
use kaspa_resolver::session::session_id_from_cookie;
use kaspa_resolver::session::validate_passphrase;
use kaspa_resolver::session::Session;
use kaspa_resolver::session::Sessions;
use kaspa_resolver::text::find_char;
use kaspa_resolver::text::parse_u64;
use kaspa_resolver::text::trim;
use kaspa_resolver::text::trim_part;
use kaspa_resolver::tpl::Tpl;

fn table(capacity: usize, ttl: u64, entries: &[(&str, u64)]) -> Sessions {
    let mut s = Sessions::new(capacity, ttl);
    for (key, ts) in entries {
        s.set(key, Session::new(*ts));
    }
    s
}

fn holds(s: &Sessions, keys: &[&str]) -> Vec<bool> {
    keys.iter().map(|k| s.get(k).is_some()).collect()
}

#[test]
fn sessions_are_stored_by_their_identifier() {
    let mut s = Sessions::new(4, 100);
    assert_eq!(s.len(), 0);
    assert_eq!(s.get("a"), None);
    s.set("a", Session::new(10));
    s.set("b", Session::new(20));
    assert_eq!(s.get("a").unwrap().ts(), 10);
    assert_eq!(s.get("b"), Some(Session { ts: 20 }));
    s.set("a", Session::new(30));
    assert_eq!(s.len(), 2);
    assert_eq!(s.get("a").unwrap().ts(), 30);
    s.remove("b");
    s.remove("missing");
    assert_eq!(s.len(), 1);
    assert_eq!(s.get("b"), None);
    assert!(s.touch("a", 99));
    assert!(!s.touch("b", 99));
    assert_eq!(s.get("a").unwrap().ts(), 99);
    assert_eq!(s.len(), 1);
}

#[test]
fn a_session_knows_for_how_long_it_has_been_idle() {
    let mut s = Session::new(100);
    assert_eq!(s.lifetime(100), 0);
    assert_eq!(s.lifetime(160), 60);
    assert_eq!(s.lifetime(50), 0);
    s.touch(150);
    assert_eq!(s.ts(), 150);
    assert_eq!(s.lifetime(160), 10);
}

#[test]
fn cleanup_drops_sessions_that_were_idle_for_too_long() {
    let mut s = table(10, 60, &[("old", 0), ("edge", 40), ("fresh", 41), ("new", 100), ("future", 500)]);
    s.cleanup(100);
    assert_eq!(holds(&s, &["old", "edge", "fresh", "new", "future"]), vec![false, false, true, true, true]);
    assert_eq!(s.len(), 3);
    let mut none = table(10, 0, &[("a", 5)]);
    none.cleanup(5);
    assert_eq!(none.len(), 0);
}

#[test]
fn cleanup_drops_the_oldest_sessions_beyond_the_capacity() {
    let mut s = table(2, 1000, &[("c", 30), ("a", 10), ("d", 40), ("b", 20)]);
    s.cleanup(50);
    assert_eq!(holds(&s, &["a", "b", "c", "d"]), vec![false, false, true, true]);
    assert_eq!(s.len(), 2);
    s.cleanup(50);
    assert_eq!(s.len(), 2);
    let mut ties = table(1, 1000, &[("x", 7), ("y", 7), ("z", 7)]);
    ties.cleanup(8);
    assert_eq!(holds(&ties, &["x", "y", "z"]), vec![false, false, true]);
    let mut empty = table(0, 1000, &[("x", 7), ("y", 8)]);
    empty.cleanup(9);
    assert_eq!(empty.len(), 0);
    let mut mixed = table(1, 10, &[("stale", 0), ("b", 95), ("a", 96)]);
    mixed.cleanup(100);
    assert_eq!(holds(&mixed, &["stale", "b", "a"]), vec![false, false, true]);
}

#[test]
fn the_session_identifier_is_read_from_the_cookie_header() {
    assert_eq!(session_id_from_cookie("session=abc"), Some("abc".to_string()));
    assert_eq!(session_id_from_cookie("a=1; session=abc; b=2"), Some("abc".to_string()));
    assert_eq!(session_id_from_cookie(" session = abc "), Some("abc".to_string()));
    assert_eq!(session_id_from_cookie("session=abc=def"), Some("abc".to_string()));
    assert_eq!(session_id_from_cookie("session="), Some(String::new()));
    assert_eq!(session_id_from_cookie("session=one;session=two"), Some("one".to_string()));
    assert_eq!(session_id_from_cookie("session; session=late"), Some("late".to_string()));
}

#[test]
fn cookie_headers_without_a_session_give_none() {
    assert_eq!(session_id_from_cookie(""), None);
    assert_eq!(session_id_from_cookie("a=1; b=2"), None);
    assert_eq!(session_id_from_cookie("session"), None);
    assert_eq!(session_id_from_cookie("sessions=abc"), None);
    assert_eq!(session_id_from_cookie("x=session=abc"), None);
    assert_eq!(session_id_from_cookie(";;"), None);
}

#[test]
fn a_passphrase_is_checked_against_the_hash_of_its_trimmed_text() {
    let key = xxhash_rust::xxh3::xxh3_64("open sesame".as_bytes());
    assert!(validate_passphrase("open sesame", Some(key)));
    assert!(validate_passphrase("  open sesame\n", Some(key)));
    assert!(!validate_passphrase("open  sesame", Some(key)));
    assert!(!validate_passphrase("open sesame", Some(key + 1)));
    assert!(!validate_passphrase("open sesame", None));
    assert!(validate_passphrase(" \t", Some(0x2d06800538d394c2)));
}

#[test]
fn trimming_and_searching_work_on_characters() {
    assert_eq!(trim("  a b \t\n"), "a b");
    assert_eq!(trim(""), "");
    assert_eq!(trim(" \u{a0}\u{3000} "), "");
    assert_eq!(trim("é"), "é");
    assert_eq!(trim_part(" ab ; cd ", 4, 9), "; cd");
    assert_eq!(trim_part("abc", 1, 1), "");
    assert_eq!(find_char("a=b=c", '=', 0), 1);
    assert_eq!(find_char("a=b=c", '=', 2), 3);
    assert_eq!(find_char("a=b=c", '=', 4), 5);
    assert_eq!(find_char("é=x", '=', 0), 1);
    assert_eq!(find_char("", '=', 0), 0);
}

#[test]
fn numbers_are_read_as_the_standard_library_reads_them() {
    let texts = [
        "", "0", "7", "+7", "+", "-", "-7", "007", "+007", "18446744073709551615",
        "18446744073709551616", "99999999999999999999999", "+18446744073709551615", "1 ", " 1",
        "1+", "1e3", "0x10", "١٢", "12a", "+-1", "1_000",
    ];
    for text in texts {
        assert_eq!(parse_u64(text), text.parse::<u64>().ok());
    }
    assert_eq!(parse_u64("18446744073709551615"), Some(u64::MAX));
    assert_eq!(parse_u64("+42"), Some(42));
    assert_eq!(parse_u64("18446744073709551616"), None);
}

#[test]
fn rate_limits_are_two_numbers_with_a_colon() {
    assert_eq!(RateLimit::parse("10:60"), Ok(RateLimit { requests: 10, period: 60 }));
    assert_eq!(RateLimit::parse("0:0"), Ok(RateLimit { requests: 0, period: 0 }));
    assert_eq!(
        RateLimit::parse("18446744073709551615:1"),
        Ok(RateLimit { requests: u64::MAX, period: 1 })
    );
    assert_eq!("5:7".parse::<RateLimit>(), Ok(RateLimit { requests: 5, period: 7 }));
    assert_eq!(RateLimit::parse("+5:007"), Ok(RateLimit { requests: 5, period: 7 }));
}

#[test]
fn malformed_rate_limits_say_what_is_wrong() {
    let invalid = "invalid rate limit, must be `<requests>:<period>`".to_string();
    assert_eq!(RateLimit::parse(""), Err(invalid.clone()));
    assert_eq!(RateLimit::parse("10"), Err(invalid.clone()));
    assert_eq!(RateLimit::parse(":60"), Err(invalid.clone()));
    assert_eq!(RateLimit::parse("10:"), Err(invalid.clone()));
    assert_eq!(RateLimit::parse(":"), Err(invalid));
    assert_eq!(
        RateLimit::parse("ten:60"),
        Err("Unable to parse number of requests, the value must be an integer, supplied: \"ten\"".to_string())
    );
    assert_eq!(
        RateLimit::parse("10:6\"0"),
        Err("Unable to parse period, the value must be an integer specifying number of seconds, supplied: \"6\\\"0\"".to_string())
    );
    assert_eq!(
        RateLimit::parse("18446744073709551616:1"),
        Err("Unable to parse number of requests, the value must be an integer, supplied: \"18446744073709551616\"".to_string())
    );
    assert_eq!(
        RateLimit::parse("1:2:3"),
        Err("Unable to parse period, the value must be an integer specifying number of seconds, supplied: \"2:3\"".to_string())
    );
    assert!(RateLimit::parse("-1:5").is_err());
    assert!(RateLimit::parse("+:5").is_err());
    assert!(RateLimit::parse("++1:5").is_err());
    assert!(RateLimit::parse("1:\u{663}").is_err());
    assert!(RateLimit::parse("1:2 ").is_err());
    assert!(RateLimit::parse("1 :5").is_err());
}

#[test]
fn template_contexts_can_be_made_from_pairs() {
    let tpl = Tpl::from_pairs(vec![
        ("a".to_string(), "1".to_string()),
        ("b".to_string(), "2".to_string()),
        ("a".to_string(), "3".to_string()),
    ]);
    assert_eq!(tpl.render("${a}${b}"), "32");
}
