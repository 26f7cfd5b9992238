use queue_bot::buttons::{
    classify_component_button, classify_match_button, eq_ignore_ascii_case, leaver_check_button_id,
    map_button_id, parse_u32, parse_u64, strip_prefix, team_button_id, ComponentButton, MatchButton,
};
use queue_bot::text::{push_i64, push_mentions, push_u64, MentionKind};

#[test]
fn decimal_numbers() {
    let mut s = String::new();
    push_u64(&mut s, 0);
    s.push(' ');
    push_u64(&mut s, 1234567890);
    s.push(' ');
    push_u64(&mut s, u64::MAX);
    assert_eq!(s, "0 1234567890 18446744073709551615");
    let mut t = String::new();
    push_i64(&mut t, -42);
    t.push(' ');
    push_i64(&mut t, i64::MIN);
    assert_eq!(t, "-42 -9223372036854775808");
}

#[test]
fn mentions_of_each_kind() {
    let mut s = String::new();
    push_mentions(&mut s, MentionKind::User, &vec![1, 22], ", ");
    assert_eq!(s, "<@1>, <@22>");
    let mut c = String::new();
    push_mentions(&mut c, MentionKind::Channel, &vec![5], ", ");
    assert_eq!(c, "<#5>");
    let mut r = String::new();
    push_mentions(&mut r, MentionKind::Role, &vec![], ", ");
    assert_eq!(r, "");
    push_mentions(&mut r, MentionKind::Role, &vec![7, 8], "|");
    assert_eq!(r, "<@&7>|<@&8>");
}

#[test]
fn numbers_read_as_rust_reads_them() {
    assert_eq!(parse_u32("42"), Some(42));
    assert_eq!(parse_u32("+7"), Some(7));
    assert_eq!(parse_u32("4294967295"), Some(u32::MAX));
    assert_eq!(parse_u32("4294967296"), None);
    assert_eq!(parse_u32(""), None);
    assert_eq!(parse_u32("+"), None);
    assert_eq!(parse_u32("-1"), None);
    assert_eq!(parse_u32("1a"), None);
    assert_eq!(parse_u64("18446744073709551615"), Some(u64::MAX));
    assert_eq!(parse_u64("18446744073709551616"), None);
    for s in ["0", "+12", "99x", "", "123456789012"] {
        assert_eq!(parse_u32(s), s.parse::<u32>().ok(), "{}", s);
    }
}

#[test]
fn prefixes_and_case() {
    assert_eq!(strip_prefix("map_Dust", "map_"), Some("Dust".to_string()));
    assert_eq!(strip_prefix("map", "map_"), None);
    assert_eq!(strip_prefix("mäp_x", "mäp_"), Some("x".to_string()));
    assert!(eq_ignore_ascii_case("TiE", "tie"));
    assert!(!eq_ignore_ascii_case("ties", "tie"));
}

#[test]
fn match_buttons_are_recognised() {
    assert!(matches!(classify_match_button("Volunteer_Host"), MatchButton::VolunteerHost));
    assert!(matches!(classify_match_button("map_Nuke"), MatchButton::MapVote(m) if m == "Nuke"));
    assert!(matches!(classify_match_button("team_3"), MatchButton::TeamVote(t) if t == "3"));
    assert!(matches!(classify_match_button("TIE"), MatchButton::Tie));
    assert!(matches!(classify_match_button("cancel"), MatchButton::Cancel));
    assert!(matches!(classify_match_button("status"), MatchButton::Other));
}

#[test]
fn other_buttons_are_recognised() {
    assert!(matches!(classify_component_button("join_party_\"x\""), ComponentButton::JoinParty(p) if p == "\"x\""));
    assert!(matches!(classify_component_button("reject_party_y"), ComponentButton::RejectParty(p) if p == "y"));
    assert!(matches!(classify_component_button("leaver_check_9"), ComponentButton::LeaverCheck(p) if p == "9"));
    assert!(matches!(classify_component_button("queue_check"), ComponentButton::QueueCheck));
    assert!(matches!(classify_component_button("queue"), ComponentButton::Queue));
    assert!(matches!(classify_component_button("leave_queue"), ComponentButton::LeaveQueue));
    assert!(matches!(classify_component_button("afk_leave_queue_q"), ComponentButton::AfkLeaveQueue(q) if q == "q"));
    assert!(matches!(classify_component_button("status"), ComponentButton::Status));
    assert!(matches!(classify_component_button("Queue"), ComponentButton::Other));
}

#[test]
fn button_ids_read_back() {
    let id = team_button_id(4);
    assert_eq!(id, "team_4");
    match classify_match_button(&id) {
        MatchButton::TeamVote(t) => assert_eq!(parse_u32(&t), Some(4)),
        _ => panic!("not a team vote"),
    }
    assert_eq!(map_button_id("Ancient"), "map_Ancient");
    assert!(matches!(classify_match_button(&map_button_id("Ancient")), MatchButton::MapVote(m) if m == "Ancient"));
    let leaver = leaver_check_button_id(123456789012345);
    assert_eq!(leaver, "leaver_check_123456789012345");
    match classify_component_button(&leaver) {
        ComponentButton::LeaverCheck(p) => assert_eq!(parse_u64(&p), Some(123456789012345)),
        _ => panic!("not a leaver check"),
    }
}
