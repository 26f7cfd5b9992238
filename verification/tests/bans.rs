use queue_bot::bans::{ban_length, get_ban_text, BanData, BanList};
use queue_bot::commands::{ban_audit, unban_audit, unban_reply};
use queue_bot::time::{current_time, Timestamp};

fn at(secs: i64) -> Timestamp {
    Timestamp { secs, nanos: 0 }
}

#[test]
fn ban_texts() {
    let plain = BanData { end_time: None, reason: None, shadow_ban: false };
    assert_eq!(get_ban_text(5, &plain), "<@5> banned");
    let full = BanData { end_time: Some(at(1700000000)), reason: Some("griefing".to_string()), shadow_ban: true };
    assert_eq!(get_ban_text(5, &full), "<@5> shadow banned for griefing until <t:1700000000:f>");
}

#[test]
fn a_ban_lasts_the_days_and_hours_given() {
    let mut bans = BanList::new();
    let reply = bans.ban_player(7, Some("afk".to_string()), Some(1), Some(2), None, at(1000));
    assert!(!reply.previously_banned);
    assert_eq!(reply.ban_text, "<@7> banned for afk until <t:94600:f>");
    assert_eq!(reply.response, reply.ban_text);
    let again = bans.ban_player(7, None, None, None, Some(true), at(2000));
    assert!(again.previously_banned);
    assert_eq!(again.response, "Ban updated: <@7> shadow banned");
}

#[test]
fn ended_bans_are_dropped() {
    let mut bans = BanList::new();
    bans.ban_player(1, None, None, Some(1), None, at(0));
    bans.ban_player(2, None, None, None, None, at(0));
    bans.ban_player(3, None, Some(1), None, None, at(0));
    bans.update_bans(at(3600));
    assert!(!bans.is_banned(1));
    assert!(bans.is_banned(2));
    assert!(bans.is_banned(3));
    bans.update_bans(Timestamp { secs: 86399, nanos: 999_999_999 });
    assert!(bans.is_banned(3));
    bans.update_bans(at(86400));
    assert!(!bans.is_banned(3));
}

#[test]
fn unbanning() {
    let mut bans = BanList::new();
    bans.ban_player(4, None, None, None, None, at(0));
    assert!(bans.unban_player(4, at(10)));
    assert!(!bans.unban_player(4, at(10)));
    assert_eq!(unban_reply(4, true), "Unbanned <@4>.");
    assert_eq!(unban_reply(4, false), "<@4> was not banned.");
    assert_eq!(unban_audit(1, 4), "<@1> unbanned <@4>.");
    assert_eq!(ban_audit(1, "<@4> banned"), "<@1>: <@4> banned");
}

#[test]
fn only_visible_bans_refuse_a_queue() {
    let mut bans = BanList::new();
    bans.ban_player(1, Some("toxic".to_string()), None, None, None, at(0));
    bans.ban_player(2, None, None, None, None, at(0));
    bans.ban_player(3, None, None, None, Some(true), at(0));
    assert_eq!(bans.queue_refusal(1), Some("Cannot queue because you're banned for toxic".to_string()));
    assert_eq!(bans.queue_refusal(2), Some("Cannot queue because you're banned".to_string()));
    assert_eq!(bans.queue_refusal(3), None);
    assert_eq!(bans.queue_refusal(4), None);
}

#[test]
fn ban_list_text() {
    let mut bans = BanList::new();
    assert_eq!(bans.list_text(), "# Player Bans\n");
    bans.ban_player(1, None, None, None, None, at(0));
    bans.ban_player(2, None, None, None, Some(true), at(0));
    let text = bans.list_text();
    assert!(text == "# Player Bans\n<@1> banned\n<@2> shadow banned" || text == "# Player Bans\n<@2> shadow banned\n<@1> banned");
}

#[test]
fn a_ban_from_the_clock_ends_later() {
    let now = current_time();
    assert!(now.nanos < 2_000_000_000);
    let mut bans = BanList::new();
    let reply = bans.ban_player(9, None, None, Some(1), None, now);
    assert!(reply.ban_text.ends_with(&format!("until <t:{}:f>", now.secs + 3600)));
    assert!(now.secs > 1_600_000_000);
}

#[test]
fn ban_lengths() {
    assert_eq!(ban_length(None, None), 0);
    assert_eq!(ban_length(Some(1), None), 86400);
    assert_eq!(ban_length(Some(2), Some(3)), 2 * 86400 + 3 * 3600);
    assert_eq!(ban_length(Some(u32::MAX), Some(u32::MAX)), 3600 * 25 * u32::MAX as i64);
}
