use kwa::background::{marks_unread, ChannelPush, PushStep, outbox_channel, push_round_done, PushOutcome, UnreadChannel, UnreadGroup, UnreadState};
use kwa::chat_time::{ChatTime, ChatTimeId};
use kwa::kwaurl::{invite_kind, kwa_url_frame, kwa_url_unframe, KwaUrl, KwaUrlIdentityInvite, KwaUrlKind};
use kwa::localdata::{
    channel_label, combine_local_values, delete_value, ensure_value, group_channels, merge_api_values, too_many_channels,
    touch_values, LocalValue,
};
use kwa::native::{channel_tree, DbAccountId, DbChannelGroupId, DbIdentity, Txr};
use kwa::shared::{AccountId, ChannelGroupId, ChannelId, Identity, MessageClientId, QualifiedChannelId};
use kwa::stamp::Stamp;
use kwa::steal;
use kwa::text::{parse_i64, parse_u64, parse_usize, u64_text, usize_text, IntErrorKind};
use kwa::wire::{ActivityOffset, ChannelGroupRes, ChannelOrChannelGroup, ChannelRes, IdentityRes, SnapOffset};
use kwa::wire_shared::InternalChannelId;

fn ident(s: &str) -> Identity {
    Identity { text: s.to_string() }
}

fn qc(s: &str, n: u64) -> QualifiedChannelId {
    QualifiedChannelId { identity: ident(s), channel: ChannelId(n) }
}

fn stamp(n: i128) -> Stamp {
    Stamp::from_nanos(n).unwrap()
}

#[test]
fn decimal_text() {
    assert_eq!(u64_text(0), "0");
    assert_eq!(u64_text(1234567890), "1234567890");
    assert_eq!(u64_text(u64::MAX), "18446744073709551615");
    assert_eq!(usize_text(42), "42");
}

#[test]
fn decimal_parse() {
    assert_eq!(parse_u64("00042").unwrap(), 42);
    assert_eq!(parse_u64("+7").unwrap(), 7);
    assert_eq!(parse_u64("18446744073709551615").unwrap(), u64::MAX);
    assert!(matches!(parse_u64(""), Err(IntErrorKind::Empty)));
    assert!(matches!(parse_u64("+"), Err(IntErrorKind::InvalidDigit)));
    assert!(matches!(parse_u64("-1"), Err(IntErrorKind::InvalidDigit)));
    assert!(matches!(parse_u64("1a"), Err(IntErrorKind::InvalidDigit)));
    assert!(matches!(parse_u64("18446744073709551616"), Err(IntErrorKind::PosOverflow)));
    assert_eq!(parse_usize("9").unwrap(), 9);
    assert_eq!(parse_i64("-9223372036854775808").unwrap(), i64::MIN);
    assert!(matches!(parse_i64("-9223372036854775809"), Err(IntErrorKind::NegOverflow)));
    assert!(matches!(parse_i64("-"), Err(IntErrorKind::InvalidDigit)));
}

#[test]
fn decimal_agrees_with_std() {
    for s in ["0", "17", "+3", "-3", "", "x", "99999999999999999999", "-0", "+"] {
        let mine = parse_u64(s).map_err(|e| e.message());
        let std = s.parse::<u64>().map_err(|e| e.to_string());
        assert_eq!(mine, std, "input {:?}", s);
        let mine = parse_i64(s).map_err(|e| e.message());
        let std = s.parse::<i64>().map_err(|e| e.to_string());
        assert_eq!(mine, std, "input {:?}", s);
    }
    for n in [0u64, 9, 10, 99, 100, 65535, u64::MAX] {
        assert_eq!(u64_text(n), n.to_string());
        assert_eq!(parse_u64(&u64_text(n)).unwrap(), n);
    }
}

#[test]
fn internal_channel_id_from_str() {
    assert_eq!(InternalChannelId::from_str("-12").unwrap().0, -12);
    assert_eq!(InternalChannelId::from_str("abc").err().unwrap(), "invalid digit found in string");
}

#[test]
fn kwa_url_written() {
    assert_eq!(kwa_url_frame(KwaUrlKind::IdentityInvite, "identity=a&code=b"), "kwa:in/i?identity=a&code=b");
    assert_eq!(kwa_url_frame(KwaUrlKind::ChannelInvite, "q"), "kwa:in/c?q");
    assert_eq!(kwa_url_frame(KwaUrlKind::Channel, "q"), "kwa:c?q");
    assert_eq!(kwa_url_frame(KwaUrlKind::Message, ""), "kwa:m?");
}

#[test]
fn kwa_url_read() {
    let p = kwa_url_unframe("kwa:in/c?channel=x&code=y").unwrap();
    assert_eq!(p.kind, KwaUrlKind::ChannelInvite);
    assert_eq!(p.query, "channel=x&code=y");
    assert_eq!(p.body, "in/c?channel=x&code=y");
    let p = kwa_url_unframe("kwa:m?a?b").unwrap();
    assert_eq!(p.kind, KwaUrlKind::Message);
    assert_eq!(p.query, "a?b");
}

#[test]
fn kwa_url_roundtrip_each_kind() {
    for k in [KwaUrlKind::IdentityInvite, KwaUrlKind::ChannelInvite, KwaUrlKind::Channel, KwaUrlKind::Message] {
        let s = kwa_url_frame(k, "x=1");
        let p = kwa_url_unframe(&s).unwrap();
        assert_eq!(p.kind, k);
        assert_eq!(p.query, "x=1");
    }
}

#[test]
fn kwa_url_errors() {
    assert_eq!(kwa_url_unframe("http://x").err().unwrap(), "[http://x] is missing prefix [kwa:]");
    assert_eq!(kwa_url_unframe("kwa:in/i").err().unwrap(), "[in/i] is missing [?] and suffix");
    assert_eq!(kwa_url_unframe("kwa:zz?x").err().unwrap(), "Unrecognized kwa url prefix [zz]");
}

#[test]
fn invite_kinds() {
    assert_eq!(invite_kind(KwaUrlKind::IdentityInvite).unwrap(), KwaUrlKind::IdentityInvite);
    assert_eq!(invite_kind(KwaUrlKind::ChannelInvite).unwrap(), KwaUrlKind::ChannelInvite);
    assert_eq!(invite_kind(KwaUrlKind::Channel).err().unwrap(), "This is a URL to a channel, not an invitation");
    assert_eq!(invite_kind(KwaUrlKind::Message).err().unwrap(), "This is a URL to a message, not an invitation");
}

#[test]
fn stamp_text_roundtrip() {
    let t = stamp(1_700_000_000_123_000_000);
    let s = t.to_text();
    assert_eq!(s, "2023-11-14T22:13:20.123Z");
    assert_eq!(Stamp::from_text(&s).unwrap().nanos(), 1_700_000_000_123_000_000);
    assert!(Stamp::from_text("not a time").is_err());
    assert!(Stamp::from_nanos(i128::MAX).is_none());
}

#[test]
fn db_ids_keep_bits() {
    assert_eq!(DbAccountId::to_sql(&DbAccountId(AccountId(5))), 5);
    assert_eq!(DbAccountId::to_sql(&DbAccountId(AccountId(u64::MAX))), -1);
    assert_eq!(DbAccountId::from_sql(-1).unwrap().0 .0, u64::MAX);
    assert_eq!(DbChannelGroupId::to_sql(&DbChannelGroupId(ChannelGroupId(1 << 63))), i64::MIN);
    assert_eq!(DbChannelGroupId::from_sql(i64::MIN).unwrap().0 .0, 1 << 63);
    for v in [0u64, 1, 1 << 40, u64::MAX - 3] {
        let back = DbAccountId::from_sql(DbAccountId::to_sql(&DbAccountId(AccountId(v)))).unwrap();
        assert_eq!(back.0 .0, v);
    }
}

#[test]
fn transaction_outcomes() {
    assert_eq!(Txr::Commit(3).committed(), Some(3));
    assert_eq!(Txr::<u8>::Abort.committed(), None);
}

fn chan(name: &str, n: u64, group: Option<u64>) -> ChannelRes {
    ChannelRes {
        own_identity: ident("me"),
        id: qc(name, n),
        idem: None,
        group: group.map(ChannelGroupId),
        memo_short: format!("{}{}", name, n),
        memo_long: String::new(),
    }
}

fn grp(n: u64) -> ChannelGroupRes {
    ChannelGroupRes { id: ChannelGroupId(n), idem: None, memo_short: format!("g{}", n), memo_long: String::new() }
}

#[test]
fn channel_tree_groups_children() {
    let channels = vec![chan("a", 1, None), chan("b", 2, Some(10)), chan("c", 3, None), chan("d", 4, Some(10)), chan("e", 5, Some(99))];
    let groups = vec![grp(10), grp(20), grp(10)];
    let t = channel_tree(channels, groups);
    assert_eq!(t.len(), 5);
    match &t[0] {
        ChannelOrChannelGroup::Channel(c) => assert_eq!(c.memo_short, "a1"),
        _ => panic!("expected channel"),
    }
    match &t[1] {
        ChannelOrChannelGroup::Channel(c) => assert_eq!(c.memo_short, "c3"),
        _ => panic!("expected channel"),
    }
    match &t[2] {
        ChannelOrChannelGroup::ChannelGroup(g) => {
            assert_eq!(g.group.id.0, 10);
            let names: Vec<_> = g.children.iter().map(|c| c.memo_short.clone()).collect();
            assert_eq!(names, vec!["b2", "d4"]);
        },
        _ => panic!("expected group"),
    }
    match &t[3] {
        ChannelOrChannelGroup::ChannelGroup(g) => {
            assert_eq!(g.group.id.0, 20);
            assert!(g.children.is_empty());
        },
        _ => panic!("expected group"),
    }
    match &t[4] {
        ChannelOrChannelGroup::ChannelGroup(g) => {
            assert_eq!(g.group.id.0, 10);
            assert!(g.children.is_empty());
        },
        _ => panic!("expected group"),
    }
}

#[test]
fn steal_leaves_default() {
    let mut v = vec![1, 2, 3];
    let taken = steal(&mut v);
    assert_eq!(taken, vec![1, 2, 3]);
    assert!(v.is_empty());
    let mut s = "x".to_string();
    assert_eq!(steal(&mut s), "x");
    assert_eq!(s, "");
}

#[test]
fn chat_time_order() {
    let a = ChatTime { stamp: stamp(5), id: ChatTimeId::Channel(SnapOffset(9)) };
    let b = ChatTime { stamp: stamp(6), id: ChatTimeId::Blank };
    let c = ChatTime { stamp: stamp(5), id: ChatTimeId::Outbox(MessageClientId("zz".to_string())) };
    let d = ChatTime { stamp: stamp(5), id: ChatTimeId::Outbox(MessageClientId("zza".to_string())) };
    let e = ChatTime { stamp: stamp(5), id: ChatTimeId::Blank };
    assert!(a.before(&b));
    assert!(!b.before(&a));
    assert!(c.before(&a));
    assert!(c.before(&d));
    assert!(!d.before(&c));
    assert!(e.before(&c));
    assert!(!a.before(&a));
    assert!(a.same(&a.copy()));
    assert!(!a.same(&c));
    assert!(b.before(&ChatTime::max_time()));
}

fn idres(name: &str, memo: &str) -> IdentityRes {
    IdentityRes { id: ident(name), idem: None, memo_short: memo.to_string(), memo_long: String::new() }
}

#[test]
fn local_values_touch() {
    let mut vs = vec![
        LocalValue { last_used: stamp(1), res: idres("a", "A") },
        LocalValue { last_used: stamp(2), res: idres("b", "B") },
    ];
    touch_values(&mut vs, Some(&ident("b")), stamp(100));
    assert_eq!(vs[0].last_used.nanos(), 1);
    assert_eq!(vs[1].last_used.nanos(), 100);
    touch_values(&mut vs, None, stamp(200));
    assert_eq!(vs[1].last_used.nanos(), 100);
}

#[test]
fn local_values_merge() {
    let old = vec![
        LocalValue { last_used: stamp(1), res: idres("a", "old a") },
        LocalValue { last_used: stamp(2), res: idres("b", "old b") },
        LocalValue { last_used: stamp(3), res: idres("a", "old a again") },
    ];
    let fresh = vec![idres("c", "C"), idres("a", "A"), idres("b", "B")];
    let out = merge_api_values(&old, fresh, Some(&ident("b")), stamp(50));
    assert_eq!(out.len(), 3);
    assert_eq!(out[0].res.memo_short, "C");
    assert_eq!(out[0].last_used.nanos(), 50);
    assert_eq!(out[1].res.memo_short, "A");
    assert_eq!(out[1].last_used.nanos(), 3);
    assert_eq!(out[2].res.memo_short, "B");
    assert_eq!(out[2].last_used.nanos(), 50);
}

#[test]
fn local_values_ensure_and_delete() {
    let vs = vec![
        LocalValue { last_used: stamp(1), res: idres("a", "A") },
        LocalValue { last_used: stamp(2), res: idres("b", "B") },
        LocalValue { last_used: stamp(3), res: idres("a", "A2") },
    ];
    let vs = ensure_value(vs, idres("a", "new"), stamp(9));
    assert_eq!(vs.len(), 3);
    assert_eq!(vs[0].res.memo_short, "new");
    assert_eq!(vs[0].last_used.nanos(), 9);
    assert_eq!(vs[2].res.memo_short, "A2");
    let vs = ensure_value(vs, idres("z", "Z"), stamp(10));
    assert_eq!(vs.len(), 4);
    assert_eq!(vs[3].res.memo_short, "Z");
    let vs = delete_value(vs, &idres("a", "whatever"));
    let names: Vec<_> = vs.iter().map(|v| v.res.memo_short.clone()).collect();
    assert_eq!(names, vec!["B", "Z"]);
}

fn unread_state() -> UnreadState {
    UnreadState {
        channels: vec![
            UnreadChannel { channel: qc("x", 1), last_offset: None, unread: false, group: Some(ChannelGroupId(7)) },
            UnreadChannel { channel: qc("x", 2), last_offset: Some(ActivityOffset(10)), unread: false, group: None },
            UnreadChannel { channel: qc("x", 3), last_offset: None, unread: false, group: Some(ChannelGroupId(8)) },
        ],
        groups: vec![UnreadGroup { id: ChannelGroupId(7), unread: false }],
        unread_any: false,
    }
}

#[test]
fn notification_marks_grouped_channel() {
    let mut s = unread_state();
    assert!(s.notify_one(&qc("x", 1), ActivityOffset(4)));
    assert!(s.channels[0].unread);
    assert_eq!(s.channels[0].last_offset.unwrap().0, 4);
    assert!(s.groups[0].unread);
    assert!(s.unread_any);
}

#[test]
fn notification_for_unknown_group_or_channel() {
    let mut s = unread_state();
    assert!(s.notify_one(&qc("x", 3), ActivityOffset(1)));
    assert!(s.channels[2].unread);
    assert!(!s.unread_any);
    assert!(!s.notify_one(&qc("y", 1), ActivityOffset(1)));
}

#[test]
fn notification_seen_offsets() {
    let mut s = unread_state();
    assert!(!s.notify_one(&qc("x", 2), ActivityOffset(10)));
    assert!(!s.notify_one(&qc("x", 2), ActivityOffset(11)));
    assert!(!s.channels[1].unread);
    assert!(s.notify_one(&qc("x", 2), ActivityOffset(9)));
    assert!(s.channels[1].unread);
    assert!(s.unread_any);
}

#[test]
fn unread_only_without_open_feed() {
    assert!(marks_unread(false, true));
    assert!(marks_unread(true, false));
    assert!(!marks_unread(true, true));
}

#[test]
fn push_rounds() {
    assert!(push_round_done(&vec![]));
    assert!(push_round_done(&vec![PushOutcome::Sent, PushOutcome::Cancelled]));
    assert!(!push_round_done(&vec![PushOutcome::Sent, PushOutcome::Failed("e".to_string())]));
}

#[test]
fn outbox_directories() {
    let c = outbox_channel(ident("dest"), "42").unwrap();
    assert_eq!(c.identity.text, "dest");
    assert_eq!(c.channel.0, 42);
    assert!(matches!(outbox_channel(ident("dest"), "x"), Err(IntErrorKind::InvalidDigit)));
}

fn chres(owner: &str, n: u64, me: &str, memo: &str, group: Option<u64>) -> ChannelRes {
    ChannelRes {
        own_identity: ident(me),
        id: qc(owner, n),
        idem: None,
        group: group.map(ChannelGroupId),
        memo_short: memo.to_string(),
        memo_long: String::new(),
    }
}

#[test]
fn identities_with_channels_by_recency() {
    let ids = vec![
        LocalValue { last_used: stamp(1), res: idres("a", "Alpha") },
        LocalValue { last_used: stamp(5), res: idres("b", "Beta") },
        LocalValue { last_used: stamp(5), res: idres("c", "Alder") },
        LocalValue { last_used: stamp(9), res: idres("a", "Again") },
    ];
    let chans = vec![
        LocalValue { last_used: stamp(3), res: chres("a", 1, "x", "one", None) },
        LocalValue { last_used: stamp(7), res: chres("b", 2, "x", "two", None) },
        LocalValue { last_used: stamp(3), res: chres("a", 3, "x", "now", None) },
        LocalValue { last_used: stamp(4), res: chres("a", 4, "x", "zed", None) },
        LocalValue { last_used: stamp(4), res: chres("q", 5, "x", "lost", None) },
    ];
    let out = combine_local_values(ids, chans);
    let order: Vec<_> = out.iter().map(|t| t.v.res.memo_short.clone()).collect();
    assert_eq!(order, vec!["Again", "Alder", "Beta", "Alpha"]);
    let alpha = out.iter().find(|t| t.v.res.memo_short == "Alpha").unwrap();
    let kids: Vec<_> = alpha.children.iter().map(|c| c.res.memo_short.clone()).collect();
    assert_eq!(kids, vec!["zed", "now", "one"]);
    let again = out.iter().find(|t| t.v.res.memo_short == "Again").unwrap();
    assert!(again.children.is_empty());
    let beta = out.iter().find(|t| t.v.res.memo_short == "Beta").unwrap();
    assert_eq!(beta.children.len(), 1);
}

#[test]
fn group_channel_list() {
    let ids = vec![
        LocalValue { last_used: stamp(1), res: idres("me1", "Work") },
        LocalValue { last_used: stamp(1), res: idres("me2", "Home") },
    ];
    let chans = vec![
        LocalValue { last_used: stamp(1), res: chres("o", 1, "me1", "General", Some(7)) },
        LocalValue { last_used: stamp(1), res: chres("o", 2, "me1", "Other", Some(8)) },
        LocalValue { last_used: stamp(1), res: chres("o", 1, "me3", "General again", Some(7)) },
        LocalValue { last_used: stamp(1), res: chres("o", 3, "me2", "Solo", Some(7)) },
    ];
    let list = group_channels(ChannelGroupId(7), &ids, chans);
    assert_eq!(list.len(), 2);
    let general = list.iter().find(|c| c.channel.channel.0 == 1).unwrap();
    assert_eq!(general.memo_short, "General");
    assert_eq!(general.idents.len(), 2);
    assert_eq!(channel_label(general, 0), "General - Work");
    assert_eq!(channel_label(general, 1), "General - me3");
    let solo = list.iter().find(|c| c.channel.channel.0 == 3).unwrap();
    assert_eq!(channel_label(solo, 0), "Solo");
    assert!(!too_many_channels(&vec![qc("o", 1)], &list));
    assert!(too_many_channels(&vec![qc("o", 1), qc("o", 2)], &list));
}

#[test]
fn kwa_url_kinds() {
    use_kind(KwaUrl::Channel(qc("o", 3)), KwaUrlKind::Channel);
    use_kind(
        KwaUrl::IdentityInvite(KwaUrlIdentityInvite { identity: ident("i"), code: "c".to_string() }),
        KwaUrlKind::IdentityInvite,
    );
}

fn use_kind(u: KwaUrl, k: KwaUrlKind) {
    assert_eq!(u.kind(), k);
    let s = kwa_url_frame(u.kind(), "q=1");
    assert_eq!(kwa_url_unframe(&s).unwrap().kind, k);
}

#[test]
fn db_identity_is_stored_as_json_text() {
    let id = DbIdentity(Identity { text: "ab\"c\\d\n\u{1}é".to_string() });
    let sql = DbIdentity::to_sql(&id);
    assert_eq!(sql, "\"ab\\\"c\\\\d\\n\\u0001é\"");
    let back = DbIdentity::from_sql(sql).unwrap();
    assert_eq!(back.0.text, id.0.text);
}

#[test]
fn db_identity_reads_plain_text() {
    let back = DbIdentity::from_sql("\"yry3iuyq\"".to_string()).unwrap();
    assert_eq!(back.0.text, "yry3iuyq");
}

#[test]
fn db_identity_refuses_non_string() {
    assert!(DbIdentity::from_sql("yry3iuyq".to_string()).is_err());
    assert!(DbIdentity::from_sql("12".to_string()).is_err());
}

#[test]
fn chat_time_blank_at() {
    let t = ChatTime::blank_at(Stamp::from_nanos(1_577_836_800_000_000_000i128).unwrap());
    assert!(matches!(t.id, ChatTimeId::Blank));
    assert_eq!(t.stamp.nanos(), 1_577_836_800_000_000_000i128);
}

#[test]
fn channel_push_posts_in_order_and_stops_on_failure() {
    let mut c = ChannelPush::new(3);
    assert_eq!(c.step(), PushStep::Post(0));
    c.posted(true);
    assert_eq!(c.step(), PushStep::Delete(0));
    c.deleted();
    assert_eq!(c.step(), PushStep::Post(1));
    c.posted(false);
    assert_eq!(c.step(), PushStep::Finish);
    assert!(matches!(c.outcome("boom".to_string()), PushOutcome::Failed(e) if e == "boom"));
    let mut d = ChannelPush::new(1);
    d.posted(true);
    d.deleted();
    assert_eq!(d.step(), PushStep::Finish);
    assert!(matches!(d.outcome(String::new()), PushOutcome::Sent));
}
