use kwa::path::{confirm_path_const, confirm_path_element, confirm_path_empty, deserialize_path, serialize_path};
use kwa::reqs::{
    ActivityLatestAll, ActivityPage, NotificationServerKey, PathReqTrait, SnapByClientId, SnapById, SnapPage,
    SnapPageContainingTime,
};
use kwa::shared::{ChannelId, Identity, MessageClientId, MessageId, QualifiedChannelId, QualifiedMessageId};
use kwa::stamp::Stamp;
use kwa::wire::{ActivityOffset, SnapOffset};

fn ident(s: &str) -> Identity {
    Identity { text: s.to_string() }
}

fn channel(s: &str, n: u64) -> QualifiedChannelId {
    QualifiedChannelId { identity: ident(s), channel: ChannelId(n) }
}

#[test]
fn snap_page_writes_segments() {
    let r = SnapPage { channel: channel("abc", 7), offset: SnapOffset(3) };
    assert_eq!(r.serialize_path(), "/snap_page/abc/7/3");
}

#[test]
fn snap_page_reads_back() {
    let r = SnapPage::deserialize_path("/snap_page/abc/7/3").unwrap();
    assert_eq!(r.channel.identity.text, "abc");
    assert_eq!(r.channel.channel.0, 7);
    assert_eq!(r.offset.0, 3);
}

#[test]
fn segments_are_percent_encoded() {
    let r = SnapPage { channel: channel("a b/c", 1), offset: SnapOffset(0) };
    let p = r.serialize_path();
    assert_eq!(p, "/snap_page/a%20b%2Fc/1/0");
    let back = SnapPage::deserialize_path(&p).unwrap();
    assert_eq!(back.channel.identity.text, "a b/c");
}

#[test]
fn wrong_request_name() {
    let e = SnapPage::deserialize_path("/snap_pag/abc/7/3").err().unwrap();
    assert_eq!(e, "Path missing segment [snap_page]");
}

#[test]
fn missing_leading_slash() {
    let e = SnapPage::deserialize_path("snap_page/abc/7/3").err().unwrap();
    assert_eq!(e, "Path missing segment []");
}

#[test]
fn extra_segments_refused() {
    let e = SnapPage::deserialize_path("/snap_page/abc/7/3/x").err().unwrap();
    assert_eq!(e, "Unrecognized extra path segments");
}

#[test]
fn missing_element() {
    let e = SnapPage::deserialize_path("/snap_page/abc/7").err().unwrap();
    assert_eq!(e, "Path missing segment, snap offset");
}

#[test]
fn element_not_a_number() {
    let e = SnapPage::deserialize_path("/snap_page/abc/x/3").err().unwrap();
    assert_eq!(e, "Couldn't parse path segment, channel: invalid digit found in string");
}

#[test]
fn element_too_large() {
    let e = SnapPage::deserialize_path("/snap_page/abc/18446744073709551616/3").err().unwrap();
    assert_eq!(e, "Couldn't parse path segment, channel: number too large to fit in target type");
}

#[test]
fn element_empty() {
    let e = SnapPage::deserialize_path("/snap_page/abc//3").err().unwrap();
    assert_eq!(e, "Couldn't parse path segment, channel: cannot parse integer from empty string");
}

#[test]
fn notification_server_key_path() {
    assert_eq!(NotificationServerKey.serialize_path(), "/notification_server_key");
    assert!(NotificationServerKey::deserialize_path("/notification_server_key").is_ok());
    assert_eq!(
        NotificationServerKey::deserialize_path("/notification_server_key/x").err().unwrap(),
        "Unrecognized extra path segments"
    );
    assert_eq!(
        NotificationServerKey::deserialize_path("/notification_server_key/").err().unwrap(),
        "Unrecognized extra path segments"
    );
    assert_eq!(
        NotificationServerKey::deserialize_path("notification_server_key").err().unwrap(),
        "Path missing segment []"
    );
}

#[test]
fn activity_latest_all_path() {
    assert_eq!(ActivityLatestAll.serialize_path(), "/activity_latest_all");
    assert!(ActivityLatestAll::deserialize_path("/activity_latest_all").is_ok());
}

#[test]
fn activity_page_path() {
    let r = ActivityPage { channel: channel("id", 2), offset: ActivityOffset(100) };
    assert_eq!(r.serialize_path(), "/activity_page/id/2/100");
    let back = ActivityPage::deserialize_path("/activity_page/id/2/100").unwrap();
    assert_eq!(back.offset.0, 100);
    assert_eq!(
        ActivityPage::deserialize_path("/activity_page/id/2").err().unwrap(),
        "Path missing segment, offset"
    );
}

#[test]
fn snap_by_id_path() {
    let r = SnapById {
        id: QualifiedMessageId {
            channel: channel("owner", 5),
            message: MessageId { identity: ident("author"), unique: 9 },
        },
    };
    assert_eq!(r.serialize_path(), "/snap_by_id/owner/5/author/9");
    let back = SnapById::deserialize_path("/snap_by_id/owner/5/author/9").unwrap();
    assert_eq!(back.id.message.identity.text, "author");
    assert_eq!(back.id.message.unique, 9);
    assert_eq!(
        SnapById::deserialize_path("/snap_by_id/owner/5/author").err().unwrap(),
        "Path missing segment, message unique"
    );
}

#[test]
fn snap_by_client_id_path() {
    let r = SnapByClientId { channel: channel("owner", 5), client_id: MessageClientId("c 1".to_string()) };
    assert_eq!(r.serialize_path(), "/snap_by_client_id/owner/5/c%201");
    let back = SnapByClientId::deserialize_path("/snap_by_client_id/owner/5/c%201").unwrap();
    assert_eq!(back.client_id.0, "c 1");
}

#[test]
fn snap_page_containing_time_path() {
    let t = Stamp::from_nanos(0).unwrap();
    let r = SnapPageContainingTime { channel: channel("o", 1), time: t };
    let p = r.serialize_path();
    assert_eq!(p, "/snap_page_containing_time/o/1/1970-01-01T00%3A00%3A00Z");
    let back = SnapPageContainingTime::deserialize_path(&p).unwrap();
    assert_eq!(back.time.nanos(), 0);
    let e = SnapPageContainingTime::deserialize_path("/snap_page_containing_time/o/1/yesterday").err().unwrap();
    assert!(e.starts_with("Couldn't parse path segment, message identity: "));
}

#[test]
fn raw_path_functions() {
    let segs = vec!["a".to_string(), "b c".to_string()];
    assert_eq!(serialize_path(&segs), "/a/b%20c");
    let mut parts = deserialize_path("/a/b%20c");
    assert!(confirm_path_const(&mut parts, "").is_ok());
    assert!(confirm_path_const(&mut parts, "a").is_ok());
    assert_eq!(confirm_path_empty(&mut parts).err().unwrap(), "Unrecognized extra path segments");
    assert!(confirm_path_empty(&mut parts).is_ok());
}

#[test]
fn raw_path_element() {
    let mut parts = deserialize_path("/42/x");
    assert!(confirm_path_const(&mut parts, "").is_ok());
    let n: u64 = confirm_path_element(&mut parts, "number").unwrap();
    assert_eq!(n, 42);
    let e = confirm_path_element::<u64>(&mut parts, "number").err().unwrap();
    assert_eq!(e, "Couldn't parse path segment, number: invalid digit found in string");
    let e = confirm_path_element::<u64>(&mut parts, "number").err().unwrap();
    assert_eq!(e, "Path missing segment, number");
    assert_eq!(confirm_path_const(&mut parts, "z").err().unwrap(), "Path missing segment [z]");
}

#[test]
fn undecodable_segment_kept_raw() {
    let mut parts = deserialize_path("/%FF");
    assert!(confirm_path_const(&mut parts, "").is_ok());
    assert!(confirm_path_const(&mut parts, "%FF").is_ok());
}

#[test]
fn extra_segment_refused_after_written_path() {
    let r = ActivityPage { channel: channel("id", 2), offset: ActivityOffset(100) };
    let p = r.serialize_path() + "/extra";
    assert_eq!(ActivityPage::deserialize_path(&p).err().unwrap(), "Unrecognized extra path segments");
    let t = SnapPageContainingTime { channel: channel("id", 2), time: Stamp::from_nanos(1_000_000_000).unwrap() };
    let p = t.serialize_path() + "/x";
    assert_eq!(SnapPageContainingTime::deserialize_path(&p).err().unwrap(), "Unrecognized extra path segments");
}

#[test]
fn lenient_percent_decoding_of_segments() {
    let mut p = deserialize_path("/%41b/%zz/%4/%E2%82%AC/%FF/a+b");
    let mut got = vec![];
    while let Some(s) = p.next_segment() {
        got.push(s);
    }
    assert_eq!(got, vec!["", "Ab", "%zz", "%4", "€", "%FF", "a+b"]);
}
