use kwa::chat::{
    mode_after_delivery, send_step, ChatMode, ChatModeReplyMessage, ChatModeReplyMessageTarget, ChatModeReplyMessageTargetOutbox,
    ChatModeTopMessage, OutboxMessageReplyTo,
};
use kwa::shared::{ChannelId, Identity, MessageClientId, MessageId, QualifiedChannelId, QualifiedMessageId};
use kwa::sw::{cache_is_stale, cache_puts, contains, fetch_plan, push_shows_notification, revalidated_changed, starts_with, CachedMeta, FetchPlan};

fn ident(s: &str) -> Identity {
    Identity { text: s.to_string() }
}

fn qc(s: &str, n: u64) -> QualifiedChannelId {
    QualifiedChannelId { identity: ident(s), channel: ChannelId(n) }
}

fn reply_to_outbox(client_id: &str) -> ChatMode {
    ChatMode::ReplyMessage(ChatModeReplyMessage {
        target: ChatModeReplyMessageTarget::Outbox(ChatModeReplyMessageTargetOutbox {
            channel: qc("o", 1),
            message: MessageClientId(client_id.to_string()),
        }),
        own_identity: ident("me"),
    })
}

fn delivered() -> QualifiedMessageId {
    QualifiedMessageId { channel: qc("o", 1), message: MessageId { identity: ident("me"), unique: 77 } }
}

#[test]
fn reply_follows_delivered_message() {
    let m = mode_after_delivery(reply_to_outbox("c1"), &MessageClientId("c1".to_string()), delivered());
    match m {
        ChatMode::ReplyMessage(r) => {
            assert_eq!(r.own_identity.text, "me");
            match r.target {
                ChatModeReplyMessageTarget::Channel(id) => assert_eq!(id.message.unique, 77),
                _ => panic!("expected channel target"),
            }
        },
        _ => panic!("expected reply"),
    }
}

#[test]
fn other_modes_stay() {
    let m = mode_after_delivery(reply_to_outbox("c2"), &MessageClientId("c1".to_string()), delivered());
    match m {
        ChatMode::ReplyMessage(r) => assert!(matches!(r.target, ChatModeReplyMessageTarget::Outbox(_))),
        _ => panic!("expected reply"),
    }
    assert!(matches!(mode_after_delivery(ChatMode::Idle, &MessageClientId("c1".to_string()), delivered()), ChatMode::Idle));
    assert!(matches!(
        mode_after_delivery(ChatMode::MessageChannelSelect, &MessageClientId("c1".to_string()), delivered()),
        ChatMode::MessageChannelSelect
    ));
}

#[test]
fn text_search() {
    assert!(starts_with("https://a.b/c", "https://a.b"));
    assert!(!starts_with("https://a", "https://a.b"));
    assert!(starts_with("x", ""));
    assert!(contains("public, max-age=1, immutable", "immutable"));
    assert!(!contains("public", "immutable"));
    assert!(contains("abc", ""));
    assert!(contains("abc", "c"));
}

#[test]
fn fetch_plans() {
    let base = "https://app.example";
    let etag = Some(CachedMeta { has_etag: true, has_cache_control: false });
    let control = Some(CachedMeta { has_etag: false, has_cache_control: true });
    assert_eq!(fetch_plan("https://app.example/x", base, "/c1/client", true, &None), FetchPlan::PassThrough);
    assert_eq!(fetch_plan("https://cdn.example/x", base, "/c1/client", false, &None), FetchPlan::PassThrough);
    assert_eq!(fetch_plan("https://cdn.example/x", base, "/c1/client", true, &None), FetchPlan::FetchAndCache);
    assert_eq!(fetch_plan("https://cdn.example/c1/client/app.js", base, "/c1/client", true, &etag), FetchPlan::CachedThenRevalidate);
    assert_eq!(fetch_plan("https://cdn.example/font.woff", base, "/c1/client", true, &etag), FetchPlan::Revalidate);
    assert_eq!(fetch_plan("https://cdn.example/font.woff", base, "/c1/client", true, &control), FetchPlan::Cached);
}

#[test]
fn cache_rules() {
    assert_eq!(cache_puts(true, &None), 1);
    assert_eq!(cache_puts(false, &Some("max-age=1".to_string())), 0);
    assert_eq!(cache_puts(true, &Some("public, immutable".to_string())), 2);
    assert_eq!(cache_puts(false, &Some("immutable".to_string())), 1);
    assert!(revalidated_changed(200));
    assert!(!revalidated_changed(304));
    assert!(!cache_is_stale("cache1"));
    assert!(cache_is_stale("cache0"));
    assert!(cache_is_stale("cache10"));
    assert!(push_shows_notification(0));
    assert!(!push_shows_notification(2));
}

#[test]
fn send_top_message() {
    let mode = ChatMode::TopMessage(ChatModeTopMessage { channel: qc("o", 3), own_identity: ident("me") });
    let s = send_step(mode, "hello".to_string(), MessageClientId("c9".to_string())).unwrap();
    assert_eq!(s.sender.text, "me");
    assert_eq!(s.channel.channel.0, 3);
    assert!(s.message.reply_to.is_none());
    assert_eq!(s.message.client_id.0, "c9");
    assert_eq!(s.message.body, "hello");
    match s.mode {
        ChatMode::ReplyMessage(rm) => {
            assert_eq!(rm.own_identity.text, "me");
            match rm.target {
                ChatModeReplyMessageTarget::Outbox(t) => {
                    assert_eq!(t.message.0, "c9");
                    assert_eq!(t.channel.channel.0, 3);
                },
                _ => panic!("not a reply to the outbox"),
            }
        },
        _ => panic!("not replying"),
    }
}

#[test]
fn send_reply_records_target() {
    let mode = ChatMode::ReplyMessage(ChatModeReplyMessage {
        target: ChatModeReplyMessageTarget::Channel(delivered()),
        own_identity: ident("me"),
    });
    let s = send_step(mode, "re".to_string(), MessageClientId("c2".to_string())).unwrap();
    assert_eq!(s.channel.channel.0, 1);
    match s.message.reply_to {
        Some(OutboxMessageReplyTo::Channel(m)) => assert_eq!(m.message.unique, 77),
        _ => panic!("reply target lost"),
    }
    let s2 = send_step(reply_to_outbox("c1"), "x".to_string(), MessageClientId("c3".to_string())).unwrap();
    match s2.message.reply_to {
        Some(OutboxMessageReplyTo::Outbox(c)) => assert_eq!(c.0, "c1"),
        _ => panic!("reply target lost"),
    }
}

#[test]
fn send_nothing() {
    let mode = ChatMode::TopMessage(ChatModeTopMessage { channel: qc("o", 3), own_identity: ident("me") });
    assert!(send_step(mode, String::new(), MessageClientId("c".to_string())).is_none());
    assert!(send_step(ChatMode::Idle, "x".to_string(), MessageClientId("c".to_string())).is_none());
    assert!(send_step(ChatMode::MessageChannelSelect, "x".to_string(), MessageClientId("c".to_string())).is_none());
}
