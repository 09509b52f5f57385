use kwa::chat_time::{ChatTime, ChatTimeId};
use kwa::feeds::{
    before_answer, before_pivot, outbox_entries, around_early_stop, outbox_after, outbox_around, outbox_before, outbox_stop, page_for, ChannelFeedState,
    FeedControls,
};
use kwa::infinite::{Pick, Placed, Placement, Reserves, Timed, MAX_RESERVE, MIN_RESERVE};
use kwa::stamp::Stamp;
use kwa::wire::{ActivityOffset, SnapOffset};

fn t(n: i128) -> ChatTime {
    ChatTime { stamp: Stamp::from_nanos(n).unwrap(), id: ChatTimeId::Blank }
}

fn ct(n: i128, off: usize) -> ChatTime {
    ChatTime { stamp: Stamp::from_nanos(n).unwrap(), id: ChatTimeId::Channel(SnapOffset(off)) }
}

fn e(n: i128) -> Timed<&'static str> {
    Timed { time: t(n), item: "entry" }
}

fn nanos(p: &Placed<&'static str>) -> i128 {
    p.entry.time.stamp.nanos()
}

fn reserve_nanos(v: &Vec<Timed<&'static str>>) -> Vec<i128> {
    v.iter().map(|x| x.time.stamp.nanos()).collect()
}

#[test]
fn pages() {
    assert_eq!(page_for(50, 0), 0);
    assert_eq!(page_for(50, 49), 0);
    assert_eq!(page_for(50, 50), 50);
    assert_eq!(page_for(50, 123), 100);
    assert_eq!(page_for(1, 7), 7);
}

#[test]
fn seen_times() {
    let mut f = ChannelFeedState::new();
    assert!(!f.update_seen_time(ActivityOffset(10)));
    assert!(f.update_seen_time(ActivityOffset(20)));
    // known 20, have 10: pull the page after 10
    assert_eq!(f.next_activity_page().unwrap().0, 0);
    f.activity_page_received(ActivityOffset(0), &vec![true, false, true, false]);
    // have is now 2
    assert_eq!(f.next_activity_page().unwrap().0, 0);
    f.activity_page_received(ActivityOffset(50), &vec![false, false]);
    // have is now 50, past the known 20: pulling stops
    assert!(f.next_activity_page().is_none());
    assert!(!f.update_seen_time(ActivityOffset(50)));
}

#[test]
fn seen_time_older_lowers_data_time() {
    let mut f = ChannelFeedState::new();
    assert!(!f.update_seen_time(ActivityOffset(60)));
    assert!(f.update_seen_time(ActivityOffset(30)));
    assert_eq!(f.next_activity_page().unwrap().0, 0);
}

#[test]
fn snapshot_pages() {
    let f = ChannelFeedState::new();
    assert!(f.before_page(&ct(1, 0)).is_none());
    assert_eq!(f.before_page(&ct(1, 1)).unwrap().0, 0);
    assert_eq!(f.before_page(&ct(1, 75)).unwrap().0, 50);
    assert_eq!(f.after_page(&ct(1, 49)).0, 50);
    assert_eq!(f.after_page(&ct(1, 10)).0, 0);
    assert!(around_early_stop(SnapOffset(0)));
    assert!(!around_early_stop(SnapOffset(50)));
}

fn stamps(ns: &[i128]) -> Vec<Stamp> {
    ns.iter().map(|n| Stamp::from_nanos(*n).unwrap()).collect()
}

#[test]
fn outbox_windows() {
    let keys = stamps(&(0..30).map(|i| i * 10).collect::<Vec<_>>());
    let (early, late) = outbox_around(&keys, &Stamp::from_nanos(100).unwrap());
    assert_eq!(early, vec![10, 9, 8, 7, 6, 5, 4, 3, 2, 1]);
    assert_eq!(late, vec![11, 12, 13, 14, 15, 16, 17, 18, 19, 20]);
    let (early, late) = outbox_around(&keys, &Stamp::from_nanos(25).unwrap());
    assert_eq!(early, vec![2, 1, 0]);
    assert_eq!(late.len(), 10);
    assert_eq!(outbox_before(&keys, &Stamp::from_nanos(100).unwrap()), vec![9, 8, 7, 6, 5, 4, 3, 2, 1, 0]);
    assert_eq!(outbox_before(&keys, &Stamp::from_nanos(30).unwrap()), vec![2, 1, 0]);
    assert_eq!(outbox_after(&keys, &Stamp::from_nanos(30).unwrap()), vec![4, 5, 6, 7, 8, 9, 10, 11, 12, 13]);
    assert_eq!(outbox_after(&keys, &Stamp::from_nanos(255).unwrap()), vec![26, 27, 28, 29]);
    assert_eq!(outbox_after(&keys, &Stamp::from_nanos(1000).unwrap()).len(), 0);
    assert!(outbox_stop(9));
    assert!(!outbox_stop(10));
}

#[test]
fn controls_entry() {
    let c = FeedControls::new();
    let (entry, early_stop, late_stop) = c.request_around(&t(5));
    assert!(entry.same(&ChatTime::max_time()));
    assert!(early_stop && late_stop);
    assert!(c.request_before(&t(5)).is_none());
    assert!(c.request_after(&t(5)).unwrap().same(&ChatTime::max_time()));
    assert!(c.request_after(&ChatTime::max_time()).is_none());
}

#[test]
fn around_splits_answer() {
    let mut r: Reserves<&str> = Reserves::new(t(50), 2);
    r.respond_entries_around(0, &t(50), vec![e(10), e(20), e(50), e(60), e(70)], false, true);
    assert_eq!(reserve_nanos(&r.feeds[0].early_reserve), vec![20, 10]);
    assert_eq!(reserve_nanos(&r.feeds[0].late_reserve), vec![60, 70]);
    assert_eq!(r.real.len(), 1);
    assert_eq!(nanos(&r.real[0]), 50);
    assert_eq!(r.anchor, Some(0));
    assert!(!r.feeds[0].initial);
    assert!(!r.feeds[0].early_stop);
    assert!(r.feeds[0].late_stop);
    assert_eq!(r.feeds[0].earliest_known.as_ref().unwrap().stamp.nanos(), 10);
    // a stale answer is ignored
    r.respond_entries_around(1, &t(49), vec![e(1)], true, true);
    assert!(r.feeds[1].initial);
    // a second answer from the same feed is ignored
    r.respond_entries_around(0, &t(50), vec![e(1)], true, true);
    assert_eq!(r.feeds[0].early_reserve.len(), 2);
}

#[test]
fn pivots_and_before() {
    let mut r: Reserves<&str> = Reserves::new(t(50), 1);
    r.respond_entries_around(0, &t(50), vec![e(40), e(50), e(60)], false, false);
    assert_eq!(r.get_pivot_early(0).unwrap().stamp.nanos(), 40);
    assert_eq!(r.get_pivot_late(0).unwrap().stamp.nanos(), 60);
    // answer for a stale pivot: ignored
    r.respond_entries_before(0, &t(45), vec![e(30)], true);
    assert_eq!(r.feeds[0].early_reserve.len(), 1);
    r.respond_entries_before(0, &t(40), vec![e(30), e(20)], true);
    assert_eq!(reserve_nanos(&r.feeds[0].early_reserve), vec![40, 30, 20]);
    assert!(r.feeds[0].early_stop);
    assert_eq!(r.feeds[0].earliest_known.as_ref().unwrap().stamp.nanos(), 20);
}

#[test]
fn realizing_moves_the_early_pivot() {
    let mut r: Reserves<&str> = Reserves::new(t(50), 1);
    r.respond_entries_around(0, &t(50), vec![e(10), e(40), e(50)], false, false);
    let p = r.take_early(0);
    assert_eq!(nanos(&p), 40);
    r.commit_realized(vec![p], 0, vec![], 0);
    assert_eq!(r.real.iter().map(nanos).collect::<Vec<_>>(), vec![40, 50]);
    assert_eq!(r.anchor, Some(1));
    assert_eq!(r.get_pivot_early(0).unwrap().stamp.nanos(), 10);
}

#[test]
fn before_not_stopped_when_earlier_known() {
    let mut r: Reserves<&str> = Reserves::new(t(50), 1);
    let entries: Vec<_> = (0..(MAX_RESERVE as i128 + 2)).map(|i| e(i - 200)).collect();
    r.respond_entries_around(0, &t(50), entries, true, true);
    assert_eq!(r.feeds[0].earliest_known.as_ref().unwrap().stamp.nanos(), -200);
    r.prune();
    // the two earliest entries were cut from the reserve
    assert_eq!(r.get_pivot_early(0).unwrap().stamp.nanos(), -198);
    assert!(!r.feeds[0].early_stop);
    r.respond_entries_before(0, &t(-198), vec![e(-199)], true);
    assert!(!r.feeds[0].early_stop);
    assert_eq!(r.feeds[0].early_reserve.len(), MAX_RESERVE + 1);
}

#[test]
fn after_joins_late_reserve_up_to_limit() {
    let mut r: Reserves<&str> = Reserves::new(t(0), 1);
    r.respond_entries_around(0, &t(0), vec![e(0), e(1)], true, false);
    let entries: Vec<_> = (2..(MAX_RESERVE as i128 + 5)).map(e).collect();
    let n = entries.len();
    let placements = r.respond_entries_after(0, &t(1), entries, true);
    assert_eq!(placements.len(), n);
    assert_eq!(r.feeds[0].late_reserve.len(), MAX_RESERVE);
    assert_eq!(placements[0], Placement::LateBack);
    assert_eq!(placements[n - 1], Placement::Dropped);
    assert!(!r.feeds[0].late_stop);
}

#[test]
fn after_sorts_into_realized() {
    let mut r: Reserves<&str> = Reserves::new(t(50), 2);
    r.respond_entries_around(0, &t(50), vec![e(50), e(70)], true, true);
    // feed 0: realize both
    let p = r.take_late(0);
    r.commit_realized(vec![], 0, vec![p], 0);
    assert_eq!(r.real.iter().map(nanos).collect::<Vec<_>>(), vec![50, 70]);
    r.respond_entries_around(1, &t(50), vec![e(30)], true, true);
    // feed 1 has 30 in its early reserve; its late pivot is 30
    let placements = r.respond_entries_after(1, &t(30), vec![e(60), e(80)], true);
    assert_eq!(placements, vec![Placement::Realized(1), Placement::Realized(3)]);
    assert_eq!(r.real.iter().map(nanos).collect::<Vec<_>>(), vec![50, 60, 70, 80]);
    assert_eq!(r.real[1].feed, 1);
    assert_eq!(r.anchor, Some(0));
}

#[test]
fn pick_nearest() {
    let mut r: Reserves<&str> = Reserves::new(t(50), 2);
    assert_eq!(r.pick_early(), Pick::Pending);
    r.respond_entries_around(0, &t(50), vec![e(10), e(60)], true, true);
    assert_eq!(r.pick_early(), Pick::Pending);
    r.respond_entries_around(1, &t(50), vec![e(20), e(55)], true, true);
    assert_eq!(r.pick_early(), Pick::Feed(1));
    assert_eq!(r.pick_late(), Pick::Feed(1));
    let p = r.take_early(1);
    r.commit_realized(vec![p], 0, vec![], 0);
    assert_eq!(r.pick_early(), Pick::Feed(0));
    let p = r.take_early(0);
    r.commit_realized(vec![p], 0, vec![], 0);
    assert_eq!(r.pick_early(), Pick::Exhausted);
    assert_eq!(r.anchor, Some(1));
    assert_eq!(r.real.iter().map(nanos).collect::<Vec<_>>(), vec![10, 20]);
}

#[test]
fn unrealized_go_back_to_reserve() {
    let mut r: Reserves<&str> = Reserves::new(t(50), 1);
    r.respond_entries_around(0, &t(50), vec![e(40), e(50), e(60)], true, true);
    let a = r.take_early(0);
    let b = r.take_late(0);
    r.commit_realized(vec![a], 0, vec![b], 0);
    assert_eq!(r.real.iter().map(nanos).collect::<Vec<_>>(), vec![40, 50, 60]);
    assert_eq!(r.anchor, Some(1));
    r.commit_realized(vec![], 1, vec![], 1);
    assert_eq!(r.real.iter().map(nanos).collect::<Vec<_>>(), vec![50]);
    assert_eq!(r.anchor, Some(0));
    assert_eq!(reserve_nanos(&r.feeds[0].early_reserve), vec![40]);
    assert_eq!(reserve_nanos(&r.feeds[0].late_reserve), vec![60]);
}

#[test]
fn prune_asks() {
    let mut r: Reserves<&str> = Reserves::new(t(50), 2);
    r.respond_entries_around(0, &t(50), vec![e(40), e(50), e(60)], false, true);
    let asks = r.prune();
    assert_eq!(asks.len(), 2);
    assert_eq!(asks[0].before.as_ref().unwrap().stamp.nanos(), 40);
    assert!(asks[0].after.is_none());
    assert!(asks[0].around.is_none());
    assert_eq!(asks[1].around.as_ref().unwrap().stamp.nanos(), 50);
    let big: Vec<_> = (0..(MAX_RESERVE as i128 + 10)).map(|i| e(i - 1000)).collect();
    let mut r: Reserves<&str> = Reserves::new(t(50), 1);
    r.respond_entries_around(0, &t(50), big, true, true);
    let asks = r.prune();
    assert_eq!(r.feeds[0].early_reserve.len(), MAX_RESERVE);
    assert!(!r.feeds[0].early_stop);
    assert!(asks[0].before.is_none());
    assert!(MIN_RESERVE < MAX_RESERVE);
}

#[test]
fn want_after_only_when_stopped() {
    let mut r: Reserves<&str> = Reserves::new(t(50), 1);
    r.respond_entries_around(0, &t(50), vec![e(50), e(60)], true, false);
    assert!(r.want_after(0).is_none());
    let mut r: Reserves<&str> = Reserves::new(t(50), 1);
    r.respond_entries_around(0, &t(50), vec![e(50), e(60)], true, true);
    assert_eq!(r.want_after(0).unwrap().stamp.nanos(), 60);
    assert!(r.is_realized(&t(50)));
    assert!(!r.is_realized(&t(60)));
}

#[test]
fn jump_resets() {
    let mut r: Reserves<&str> = Reserves::new(t(50), 1);
    r.respond_entries_around(0, &t(50), vec![e(50), e(60)], true, true);
    r.jump_to(t(7));
    assert!(r.real.is_empty());
    assert!(r.anchor.is_none());
    assert!(r.feeds[0].initial);
    assert!(r.feeds[0].late_reserve.is_empty());
    let f = r.add_feed();
    assert_eq!(f, 1);
}

#[test]
fn outbox_listing() {
    let names = vec![
        "2023-11-14T22:13:20Z".to_string(),
        "junk".to_string(),
        "1970-01-01T00:00:00Z".to_string(),
        "2023-11-14T22:13:20.000Z".to_string(),
    ];
    let es = outbox_entries(&names);
    assert_eq!(es.stamps.len(), 2);
    assert_eq!(es.stamps[0].nanos(), 0);
    assert_eq!(es.names[0], 2);
    assert_eq!(es.stamps[1].nanos(), 1_700_000_000_000_000_000);
    assert_eq!(es.names[1], 3);
}

#[test]
fn all_stopped_ends() {
    let mut r: Reserves<&str> = Reserves::new(t(50), 1);
    assert!(!r.early_all_stopped());
    r.respond_entries_around(0, &t(50), vec![e(40), e(50)], true, true);
    assert!(!r.early_all_stopped());
    assert!(r.late_all_stopped());
    let p = r.take_early(0);
    r.commit_realized(vec![p], 0, vec![], 0);
    assert!(r.early_all_stopped());
}

#[test]
fn sticky_jumps_only_when_missing() {
    let mut r: Reserves<&str> = Reserves::new(t(50), 1);
    r.respond_entries_around(0, &t(50), vec![e(50), e(60)], true, true);
    // realized already: recorded, no jump
    assert!(!r.set_sticky(t(50)));
    assert_eq!(r.want_sticky.as_ref().unwrap().stamp.nanos(), 50);
    assert_eq!(r.real.len(), 1);
    // not realized: recorded, jump
    assert!(r.set_sticky(t(60)));
    assert!(r.real.is_empty());
    assert_eq!(r.reset_time.stamp.nanos(), 60);
    assert!(r.feeds[0].initial);
    // the same wanted time again: nothing changes
    r.respond_entries_around(0, &t(60), vec![e(60)], true, true);
    assert!(!r.set_sticky(t(60)));
    assert_eq!(r.real.len(), 1);
    r.clear_sticky();
    assert!(r.want_sticky.is_none());
    assert_eq!(r.real.len(), 1);
}

#[test]
fn empty_answers_set_stop_marks() {
    let mut r: Reserves<&str> = Reserves::new(t(50), 1);
    r.respond_entries_around(0, &t(50), vec![e(40), e(50), e(60)], false, false);
    // stale pivot: nothing changes
    r.respond_entries_before(0, &t(45), vec![], true);
    assert!(!r.feeds[0].early_stop);
    r.respond_entries_before(0, &t(40), vec![], true);
    assert!(r.feeds[0].early_stop);
    assert_eq!(reserve_nanos(&r.feeds[0].early_reserve), vec![40]);
    r.respond_entries_after(0, &t(61), vec![], true);
    assert!(!r.feeds[0].late_stop);
    let placements = r.respond_entries_after(0, &t(60), vec![], true);
    assert!(placements.is_empty());
    assert!(r.feeds[0].late_stop);
    assert_eq!(reserve_nanos(&r.feeds[0].late_reserve), vec![60]);
    r.respond_entries_after(0, &t(60), vec![], false);
    assert!(!r.feeds[0].late_stop);
}

#[test]
fn feed_entries_stay_in_order_across_a_shake() {
    let mut r: Reserves<&str> = Reserves::new(t(50), 2);
    r.respond_entries_around(0, &t(50), vec![e(10), e(30), e(50), e(70)], false, false);
    r.respond_entries_around(1, &t(50), vec![e(20), e(40), e(60)], false, false);
    let mut early = vec![];
    for _ in 0..3 {
        match r.pick_early() {
            Pick::Feed(f) => early.push(r.take_early(f)),
            _ => break,
        }
    }
    assert_eq!(early.iter().map(nanos).collect::<Vec<_>>(), vec![40, 30, 20]);
    r.commit_realized(early, 0, vec![], 0);
    assert_eq!(r.real.iter().map(nanos).collect::<Vec<_>>(), vec![20, 30, 40, 50]);
    assert_eq!(reserve_nanos(&r.feeds[0].early_reserve), vec![10]);
    assert_eq!(r.feeds[1].early_reserve.len(), 0);
}

#[test]
fn before_pivot_picks_earlier_entries_latest_first() {
    let page = vec![ct(10, 0), ct(20, 1), ct(30, 2), ct(40, 3)];
    assert_eq!(before_pivot(&page, &ct(30, 2)), vec![1, 0]);
    assert_eq!(before_pivot(&page, &ct(5, 0)), Vec::<usize>::new());
    assert_eq!(before_pivot(&page, &ct(99, 9)), vec![3, 2, 1, 0]);
}

#[test]
fn before_answer_stops_at_first_page() {
    let page = vec![ct(10, 0), ct(20, 1), ct(30, 2)];
    let (es, stop) = before_answer(SnapOffset(0), &page, &ct(30, 2));
    assert_eq!(es, vec![1, 0]);
    assert!(stop);
    let (_, stop) = before_answer(SnapOffset(50), &page, &ct(30, 2));
    assert!(!stop);
}

#[test]
fn empty_before_answer_sets_stop_even_when_earlier_known() {
    let mut r: Reserves<&str> = Reserves::new(t(50), 1);
    let entries: Vec<_> = (0..(MAX_RESERVE as i128 + 2)).map(|i| e(i - 200)).collect();
    r.respond_entries_around(0, &t(50), entries, true, true);
    r.prune();
    assert!(!r.feeds[0].early_stop);
    r.respond_entries_before(0, &t(-198), vec![], true);
    assert!(r.feeds[0].early_stop);
}
