//! Requests whose parameters travel in the URL path.
use vstd::prelude::*;
use crate::path::{
    extra_segments_message,
    confirm_path_const, confirm_path_element, confirm_path_empty, deserialize_path, path_segments_of,
    path_text, read_consts, read_element, read_end, serialize_path, strings_view, PathElement,
    PathSegments,
};
use crate::shared::{ChannelId, Identity, MessageClientId, MessageId, QualifiedChannelId, QualifiedMessageId};
use crate::stamp::{stamp_display, stamp_valid, Stamp};
use crate::text::{dec_text, u64_text, usize_text};
use crate::wire::{ActivityOffset, SnapOffset};

verus! {

/// A request read from, and written to, a URL path.
pub trait PathReqTrait: Sized + View {
    /// What a path's segments read as: the request, or the error message.
    spec fn read_path(p: Seq<Seq<char>>) -> Result<Self::V, Seq<char>>;

    /// The segments written for a request (after the leading empty one).
    spec fn path_segments(v: Self::V) -> Seq<Seq<char>>;

    /// Requests that can be written.
    spec fn path_valid(v: Self::V) -> bool;

    fn deserialize_path(path: &str) -> (r: Result<Self, String>)
        ensures
            match Self::read_path(path_segments_of(path@)) {
                Ok(v) => r matches Ok(x) && x@ == v,
                Err(m) => r matches Err(e) && e@ == m,
            },
            forall|v: Self::V|
                Self::path_valid(v) && path@ == path_text(Self::path_segments(v)) ==> (r matches Ok(
                    x,
                ) && x@ == v),
            forall|v: Self::V, extra: Seq<char>|
                Self::path_valid(v) && path@ == #[trigger] path_text(Self::path_segments(v).push(extra)) ==> (r matches Err(
                    e,
                ) && e@ == extra_segments_message()),
    ;

    fn serialize_path(&self) -> (r: String)
        requires
            Self::path_valid(self@),
        ensures
            r@ == path_text(Self::path_segments(self@)),
    ;
}

/// Reads the two leading segments every request path has: the empty one
/// before the first `/`, and the request's name.
pub open spec fn read_head(p: Seq<Seq<char>>, name: Seq<char>) -> Result<Seq<Seq<char>>, Seq<char>> {
    read_consts(p, seq![Seq::<char>::empty(), name])
}

fn confirm_head(parts: &mut PathSegments, name: &str) -> (r: Result<(), String>)
    ensures
        match read_head(old(parts)@, name@) {
            Ok(rest) => r is Ok && final(parts)@ == rest,
            Err(m) => r matches Err(e) && e@ == m,
        },
{
    let empty = "";
    proof {
        reveal_strlit("");
    }
    assert(empty@ =~= Seq::<char>::empty());
    let ghost p0 = parts@;
    let ghost lits = seq![Seq::<char>::empty(), name@];
    assert(lits.drop_first() =~= seq![name@]);
    assert(seq![name@].drop_first() =~= Seq::<Seq<char>>::empty());
    proof {
        reveal_with_fuel(read_consts, 3);
    }
    confirm_path_const(parts, empty)?;
    confirm_path_const(parts, name)?;
    Ok(())
}

/// Reading a segment holding the decimal text of a number gives the number.
pub proof fn lemma_read_decimal(n: nat, hi: int)
    requires
        n <= hi,
    ensures
        crate::path::read_uint(dec_text(n), hi) == Ok::<int, Seq<char>>(n as int),
{
    crate::text::law_decimal_roundtrip(n, false, 0, hi);
}

/// The head of a request path reads as its name, leaving what follows.
pub proof fn lemma_read_head(name: Seq<char>, rest: Seq<Seq<char>>)
    ensures
        read_head(seq![Seq::<char>::empty(), name] + rest, name) == Ok::<Seq<Seq<char>>, Seq<char>>(rest),
{
    reveal_with_fuel(read_consts, 3);
    let p = seq![Seq::<char>::empty(), name] + rest;
    assert(p.drop_first().drop_first() =~= rest);
    assert(seq![Seq::<char>::empty(), name].drop_first() =~= seq![name]);
    assert(seq![name].drop_first() =~= Seq::<Seq<char>>::empty());
}

/// A page of a channel's snapshot, starting at `offset`.
#[derive(Clone, Debug)]
pub struct SnapPage {
    pub channel: QualifiedChannelId,
    pub offset: SnapOffset,
}

impl View for SnapPage {
    type V = ((Seq<char>, u64), usize);

    open spec fn view(&self) -> ((Seq<char>, u64), usize) {
        (self.channel@, self.offset.0)
    }
}

impl PathReqTrait for SnapPage {
    open spec fn read_path(p: Seq<Seq<char>>) -> Result<((Seq<char>, u64), usize), Seq<char>> {
        match read_head(p, "snap_page"@) {
            Err(m) => Err(m),
            Ok(p) => match read_element::<Identity>(p, "channel identity"@) {
                Err(m) => Err(m),
                Ok((identity, p)) => match read_element::<u64>(p, "channel"@) {
                    Err(m) => Err(m),
                    Ok((channel, p)) => match read_element::<usize>(p, "snap offset"@) {
                        Err(m) => Err(m),
                        Ok((offset, p)) => match read_end(p) {
                            Err(m) => Err(m),
                            Ok(_) => Ok(((identity, channel), offset)),
                        },
                    },
                },
            },
        }
    }

    open spec fn path_segments(v: ((Seq<char>, u64), usize)) -> Seq<Seq<char>> {
        seq!["snap_page"@, v.0.0, dec_text(v.0.1 as nat), dec_text(v.1 as nat)]
    }

    open spec fn path_valid(v: ((Seq<char>, u64), usize)) -> bool {
        true
    }

    fn deserialize_path(path: &str) -> (r: Result<SnapPage, String>) {
        let mut parts = deserialize_path(path);
        proof {
            assert forall|v: ((Seq<char>, u64), usize), extra: Seq<char>| path@ == #[trigger] path_text(Self::path_segments(v).push(extra))
                implies Self::read_path(path_segments_of(path@)) == Err::<((Seq<char>, u64), usize), Seq<char>>(extra_segments_message()) by {
                let rest = seq![v.0.0, dec_text(v.0.1 as nat), dec_text(v.1 as nat), extra];
                assert(seq![Seq::<char>::empty()] + Self::path_segments(v).push(extra) =~= seq![
                    Seq::<char>::empty(),
                    "snap_page"@,
                ] + rest);
                lemma_read_head("snap_page"@, rest);
                lemma_read_decimal(v.0.1 as nat, u64::MAX as int); lemma_read_decimal(v.1 as nat, usize::MAX as int);
                assert(rest.drop_first().drop_first().drop_first() =~= seq![extra]);
            }
        }
        proof {
            assert forall|v: ((Seq<char>, u64), usize)| path@ == path_text(Self::path_segments(v))
                implies Self::read_path(path_segments_of(path@)) == Ok::<
                ((Seq<char>, u64), usize),
                Seq<char>,
            >(v) by {
                lemma_snap_page_reads_back(v);
            }
        }
        confirm_head(&mut parts, "snap_page")?;
        let out = SnapPage {
            channel: QualifiedChannelId {
                identity: confirm_path_element(&mut parts, "channel identity")?,
                channel: ChannelId(confirm_path_element(&mut parts, "channel")?),
            },
            offset: SnapOffset(confirm_path_element(&mut parts, "snap offset")?),
        };
        confirm_path_empty(&mut parts)?;
        Ok(out)
    }

    fn serialize_path(&self) -> (r: String) {
        let segs = vec![
            "snap_page".to_owned(),
            self.channel.identity.text.clone(),
            u64_text(self.channel.channel.0),
            usize_text(self.offset.0),
        ];
        proof {
            reveal_strlit("snap_page");
            assert(strings_view(segs@) =~= Self::path_segments(self@));
        }
        serialize_path(&segs)
    }
}

/// The path of a snapshot page request reads back as that request.
pub proof fn lemma_snap_page_reads_back(v: ((Seq<char>, u64), usize))
    ensures
        SnapPage::read_path(seq![Seq::<char>::empty()] + SnapPage::path_segments(v)) == Ok::<
            ((Seq<char>, u64), usize),
            Seq<char>,
        >(v),
{
    let segs = SnapPage::path_segments(v);
    let rest = seq![v.0.0, dec_text(v.0.1 as nat), dec_text(v.1 as nat)];
    assert(seq![Seq::<char>::empty()] + segs =~= seq![Seq::<char>::empty(), "snap_page"@] + rest);
    lemma_read_head("snap_page"@, rest);
    lemma_read_decimal(v.0.1 as nat, u64::MAX as int);
    lemma_read_decimal(v.1 as nat, usize::MAX as int);
    assert(rest.drop_first().drop_first().drop_first() =~= Seq::<Seq<char>>::empty());
}


/// The request for the key that push-notification subscriptions need.
#[derive(Clone, Copy, Debug)]
pub struct NotificationServerKey;

impl View for NotificationServerKey {
    type V = ();

    open spec fn view(&self) -> () {
        ()
    }
}

impl PathReqTrait for NotificationServerKey {
    open spec fn read_path(p: Seq<Seq<char>>) -> Result<(), Seq<char>> {
        match read_head(p, "notification_server_key"@) {
            Err(m) => Err(m),
            Ok(p) => read_end(p),
        }
    }

    open spec fn path_segments(v: ()) -> Seq<Seq<char>> {
        seq!["notification_server_key"@]
    }

    open spec fn path_valid(v: ()) -> bool {
        true
    }

    fn deserialize_path(path: &str) -> (r: Result<NotificationServerKey, String>) {
        let mut parts = deserialize_path(path);
        proof {
            assert forall|v: (), extra: Seq<char>| path@ == #[trigger] path_text(Self::path_segments(v).push(extra))
                implies Self::read_path(path_segments_of(path@)) == Err::<(), Seq<char>>(extra_segments_message()) by {
                let rest = seq![extra];
                assert(seq![Seq::<char>::empty()] + Self::path_segments(v).push(extra) =~= seq![
                    Seq::<char>::empty(),
                    "notification_server_key"@,
                ] + rest);
                lemma_read_head("notification_server_key"@, rest);
                
                assert(rest =~= seq![extra]);
            }
        }
        proof {
            assert forall|v: ()| path@ == path_text(Self::path_segments(v)) implies Self::read_path(
                path_segments_of(path@),
            ) == Ok::<(), Seq<char>>(v) by {
                let segs = Self::path_segments(v);
                assert(seq![Seq::<char>::empty()] + segs =~= seq![
                    Seq::<char>::empty(),
                    "notification_server_key"@,
                ] + Seq::<Seq<char>>::empty());
                lemma_read_head("notification_server_key"@, Seq::<Seq<char>>::empty());
            }
        }
        confirm_head(&mut parts, "notification_server_key")?;
        confirm_path_empty(&mut parts)?;
        Ok(NotificationServerKey)
    }

    fn serialize_path(&self) -> (r: String) {
        let segs = vec!["notification_server_key".to_owned()];
        proof {
            reveal_strlit("notification_server_key");
            assert(strings_view(segs@) =~= Self::path_segments(self@));
        }
        serialize_path(&segs)
    }
}

/// The request for the latest activity offset of every channel.
#[derive(Clone, Copy, Debug)]
pub struct ActivityLatestAll;

impl View for ActivityLatestAll {
    type V = ();

    open spec fn view(&self) -> () {
        ()
    }
}

impl PathReqTrait for ActivityLatestAll {
    open spec fn read_path(p: Seq<Seq<char>>) -> Result<(), Seq<char>> {
        match read_head(p, "activity_latest_all"@) {
            Err(m) => Err(m),
            Ok(p) => read_end(p),
        }
    }

    open spec fn path_segments(v: ()) -> Seq<Seq<char>> {
        seq!["activity_latest_all"@]
    }

    open spec fn path_valid(v: ()) -> bool {
        true
    }

    fn deserialize_path(path: &str) -> (r: Result<ActivityLatestAll, String>) {
        let mut parts = deserialize_path(path);
        proof {
            assert forall|v: (), extra: Seq<char>| path@ == #[trigger] path_text(Self::path_segments(v).push(extra))
                implies Self::read_path(path_segments_of(path@)) == Err::<(), Seq<char>>(extra_segments_message()) by {
                let rest = seq![extra];
                assert(seq![Seq::<char>::empty()] + Self::path_segments(v).push(extra) =~= seq![
                    Seq::<char>::empty(),
                    "activity_latest_all"@,
                ] + rest);
                lemma_read_head("activity_latest_all"@, rest);
                
                assert(rest =~= seq![extra]);
            }
        }
        proof {
            assert forall|v: ()| path@ == path_text(Self::path_segments(v)) implies Self::read_path(
                path_segments_of(path@),
            ) == Ok::<(), Seq<char>>(v) by {
                let segs = Self::path_segments(v);
                assert(seq![Seq::<char>::empty()] + segs =~= seq![
                    Seq::<char>::empty(),
                    "activity_latest_all"@,
                ] + Seq::<Seq<char>>::empty());
                lemma_read_head("activity_latest_all"@, Seq::<Seq<char>>::empty());
            }
        }
        confirm_head(&mut parts, "activity_latest_all")?;
        confirm_path_empty(&mut parts)?;
        Ok(ActivityLatestAll)
    }

    fn serialize_path(&self) -> (r: String) {
        let segs = vec!["activity_latest_all".to_owned()];
        proof {
            reveal_strlit("activity_latest_all");
            assert(strings_view(segs@) =~= Self::path_segments(self@));
        }
        serialize_path(&segs)
    }
}

/// A page of a channel's activity log, starting at `offset`.
#[derive(Clone, Debug)]
pub struct ActivityPage {
    pub channel: QualifiedChannelId,
    pub offset: ActivityOffset,
}

impl View for ActivityPage {
    type V = ((Seq<char>, u64), usize);

    open spec fn view(&self) -> ((Seq<char>, u64), usize) {
        (self.channel@, self.offset.0)
    }
}

impl PathReqTrait for ActivityPage {
    open spec fn read_path(p: Seq<Seq<char>>) -> Result<((Seq<char>, u64), usize), Seq<char>> {
        match read_head(p, "activity_page"@) {
            Err(m) => Err(m),
            Ok(p) => match read_element::<Identity>(p, "channel identity"@) {
                Err(m) => Err(m),
                Ok((identity, p)) => match read_element::<u64>(p, "channel"@) {
                    Err(m) => Err(m),
                    Ok((channel, p)) => match read_element::<usize>(p, "offset"@) {
                        Err(m) => Err(m),
                        Ok((offset, p)) => match read_end(p) {
                            Err(m) => Err(m),
                            Ok(_) => Ok(((identity, channel), offset)),
                        },
                    },
                },
            },
        }
    }

    open spec fn path_segments(v: ((Seq<char>, u64), usize)) -> Seq<Seq<char>> {
        seq!["activity_page"@, v.0.0, dec_text(v.0.1 as nat), dec_text(v.1 as nat)]
    }

    open spec fn path_valid(v: ((Seq<char>, u64), usize)) -> bool {
        true
    }

    fn deserialize_path(path: &str) -> (r: Result<ActivityPage, String>) {
        let mut parts = deserialize_path(path);
        proof {
            assert forall|v: ((Seq<char>, u64), usize), extra: Seq<char>| path@ == #[trigger] path_text(Self::path_segments(v).push(extra))
                implies Self::read_path(path_segments_of(path@)) == Err::<((Seq<char>, u64), usize), Seq<char>>(extra_segments_message()) by {
                let rest = seq![v.0.0, dec_text(v.0.1 as nat), dec_text(v.1 as nat), extra];
                assert(seq![Seq::<char>::empty()] + Self::path_segments(v).push(extra) =~= seq![
                    Seq::<char>::empty(),
                    "activity_page"@,
                ] + rest);
                lemma_read_head("activity_page"@, rest);
                lemma_read_decimal(v.0.1 as nat, u64::MAX as int); lemma_read_decimal(v.1 as nat, usize::MAX as int);
                assert(rest.drop_first().drop_first().drop_first() =~= seq![extra]);
            }
        }
        proof {
            assert forall|v: ((Seq<char>, u64), usize)| path@ == path_text(Self::path_segments(v))
                implies Self::read_path(path_segments_of(path@)) == Ok::<
                ((Seq<char>, u64), usize),
                Seq<char>,
            >(v) by {
                let segs = Self::path_segments(v);
                let rest = seq![v.0.0, dec_text(v.0.1 as nat), dec_text(v.1 as nat)];
                assert(seq![Seq::<char>::empty()] + segs =~= seq![
                    Seq::<char>::empty(),
                    "activity_page"@,
                ] + rest);
                lemma_read_head("activity_page"@, rest);
                lemma_read_decimal(v.0.1 as nat, u64::MAX as int);
                lemma_read_decimal(v.1 as nat, usize::MAX as int);
                assert(rest.drop_first().drop_first().drop_first() =~= Seq::<Seq<char>>::empty());
            }
        }
        confirm_head(&mut parts, "activity_page")?;
        let out = ActivityPage {
            channel: QualifiedChannelId {
                identity: confirm_path_element(&mut parts, "channel identity")?,
                channel: ChannelId(confirm_path_element(&mut parts, "channel")?),
            },
            offset: ActivityOffset(confirm_path_element(&mut parts, "offset")?),
        };
        confirm_path_empty(&mut parts)?;
        Ok(out)
    }

    fn serialize_path(&self) -> (r: String) {
        let segs = vec![
            "activity_page".to_owned(),
            self.channel.identity.text.clone(),
            u64_text(self.channel.channel.0),
            usize_text(self.offset.0),
        ];
        proof {
            reveal_strlit("activity_page");
            assert(strings_view(segs@) =~= Self::path_segments(self@));
        }
        serialize_path(&segs)
    }
}

/// Where in its channel a message, named by its id, stands.
#[derive(Clone, Debug)]
pub struct SnapById {
    pub id: QualifiedMessageId,
}

impl View for SnapById {
    type V = ((Seq<char>, u64), (Seq<char>, u64));

    open spec fn view(&self) -> ((Seq<char>, u64), (Seq<char>, u64)) {
        self.id@
    }
}

impl PathReqTrait for SnapById {
    open spec fn read_path(p: Seq<Seq<char>>) -> Result<((Seq<char>, u64), (Seq<char>, u64)), Seq<char>> {
        match read_head(p, "snap_by_id"@) {
            Err(m) => Err(m),
            Ok(p) => match read_element::<Identity>(p, "channel identity"@) {
                Err(m) => Err(m),
                Ok((c_identity, p)) => match read_element::<u64>(p, "channel"@) {
                    Err(m) => Err(m),
                    Ok((channel, p)) => match read_element::<Identity>(p, "message identity"@) {
                        Err(m) => Err(m),
                        Ok((m_identity, p)) => match read_element::<u64>(p, "message unique"@) {
                            Err(m) => Err(m),
                            Ok((unique, p)) => match read_end(p) {
                                Err(m) => Err(m),
                                Ok(_) => Ok(((c_identity, channel), (m_identity, unique))),
                            },
                        },
                    },
                },
            },
        }
    }

    open spec fn path_segments(v: ((Seq<char>, u64), (Seq<char>, u64))) -> Seq<Seq<char>> {
        seq!["snap_by_id"@, v.0.0, dec_text(v.0.1 as nat), v.1.0, dec_text(v.1.1 as nat)]
    }

    open spec fn path_valid(v: ((Seq<char>, u64), (Seq<char>, u64))) -> bool {
        true
    }

    fn deserialize_path(path: &str) -> (r: Result<SnapById, String>) {
        let mut parts = deserialize_path(path);
        proof {
            assert forall|v: ((Seq<char>, u64), (Seq<char>, u64)), extra: Seq<char>| path@ == #[trigger] path_text(Self::path_segments(v).push(extra))
                implies Self::read_path(path_segments_of(path@)) == Err::<((Seq<char>, u64), (Seq<char>, u64)), Seq<char>>(extra_segments_message()) by {
                let rest = seq![v.0.0, dec_text(v.0.1 as nat), v.1.0, dec_text(v.1.1 as nat), extra];
                assert(seq![Seq::<char>::empty()] + Self::path_segments(v).push(extra) =~= seq![
                    Seq::<char>::empty(),
                    "snap_by_id"@,
                ] + rest);
                lemma_read_head("snap_by_id"@, rest);
                lemma_read_decimal(v.0.1 as nat, u64::MAX as int); lemma_read_decimal(v.1.1 as nat, u64::MAX as int);
                assert(rest.drop_first().drop_first().drop_first().drop_first() =~= seq![extra]);
            }
        }
        proof {
            assert forall|v: ((Seq<char>, u64), (Seq<char>, u64))| path@ == path_text(
                Self::path_segments(v),
            ) implies Self::read_path(path_segments_of(path@)) == Ok::<
                ((Seq<char>, u64), (Seq<char>, u64)),
                Seq<char>,
            >(v) by {
                let segs = Self::path_segments(v);
                let rest = seq![v.0.0, dec_text(v.0.1 as nat), v.1.0, dec_text(v.1.1 as nat)];
                assert(seq![Seq::<char>::empty()] + segs =~= seq![
                    Seq::<char>::empty(),
                    "snap_by_id"@,
                ] + rest);
                lemma_read_head("snap_by_id"@, rest);
                lemma_read_decimal(v.0.1 as nat, u64::MAX as int);
                lemma_read_decimal(v.1.1 as nat, u64::MAX as int);
                assert(rest.drop_first().drop_first().drop_first().drop_first()
                    =~= Seq::<Seq<char>>::empty());
            }
        }
        confirm_head(&mut parts, "snap_by_id")?;
        let out = SnapById {
            id: QualifiedMessageId {
                channel: QualifiedChannelId {
                    identity: confirm_path_element(&mut parts, "channel identity")?,
                    channel: ChannelId(confirm_path_element(&mut parts, "channel")?),
                },
                message: MessageId {
                    identity: confirm_path_element(&mut parts, "message identity")?,
                    unique: confirm_path_element(&mut parts, "message unique")?,
                },
            },
        };
        confirm_path_empty(&mut parts)?;
        Ok(out)
    }

    fn serialize_path(&self) -> (r: String) {
        let segs = vec![
            "snap_by_id".to_owned(),
            self.id.channel.identity.text.clone(),
            u64_text(self.id.channel.channel.0),
            self.id.message.identity.text.clone(),
            u64_text(self.id.message.unique),
        ];
        proof {
            reveal_strlit("snap_by_id");
            assert(strings_view(segs@) =~= Self::path_segments(self@));
        }
        serialize_path(&segs)
    }
}

/// Where in its channel a message, named by the id its client gave it, stands.
#[derive(Clone, Debug)]
pub struct SnapByClientId {
    pub channel: QualifiedChannelId,
    pub client_id: MessageClientId,
}

impl View for SnapByClientId {
    type V = ((Seq<char>, u64), Seq<char>);

    open spec fn view(&self) -> ((Seq<char>, u64), Seq<char>) {
        (self.channel@, self.client_id@)
    }
}

impl PathReqTrait for SnapByClientId {
    open spec fn read_path(p: Seq<Seq<char>>) -> Result<((Seq<char>, u64), Seq<char>), Seq<char>> {
        match read_head(p, "snap_by_client_id"@) {
            Err(m) => Err(m),
            Ok(p) => match read_element::<Identity>(p, "channel identity"@) {
                Err(m) => Err(m),
                Ok((identity, p)) => match read_element::<u64>(p, "channel"@) {
                    Err(m) => Err(m),
                    Ok((channel, p)) => match read_element::<MessageClientId>(
                        p,
                        "message client id"@,
                    ) {
                        Err(m) => Err(m),
                        Ok((client_id, p)) => match read_end(p) {
                            Err(m) => Err(m),
                            Ok(_) => Ok(((identity, channel), client_id)),
                        },
                    },
                },
            },
        }
    }

    open spec fn path_segments(v: ((Seq<char>, u64), Seq<char>)) -> Seq<Seq<char>> {
        seq!["snap_by_client_id"@, v.0.0, dec_text(v.0.1 as nat), v.1]
    }

    open spec fn path_valid(v: ((Seq<char>, u64), Seq<char>)) -> bool {
        true
    }

    fn deserialize_path(path: &str) -> (r: Result<SnapByClientId, String>) {
        let mut parts = deserialize_path(path);
        proof {
            assert forall|v: ((Seq<char>, u64), Seq<char>), extra: Seq<char>| path@ == #[trigger] path_text(Self::path_segments(v).push(extra))
                implies Self::read_path(path_segments_of(path@)) == Err::<((Seq<char>, u64), Seq<char>), Seq<char>>(extra_segments_message()) by {
                let rest = seq![v.0.0, dec_text(v.0.1 as nat), v.1, extra];
                assert(seq![Seq::<char>::empty()] + Self::path_segments(v).push(extra) =~= seq![
                    Seq::<char>::empty(),
                    "snap_by_client_id"@,
                ] + rest);
                lemma_read_head("snap_by_client_id"@, rest);
                lemma_read_decimal(v.0.1 as nat, u64::MAX as int);
                assert(rest.drop_first().drop_first().drop_first() =~= seq![extra]);
            }
        }
        proof {
            assert forall|v: ((Seq<char>, u64), Seq<char>)| path@ == path_text(
                Self::path_segments(v),
            ) implies Self::read_path(path_segments_of(path@)) == Ok::<
                ((Seq<char>, u64), Seq<char>),
                Seq<char>,
            >(v) by {
                let segs = Self::path_segments(v);
                let rest = seq![v.0.0, dec_text(v.0.1 as nat), v.1];
                assert(seq![Seq::<char>::empty()] + segs =~= seq![
                    Seq::<char>::empty(),
                    "snap_by_client_id"@,
                ] + rest);
                lemma_read_head("snap_by_client_id"@, rest);
                lemma_read_decimal(v.0.1 as nat, u64::MAX as int);
                assert(rest.drop_first().drop_first().drop_first() =~= Seq::<Seq<char>>::empty());
            }
        }
        confirm_head(&mut parts, "snap_by_client_id")?;
        let out = SnapByClientId {
            channel: QualifiedChannelId {
                identity: confirm_path_element(&mut parts, "channel identity")?,
                channel: ChannelId(confirm_path_element(&mut parts, "channel")?),
            },
            client_id: confirm_path_element(&mut parts, "message client id")?,
        };
        confirm_path_empty(&mut parts)?;
        Ok(out)
    }

    fn serialize_path(&self) -> (r: String) {
        let segs = vec![
            "snap_by_client_id".to_owned(),
            self.channel.identity.text.clone(),
            u64_text(self.channel.channel.0),
            self.client_id.0.clone(),
        ];
        proof {
            reveal_strlit("snap_by_client_id");
            assert(strings_view(segs@) =~= Self::path_segments(self@));
        }
        serialize_path(&segs)
    }
}


/// The snapshot page of a channel that holds the message received at `time`.
#[derive(Clone, Debug)]
pub struct SnapPageContainingTime {
    pub channel: QualifiedChannelId,
    pub time: Stamp,
}

impl View for SnapPageContainingTime {
    type V = ((Seq<char>, u64), int);

    open spec fn view(&self) -> ((Seq<char>, u64), int) {
        (self.channel@, self.time@)
    }
}

impl PathReqTrait for SnapPageContainingTime {
    open spec fn read_path(p: Seq<Seq<char>>) -> Result<((Seq<char>, u64), int), Seq<char>> {
        match read_head(p, "snap_page_containing_time"@) {
            Err(m) => Err(m),
            Ok(p) => match read_element::<Identity>(p, "channel identity"@) {
                Err(m) => Err(m),
                Ok((identity, p)) => match read_element::<u64>(p, "channel"@) {
                    Err(m) => Err(m),
                    Ok((channel, p)) => match read_element::<Stamp>(p, "message identity"@) {
                        Err(m) => Err(m),
                        Ok((time, p)) => match read_end(p) {
                            Err(m) => Err(m),
                            Ok(_) => Ok(((identity, channel), time)),
                        },
                    },
                },
            },
        }
    }

    open spec fn path_segments(v: ((Seq<char>, u64), int)) -> Seq<Seq<char>> {
        seq!["snap_page_containing_time"@, v.0.0, dec_text(v.0.1 as nat), stamp_display(v.1)]
    }

    open spec fn path_valid(v: ((Seq<char>, u64), int)) -> bool {
        stamp_valid(v.1)
    }

    fn deserialize_path(path: &str) -> (r: Result<SnapPageContainingTime, String>) {
        let mut parts = deserialize_path(path);
        proof {
            assert forall|v: ((Seq<char>, u64), int)| path@ == path_text(Self::path_segments(v))
                implies path_segments_of(path@) == seq![
                Seq::<char>::empty(),
                "snap_page_containing_time"@,
            ] + seq![v.0.0, dec_text(v.0.1 as nat), stamp_display(v.1)] && read_head(
                path_segments_of(path@),
                "snap_page_containing_time"@,
            ) == Ok::<Seq<Seq<char>>, Seq<char>>(
                seq![v.0.0, dec_text(v.0.1 as nat), stamp_display(v.1)],
            ) && crate::path::read_uint(dec_text(v.0.1 as nat), u64::MAX as int) == Ok::<
                int,
                Seq<char>,
            >(v.0.1 as int) by {
                let rest = seq![v.0.0, dec_text(v.0.1 as nat), stamp_display(v.1)];
                assert(seq![Seq::<char>::empty()] + Self::path_segments(v) =~= seq![
                    Seq::<char>::empty(),
                    "snap_page_containing_time"@,
                ] + rest);
                lemma_read_head("snap_page_containing_time"@, rest);
                lemma_read_decimal(v.0.1 as nat, u64::MAX as int);
            }
        }
        proof {
            assert forall|v: ((Seq<char>, u64), int), extra: Seq<char>|
                path@ == #[trigger] path_text(Self::path_segments(v).push(extra)) implies path_segments_of(path@) == seq![
                Seq::<char>::empty(),
                "snap_page_containing_time"@,
            ] + seq![v.0.0, dec_text(v.0.1 as nat), stamp_display(v.1), extra] && read_head(
                path_segments_of(path@),
                "snap_page_containing_time"@,
            ) == Ok::<Seq<Seq<char>>, Seq<char>>(
                seq![v.0.0, dec_text(v.0.1 as nat), stamp_display(v.1), extra],
            ) && crate::path::read_uint(dec_text(v.0.1 as nat), u64::MAX as int) == Ok::<
                int,
                Seq<char>,
            >(v.0.1 as int) by {
                let rest = seq![v.0.0, dec_text(v.0.1 as nat), stamp_display(v.1), extra];
                assert(seq![Seq::<char>::empty()] + Self::path_segments(v).push(extra) =~= seq![
                    Seq::<char>::empty(),
                    "snap_page_containing_time"@,
                ] + rest);
                lemma_read_head("snap_page_containing_time"@, rest);
                lemma_read_decimal(v.0.1 as nat, u64::MAX as int);
            }
        }
        confirm_head(&mut parts, "snap_page_containing_time")?;
        let ghost after_head = parts@;
        let identity: Identity = confirm_path_element(&mut parts, "channel identity")?;
        let channel: u64 = confirm_path_element(&mut parts, "channel")?;
        let ghost before_time = parts@;
        proof {
            assert forall|v: ((Seq<char>, u64), int)|
                path@ == path_text(Self::path_segments(v)) implies before_time == seq![
                stamp_display(v.1),
            ] && identity@ == v.0.0 && channel == v.0.1 by {
                let rest = seq![v.0.0, dec_text(v.0.1 as nat), stamp_display(v.1)];
                assert(after_head == rest);
                assert(rest.drop_first().drop_first() =~= seq![stamp_display(v.1)]);
            }
            assert forall|v: ((Seq<char>, u64), int), extra: Seq<char>|
                path@ == #[trigger] path_text(Self::path_segments(v).push(extra)) implies before_time == seq![
                stamp_display(v.1), extra,
            ] by {
                let rest = seq![v.0.0, dec_text(v.0.1 as nat), stamp_display(v.1), extra];
                assert(after_head == rest);
                assert(rest.drop_first().drop_first() =~= seq![stamp_display(v.1), extra]);
            }
        }
        let read_time: Result<Stamp, String> = confirm_path_element(&mut parts, "message identity");
        proof {
            assert forall|v: ((Seq<char>, u64), int)|
                Self::path_valid(v) && path@ == path_text(Self::path_segments(v)) implies (
                read_time matches Ok(t) && t@ == v.1) && parts@.len() == 0 by {
                assert(before_time[0] == stamp_display(v.1));
                assert(<Stamp as PathElement>::segment_text(v.1) == stamp_display(v.1));
                assert(<Stamp as PathElement>::segment_valid(v.1));
                assert(seq![stamp_display(v.1)].drop_first() =~= Seq::<Seq<char>>::empty());
            }
            assert forall|v: ((Seq<char>, u64), int), extra: Seq<char>|
                Self::path_valid(v) && path@ == #[trigger] path_text(Self::path_segments(v).push(extra)) implies (
                read_time matches Ok(t) && t@ == v.1) && parts@ == seq![extra] by {
                assert(before_time[0] == stamp_display(v.1));
                assert(<Stamp as PathElement>::segment_text(v.1) == stamp_display(v.1));
                assert(<Stamp as PathElement>::segment_valid(v.1));
                assert(seq![stamp_display(v.1), extra].drop_first() =~= seq![extra]);
            }
        }
        let time = match read_time {
            Ok(t) => t,
            Err(e) => {
                return Err(e);
            },
        };
        confirm_path_empty(&mut parts)?;
        Ok(
            SnapPageContainingTime {
                channel: QualifiedChannelId { identity, channel: ChannelId(channel) },
                time,
            },
        )
    }

    fn serialize_path(&self) -> (r: String) {
        let segs = vec![
            "snap_page_containing_time".to_owned(),
            self.channel.identity.text.clone(),
            u64_text(self.channel.channel.0),
            self.time.to_text(),
        ];
        proof {
            reveal_strlit("snap_page_containing_time");
            assert(strings_view(segs@) =~= Self::path_segments(self@));
        }
        serialize_path(&segs)
    }
}

} // verus!
