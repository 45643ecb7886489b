use vstd::prelude::*;
use crate::packet::{
    sub_topics_view, ConnAckPacket, PacketModel, PingRespPacket, ConnectReturnCode, MqttPacket, PubAckPacket, PubCompPacket, PubRecPacket,
    PubRelPacket, PublishModel, PublishPacket, SubAckPacket, SubscribePacket, UnsubAckPacket,
    UnsubscribePacket, strings_view,
};
use crate::qos::QoSManager;
use crate::topic::{
    copy_bytes, granted_to, topic_matches, subscribers_attained, subscribers_covered, distinct_clients, valid_filter, valid_topic,
    RetainedMessage, TopicManager, TopicSubscription,
};

verus! {

/// What a connection hands to the router.
#[derive(Debug, Clone)]
pub enum Event {
    /// A client completed CONNECT: its id, its clean-session flag and its
    /// will message, if any.
    ClientConnected(String, bool, Option<PublishPacket>),
    /// The connection of a client ended; `true` when it ended abnormally
    /// (socket error, EOF, keep-alive timeout), which publishes the will.
    ClientDisconnected(String, bool),
    /// A packet arrived from a connected client.
    MessageReceived(String, MqttPacket),
}

/// What the router asks a connection to do.
#[derive(Debug, Clone)]
pub enum Outbound {
    /// Write this packet to the connection of this client.
    MessageSent(String, MqttPacket),
    /// Close the connection of this client.
    Close(String),
}

/// The state the router keeps for one client id.
#[derive(Debug)]
pub struct Session {
    pub client_id: String,
    pub connected: bool,
    pub clean_session: bool,
    pub offline_queue: Vec<PublishPacket>,
    pub qos: QoSManager,
    pub awaiting_pubcomp: Vec<u16>,
    pub will: Option<PublishPacket>,
}

pub open spec fn min_qos(a: u8, b: u8) -> u8 {
    if a <= b {
        a
    } else {
        b
    }
}

/// The SUBACK return code for a requested (filter, qos): the granted qos,
/// at most 2, or 0x80 for a refused filter.
pub open spec fn grant_code(filter: Seq<char>, qos: u8) -> u8 {
    if valid_filter(filter) {
        min_qos(qos, 2)
    } else {
        0x80
    }
}

/// A PUBLISH as delivered to a subscriber: same topic and payload, qos
/// `qos`, not a duplicate, not retained, and a packet id exactly when
/// `qos > 0`.
pub open spec fn delivered(src: PublishModel, qos: u8, p: PublishModel) -> bool {
    &&& p.topic == src.topic
    &&& p.payload == src.payload
    &&& p.qos == qos
    &&& !p.dup
    &&& !p.retain
    &&& (p.packet_id is Some <==> qos > 0)
}

/// `o` writes to `client` a delivery of `src` at qos `qos`.
pub open spec fn sends_delivery(o: Outbound, client: Seq<char>, src: PublishModel, qos: u8) -> bool {
    match o {
        Outbound::MessageSent(c, MqttPacket::Publish(p)) => c@ == client && delivered(src, qos, p@),
        _ => false,
    }
}

/// `o` writes a delivery of `src` to a client that holds a subscription
/// matching the topic with granted qos `g`, at qos `min(src.qos, g)`.
pub open spec fn fan_out_send(o: Outbound, subs: Map<(Seq<char>, Seq<char>), u8>, src: PublishModel) -> bool {
    match o {
        Outbound::MessageSent(c, MqttPacket::Publish(p)) => exists|g: u8|
            #![trigger min_qos(src.qos, g)]
            granted_to(subs, src.topic, TopicSubscription { client_id: c, qos: g }) && delivered(
                src,
                min_qos(src.qos, g),
                p@,
            ),
        _ => false,
    }
}

/// `o` writes the packet `m` to the connection of `client`.
pub open spec fn sends(o: Outbound, client: Seq<char>, m: PacketModel) -> bool {
    match o {
        Outbound::MessageSent(c, p) => c@ == client && p@ == m,
        _ => false,
    }
}

/// `o` closes the connection of `client`.
pub open spec fn closes(o: Outbound, client: Seq<char>) -> bool {
    match o {
        Outbound::Close(c) => c@ == client,
        _ => false,
    }
}

/// `o` writes to `client` a retained message of `kept`: its topic and
/// payload, flagged retained, at a qos no larger than `granted` nor than the
/// qos it was stored with.
pub open spec fn sends_retained(
    o: Outbound,
    client: Seq<char>,
    kept: Map<Seq<char>, (Seq<u8>, u8)>,
    granted: u8,
) -> bool {
    match o {
        Outbound::MessageSent(c, MqttPacket::Publish(p)) => {
            &&& c@ == client
            &&& p.retain
            &&& !p.dup
            &&& kept.contains_key(p.topic_name@)
            &&& kept[p.topic_name@].0 == p.payload@
            &&& p.qos <= kept[p.topic_name@].1
            &&& p.qos <= granted
            &&& (p.packet_id is Some <==> p.qos > 0)
        },
        _ => false,
    }
}

/// Every packet id from 1 to 65535 is in `ids`.
pub open spec fn ids_exhausted(ids: Set<u16>) -> bool {
    forall|id: u16| 1 <= id ==> #[trigger] ids.contains(id)
}

/// The client an outbound action is addressed to.
pub open spec fn target(o: Outbound) -> Seq<char> {
    match o {
        Outbound::MessageSent(c, _) => c@,
        Outbound::Close(c) => c@,
    }
}

/// When `o` sends a PUBLISH under a packet id, `st` records that PUBLISH as
/// in flight to the target under that id.
pub open spec fn recorded(st: MessageRouter, o: Outbound) -> bool {
    match o {
        Outbound::MessageSent(c, MqttPacket::Publish(p)) => match p.packet_id {
            Some(id) => st.outgoing_of(c@).contains_key(id) && st.outgoing_of(c@)[id]@ == p@,
            None => true,
        },
        _ => true,
    }
}

/// `client` holds a subscription whose filter matches `topic`.
pub open spec fn has_match(subs: Map<(Seq<char>, Seq<char>), u8>, topic: Seq<char>, client: Seq<char>) -> bool {
    exists|k: (Seq<char>, Seq<char>)|
        #![trigger subs.contains_key(k)]
        subs.contains_key(k) && k.0 == client && topic_matches(topic, k.1)
}

/// `g` is the largest qos granted to `client` by a filter matching `topic`.
pub open spec fn max_grant(
    subs: Map<(Seq<char>, Seq<char>), u8>,
    topic: Seq<char>,
    client: Seq<char>,
    g: u8,
) -> bool {
    &&& exists|k: (Seq<char>, Seq<char>)|
        #![trigger subs.contains_key(k)]
        subs.contains_key(k) && k.0 == client && topic_matches(topic, k.1) && subs[k] == g
    &&& forall|k: (Seq<char>, Seq<char>)|
        #![trigger subs[k]]
        subs.contains_key(k) && k.0 == client && topic_matches(topic, k.1) ==> subs[k] <= g
}

/// `outs[lo..hi]` delivers `src` to `client` at the smaller of its qos and
/// the client's largest matching grant, unless that qos is above 0 and every
/// packet id of the client is in flight in `st`.
pub open spec fn reaches(
    st: MessageRouter,
    subs: Map<(Seq<char>, Seq<char>), u8>,
    outs: Seq<Outbound>,
    lo: int,
    hi: int,
    src: PublishModel,
    client: Seq<char>,
) -> bool {
    exists|g: u8|
        #![trigger max_grant(subs, src.topic, client, g)]
        max_grant(subs, src.topic, client, g) && ((exists|i: int|
            #![trigger outs[i]]
            lo <= i < hi && sends_delivery(outs[i], client, src, min_qos(src.qos, g))) || (
        min_qos(src.qos, g) > 0 && ids_exhausted(st.outgoing_ids(client))))
}

/// `outs[lo..hi]` is the fan-out of `src` under the subscriptions `subs`,
/// ending in state `st`: every output is a correct delivery to a subscriber
/// and is recorded as in flight when it has a packet id, no client gets two,
/// and every connected client with a matching subscription gets one.
pub open spec fn delivers_all(
    st: MessageRouter,
    subs: Map<(Seq<char>, Seq<char>), u8>,
    outs: Seq<Outbound>,
    lo: int,
    hi: int,
    src: PublishModel,
) -> bool {
    &&& 0 <= lo <= hi <= outs.len()
    &&& forall|i: int|
        lo <= i < hi ==> fan_out_send(#[trigger] outs[i], subs, src) && recorded(st, outs[i])
    &&& forall|i: int, j: int|
        lo <= i < j < hi ==> target(#[trigger] outs[i]) != target(#[trigger] outs[j])
    &&& forall|c: Seq<char>|
        #[trigger] has_match(subs, src.topic, c) && st.connected(c) ==> reaches(
            st,
            subs,
            outs,
            lo,
            hi,
            src,
            c,
        )
}

proof fn lemma_delivers_prefix(
    st: MessageRouter,
    subs: Map<(Seq<char>, Seq<char>), u8>,
    a: Seq<Outbound>,
    b: Seq<Outbound>,
    lo: int,
    hi: int,
    src: PublishModel,
)
    requires
        delivers_all(st, subs, a, lo, hi, src),
        hi <= b.len(),
        forall|i: int| 0 <= i < hi ==> #[trigger] b[i] == a[i],
    ensures
        delivers_all(st, subs, b, lo, hi, src),
{
    assert forall|i: int| lo <= i < hi implies fan_out_send(#[trigger] b[i], subs, src) && recorded(st, b[i]) by {
        assert(b[i] == a[i]);
    }
    assert forall|i: int, j: int| lo <= i < j < hi implies target(#[trigger] b[i]) != target(#[trigger] b[j]) by {
        assert(b[i] == a[i]);
        assert(b[j] == a[j]);
    }
    assert forall|c: Seq<char>| #[trigger] has_match(subs, src.topic, c) && st.connected(c) implies reaches(st, subs, b, lo, hi, src, c) by {
        assert(reaches(st, subs, a, lo, hi, src, c));
        let g = choose|g: u8| #![trigger max_grant(subs, src.topic, c, g)]
            max_grant(subs, src.topic, c, g) && ((exists|i: int|
            #![trigger a[i]]
            lo <= i < hi && sends_delivery(a[i], c, src, min_qos(src.qos, g))) || (
            min_qos(src.qos, g) > 0 && ids_exhausted(st.outgoing_ids(c))));
        if exists|i: int| #![trigger a[i]] lo <= i < hi && sends_delivery(a[i], c, src, min_qos(src.qos, g)) {
            let i = choose|i: int| #![trigger a[i]] lo <= i < hi && sends_delivery(a[i], c, src, min_qos(src.qos, g));
            assert(b[i] == a[i]);
        }
    }
}

proof fn lemma_subscribed_step(
    old: MessageRouter,
    cur: MessageRouter,
    new: MessageRouter,
    c: Seq<char>,
    ts: Seq<(Seq<char>, u8)>,
    i: int,
)
    requires
        subscribed(old, cur, c, ts.take(i)),
        0 <= i < ts.len(),
        valid_filter(ts[i].0) ==> new.subscription_map() == cur.subscription_map().insert(
            (c, ts[i].0),
            grant_code(ts[i].0, ts[i].1),
        ),
        !valid_filter(ts[i].0) ==> new.subscription_map() == cur.subscription_map(),
    ensures
        subscribed(old, new, c, ts.take(i + 1)),
{
    let t0 = ts.take(i);
    let t1 = ts.take(i + 1);
    assert forall|f: Seq<char>| #[trigger] requested(t1, f) == (requested(t0, f) || (ts[i].0 == f && valid_filter(f))) by {
        if requested(t1, f) {
            let j = choose|j: int| 0 <= j < t1.len() && (#[trigger] t1[j]).0 == f && valid_filter(f);
            if j < i {
                assert(t0[j] == t1[j]);
            }
        }
        if requested(t0, f) {
            let j = choose|j: int| 0 <= j < t0.len() && (#[trigger] t0[j]).0 == f && valid_filter(f);
            assert(t1[j] == t0[j]);
        }
        if ts[i].0 == f && valid_filter(f) {
            assert(t1[i] == ts[i]);
        }
    }
    assert forall|j: int|
        0 <= j < t1.len() && valid_filter((#[trigger] t1[j]).0) && (forall|l: int| j < l < t1.len() ==> t1[l].0 != t1[j].0)
        implies new.subscription_map().contains_key((c, t1[j].0)) && new.subscription_map()[(c, t1[j].0)]
        == grant_code(t1[j].0, t1[j].1) by {
        if j < i {
            assert(t1[j] == t0[j]);
            assert(t1[i] == ts[i]);
            assert(t1[i].0 != t1[j].0);
            assert forall|l: int| j < l < t0.len() implies t0[l].0 != t0[j].0 by {
                assert(t0[l] == t1[l]);
            }
        } else {
            assert(t1[j] == ts[i]);
        }
    }
    assert forall|k: (Seq<char>, Seq<char>)|
        !(k.0 == c && requested(t1, k.1)) implies (#[trigger] new.subscription_map().contains_key(k)
        == old.subscription_map().contains_key(k) && (old.subscription_map().contains_key(k) ==> new.subscription_map()[k]
        == old.subscription_map()[k])) by {
        assert(requested(t1, k.1) == (requested(t0, k.1) || (ts[i].0 == k.1 && valid_filter(k.1))));
        assert(!(k.0 == c && requested(t0, k.1)));
        assert(cur.subscription_map().contains_key(k) == old.subscription_map().contains_key(k));
        if valid_filter(ts[i].0) {
            assert(k != (c, ts[i].0));
        }
        if old.subscription_map().contains_key(k) {
            assert(cur.subscription_map()[k] == old.subscription_map()[k]);
        }
    }
}

proof fn lemma_max_grant(
    subs: Map<(Seq<char>, Seq<char>), u8>,
    topic: Seq<char>,
    r: Seq<TopicSubscription>,
    m: int,
)
    requires
        subscribers_attained(subs, topic, r),
        subscribers_covered(subs, topic, r),
        distinct_clients(r),
        0 <= m < r.len(),
    ensures
        max_grant(subs, topic, r[m].client_id@, r[m].qos),
{
    assert(granted_to(subs, topic, r[m]));
    assert forall|k: (Seq<char>, Seq<char>)|
        #![trigger subs[k]]
        subs.contains_key(k) && k.0 == r[m].client_id@ && topic_matches(topic, k.1) implies subs[k]
        <= r[m].qos by {
        let m2 = choose|m2: int|
            0 <= m2 < r.len() && r[m2].client_id@ == k.0 && r[m2].qos >= subs[k];
        if m2 < m {
            assert(r[m2].client_id@ != r[m].client_id@);
        } else if m < m2 {
            assert(r[m].client_id@ != r[m2].client_id@);
        }
    }
}

/// The retained store after a PUBLISH of `p`: set for a retained PUBLISH
/// with a payload, cleared for a retained one without, unchanged otherwise.
pub open spec fn retained_after(old: MessageRouter, new: MessageRouter, p: PublishModel) -> bool {
    &&& p.retain && valid_topic(p.topic) && p.payload.len() > 0 ==> new.retained_map()
        == old.retained_map().insert(p.topic, (p.payload, p.qos))
    &&& p.retain && valid_topic(p.topic) && p.payload.len() == 0 ==> new.retained_map()
        == old.retained_map().remove(p.topic)
    &&& !(p.retain && valid_topic(p.topic)) ==> new.retained_map() == old.retained_map()
}

/// After a qos 2 PUBLISH `p` from `client` under `pid`, the id is held, with
/// the first copy received, and the other held PUBLISHes are unchanged.
pub open spec fn held(old: MessageRouter, new: MessageRouter, client: Seq<char>, pid: u16, p: PublishModel) -> bool {
    &&& new.incoming_ids(client) == old.incoming_ids(client).insert(pid)
    &&& new.incoming_of(client)[pid]@ == if old.incoming_ids(client).contains(pid) {
        old.incoming_of(client)[pid]@
    } else {
        p
    }
    &&& forall|id: u16|
        id != pid && #[trigger] old.incoming_ids(client).contains(id) ==> new.incoming_of(client)[id]
            == old.incoming_of(client)[id]
}

/// What a PUBLISH `p` from `client` does: refused and closed unless
/// acceptable; qos 0 and 1 update the retained store and are fanned out to
/// every matching connected client, qos 1 then acknowledged with PUBACK;
/// qos 2 is held once per id and answered with PUBREC only.
pub open spec fn publish_outcome(old: MessageRouter, new: MessageRouter, client: Seq<char>, p: PublishModel, r: Seq<Outbound>) -> bool {
    &&& new.subscription_map() == old.subscription_map()
    &&& if !publish_acceptable(p) {
        r.len() == 1 && closes(r[0], client) && new.retained_map() == old.retained_map()
    } else if p.qos == 0 {
        retained_after(old, new, p) && delivers_all(new, old.subscription_map(), r, 0, r.len() as int, p)
    } else if p.qos == 1 {
        &&& retained_after(old, new, p)
        &&& r.len() >= 1
        &&& sends(r.last(), client, PacketModel::PubAck(p.packet_id.unwrap()))
        &&& delivers_all(new, old.subscription_map(), r, 0, r.len() - 1, p)
    } else {
        &&& new.retained_map() == old.retained_map()
        &&& r.len() == 1
        &&& sends(r[0], client, PacketModel::PubRec(p.packet_id.unwrap()))
        &&& old.has_session(client) ==> held(old, new, client, p.packet_id.unwrap(), p)
    }
}

/// What a PUBREL for `pid` from `client` does: the held PUBLISH, if any, is
/// released and fanned out, then PUBCOMP follows; without one, PUBCOMP is
/// all that happens.
pub open spec fn pubrel_outcome(old: MessageRouter, new: MessageRouter, client: Seq<char>, pid: u16, r: Seq<Outbound>) -> bool {
    &&& r.len() >= 1
    &&& sends(r.last(), client, PacketModel::PubComp(pid))
    &&& new.incoming_ids(client) == old.incoming_ids(client).remove(pid)
    &&& new.subscription_map() == old.subscription_map()
    &&& old.incoming_ids(client).contains(pid) ==> {
        &&& delivers_all(new, old.subscription_map(), r, 0, r.len() - 1, old.incoming_of(client)[pid]@)
        &&& retained_after(old, new, old.incoming_of(client)[pid]@)
    }
    &&& !old.incoming_ids(client).contains(pid) ==> r.len() == 1 && new.retained_map() == old.retained_map()
}

/// What an acknowledgement of `pid` from `client` does: the id leaves the
/// client's in-flight PUBLISHes; nothing else changes.
pub open spec fn ack_outcome(old: MessageRouter, new: MessageRouter, client: Seq<char>, pid: u16) -> bool {
    &&& new.outgoing_ids(client) == old.outgoing_ids(client).remove(pid)
    &&& new.incoming_of(client) == old.incoming_of(client)
    &&& new.subscription_map() == old.subscription_map()
    &&& new.retained_map() == old.retained_map()
}

/// `f` is one of the valid filters requested in `ts`.
pub open spec fn requested(ts: Seq<(Seq<char>, u8)>, f: Seq<char>) -> bool {
    exists|i: int| 0 <= i < ts.len() && (#[trigger] ts[i]).0 == f && valid_filter(f)
}

/// The subscriptions after `client` subscribes to `ts`: each valid filter
/// holds the code granted by its last request, other keys are unchanged.
pub open spec fn subscribed(old: MessageRouter, new: MessageRouter, client: Seq<char>, ts: Seq<(Seq<char>, u8)>) -> bool {
    &&& forall|i: int|
        0 <= i < ts.len() && valid_filter((#[trigger] ts[i]).0) && (forall|j: int| i < j < ts.len() ==> ts[j].0 != ts[i].0)
            ==> new.subscription_map().contains_key((client, ts[i].0)) && new.subscription_map()[(client, ts[i].0)]
            == grant_code(ts[i].0, ts[i].1)
    &&& forall|k: (Seq<char>, Seq<char>)|
        !(k.0 == client && requested(ts, k.1)) ==> (#[trigger] new.subscription_map().contains_key(k)
            == old.subscription_map().contains_key(k) && (old.subscription_map().contains_key(k) ==> new.subscription_map()[k]
            == old.subscription_map()[k]))
}

/// The subscriptions after `client` unsubscribes from `fs`.
pub open spec fn unsubscribed(old: MessageRouter, new: MessageRouter, client: Seq<char>, fs: Seq<Seq<char>>) -> bool {
    &&& forall|k: (Seq<char>, Seq<char>)|
        #[trigger] new.subscription_map().contains_key(k) == (old.subscription_map().contains_key(k) && !(
        k.0 == client && fs.contains(k.1)))
    &&& forall|k: (Seq<char>, Seq<char>)|
        #[trigger] new.subscription_map().contains_key(k) ==> new.subscription_map()[k] == old.subscription_map()[k]
}

/// What the end of `client`'s connection does: on an abnormal end its will
/// is fanned out; the client is no longer connected, and a clean session is
/// dropped.
pub open spec fn disconnected_outcome(old: MessageRouter, new: MessageRouter, client: Seq<char>, abnormal: bool, r: Seq<Outbound>) -> bool {
    &&& (abnormal && old.connected(client) && old.will_of(client) is Some) ==> delivers_all(
        new,
        new.subscription_map(),
        r,
        0,
        r.len() as int,
        old.will_of(client).unwrap()@,
    )
    &&& !(abnormal && old.connected(client) && old.will_of(client) is Some) ==> r.len() == 0
    &&& !new.connected(client)
    &&& old.has_session(client) && !old.persistent(client) && old.connected(client) ==> !new.has_session(client)
    &&& new.retained_map() == old.retained_map() || (abnormal && old.will_of(client) is Some)
}

/// A copy of a PUBLISH.
pub fn copy_publish(p: &PublishPacket) -> (r: PublishPacket)
    ensures
        r@ == p@,
{
    PublishPacket {
        dup: p.dup,
        qos: p.qos,
        retain: p.retain,
        topic_name: p.topic_name.clone(),
        packet_id: p.packet_id,
        payload: copy_bytes(&p.payload),
    }
}

/// The broker's routing core: subscriptions, retained messages and the
/// sessions of all clients. Events are applied one at a time.
pub struct MessageRouter {
    topics: TopicManager,
    sessions: Vec<Session>,
}

impl MessageRouter {
    pub closed spec fn wf(self) -> bool {
        &&& self.topics.wf()
        &&& forall|i: int| 0 <= i < self.sessions@.len() ==> (#[trigger] self.sessions@[i]).qos.wf()
        &&& forall|i: int, j: int|
            0 <= i < j < self.sessions@.len() ==> (#[trigger] self.sessions@[i]).client_id@ != (
            #[trigger] self.sessions@[j]).client_id@
    }

    /// Whether the router holds a session for `client`.
    pub closed spec fn has_session(self, client: Seq<char>) -> bool {
        exists|i: int| 0 <= i < self.sessions@.len() && (#[trigger] self.sessions@[i]).client_id@ == client
    }

    closed spec fn sidx(self, client: Seq<char>) -> int {
        choose|i: int| 0 <= i < self.sessions@.len() && (#[trigger] self.sessions@[i]).client_id@ == client
    }

    /// Whether `client` has a session with an open connection.
    pub closed spec fn connected(self, client: Seq<char>) -> bool {
        self.has_session(client) && self.sessions@[self.sidx(client)].connected
    }

    /// Whether `client` has a session that was opened without clean-session.
    pub closed spec fn persistent(self, client: Seq<char>) -> bool {
        self.has_session(client) && !self.sessions@[self.sidx(client)].clean_session
    }

    /// The PUBLISHes sent to `client` and awaiting their terminal ack, by
    /// packet id (empty without a session).
    pub closed spec fn outgoing_of(self, client: Seq<char>) -> Map<u16, PublishPacket> {
        if self.has_session(client) {
            self.sessions@[self.sidx(client)].qos.outgoing()
        } else {
            Map::empty()
        }
    }

    pub open spec fn outgoing_ids(self, client: Seq<char>) -> Set<u16> {
        self.outgoing_of(client).dom()
    }

    /// The qos 2 PUBLISHes received from `client` and not yet released by
    /// PUBREL, by packet id (empty without a session).
    pub closed spec fn incoming_of(self, client: Seq<char>) -> Map<u16, PublishPacket> {
        if self.has_session(client) {
            self.sessions@[self.sidx(client)].qos.incoming()
        } else {
            Map::empty()
        }
    }

    pub open spec fn incoming_ids(self, client: Seq<char>) -> Set<u16> {
        self.incoming_of(client).dom()
    }

    /// The will message registered by `client`, if any.
    pub closed spec fn will_of(self, client: Seq<char>) -> Option<PublishPacket> {
        if self.has_session(client) {
            self.sessions@[self.sidx(client)].will
        } else {
            None
        }
    }

    /// How many messages wait in the offline queue of `client`.
    pub closed spec fn offline_len(self, client: Seq<char>) -> nat {
        if self.has_session(client) {
            self.sessions@[self.sidx(client)].offline_queue@.len()
        } else {
            0
        }
    }

    /// `self` and `other` hold the same sessions, in the same places, with
    /// the same connection state and received qos 2 PUBLISHes.
    pub closed spec fn same_shape(self, other: MessageRouter) -> bool {
        &&& self.sessions@.len() == other.sessions@.len()
        &&& forall|i: int|
            0 <= i < self.sessions@.len() ==> {
                &&& (#[trigger] self.sessions@[i]).client_id@ == other.sessions@[i].client_id@
                &&& self.sessions@[i].connected == other.sessions@[i].connected
                &&& self.sessions@[i].clean_session == other.sessions@[i].clean_session
                &&& self.sessions@[i].qos.incoming() == other.sessions@[i].qos.incoming()
            }
    }

    /// `self` has the shape of `other`, and only the session of `client`
    /// may differ.
    pub closed spec fn frame_except(self, other: MessageRouter, client: Seq<char>) -> bool {
        &&& self.same_shape(other)
        &&& forall|i: int|
            0 <= i < self.sessions@.len() && (#[trigger] self.sessions@[i]).client_id@ != client
                ==> self.sessions@[i] == other.sessions@[i]
    }

    proof fn lemma_session_at(self, client: Seq<char>, si: int)
        requires
            self.wf(),
            0 <= si < self.sessions@.len(),
            self.sessions@[si].client_id@ == client,
        ensures
            self.has_session(client),
            self.sidx(client) == si,
    {
        assert(self.sessions@[si].client_id@ == client);
        let i = self.sidx(client);
        if i < si {
            assert(self.sessions@[i].client_id@ != self.sessions@[si].client_id@);
        } else if si < i {
            assert(self.sessions@[si].client_id@ != self.sessions@[i].client_id@);
        }
    }

    proof fn lemma_shape(self, other: MessageRouter, client: Seq<char>)
        requires
            self.wf(),
            other.wf(),
            self.same_shape(other),
        ensures
            self.has_session(client) == other.has_session(client),
            self.connected(client) == other.connected(client),
            self.persistent(client) == other.persistent(client),
            self.incoming_of(client) == other.incoming_of(client),
    {
        if other.has_session(client) {
            let i = other.sidx(client);
            other.lemma_session_at(client, i);
            assert(self.sessions@[i].client_id@ == client);
            self.lemma_session_at(client, i);
        } else if self.has_session(client) {
            let j = self.sidx(client);
            assert(other.sessions@[j].client_id@ == client);
        }
    }

    proof fn lemma_frame(self, other: MessageRouter, changed: Seq<char>, client: Seq<char>)
        requires
            self.wf(),
            other.wf(),
            self.frame_except(other, changed),
            client != changed,
        ensures
            self.outgoing_of(client) == other.outgoing_of(client),
            self.will_of(client) == other.will_of(client),
            self.offline_len(client) == other.offline_len(client),
    {
        self.lemma_shape(other, client);
        if other.has_session(client) {
            let i = other.sidx(client);
            other.lemma_session_at(client, i);
            self.lemma_session_at(client, i);
        }
    }

    /// The subscription map of the router's topic index.
    pub closed spec fn subscription_map(self) -> Map<(Seq<char>, Seq<char>), u8> {
        self.topics.subscription_map()
    }

    /// The retained messages of the router's topic index.
    pub closed spec fn retained_map(self) -> Map<Seq<char>, (Seq<u8>, u8)> {
        self.topics.retained_map()
    }

    pub fn new() -> (r: MessageRouter)
        ensures
            r.wf(),
            r.subscription_map() == Map::<(Seq<char>, Seq<char>), u8>::empty(),
            r.retained_map() == Map::<Seq<char>, (Seq<u8>, u8)>::empty(),
    {
        MessageRouter { topics: TopicManager::new(), sessions: Vec::new() }
    }

    fn find_session(&self, client_id: &String) -> (r: Option<usize>)
        ensures
            r matches Some(i) ==> i < self.sessions@.len() && self.sessions@[i as int].client_id@
                == client_id@,
            r is None ==> forall|j: int| 0 <= j < self.sessions@.len() ==> (#[trigger] self.sessions@[j]).client_id@ != client_id@,
    {
        let mut i: usize = 0;
        while i < self.sessions.len()
            invariant
                0 <= i <= self.sessions@.len(),
                forall|j: int| 0 <= j < i ==> (#[trigger] self.sessions@[j]).client_id@ != client_id@,
            decreases self.sessions@.len() - i,
        {
            if self.sessions[i].client_id == *client_id {
                return Some(i);
            }
            i = i + 1;
        }
        None
    }

    /// Delivers `src` to one subscriber at qos `min(src.qos, granted)`: to
    /// its connection when connected (recording it as in flight when the
    /// qos is above 0), to its offline queue when its session persists. A
    /// connected session with every packet id in flight gets it queued too,
    /// to be sent when it next resumes.
    fn deliver(&mut self, src: &PublishPacket, client_id: &String, granted: u8, out: &mut Vec<Outbound>)
        requires
            old(self).wf(),
        ensures
            final(self).wf(),
            final(self).subscription_map() == old(self).subscription_map(),
            final(self).retained_map() == old(self).retained_map(),
            final(self).frame_except(*old(self), client_id@),
            old(out)@.len() <= final(out)@.len() <= old(out)@.len() + 1,
            forall|i: int| 0 <= i < old(out)@.len() ==> #[trigger] final(out)@[i] == old(out)@[i],
            final(out)@.len() == old(out)@.len() + 1 ==> sends_delivery(
                final(out)@.last(),
                client_id@,
                src@,
                min_qos(src.qos, granted),
            ) && recorded(*final(self), final(out)@.last()),
            old(self).connected(client_id@) ==> final(out)@.len() == old(out)@.len() + 1 || (
            min_qos(src.qos, granted) > 0 && ids_exhausted(final(self).outgoing_ids(client_id@))),
    {
        let qd: u8 = if src.qos <= granted { src.qos } else { granted };
        let si = match self.find_session(client_id) {
            Some(i) => i,
            None => {
                assert(!self.has_session(client_id@));
                return;
            },
        };
        proof {
            self.lemma_session_at(client_id@, si as int);
        }
        let connected = self.sessions[si].connected;
        let clean = self.sessions[si].clean_session;
        if !connected && clean {
            return;
        }
        if !connected {
            let queued = PublishPacket {
                dup: false,
                qos: qd,
                retain: false,
                topic_name: src.topic_name.clone(),
                packet_id: None,
                payload: copy_bytes(&src.payload),
            };
            self.sessions[si].offline_queue.push(queued);
            return;
        }
        let mut packet_id: Option<u16> = None;
        if qd > 0 {
            assert(self.sessions@[si as int].qos.wf());
            match self.sessions[si].qos.next_packet_id() {
                Ok(id) => {
                    packet_id = Some(id);
                },
                Err(_) => {
                    proof {
                        QoSManager::lemma_exhausted(self.sessions@[si as int].qos);
                    }
                    let pending = PublishPacket {
                        dup: false,
                        qos: qd,
                        retain: false,
                        topic_name: src.topic_name.clone(),
                        packet_id: None,
                        payload: copy_bytes(&src.payload),
                    };
                    self.sessions[si].offline_queue.push(pending);
                    proof {
                        self.lemma_session_at(client_id@, si as int);
                    }
                    return;
                },
            }
        }
        let pkt = PublishPacket {
            dup: false,
            qos: qd,
            retain: false,
            topic_name: src.topic_name.clone(),
            packet_id,
            payload: copy_bytes(&src.payload),
        };
        if let Some(id) = packet_id {
            let kept = copy_publish(&pkt);
            self.sessions[si].qos.store_outgoing(id, kept);
        }
        proof {
            self.lemma_session_at(client_id@, si as int);
        }
        out.push(Outbound::MessageSent(client_id.clone(), MqttPacket::Publish(pkt)));
    }
}

impl MessageRouter {
    /// Publishes `src` to the subscribers of its topic: first sets or clears
    /// the retained message when `src` is retained, then delivers to each
    /// matching client once, at the smaller of the publish qos and the
    /// largest qos granted to that client.
    /// The state of a fan-out after delivering to `subscribers[..i]`.
    closed spec fn fan_inv(
        st: MessageRouter,
        s0: MessageRouter,
        subs: Map<(Seq<char>, Seq<char>), u8>,
        src: PublishModel,
        subscribers: Seq<TopicSubscription>,
        outs: Seq<Outbound>,
        start: int,
        wit: Seq<int>,
        i: int,
    ) -> bool {
        &&& st.wf()
        &&& s0.wf()
        &&& st.same_shape(s0)
        &&& distinct_clients(subscribers)
        &&& subscribers_attained(subs, src.topic, subscribers)
        &&& 0 <= i <= subscribers.len()
        &&& 0 <= start <= outs.len()
        &&& wit.len() == outs.len() - start
        &&& forall|j: int|
            start <= j < outs.len() ==> fan_out_send(#[trigger] outs[j], subs, src) && recorded(
                st,
                outs[j],
            )
        &&& forall|j: int|
            0 <= j < wit.len() ==> 0 <= #[trigger] wit[j] < i && target(outs[start + j])
                == subscribers[wit[j]].client_id@
        &&& forall|a: int, b: int| 0 <= a < b < wit.len() ==> #[trigger] wit[a] < #[trigger] wit[b]
        &&& forall|m: int|
            0 <= m < i && s0.connected((#[trigger] subscribers[m]).client_id@) ==> (exists|j: int|
                start <= j < outs.len() && #[trigger] sends_delivery(
                    outs[j],
                    subscribers[m].client_id@,
                    src,
                    min_qos(src.qos, subscribers[m].qos),
                )) || (min_qos(src.qos, subscribers[m].qos) > 0 && ids_exhausted(
                st.outgoing_ids(subscribers[m].client_id@),
            ))
    }

    #[verifier::spinoff_prover]
    #[verifier::rlimit(60)]
    proof fn lemma_fan_step(
        st: MessageRouter,
        nw: MessageRouter,
        s0: MessageRouter,
        subs: Map<(Seq<char>, Seq<char>), u8>,
        src: PublishModel,
        subscribers: Seq<TopicSubscription>,
        before: Seq<Outbound>,
        after: Seq<Outbound>,
        start: int,
        wit: Seq<int>,
        i: int,
    ) -> (w2: Seq<int>)
        requires
            Self::fan_inv(st, s0, subs, src, subscribers, before, start, wit, i),
            i < subscribers.len(),
            nw.wf(),
            nw.frame_except(st, subscribers[i].client_id@),
            before.len() <= after.len() <= before.len() + 1,
            forall|j: int| 0 <= j < before.len() ==> #[trigger] after[j] == before[j],
            after.len() == before.len() + 1 ==> sends_delivery(
                after.last(),
                subscribers[i].client_id@,
                src,
                min_qos(src.qos, subscribers[i].qos),
            ) && recorded(nw, after.last()),
            st.connected(subscribers[i].client_id@) ==> after.len() == before.len() + 1 || (min_qos(
                src.qos,
                subscribers[i].qos,
            ) > 0 && ids_exhausted(nw.outgoing_ids(subscribers[i].client_id@))),
        ensures
            Self::fan_inv(nw, s0, subs, src, subscribers, after, start, w2, i + 1),
    {
        let ci = subscribers[i].client_id@;
        st.lemma_shape(s0, ci);
        assert(granted_to(subs, src.topic, subscribers[i]));
        assert forall|j: int| 0 <= j < wit.len() implies subscribers[#[trigger] wit[j]].client_id@ != ci by {
            assert(subscribers[wit[j]].client_id@ != subscribers[i].client_id@);
        }
        assert forall|j: int| start <= j < before.len() implies fan_out_send(#[trigger] after[j], subs, src) && recorded(nw, after[j]) by {
            assert(after[j] == before[j]);
            let w = wit[j - start];
            let c = target(before[j]);
            assert(c == subscribers[w].client_id@);
            nw.lemma_frame(st, ci, c);
        }
        let w2 = if after.len() == before.len() + 1 {
            let o = after.last();
            match o {
                Outbound::MessageSent(c, MqttPacket::Publish(p)) => {
                    let g = subscribers[i].qos;
                    assert(TopicSubscription { client_id: c, qos: g }.client_id@ == subscribers[i].client_id@);
                    assert(granted_to(subs, src.topic, TopicSubscription { client_id: c, qos: g }));
                    assert(delivered(src, min_qos(src.qos, g), p@));
                    assert(fan_out_send(o, subs, src));
                },
                _ => {},
            }
            assert(after[after.len() - 1] == o);
            wit.push(i)
        } else {
            wit
        };
        assert forall|m: int|
            0 <= m < i + 1 && s0.connected((#[trigger] subscribers[m]).client_id@) implies (exists|j: int|
                start <= j < after.len() && #[trigger] sends_delivery(
                    after[j],
                    subscribers[m].client_id@,
                    src,
                    min_qos(src.qos, subscribers[m].qos),
                )) || (min_qos(src.qos, subscribers[m].qos) > 0 && ids_exhausted(
                nw.outgoing_ids(subscribers[m].client_id@),
            )) by {
            if m < i {
                assert(subscribers[m].client_id@ != subscribers[i].client_id@);
                nw.lemma_frame(st, ci, subscribers[m].client_id@);
                if exists|j: int|
                    start <= j < before.len() && #[trigger] sends_delivery(
                        before[j],
                        subscribers[m].client_id@,
                        src,
                        min_qos(src.qos, subscribers[m].qos),
                    ) {
                    let j = choose|j: int|
                        start <= j < before.len() && #[trigger] sends_delivery(
                            before[j],
                            subscribers[m].client_id@,
                            src,
                            min_qos(src.qos, subscribers[m].qos),
                        );
                    assert(after[j] == before[j]);
                }
            } else {
                if after.len() == before.len() + 1 {
                    assert(sends_delivery(after[after.len() - 1], ci, src, min_qos(src.qos, subscribers[i].qos)));
                }
            }
        }
        w2
    }

    #[verifier::spinoff_prover]
    proof fn lemma_fan_end(
        st: MessageRouter,
        s0: MessageRouter,
        subs: Map<(Seq<char>, Seq<char>), u8>,
        src: PublishModel,
        subscribers: Seq<TopicSubscription>,
        outs: Seq<Outbound>,
        start: int,
        wit: Seq<int>,
    )
        requires
            Self::fan_inv(st, s0, subs, src, subscribers, outs, start, wit, subscribers.len() as int),
            subscribers_covered(subs, src.topic, subscribers),
        ensures
            delivers_all(st, subs, outs, start, outs.len() as int, src),
    {
        assert forall|a: int, b: int|
            start <= a < b < outs.len() implies target(#[trigger] outs[a]) != target(#[trigger] outs[b]) by {
            let wa = wit[a - start];
            let wb = wit[b - start];
            assert(wa < wb);
            assert(subscribers[wa].client_id@ != subscribers[wb].client_id@);
        }
        assert forall|c: Seq<char>|
            #[trigger] has_match(subs, src.topic, c) && st.connected(c) implies reaches(
            st,
            subs,
            outs,
            start,
            outs.len() as int,
            src,
            c,
        ) by {
            let k = choose|k: (Seq<char>, Seq<char>)|
                #![trigger subs.contains_key(k)]
                subs.contains_key(k) && k.0 == c && topic_matches(src.topic, k.1);
            assert(subs.contains_key(k) && topic_matches(src.topic, k.1));
            let m = choose|m: int|
                0 <= m < subscribers.len() && subscribers[m].client_id@ == k.0 && subscribers[m].qos >= subs[k];
            lemma_max_grant(subs, src.topic, subscribers, m);
            st.lemma_shape(s0, c);
            assert(s0.connected(subscribers[m].client_id@));
            let g = subscribers[m].qos;
            assert(max_grant(subs, src.topic, c, g));
        }
    }

    /// Publishes `src` to the subscribers of its topic: first sets or clears
    /// the retained message when `src` is retained, then delivers to each
    /// matching client once, at the smaller of the publish qos and the
    /// largest qos granted to that client.
    fn fan_out(&mut self, src: &PublishPacket, out: &mut Vec<Outbound>)
        requires
            old(self).wf(),
        ensures
            final(self).wf(),
            final(self).subscription_map() == old(self).subscription_map(),
            src.retain && valid_topic(src.topic_name@) && src.payload@.len() > 0 ==> final(self).retained_map() == old(self).retained_map().insert(
                src.topic_name@,
                (src.payload@, src.qos),
            ),
            src.retain && valid_topic(src.topic_name@) && src.payload@.len() == 0 ==> final(self).retained_map() == old(self).retained_map().remove(src.topic_name@),
            !(src.retain && valid_topic(src.topic_name@)) ==> final(self).retained_map() == old(self).retained_map(),
            final(self).same_shape(*old(self)),
            old(out)@.len() <= final(out)@.len(),
            forall|i: int| 0 <= i < old(out)@.len() ==> #[trigger] final(out)@[i] == old(out)@[i],
            delivers_all(
                *final(self),
                old(self).subscription_map(),
                final(out)@,
                old(out)@.len() as int,
                final(out)@.len() as int,
                src@,
            ),
    {
        if src.retain {
            let payload = copy_bytes(&src.payload);
            self.topics.store_retained_message(src.topic_name.as_str(), payload, src.qos);
        }
        let subscribers = self.topics.find_subscribers(src.topic_name.as_str());
        let ghost subs = self.subscription_map();
        let ghost rm0 = self.retained_map();
        let ghost s0 = *self;
        let ghost start = out@.len() as int;
        let ghost prefix = out@;
        let ghost mut wit: Seq<int> = Seq::empty();
        proof {
            assert(self.same_shape(s0));
        }
        let mut i: usize = 0;
        while i < subscribers.len()
            invariant
                Self::fan_inv(*self, s0, subs, src@, subscribers@, out@, start, wit, i as int),
                s0.same_shape(*old(self)),
                self.subscription_map() == subs,
                subs == old(self).subscription_map(),
                self.retained_map() == rm0,
                subscribers_covered(subs, src.topic_name@, subscribers@),
                forall|j: int| 0 <= j < start ==> #[trigger] out@[j] == prefix[j],
                start == prefix.len(),
            decreases subscribers@.len() - i,
        {
            let sub = &subscribers[i];
            let ghost before = out@;
            let ghost st = *self;
            self.deliver(src, &sub.client_id, sub.qos, out);
            proof {
                wit = Self::lemma_fan_step(st, *self, s0, subs, src@, subscribers@, before, out@, start, wit, i as int);
            }
            i = i + 1;
        }
        proof {
            Self::lemma_fan_end(*self, s0, subs, src@, subscribers@, out@, start, wit);
            assert(self.same_shape(*old(self)));
        }
    }
}

impl MessageRouter {
    fn send(out: &mut Vec<Outbound>, client_id: &String, packet: MqttPacket)
        ensures
            final(out)@.len() == old(out)@.len() + 1,
            forall|i: int| 0 <= i < old(out)@.len() ==> #[trigger] final(out)@[i] == old(out)@[i],
            sends(final(out)@.last(), client_id@, packet@),
    {
        out.push(Outbound::MessageSent(client_id.clone(), packet));
    }

    /// SUBSCRIBE: grants each valid filter `min(qos, 2)` and refuses the
    /// others with 0x80, answers with SUBACK, then replays the retained
    /// messages that match each granted filter.
    fn handle_subscribe(&mut self, client_id: &String, packet: &SubscribePacket, out: &mut Vec<Outbound>)
        requires
            old(self).wf(),
            old(out)@.len() == 0,
        ensures
            final(self).wf(),
            final(out)@.len() >= 1,
            sends(
                final(out)@[0],
                client_id@,
                PacketModel::SubAck {
                    packet_id: packet.packet_id,
                    return_codes: sub_topics_view(packet.topics@).map_values(
                        |t: (Seq<char>, u8)| grant_code(t.0, t.1),
                    ),
                },
            ),
            forall|i: int| 1 <= i < final(out)@.len() ==> #[trigger] sends_retained(final(out)@[i], client_id@, old(self).retained_map(), 2),
            final(self).retained_map() == old(self).retained_map(),
            subscribed(*old(self), *final(self), client_id@, sub_topics_view(packet.topics@)),
    {
        let mut codes: Vec<u8> = Vec::new();
        let mut granted: Vec<u8> = Vec::new();
        let ghost tv = sub_topics_view(packet.topics@);
        proof {
            assert(tv.take(0) =~= Seq::<(Seq<char>, u8)>::empty());
        }
        let mut i: usize = 0;
        while i < packet.topics.len()
            invariant
                self.wf(),
                tv == sub_topics_view(packet.topics@),
                0 <= i <= packet.topics@.len(),
                codes@.len() == i,
                granted@.len() == i,
                forall|j: int| 0 <= j < i ==> #[trigger] codes@[j] == grant_code(tv[j].0, tv[j].1),
                self.retained_map() == old(self).retained_map(),
                subscribed(*old(self), *self, client_id@, tv.take(i as int)),
                forall|j: int| 0 <= j < i ==> #[trigger] granted@[j] == codes@[j],
            decreases packet.topics@.len() - i,
        {
            let (filter, qos) = (&packet.topics[i].0, packet.topics[i].1);
            assert(tv[i as int] == (filter@, qos));
            let ghost cur = *self;
            let code: u8 = if self.topics.is_valid_topic_filter(filter.as_str()) {
                let g: u8 = if qos <= 2 { qos } else { 2 };
                self.topics.add_subscription(filter.as_str(), client_id.clone(), g);
                g
            } else {
                0x80
            };
            proof {
                lemma_subscribed_step(*old(self), cur, *self, client_id@, tv, i as int);
            }
            codes.push(code);
            granted.push(code);
            i = i + 1;
        }
        assert(codes@ =~= tv.map_values(|t: (Seq<char>, u8)| grant_code(t.0, t.1)));
        assert(tv.take(i as int) =~= tv);
        let ghost sub1 = self.subscription_map();
        Self::send(out, client_id, MqttPacket::SubAck(SubAckPacket { packet_id: packet.packet_id, return_codes: codes }));
        let mut k: usize = 0;
        while k < packet.topics.len()
            invariant
                self.wf(),
                granted@.len() == packet.topics@.len(),
                forall|j: int| 0 <= j < granted@.len() ==> #[trigger] granted@[j] <= 2 || granted@[j] == 0x80,
                out@.len() >= 1,
                sends(
                    out@[0],
                    client_id@,
                    PacketModel::SubAck {
                        packet_id: packet.packet_id,
                        return_codes: sub_topics_view(packet.topics@).map_values(
                            |t: (Seq<char>, u8)| grant_code(t.0, t.1),
                        ),
                    },
                ),
                forall|j: int| 1 <= j < out@.len() ==> #[trigger] sends_retained(out@[j], client_id@, old(self).retained_map(), 2),
                self.retained_map() == old(self).retained_map(),
                self.subscription_map() == sub1,
                subscribed(*old(self), *self, client_id@, tv),
                tv == sub_topics_view(packet.topics@),
            decreases packet.topics@.len() - k,
        {
            let g = granted[k];
            if g <= 2 {
                let ghost before = out@;
                self.replay_retained(client_id, packet.topics[k].0.as_str(), g, out);
                assert forall|j: int| 1 <= j < out@.len() implies #[trigger] sends_retained(out@[j], client_id@, old(self).retained_map(), 2) by {
                    if j < before.len() {
                        assert(out@[j] == before[j]);
                    } else {
                        assert(sends_retained(out@[j], client_id@, old(self).retained_map(), g));
                    }
                }
                assert(out@[0] == before[0]);
            }
            k = k + 1;
        }
    }

    /// Sends each retained message matching `filter` to `client_id`, flagged
    /// retained, at the smaller of its qos and `granted`.
    fn replay_retained(&mut self, client_id: &String, filter: &str, granted: u8, out: &mut Vec<Outbound>)
        requires
            old(self).wf(),
            granted <= 2,
        ensures
            final(self).wf(),
            old(out)@.len() <= final(out)@.len(),
            forall|i: int| 0 <= i < old(out)@.len() ==> #[trigger] final(out)@[i] == old(out)@[i],
            forall|i: int| old(out)@.len() <= i < final(out)@.len() ==> #[trigger] sends_retained(final(out)@[i], client_id@, old(self).retained_map(), granted),
            final(self).retained_map() == old(self).retained_map(),
            final(self).subscription_map() == old(self).subscription_map(),
    {
        let msgs = self.topics.get_retained_messages(filter);
        let ghost kept = self.retained_map();
        let si = self.find_session(client_id);
        let ghost start = out@.len();
        let ghost prefix = out@;
        let mut i: usize = 0;
        while i < msgs.len()
            invariant
                self.wf(),
                si matches Some(x) ==> x < self.sessions@.len(),
                start <= out@.len(),
                forall|j: int| 0 <= j < start ==> #[trigger] out@[j] == prefix[j],
                forall|j: int| start <= j < out@.len() ==> #[trigger] sends_retained(out@[j], client_id@, kept, granted),
                kept == old(self).retained_map(),
                self.retained_map() == kept,
                self.subscription_map() == old(self).subscription_map(),
                forall|m: int|
                    0 <= m < msgs@.len() ==> {
                        &&& kept.contains_key((#[trigger] msgs@[m]).topic@)
                        &&& kept[msgs@[m].topic@] == (msgs@[m].payload@, msgs@[m].qos)
                    },
            decreases msgs@.len() - i,
        {
            let m: &RetainedMessage = &msgs[i];
            let mut qos: u8 = if m.qos <= granted { m.qos } else { granted };
            let mut packet_id: Option<u16> = None;
            if qos > 0 {
                match si {
                    Some(x) => {
                        assert(self.sessions@[x as int].qos.wf());
                        match self.sessions[x].qos.next_packet_id() {
                            Ok(id) => {
                                packet_id = Some(id);
                            },
                            Err(_) => {
                                qos = 0;
                            },
                        }
                    },
                    None => {
                        qos = 0;
                    },
                }
            }
            let pkt = PublishPacket {
                dup: false,
                qos,
                retain: true,
                topic_name: m.topic.clone(),
                packet_id,
                payload: copy_bytes(&m.payload),
            };
            if let (Some(x), Some(id)) = (si, packet_id) {
                let kept = copy_publish(&pkt);
                self.sessions[x].qos.store_outgoing(id, kept);
            }
            out.push(Outbound::MessageSent(client_id.clone(), MqttPacket::Publish(pkt)));
            i = i + 1;
        }
    }
}

/// A PUBLISH the router accepts from a client: a valid topic name, qos at
/// most 2, and a packet id exactly when qos > 0.
pub open spec fn publish_acceptable(p: PublishModel) -> bool {
    &&& valid_topic(p.topic)
    &&& p.qos <= 2
    &&& (p.packet_id is Some <==> p.qos > 0)
}

impl MessageRouter {
    fn new_session(client_id: &String, clean_session: bool, will: Option<PublishPacket>) -> (r: Session)
        ensures
            r.qos.wf(),
            r.connected,
            r.client_id@ == client_id@,
            r.clean_session == clean_session,
    {
        Session {
            client_id: client_id.clone(),
            connected: true,
            clean_session,
            offline_queue: Vec::new(),
            qos: QoSManager::new(),
            awaiting_pubcomp: Vec::new(),
            will,
        }
    }

    /// A client completed CONNECT. A connection already open under the same
    /// id is closed. A persisted session is resumed when neither side asks
    /// for a clean session; otherwise a fresh one replaces it. CONNACK says
    /// whether a session was resumed, and the messages queued while the
    /// client was away follow it, each with a fresh packet id.
    fn client_connected(&mut self, client_id: &String, clean_session: bool, will: Option<PublishPacket>, out: &mut Vec<Outbound>)
        requires
            old(self).wf(),
            old(out)@.len() == 0,
        ensures
            final(self).wf(),
            1 <= final(out)@.len(),
            exists|k: int, sp: bool|
                0 <= k <= 1 && k < final(out)@.len() && #[trigger] sends(
                    final(out)@[k],
                    client_id@,
                    PacketModel::ConnAck {
                        session_present: sp,
                        return_code: ConnectReturnCode::Accepted,
                    },
                ) && sp == (old(self).persistent(client_id@) && !clean_session) && (k == 1 ==> closes(
                    final(out)@[0],
                    client_id@,
                )) && (sp ==> final(out)@.len() == k + 1 + old(self).offline_len(client_id@)),
            clean_session ==> forall|key: (Seq<char>, Seq<char>)|
                #[trigger] final(self).subscription_map().contains_key(key) ==> key.0 != client_id@,
            final(self).retained_map() == old(self).retained_map(),
    {
        let mut present = false;
        let mut closed = false;
        let mut queue: Vec<PublishPacket> = Vec::new();
        let found = self.find_session(client_id);
        proof {
            match found {
                Some(i) => self.lemma_session_at(client_id@, i as int),
                None => assert(!self.has_session(client_id@)),
            }
        }
        let stale = match found {
            Some(i) => clean_session || self.sessions[i].clean_session,
            None => true,
        };
        if stale {
            self.topics.remove_client(client_id);
        }
        let ghost subs_after = self.subscription_map();
        match found {
            Some(i) => {
                if self.sessions[i].connected {
                    out.push(Outbound::Close(client_id.clone()));
                    closed = true;
                }
                if clean_session || self.sessions[i].clean_session {
                    self.sessions.remove(i);
                    let fresh = Self::new_session(client_id, clean_session, will);
                    self.sessions.push(fresh);
                } else {
                    present = true;
                    self.sessions[i].connected = true;
                    self.sessions[i].will = will;
                    std::mem::swap(&mut queue, &mut self.sessions[i].offline_queue);
                }
            },
            None => {
                let fresh = Self::new_session(client_id, clean_session, will);
                self.sessions.push(fresh);
            },
        }
        assert(clean_session ==> stale);
        assert(self.subscription_map() == subs_after);
        assert(present == (old(self).persistent(client_id@) && !clean_session));
        assert(present ==> queue@.len() == old(self).offline_len(client_id@));
        assert(!present ==> queue@.len() == 0);
        let ghost k: int = if closed { 1 } else { 0 };
        Self::send(out, client_id, MqttPacket::ConnAck(ConnAckPacket { session_present: present, return_code: ConnectReturnCode::Accepted }));
        assert(sends(out@[k], client_id@, PacketModel::ConnAck { session_present: present, return_code: ConnectReturnCode::Accepted }));
        let ghost prefix = out@;
        let mut i: usize = 0;
        while i < queue.len()
            invariant
                self.wf(),
                self.subscription_map() == subs_after,
                self.retained_map() == old(self).retained_map(),
                prefix.len() == k + 1,
                prefix.len() <= out@.len(),
                out@.len() == prefix.len() + i,
                i <= queue@.len(),
                forall|j: int| 0 <= j < prefix.len() ==> #[trigger] out@[j] == prefix[j],
            decreases queue@.len() - i,
        {
            let mut pkt = copy_publish(&queue[i]);
            pkt.packet_id = None;
            if pkt.qos > 0 {
                match self.find_session(client_id) {
                    Some(x) => {
                        assert(self.sessions@[x as int].qos.wf());
                        match self.sessions[x].qos.next_packet_id() {
                            Ok(id) => {
                                pkt.packet_id = Some(id);
                                let kept = copy_publish(&pkt);
                                self.sessions[x].qos.store_outgoing(id, kept);
                            },
                            Err(_) => {
                                pkt.qos = 0;
                            },
                        }
                    },
                    None => {
                        pkt.qos = 0;
                    },
                }
            }
            out.push(Outbound::MessageSent(client_id.clone(), MqttPacket::Publish(pkt)));
            i = i + 1;
        }
        assert(out@[k] == prefix[k]);
        assert(k == 1 ==> out@[0] == prefix[0]);
    }

    /// The connection of a client ended. A clean session is dropped with its
    /// subscriptions; a persisted one stays, and what is published for it is
    /// queued. When the end was abnormal the will message is published.
    fn client_disconnected(&mut self, client_id: &String, abnormal: bool, out: &mut Vec<Outbound>)
        requires
            old(self).wf(),
            old(out)@.len() == 0,
        ensures
            final(self).wf(),
            disconnected_outcome(*old(self), *final(self), client_id@, abnormal, final(out)@),
    {
        let si = match self.find_session(client_id) {
            Some(i) => i,
            None => {
                assert(!self.has_session(client_id@));
                return;
            },
        };
        proof {
            self.lemma_session_at(client_id@, si as int);
        }
        if !self.sessions[si].connected {
            return;
        }
        let will = self.sessions[si].will.take();
        let ghost old_sessions = old(self).sessions@;
        if self.sessions[si].clean_session {
            self.topics.remove_client(client_id);
            self.sessions.remove(si);
            proof {
                assert forall|j: int| 0 <= j < self.sessions@.len() implies (#[trigger] self.sessions@[j]).client_id@ != client_id@ by {
                    if j < si {
                        assert(self.sessions@[j] == old_sessions[j]);
                        assert(old_sessions[j].client_id@ != old_sessions[si as int].client_id@);
                    } else {
                        assert(self.sessions@[j] == old_sessions[j + 1]);
                        assert(old_sessions[si as int].client_id@ != old_sessions[j + 1].client_id@);
                    }
                }
                assert(!self.has_session(client_id@));
            }
        } else {
            self.sessions[si].connected = false;
            proof {
                self.lemma_session_at(client_id@, si as int);
            }
        }
        let ghost mid = *self;
        if abnormal {
            if let Some(w) = will {
                self.fan_out(&w, out);
                proof {
                    self.lemma_shape(mid, client_id@);
                }
            }
        }
    }

    /// Ends the flight of `pid` to `client_id`; with `mark` set, also
    /// notes the id as awaiting PUBCOMP (`Some(true)`) or clears that note
    /// (`Some(false)`).
    fn retire(&mut self, client_id: &String, pid: u16, mark: Option<bool>)
        requires
            old(self).wf(),
        ensures
            final(self).wf(),
            ack_outcome(*old(self), *final(self), client_id@, pid),
    {
        match self.find_session(client_id) {
            Some(si) => {
                proof {
                    self.lemma_session_at(client_id@, si as int);
                }
                assert(self.sessions@[si as int].qos.wf());
                self.sessions[si].qos.remove_outgoing(pid);
                match mark {
                    Some(true) => {
                        self.sessions[si].awaiting_pubcomp.push(pid);
                    },
                    Some(false) => {
                        let mut kept: Vec<u16> = Vec::new();
                        let mut i: usize = 0;
                        while i < self.sessions[si].awaiting_pubcomp.len()
                            invariant
                                si < self.sessions@.len(),
                            decreases self.sessions@[si as int].awaiting_pubcomp@.len() - i,
                        {
                            let id = self.sessions[si].awaiting_pubcomp[i];
                            if id != pid {
                                kept.push(id);
                            }
                            i = i + 1;
                        }
                        self.sessions[si].awaiting_pubcomp = kept;
                    },
                    None => {},
                }
                proof {
                    self.lemma_session_at(client_id@, si as int);
                    assert(self.outgoing_ids(client_id@) =~= old(self).outgoing_ids(client_id@).remove(pid));
                }
            },
            None => {
                assert(!self.has_session(client_id@));
                assert(self.outgoing_ids(client_id@) =~= self.outgoing_ids(client_id@).remove(pid));
            },
        }
    }

    /// PUBREL: releases and fans out the held qos 2 PUBLISH, then PUBCOMP.
    fn handle_pubrel(&mut self, c: &String, pid: u16, out: &mut Vec<Outbound>)
        requires
            old(self).wf(),
            old(out)@.len() == 0,
        ensures
            final(self).wf(),
            pubrel_outcome(*old(self), *final(self), c@, pid, final(out)@),
    {
        let ghost before = *self;
        match self.find_session(c) {
            Some(si) => {
                proof {
                    before.lemma_session_at(c@, si as int);
                }
                assert(self.sessions@[si as int].qos.wf());
                let released = self.sessions[si].qos.remove_incoming_qos2(pid);
                let ghost mid = *self;
                proof {
                    mid.lemma_session_at(c@, si as int);
                    assert(mid.incoming_ids(c@) =~= before.incoming_ids(c@).remove(pid));
                }
                if let Some(rel) = released {
                    self.fan_out(&rel, out);
                    proof {
                        self.lemma_shape(mid, c@);
                    }
                }
            },
            None => {
                assert(!self.has_session(c@));
                assert(self.incoming_ids(c@) =~= self.incoming_ids(c@).remove(pid));
            },
        }
        let ghost pre = out@;
        let ghost st = *self;
        Self::send(out, c, MqttPacket::PubComp(PubCompPacket { packet_id: pid }));
        proof {
            if before.incoming_ids(c@).contains(pid) {
                lemma_delivers_prefix(st, before.subscription_map(), pre, out@, 0, pre.len() as int, before.incoming_of(c@)[pid]@);
            }
        }
    }

    /// UNSUBSCRIBE: removes each listed subscription, then UNSUBACK.
    fn handle_unsubscribe(&mut self, c: &String, u: &UnsubscribePacket, out: &mut Vec<Outbound>)
        requires
            old(self).wf(),
            old(out)@.len() == 0,
        ensures
            final(self).wf(),
            final(out)@.len() == 1,
            sends(final(out)@[0], c@, PacketModel::UnsubAck(u.packet_id)),
            final(self).retained_map() == old(self).retained_map(),
            unsubscribed(*old(self), *final(self), c@, strings_view(u.topics@)),
    {
        let ghost fs = strings_view(u.topics@);
        let mut i: usize = 0;
        proof {
            assert(fs.take(0) =~= Seq::<Seq<char>>::empty());
        }
        while i < u.topics.len()
            invariant
                self.wf(),
                fs == strings_view(u.topics@),
                0 <= i <= u.topics@.len(),
                self.retained_map() == old(self).retained_map(),
                unsubscribed(*old(self), *self, c@, fs.take(i as int)),
            decreases u.topics@.len() - i,
        {
            let ghost cur = *self;
            self.topics.remove_subscription(u.topics[i].as_str(), c);
            proof {
                let f = fs[i as int];
                assert(f == u.topics@[i as int]@);
                let t1 = fs.take(i + 1);
                assert(t1 =~= fs.take(i as int).push(f));
                assert forall|x: Seq<char>| #[trigger] t1.contains(x) == (fs.take(i as int).contains(x) || x == f) by {
                    if t1.contains(x) {
                        let j = choose|j: int| 0 <= j < t1.len() && t1[j] == x;
                        if j < i {
                            assert(fs.take(i as int)[j] == x);
                        }
                    }
                    if fs.take(i as int).contains(x) {
                        let j = choose|j: int| 0 <= j < i && fs.take(i as int)[j] == x;
                        assert(t1[j] == x);
                    }
                    if x == f {
                        assert(t1[i as int] == x);
                    }
                }
                assert(self.subscription_map() == cur.subscription_map().remove((c@, f)));
                assert forall|k: (Seq<char>, Seq<char>)| #[trigger] self.subscription_map().contains_key(k)
                    == (old(self).subscription_map().contains_key(k) && !(k.0 == c@ && t1.contains(k.1))) by {
                    assert(cur.subscription_map().contains_key(k) == (old(self).subscription_map().contains_key(k)
                        && !(k.0 == c@ && fs.take(i as int).contains(k.1))));
                    assert(t1.contains(k.1) == (fs.take(i as int).contains(k.1) || k.1 == f));
                }
                assert forall|k: (Seq<char>, Seq<char>)| #[trigger] self.subscription_map().contains_key(k)
                    implies self.subscription_map()[k] == old(self).subscription_map()[k] by {
                    assert(cur.subscription_map().contains_key(k));
                }
            }
            i = i + 1;
        }
        proof {
            assert(fs.take(i as int) =~= fs);
        }
        Self::send(out, c, MqttPacket::UnsubAck(UnsubAckPacket { packet_id: u.packet_id }));
    }

    /// Applies one event and returns what the connections must do, in order.
    pub fn handle_event(&mut self, event: Event) -> (r: Vec<Outbound>)
        requires
            old(self).wf(),
        ensures
            final(self).wf(),
            match event {
                Event::MessageReceived(c, MqttPacket::PingReq(_)) => {
                    &&& r@.len() == 1
                    &&& sends(r@[0], c@, PacketModel::PingResp)
                    &&& *final(self) == *old(self)
                },
                Event::MessageReceived(c, MqttPacket::PubAck(a)) => r@.len() == 0 && ack_outcome(*old(self), *final(self), c@, a.packet_id),
                Event::MessageReceived(c, MqttPacket::PubRec(a)) => {
                    &&& r@.len() == 1
                    &&& sends(r@[0], c@, PacketModel::PubRel(a.packet_id))
                    &&& ack_outcome(*old(self), *final(self), c@, a.packet_id)
                },
                Event::MessageReceived(c, MqttPacket::PubComp(a)) => r@.len() == 0 && ack_outcome(*old(self), *final(self), c@, a.packet_id),
                Event::MessageReceived(c, MqttPacket::PubRel(a)) => pubrel_outcome(*old(self), *final(self), c@, a.packet_id, r@),
                Event::MessageReceived(c, MqttPacket::Unsubscribe(u)) => {
                    &&& r@.len() == 1
                    &&& sends(r@[0], c@, PacketModel::UnsubAck(u.packet_id))
                    &&& final(self).retained_map() == old(self).retained_map()
                    &&& unsubscribed(*old(self), *final(self), c@, strings_view(u.topics@))
                },
                Event::MessageReceived(c, MqttPacket::Subscribe(sp)) => {
                    &&& r@.len() >= 1
                    &&& sends(
                        r@[0],
                        c@,
                        PacketModel::SubAck {
                            packet_id: sp.packet_id,
                            return_codes: sub_topics_view(sp.topics@).map_values(
                                |t: (Seq<char>, u8)| grant_code(t.0, t.1),
                            ),
                        },
                    )
                    &&& forall|i: int| 1 <= i < r@.len() ==> #[trigger] sends_retained(r@[i], c@, old(self).retained_map(), 2)
                    &&& final(self).retained_map() == old(self).retained_map()
                    &&& subscribed(*old(self), *final(self), c@, sub_topics_view(sp.topics@))
                },
                Event::MessageReceived(c, MqttPacket::Publish(p)) => publish_outcome(*old(self), *final(self), c@, p@, r@),
                Event::MessageReceived(c, MqttPacket::Disconnect(_)) => disconnected_outcome(*old(self), *final(self), c@, false, r@),
                Event::MessageReceived(c, _) => r@.len() == 1 && closes(r@[0], c@),
                Event::ClientConnected(c, clean, _) => {
                    &&& exists|k: int, sp: bool|
                        0 <= k <= 1 && k < r@.len() && #[trigger] sends(
                            r@[k],
                            c@,
                            PacketModel::ConnAck {
                                session_present: sp,
                                return_code: ConnectReturnCode::Accepted,
                            },
                        ) && sp == (old(self).persistent(c@) && !clean) && (k == 1 ==> closes(r@[0], c@))
                            && (sp ==> r@.len() == k + 1 + old(self).offline_len(c@))
                    &&& clean ==> forall|key: (Seq<char>, Seq<char>)|
                        #[trigger] final(self).subscription_map().contains_key(key) ==> key.0 != c@
                    &&& final(self).retained_map() == old(self).retained_map()
                },
                Event::ClientDisconnected(c, abnormal) => disconnected_outcome(*old(self), *final(self), c@, abnormal, r@),
            },
    {
        let mut out: Vec<Outbound> = Vec::new();
        match event {
            Event::ClientConnected(c, clean, will) => {
                self.client_connected(&c, clean, will, &mut out);
            },
            Event::ClientDisconnected(c, abnormal) => {
                self.client_disconnected(&c, abnormal, &mut out);
            },
            Event::MessageReceived(c, packet) => match packet {
                MqttPacket::PingReq(_) => {
                    Self::send(&mut out, &c, MqttPacket::PingResp(PingRespPacket));
                },
                MqttPacket::PubAck(a) => {
                    self.retire(&c, a.packet_id, None);
                },
                MqttPacket::PubRec(a) => {
                    self.retire(&c, a.packet_id, Some(true));
                    Self::send(&mut out, &c, MqttPacket::PubRel(PubRelPacket { packet_id: a.packet_id }));
                },
                MqttPacket::PubComp(a) => {
                    self.retire(&c, a.packet_id, Some(false));
                },
                MqttPacket::PubRel(a) => {
                    self.handle_pubrel(&c, a.packet_id, &mut out);
                },
                MqttPacket::Publish(p) => {
                    self.handle_publish(&c, &p, &mut out);
                },
                MqttPacket::Subscribe(sp) => {
                    self.handle_subscribe(&c, &sp, &mut out);
                },
                MqttPacket::Unsubscribe(u) => {
                    self.handle_unsubscribe(&c, &u, &mut out);
                },
                MqttPacket::Disconnect(_) => {
                    self.client_disconnected(&c, false, &mut out);
                },
                _ => {
                    out.push(Outbound::Close(c));
                },
            },
        }
        out
    }

    /// An incoming PUBLISH: refused (the connection is closed) unless
    /// acceptable; qos 0 and 1 are fanned out at once, qos 1 is then
    /// acknowledged with PUBACK; qos 2 is stored until PUBREL, once per
    /// packet id, and answered with PUBREC.
    fn handle_publish(&mut self, client_id: &String, p: &PublishPacket, out: &mut Vec<Outbound>)
        requires
            old(self).wf(),
            old(out)@.len() == 0,
        ensures
            final(self).wf(),
            publish_outcome(*old(self), *final(self), client_id@, p@, final(out)@),
    {
        let ok_id = match p.packet_id {
            Some(_) => p.qos > 0,
            None => p.qos == 0,
        };
        if !self.topics.is_valid_topic(p.topic_name.as_str()) || p.qos > 2 || !ok_id {
            out.push(Outbound::Close(client_id.clone()));
            return;
        }
        if p.qos == 0 {
            self.fan_out(p, out);
        } else if p.qos == 1 {
            self.fan_out(p, out);
            let ghost pre = out@;
            let ghost st = *self;
            Self::send(out, client_id, MqttPacket::PubAck(PubAckPacket { packet_id: p.packet_id.unwrap() }));
            proof {
                lemma_delivers_prefix(st, old(self).subscription_map(), pre, out@, 0, pre.len() as int, p@);
            }
        } else {
            let id = p.packet_id.unwrap();
            let ghost before = *self;
            if let Some(si) = self.find_session(client_id) {
                proof {
                    before.lemma_session_at(client_id@, si as int);
                }
                assert(self.sessions@[si as int].qos.wf());
                let kept = copy_publish(p);
                self.sessions[si].qos.store_incoming_qos2(id, kept);
                proof {
                    self.lemma_session_at(client_id@, si as int);
                    assert(self.incoming_ids(client_id@) =~= before.incoming_ids(client_id@).insert(id));
                }
            }
            Self::send(out, client_id, MqttPacket::PubRec(PubRecPacket { packet_id: id }));
        }
    }

}

} // verus!
