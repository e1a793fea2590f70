use vstd::prelude::*;

use crate::geo::BoundingBox;
use crate::store::OGNPosition;
use crate::text::{int_text, micro_text, push_char, push_int, push_micro, push_str};

verus! {

/// The handle of a live session.
pub type SessionId = u64;

/// The sessions that follow one device, in the order they subscribed; a session
/// that subscribed twice is listed twice.
pub struct IdSubscription {
    pub id: String,
    pub subscribers: Vec<SessionId>,
}

/// A position report as the gateway receives it: the device, the instant in
/// UNIX seconds, the coordinates in microdegrees, the altitude in whole meters
/// (truncated toward zero), the course in degrees, and the coordinates as the
/// bit patterns of single-precision floats for the history.
pub struct Position {
    pub id: String,
    pub time: i64,
    pub longitude: i32,
    pub latitude: i32,
    pub altitude: i32,
    pub course: i32,
    pub longitude_f32: u32,
    pub latitude_f32: u32,
}

/// Where one report goes: its line, the sessions that get it in the fast lane
/// and those that get it in the slow lane.
pub struct Fanout {
    pub line: String,
    pub fast: Vec<SessionId>,
    pub slow: Vec<SessionId>,
}

/// A session has connected.
pub struct Connect {
    pub addr: SessionId,
}

/// A session has gone.
pub struct Disconnect {
    pub addr: SessionId,
}

/// A session follows a device.
pub struct SubscribeToId {
    pub id: String,
    pub addr: SessionId,
}

/// A session stops following a device.
pub struct UnsubscribeFromId {
    pub id: String,
    pub addr: SessionId,
}

/// A session watches a region.
pub struct SetBoundingBox {
    pub addr: SessionId,
    pub bbox: BoundingBox,
}

/// A request for the gateway's status.
pub struct RequestStatus;

/// The number of live sessions and the estimate of stored records.
pub struct StatusResponse {
    pub users: usize,
    pub record_count: Option<u64>,
}

/// The hub: live sessions, their subscriptions, the devices to ignore, the
/// reports waiting to be stored, and the estimate of stored records.
pub struct Gateway {
    pub ws_clients: Vec<SessionId>,
    pub id_subscriptions: Vec<IdSubscription>,
    pub bbox_subscriptions: Vec<(SessionId, BoundingBox)>,
    pub ignore_list: Vec<String>,
    pub redis_buffer: Vec<(String, OGNPosition)>,
    pub record_count: Option<u64>,
}

/// `s` without any occurrence of `a`, the rest in order.
pub open spec fn remove_all(s: Seq<SessionId>, a: SessionId) -> Seq<SessionId>
    decreases s.len(),
{
    if s.len() == 0 {
        s
    } else if s.last() == a {
        remove_all(s.drop_last(), a)
    } else {
        remove_all(s.drop_last(), a).push(s.last())
    }
}

/// `s` without its first occurrence of `a`, the rest in order.
pub open spec fn remove_first(s: Seq<SessionId>, a: SessionId) -> Seq<SessionId>
    decreases s.len(),
{
    if s.len() == 0 {
        s
    } else if s[0] == a {
        s.skip(1)
    } else {
        seq![s[0]] + remove_first(s.skip(1), a)
    }
}

/// The region subscriptions without that of `a`.
pub open spec fn remove_session(s: Seq<(SessionId, BoundingBox)>, a: SessionId) -> Seq<(SessionId, BoundingBox)>
    decreases s.len(),
{
    if s.len() == 0 {
        s
    } else if s.last().0 == a {
        remove_session(s.drop_last(), a)
    } else {
        remove_session(s.drop_last(), a).push(s.last())
    }
}

/// The sessions, in the order of their region subscriptions, whose box holds
/// the point and which are not in `fast`.
pub open spec fn bbox_matches(
    s: Seq<(SessionId, BoundingBox)>,
    fast: Seq<SessionId>,
    longitude: int,
    latitude: int,
) -> Seq<SessionId>
    decreases s.len(),
{
    if s.len() == 0 {
        Seq::empty()
    } else {
        let before = bbox_matches(s.drop_last(), fast, longitude, latitude);
        if s.last().1.contains_spec(longitude, latitude) && !fast.contains(s.last().0) {
            before.push(s.last().0)
        } else {
            before
        }
    }
}

/// A report is fresh when its age, `time - now`, is at least minus five
/// minutes and at most fifteen minutes.
pub open spec fn is_fresh(time: int, now: int) -> bool {
    -300 <= time - now <= 900
}

/// The line that carries a report to sessions:
/// `id|unix_seconds|longitude|latitude|course|altitude`.
pub open spec fn line_spec(p: Position) -> Seq<char> {
    p.id@ + seq!['|'] + int_text(p.time as int) + seq!['|'] + micro_text(p.longitude as int) + seq!['|']
        + micro_text(p.latitude as int) + seq!['|'] + int_text(p.course as int) + seq!['|'] + int_text(
        p.altitude as int,
    )
}

/// An altitude in meters, saturated to the range of `i16`.
pub open spec fn clamp_i16(a: int) -> i16 {
    if a < i16::MIN { i16::MIN } else if a > i16::MAX { i16::MAX } else { a as i16 }
}

/// What the history keeps of a report.
pub open spec fn stored_spec(p: Position) -> OGNPosition {
    OGNPosition {
        time: p.time,
        longitude: p.longitude_f32,
        latitude: p.latitude_f32,
        altitude: clamp_i16(p.altitude as int),
    }
}

/// The fanout of a report: sessions that follow the device get it in the fast
/// lane, once for each time they subscribed; sessions whose region holds it and
/// that do not follow the device get it in the slow lane; a report that no
/// session gets has none.
pub open spec fn fanout_spec(g: Gateway, p: Position, r: Option<Fanout>) -> bool {
    let fast = g.subscribers_of(p.id@);
    let slow = bbox_matches(g.bbox_subscriptions@, fast, p.longitude as int, p.latitude as int);
    if fast.len() == 0 && slow.len() == 0 {
        r is None
    } else {
        r matches Some(f) && f.fast@ == fast && f.slow@ == slow && f.line@ == line_spec(p)
    }
}

impl Gateway {
    /// The sessions that follow device `id`.
    pub open spec fn subscribers_of(&self, id: Seq<char>) -> Seq<SessionId> {
        if exists|i: int| 0 <= i < self.id_subscriptions@.len() && (#[trigger] self.id_subscriptions@[i]).id@ == id {
            let i = choose|i: int| 0 <= i < self.id_subscriptions@.len() && (#[trigger] self.id_subscriptions@[i]).id@ == id;
            self.id_subscriptions@[i].subscribers@
        } else {
            Seq::empty()
        }
    }

    /// The index of the subscription list of device `id`, if there is one.
    pub open spec fn id_position(&self, id: Seq<char>) -> Option<int> {
        if exists|i: int| 0 <= i < self.id_subscriptions@.len() && (#[trigger] self.id_subscriptions@[i]).id@ == id {
            Some(choose|i: int| 0 <= i < self.id_subscriptions@.len() && (#[trigger] self.id_subscriptions@[i]).id@ == id)
        } else {
            None
        }
    }

    /// The index of the region subscription of session `a`, if there is one.
    pub open spec fn bbox_position(&self, a: SessionId) -> Option<int> {
        if exists|i: int| 0 <= i < self.bbox_subscriptions@.len() && (#[trigger] self.bbox_subscriptions@[i]).0 == a {
            Some(choose|i: int| 0 <= i < self.bbox_subscriptions@.len() && (#[trigger] self.bbox_subscriptions@[i]).0 == a)
        } else {
            None
        }
    }

    pub open spec fn is_ignored(&self, id: Seq<char>) -> bool {
        exists|i: int| 0 <= i < self.ignore_list@.len() && (#[trigger] self.ignore_list@[i])@ == id
    }

    /// Whether session `a` appears anywhere in the gateway.
    pub open spec fn mentions(&self, a: SessionId) -> bool {
        ||| self.ws_clients@.contains(a)
        ||| exists|i: int| 0 <= i < self.id_subscriptions@.len() && (#[trigger] self.id_subscriptions@[i]).subscribers@.contains(a)
        ||| exists|i: int| 0 <= i < self.bbox_subscriptions@.len() && (#[trigger] self.bbox_subscriptions@[i]).0 == a
    }

    /// Every session that a subscription names is live.
    pub open spec fn subscribers_live(&self) -> bool {
        &&& forall|i: int, k: int| 0 <= i < self.id_subscriptions@.len() && 0 <= k < self.id_subscriptions@[i].subscribers@.len()
            ==> self.ws_clients@.contains(#[trigger] self.id_subscriptions@[i].subscribers@[k])
        &&& forall|i: int| 0 <= i < self.bbox_subscriptions@.len() ==> self.ws_clients@.contains(#[trigger] self.bbox_subscriptions@[i].0)
    }

    /// The gateway's invariant: sessions listed once, one list per device, one
    /// box per session, and no subscription of a session that is gone.
    pub open spec fn wf(&self) -> bool {
        &&& self.ws_clients@.no_duplicates()
        &&& forall|i: int, j: int| 0 <= i < j < self.id_subscriptions@.len() ==> (#[trigger] self.id_subscriptions@[i]).id@ != (#[trigger] self.id_subscriptions@[j]).id@
        &&& forall|i: int, j: int| 0 <= i < j < self.bbox_subscriptions@.len() ==> (#[trigger] self.bbox_subscriptions@[i]).0 != (#[trigger] self.bbox_subscriptions@[j]).0
        &&& self.subscribers_live()
    }

    /// A gateway with no session, no subscription and no estimate yet.
    pub fn new() -> (r: Gateway)
        ensures
            r.wf(),
            r.ws_clients@.len() == 0,
            r.id_subscriptions@.len() == 0,
            r.bbox_subscriptions@.len() == 0,
            r.ignore_list@.len() == 0,
            r.redis_buffer@.len() == 0,
            r.record_count is None,
    {
        Gateway {
            ws_clients: Vec::new(),
            id_subscriptions: Vec::new(),
            bbox_subscriptions: Vec::new(),
            ignore_list: Vec::new(),
            redis_buffer: Vec::new(),
            record_count: None,
        }
    }

    /// The number of live sessions and the estimate of stored records.
    pub fn status(&self, _msg: RequestStatus) -> (r: StatusResponse)
        ensures
            r.users == self.ws_clients@.len(),
            r.record_count == self.record_count,
    {
        StatusResponse { users: self.ws_clients.len(), record_count: self.record_count }
    }

    /// Registers a session.
    pub fn connect(&mut self, msg: Connect)
        requires
            old(self).wf(),
        ensures
            final(self).wf(),
            forall|x: SessionId| final(self).ws_clients@.contains(x) <==> (old(self).ws_clients@.contains(x) || x == msg.addr),
            final(self).id_subscriptions@ == old(self).id_subscriptions@,
            final(self).bbox_subscriptions@ == old(self).bbox_subscriptions@,
            final(self).ignore_list@ == old(self).ignore_list@,
            final(self).redis_buffer@ == old(self).redis_buffer@,
            final(self).record_count == old(self).record_count,
    {
        if !contains_session(&self.ws_clients, msg.addr) {
            self.ws_clients.push(msg.addr);
            assert(self.subscribers_live()) by {
                assert forall|x: SessionId| old(self).ws_clients@.contains(x) implies self.ws_clients@.contains(x) by {
                    let k = choose|k: int| 0 <= k < old(self).ws_clients@.len() && old(self).ws_clients@[k] == x;
                    assert(self.ws_clients@[k] == x);
                }
            }
        }
        assert forall|x: SessionId| self.ws_clients@.contains(x) <==> (old(self).ws_clients@.contains(x) || x == msg.addr) by {
            if self.ws_clients@.len() > old(self).ws_clients@.len() {
                if old(self).ws_clients@.contains(x) {
                    let k = choose|k: int| 0 <= k < old(self).ws_clients@.len() && old(self).ws_clients@[k] == x;
                    assert(self.ws_clients@[k] == x);
                }
                if x == msg.addr {
                    assert(self.ws_clients@[old(self).ws_clients@.len() as int] == x);
                }
                if self.ws_clients@.contains(x) {
                    let k = choose|k: int| 0 <= k < self.ws_clients@.len() && self.ws_clients@[k] == x;
                    if k < old(self).ws_clients@.len() {
                        assert(old(self).ws_clients@[k] == x);
                    }
                }
            }
        }
    }

    /// Forgets a session: its region, every place it holds in a device's list,
    /// and the session itself.
    pub fn disconnect(&mut self, msg: Disconnect)
        requires
            old(self).wf(),
        ensures
            final(self).wf(),
            !final(self).mentions(msg.addr),
            forall|x: SessionId| final(self).ws_clients@.contains(x) <==> (old(self).ws_clients@.contains(x) && x != msg.addr),
            final(self).id_subscriptions@.len() == old(self).id_subscriptions@.len(),
            forall|i: int| 0 <= i < final(self).id_subscriptions@.len() ==> (#[trigger] final(self).id_subscriptions@[i]).id@
                == old(self).id_subscriptions@[i].id@ && final(self).id_subscriptions@[i].subscribers@ == remove_all(
                old(self).id_subscriptions@[i].subscribers@,
                msg.addr,
            ),
            match old(self).bbox_position(msg.addr) {
                Some(j) => final(self).bbox_subscriptions@ == old(self).bbox_subscriptions@.remove(j),
                None => final(self).bbox_subscriptions@ == old(self).bbox_subscriptions@,
            },
            final(self).ignore_list@ == old(self).ignore_list@,
            final(self).redis_buffer@ == old(self).redis_buffer@,
            final(self).record_count == old(self).record_count,
    {
        let a = msg.addr;
        let ghost o = *old(self);
        // the region
        match find_bbox(&self.bbox_subscriptions, a) {
            Some(j) => {
                self.bbox_subscriptions.remove(j);
            },
            None => {},
        }
        assert forall|i: int| 0 <= i < self.bbox_subscriptions@.len() implies (#[trigger] self.bbox_subscriptions@[i]).0 != a
            && o.ws_clients@.contains(self.bbox_subscriptions@[i].0) by {
            if o.bbox_position(a) is Some {
                let j = o.bbox_position(a)->0;
                if i < j {
                    assert(self.bbox_subscriptions@[i] == o.bbox_subscriptions@[i]);
                } else {
                    assert(self.bbox_subscriptions@[i] == o.bbox_subscriptions@[i + 1]);
                }
            } else {
                assert(self.bbox_subscriptions@[i] == o.bbox_subscriptions@[i]);
            }
        }
        // the device lists
        let mut lists: Vec<IdSubscription> = Vec::new();
        let mut i: usize = 0;
        while i < self.id_subscriptions.len()
            invariant
                0 <= i <= self.id_subscriptions@.len(),
                self.id_subscriptions@ == o.id_subscriptions@,
                lists@.len() == i,
                forall|k: int| 0 <= k < i ==> (#[trigger] lists@[k]).id@ == o.id_subscriptions@[k].id@
                    && lists@[k].subscribers@ == remove_all(o.id_subscriptions@[k].subscribers@, a),
            decreases self.id_subscriptions@.len() - i,
        {
            let sub = &self.id_subscriptions[i];
            let kept = remove_all_exec(&sub.subscribers, a);
            lists.push(IdSubscription { id: sub.id.clone(), subscribers: kept });
            i = i + 1;
        }
        self.id_subscriptions = lists;
        // the session
        let ghost ws_before = self.ws_clients@;
        match find_session(&self.ws_clients, a) {
            Some(j) => {
                self.ws_clients.remove(j);
                assert forall|x: SessionId| self.ws_clients@.contains(x) <==> (o.ws_clients@.contains(x) && x != a) by {
                    if self.ws_clients@.contains(x) {
                        let k = choose|k: int| 0 <= k < self.ws_clients@.len() && self.ws_clients@[k] == x;
                        if k < j {
                            assert(o.ws_clients@[k] == x);
                        } else {
                            assert(o.ws_clients@[k + 1] == x);
                        }
                    }
                    if o.ws_clients@.contains(x) && x != a {
                        let k = choose|k: int| 0 <= k < o.ws_clients@.len() && o.ws_clients@[k] == x;
                        if k < j {
                            assert(self.ws_clients@[k] == x);
                        } else {
                            assert(k != j);
                            assert(self.ws_clients@[k - 1] == x);
                        }
                    }
                }
            },
            None => {},
        }
        proof {
            assert forall|i: int, k: int| 0 <= i < self.id_subscriptions@.len() && 0 <= k < self.id_subscriptions@[i].subscribers@.len()
                implies self.ws_clients@.contains(#[trigger] self.id_subscriptions@[i].subscribers@[k]) by {
                let x = self.id_subscriptions@[i].subscribers@[k];
                lemma_remove_all(o.id_subscriptions@[i].subscribers@, a);
                assert(self.id_subscriptions@[i].subscribers@.contains(x));
                assert(o.id_subscriptions@[i].subscribers@.contains(x));
                let k2 = choose|k2: int| 0 <= k2 < o.id_subscriptions@[i].subscribers@.len() && o.id_subscriptions@[i].subscribers@[k2] == x;
                assert(o.ws_clients@.contains(o.id_subscriptions@[i].subscribers@[k2]));
            }
            assert forall|i: int| 0 <= i < self.id_subscriptions@.len() implies !(#[trigger] self.id_subscriptions@[i]).subscribers@.contains(a) by {
                lemma_remove_all(o.id_subscriptions@[i].subscribers@, a);
            }
            assert forall|i: int, j: int| 0 <= i < j < self.bbox_subscriptions@.len() implies (#[trigger] self.bbox_subscriptions@[i]).0 != (#[trigger] self.bbox_subscriptions@[j]).0 by {
                if o.bbox_position(a) is Some {
                    let p = o.bbox_position(a)->0;
                    let ii = if i < p { i } else { i + 1 };
                    let jj = if j < p { j } else { j + 1 };
                    assert(self.bbox_subscriptions@[i] == o.bbox_subscriptions@[ii]);
                    assert(self.bbox_subscriptions@[j] == o.bbox_subscriptions@[jj]);
                } else {
                    assert(self.bbox_subscriptions@[i] == o.bbox_subscriptions@[i]);
                }
            }
            assert(self.ws_clients@.no_duplicates()) by {
                if o.ws_clients@.contains(a) {
                    let p = choose|k: int| 0 <= k < o.ws_clients@.len() && o.ws_clients@[k] == a;
                    assert forall|i: int, j: int| 0 <= i < j < self.ws_clients@.len() implies self.ws_clients@[i] != self.ws_clients@[j] by {
                        let ii = if i < p { i } else { i + 1 };
                        let jj = if j < p { j } else { j + 1 };
                        assert(self.ws_clients@[i] == o.ws_clients@[ii]);
                        assert(self.ws_clients@[j] == o.ws_clients@[jj]);
                    }
                }
            }
            assert(!self.ws_clients@.contains(a));
        }
    }

    /// Adds session `addr` to the list of device `id`, if the session is live.
    pub fn subscribe_to_id(&mut self, msg: SubscribeToId)
        requires
            old(self).wf(),
        ensures
            final(self).wf(),
            !old(self).ws_clients@.contains(msg.addr) ==> final(self).id_subscriptions@ == old(self).id_subscriptions@,
            old(self).ws_clients@.contains(msg.addr) ==> match old(self).id_position(msg.id@) {
                Some(j) => final(self).id_subscriptions@.len() == old(self).id_subscriptions@.len()
                    && final(self).id_subscriptions@[j].id@ == msg.id@
                    && final(self).id_subscriptions@[j].subscribers@ == old(self).id_subscriptions@[j].subscribers@.push(msg.addr)
                    && forall|i: int| 0 <= i < old(self).id_subscriptions@.len() && i != j
                        ==> #[trigger] final(self).id_subscriptions@[i] == old(self).id_subscriptions@[i],
                None => final(self).id_subscriptions@.len() == old(self).id_subscriptions@.len() + 1
                    && final(self).id_subscriptions@.last().id@ == msg.id@
                    && final(self).id_subscriptions@.last().subscribers@ == seq![msg.addr]
                    && forall|i: int| 0 <= i < old(self).id_subscriptions@.len()
                        ==> #[trigger] final(self).id_subscriptions@[i] == old(self).id_subscriptions@[i],
            },
            final(self).ws_clients@ == old(self).ws_clients@,
            final(self).bbox_subscriptions@ == old(self).bbox_subscriptions@,
            final(self).ignore_list@ == old(self).ignore_list@,
            final(self).redis_buffer@ == old(self).redis_buffer@,
            final(self).record_count == old(self).record_count,
    {
        if !contains_session(&self.ws_clients, msg.addr) {
            return;
        }
        let ghost o = *old(self);
        match find_id(&self.id_subscriptions, &msg.id) {
            Some(j) => {
                let mut sub = self.id_subscriptions.remove(j);
                sub.subscribers.push(msg.addr);
                self.id_subscriptions.insert(j, sub);
                assert forall|i: int| 0 <= i < o.id_subscriptions@.len() && i != j implies #[trigger] self.id_subscriptions@[i] == o.id_subscriptions@[i] by {}
                assert forall|i: int, k: int| 0 <= i < self.id_subscriptions@.len() && 0 <= k < self.id_subscriptions@[i].subscribers@.len()
                    implies self.ws_clients@.contains(#[trigger] self.id_subscriptions@[i].subscribers@[k]) by {
                    if i != j && k < o.id_subscriptions@[i].subscribers@.len() {
                        assert(self.id_subscriptions@[i] == o.id_subscriptions@[i]);
                    }
                    if i == j && k < o.id_subscriptions@[i].subscribers@.len() {
                        assert(self.id_subscriptions@[i].subscribers@[k] == o.id_subscriptions@[i].subscribers@[k]);
                    }
                }
                assert forall|i: int, k: int| 0 <= i < k < self.id_subscriptions@.len() implies (#[trigger] self.id_subscriptions@[i]).id@ != (#[trigger] self.id_subscriptions@[k]).id@ by {
                    assert(self.id_subscriptions@[i].id@ == o.id_subscriptions@[i].id@);
                    assert(self.id_subscriptions@[k].id@ == o.id_subscriptions@[k].id@);
                }
                assert(o.id_subscriptions@[j as int].id@ == msg.id@);
                assert(o.id_position(msg.id@) == Some(j as int));
            },
            None => {
                let sub = IdSubscription { id: msg.id, subscribers: vec![msg.addr] };
                self.id_subscriptions.push(sub);
                assert(self.id_subscriptions@.last().subscribers@ =~= seq![msg.addr]);
                assert forall|i: int| 0 <= i < o.id_subscriptions@.len() implies #[trigger] self.id_subscriptions@[i] == o.id_subscriptions@[i] by {}
                assert forall|i: int, k: int| 0 <= i < self.id_subscriptions@.len() && 0 <= k < self.id_subscriptions@[i].subscribers@.len()
                    implies self.ws_clients@.contains(#[trigger] self.id_subscriptions@[i].subscribers@[k]) by {
                    if i < o.id_subscriptions@.len() {
                        assert(self.id_subscriptions@[i] == o.id_subscriptions@[i]);
                    }
                }
                assert forall|i: int, k: int| 0 <= i < k < self.id_subscriptions@.len() implies (#[trigger] self.id_subscriptions@[i]).id@ != (#[trigger] self.id_subscriptions@[k]).id@ by {
                    assert(self.id_subscriptions@[i] == o.id_subscriptions@[i]);
                    if k < o.id_subscriptions@.len() {
                        assert(self.id_subscriptions@[k] == o.id_subscriptions@[k]);
                    }
                }
            },
        }
    }

    /// Takes the first occurrence of session `addr` out of the list of device `id`.
    pub fn unsubscribe_from_id(&mut self, msg: UnsubscribeFromId)
        requires
            old(self).wf(),
        ensures
            final(self).wf(),
            match old(self).id_position(msg.id@) {
                Some(j) => final(self).id_subscriptions@.len() == old(self).id_subscriptions@.len()
                    && final(self).id_subscriptions@[j].id@ == msg.id@
                    && final(self).id_subscriptions@[j].subscribers@ == remove_first(old(self).id_subscriptions@[j].subscribers@, msg.addr)
                    && forall|i: int| 0 <= i < old(self).id_subscriptions@.len() && i != j
                        ==> #[trigger] final(self).id_subscriptions@[i] == old(self).id_subscriptions@[i],
                None => final(self).id_subscriptions@ == old(self).id_subscriptions@,
            },
            final(self).ws_clients@ == old(self).ws_clients@,
            final(self).bbox_subscriptions@ == old(self).bbox_subscriptions@,
            final(self).ignore_list@ == old(self).ignore_list@,
            final(self).redis_buffer@ == old(self).redis_buffer@,
            final(self).record_count == old(self).record_count,
    {
        let ghost o = *old(self);
        match find_id(&self.id_subscriptions, &msg.id) {
            Some(j) => {
                let mut sub = self.id_subscriptions.remove(j);
                let ghost before = sub.subscribers@;
                match find_session(&sub.subscribers, msg.addr) {
                    Some(k) => {
                        sub.subscribers.remove(k);
                        proof {
                            lemma_remove_first(before, msg.addr, k as int);
                        }
                    },
                    None => {
                        proof {
                            lemma_remove_first_absent(before, msg.addr);
                        }
                    },
                }
                self.id_subscriptions.insert(j, sub);
                assert forall|i: int| 0 <= i < o.id_subscriptions@.len() && i != j implies #[trigger] self.id_subscriptions@[i] == o.id_subscriptions@[i] by {}
                assert forall|i: int, k: int| 0 <= i < self.id_subscriptions@.len() && 0 <= k < self.id_subscriptions@[i].subscribers@.len()
                    implies self.ws_clients@.contains(#[trigger] self.id_subscriptions@[i].subscribers@[k]) by {
                    if i != j {
                        assert(self.id_subscriptions@[i] == o.id_subscriptions@[i]);
                    } else {
                        let x = self.id_subscriptions@[i].subscribers@[k];
                        assert(before.contains(x));
                        let k2 = choose|k2: int| 0 <= k2 < before.len() && before[k2] == x;
                        assert(o.ws_clients@.contains(o.id_subscriptions@[i].subscribers@[k2]));
                    }
                }
                assert forall|i: int, k: int| 0 <= i < k < self.id_subscriptions@.len() implies (#[trigger] self.id_subscriptions@[i]).id@ != (#[trigger] self.id_subscriptions@[k]).id@ by {
                    assert(self.id_subscriptions@[i].id@ == o.id_subscriptions@[i].id@);
                    assert(self.id_subscriptions@[k].id@ == o.id_subscriptions@[k].id@);
                }
                assert(o.id_subscriptions@[j as int].id@ == msg.id@);
                assert(o.id_position(msg.id@) == Some(j as int));
            },
            None => {},
        }
    }

    /// Sets the region of session `addr`, replacing any earlier one, if the
    /// session is live.
    pub fn set_bounding_box(&mut self, msg: SetBoundingBox)
        requires
            old(self).wf(),
        ensures
            final(self).wf(),
            !old(self).ws_clients@.contains(msg.addr) ==> final(self).bbox_subscriptions@ == old(self).bbox_subscriptions@,
            old(self).ws_clients@.contains(msg.addr) ==> match old(self).bbox_position(msg.addr) {
                Some(j) => final(self).bbox_subscriptions@ == old(self).bbox_subscriptions@.update(j, (msg.addr, msg.bbox)),
                None => final(self).bbox_subscriptions@ == old(self).bbox_subscriptions@.push((msg.addr, msg.bbox)),
            },
            final(self).ws_clients@ == old(self).ws_clients@,
            final(self).id_subscriptions@ == old(self).id_subscriptions@,
            final(self).ignore_list@ == old(self).ignore_list@,
            final(self).redis_buffer@ == old(self).redis_buffer@,
            final(self).record_count == old(self).record_count,
    {
        if !contains_session(&self.ws_clients, msg.addr) {
            return;
        }
        let ghost o = *old(self);
        match find_bbox(&self.bbox_subscriptions, msg.addr) {
            Some(j) => {
                self.bbox_subscriptions.remove(j);
                self.bbox_subscriptions.insert(j, (msg.addr, msg.bbox));
                assert(self.bbox_subscriptions@ =~= o.bbox_subscriptions@.update(j as int, (msg.addr, msg.bbox)));
            },
            None => {
                self.bbox_subscriptions.push((msg.addr, msg.bbox));
            },
        }
        assert forall|i: int, k: int| 0 <= i < k < self.bbox_subscriptions@.len() implies (#[trigger] self.bbox_subscriptions@[i]).0 != (#[trigger] self.bbox_subscriptions@[k]).0 by {
            if i < o.bbox_subscriptions@.len() && k < o.bbox_subscriptions@.len() {
                if self.bbox_subscriptions@[i].0 == o.bbox_subscriptions@[i].0 && self.bbox_subscriptions@[k].0 == o.bbox_subscriptions@[k].0 {
                } else {
                }
            }
        }
    }

    /// Routes a report that arrives at `now`. A report of an ignored device, or
    /// one that is not fresh, is dropped and changes nothing. Otherwise the
    /// report is fanned out and then queued for the history.
    pub fn handle_position(&mut self, position: Position, now: i64) -> (r: Option<Fanout>)
        requires
            old(self).wf(),
        ensures
            final(self).wf(),
            (old(self).is_ignored(position.id@) || !is_fresh(position.time as int, now as int)) ==> r is None
                && *final(self) == *old(self),
            (!old(self).is_ignored(position.id@) && is_fresh(position.time as int, now as int)) ==> fanout_spec(
                *old(self),
                position,
                r,
            ) && final(self).redis_buffer@ == old(self).redis_buffer@.push((position.id, stored_spec(position)))
                && final(self).ws_clients == old(self).ws_clients
                && final(self).id_subscriptions == old(self).id_subscriptions
                && final(self).bbox_subscriptions == old(self).bbox_subscriptions
                && final(self).ignore_list == old(self).ignore_list
                && final(self).record_count == old(self).record_count,
    {
        if contains_id(&self.ignore_list, &position.id) {
            return None;
        }
        let age: i128 = position.time as i128 - now as i128;
        if age > 900 || age < -300 {
            return None;
        }
        // the sessions that follow the device
        let fast: Vec<SessionId> = match find_id(&self.id_subscriptions, &position.id) {
            Some(j) => {
                proof {
                    let c = choose|i: int| 0 <= i < self.id_subscriptions@.len() && (#[trigger] self.id_subscriptions@[i]).id@ == position.id@;
                    if c != j {
                        let lo = if c < j { c } else { j as int };
                        let hi = if c < j { j as int } else { c };
                        assert(self.id_subscriptions@[lo].id@ != self.id_subscriptions@[hi].id@);
                    }
                }
                self.id_subscriptions[j].subscribers.clone()
            },
            None => Vec::new(),
        };
        assert(fast@ == self.subscribers_of(position.id@));
        // the sessions whose region holds the report
        let mut slow: Vec<SessionId> = Vec::new();
        let mut i: usize = 0;
        assert(self.bbox_subscriptions@.take(0) =~= Seq::<(SessionId, BoundingBox)>::empty());
        while i < self.bbox_subscriptions.len()
            invariant
                0 <= i <= self.bbox_subscriptions@.len(),
                slow@ == bbox_matches(self.bbox_subscriptions@.take(i as int), fast@, position.longitude as int, position.latitude as int),
            decreases self.bbox_subscriptions@.len() - i,
        {
            let entry = self.bbox_subscriptions[i];
            assert(self.bbox_subscriptions@.take(i + 1).drop_last() =~= self.bbox_subscriptions@.take(i as int));
            if entry.1.contains(position.longitude, position.latitude) && !contains_session(&fast, entry.0) {
                slow.push(entry.0);
            }
            i = i + 1;
        }
        assert(self.bbox_subscriptions@.take(self.bbox_subscriptions@.len() as int) =~= self.bbox_subscriptions@);
        let r = if fast.len() > 0 || slow.len() > 0 {
            Some(Fanout { line: format_line(&position), fast, slow })
        } else {
            None
        };
        let altitude: i16 = if position.altitude < -32768 {
            i16::MIN
        } else if position.altitude > 32767 {
            i16::MAX
        } else {
            position.altitude as i16
        };
        let stored = OGNPosition {
            time: position.time,
            longitude: position.longitude_f32,
            latitude: position.latitude_f32,
            altitude,
        };
        self.redis_buffer.push((position.id, stored));
        r
    }

    /// Takes the reports waiting for the history, leaving none behind.
    pub fn flush_records(&mut self) -> (r: Vec<(String, OGNPosition)>)
        ensures
            r@ == old(self).redis_buffer@,
            final(self).redis_buffer@.len() == 0,
            final(self).ws_clients == old(self).ws_clients,
            final(self).id_subscriptions == old(self).id_subscriptions,
            final(self).bbox_subscriptions == old(self).bbox_subscriptions,
            final(self).ignore_list == old(self).ignore_list,
            final(self).record_count == old(self).record_count,
    {
        let mut batch: Vec<(String, OGNPosition)> = Vec::new();
        batch.append(&mut self.redis_buffer);
        batch
    }

    /// A batch of `count` reports was stored (`stored`) or not: a known
    /// estimate grows by the count, saturating.
    pub fn records_flushed(&mut self, count: u64, stored: bool)
        ensures
            final(self).record_count == (match old(self).record_count {
                Some(c) => if stored {
                    Some(if c + count > u64::MAX { u64::MAX } else { (c + count) as u64 })
                } else {
                    Some(c)
                },
                None => None,
            }),
            final(self).ws_clients == old(self).ws_clients,
            final(self).id_subscriptions == old(self).id_subscriptions,
            final(self).bbox_subscriptions == old(self).bbox_subscriptions,
            final(self).ignore_list == old(self).ignore_list,
            final(self).redis_buffer == old(self).redis_buffer,
    {
        if stored {
            if let Some(c) = self.record_count {
                self.record_count = Some(c.saturating_add(count));
            }
        }
    }

    /// The outcome of counting the stored records: a count replaces the
    /// estimate; a failure clears it only where there was none.
    pub fn update_record_count(&mut self, result: Option<u64>)
        ensures
            final(self).record_count == (if old(self).record_count is None || result is Some {
                result
            } else {
                old(self).record_count
            }),
            final(self).ws_clients == old(self).ws_clients,
            final(self).id_subscriptions == old(self).id_subscriptions,
            final(self).bbox_subscriptions == old(self).bbox_subscriptions,
            final(self).ignore_list == old(self).ignore_list,
            final(self).redis_buffer == old(self).redis_buffer,
    {
        if self.record_count.is_none() || result.is_some() {
            self.record_count = result;
        }
    }

    /// The outcome of dropping outdated buckets: the number of records they held
    /// is added to a known estimate, saturating.
    pub fn drop_outdated_records(&mut self, result: Option<u64>)
        ensures
            final(self).record_count == (match (old(self).record_count, result) {
                (Some(c), Some(d)) => Some(if c + d > u64::MAX { u64::MAX } else { (c + d) as u64 }),
                _ => old(self).record_count,
            }),
            final(self).ws_clients == old(self).ws_clients,
            final(self).id_subscriptions == old(self).id_subscriptions,
            final(self).bbox_subscriptions == old(self).bbox_subscriptions,
            final(self).ignore_list == old(self).ignore_list,
            final(self).redis_buffer == old(self).redis_buffer,
    {
        if let (Some(c), Some(d)) = (self.record_count, result) {
            self.record_count = Some(c.saturating_add(d));
        }
    }

    /// The outcome of reading the ignore list: a list read replaces the old one.
    pub fn update_ignore_list(&mut self, result: Option<Vec<String>>)
        ensures
            final(self).ignore_list@ == (match result {
                Some(l) => l@,
                None => old(self).ignore_list@,
            }),
            final(self).ws_clients == old(self).ws_clients,
            final(self).id_subscriptions == old(self).id_subscriptions,
            final(self).bbox_subscriptions == old(self).bbox_subscriptions,
            final(self).redis_buffer == old(self).redis_buffer,
            final(self).record_count == old(self).record_count,
    {
        if let Some(l) = result {
            self.ignore_list = l;
        }
    }
}

fn contains_session(s: &Vec<SessionId>, a: SessionId) -> (r: bool)
    ensures
        r == s@.contains(a),
{
    let mut i: usize = 0;
    while i < s.len()
        invariant
            0 <= i <= s@.len(),
            forall|k: int| 0 <= k < i ==> s@[k] != a,
        decreases s@.len() - i,
    {
        if s[i] == a {
            assert(s@[i as int] == a);
            return true;
        }
        i = i + 1;
    }
    false
}

/// The line of a report.
fn format_line(p: &Position) -> (r: String)
    ensures
        r@ == line_spec(*p),
{
    let mut s = String::new();
    push_str(&mut s, p.id.as_str());
    push_char(&mut s, '|');
    push_int(&mut s, p.time);
    push_char(&mut s, '|');
    push_micro(&mut s, p.longitude as i64);
    push_char(&mut s, '|');
    push_micro(&mut s, p.latitude as i64);
    push_char(&mut s, '|');
    push_int(&mut s, p.course as i64);
    push_char(&mut s, '|');
    push_int(&mut s, p.altitude as i64);
    assert(s@ =~= line_spec(*p));
    s
}

/// Whether device `id` is in `list`.
fn contains_id(list: &Vec<String>, id: &String) -> (r: bool)
    ensures
        r == exists|i: int| 0 <= i < list@.len() && (#[trigger] list@[i])@ == id@,
{
    let mut i: usize = 0;
    while i < list.len()
        invariant
            0 <= i <= list@.len(),
            forall|k: int| 0 <= k < i ==> (#[trigger] list@[k])@ != id@,
        decreases list@.len() - i,
    {
        if list[i] == *id {
            return true;
        }
        i = i + 1;
    }
    false
}

/// No session follows the device in the slow lane.
proof fn lemma_bbox_matches_exclude(
    s: Seq<(SessionId, BoundingBox)>,
    fast: Seq<SessionId>,
    longitude: int,
    latitude: int,
)
    ensures
        forall|x: SessionId| #[trigger] bbox_matches(s, fast, longitude, latitude).contains(x) ==> !fast.contains(x),
    decreases s.len(),
{
    if s.len() > 0 {
        lemma_bbox_matches_exclude(s.drop_last(), fast, longitude, latitude);
        let before = bbox_matches(s.drop_last(), fast, longitude, latitude);
        assert forall|x: SessionId| #[trigger] bbox_matches(s, fast, longitude, latitude).contains(x) implies !fast.contains(x) by {
            let r = bbox_matches(s, fast, longitude, latitude);
            let k = choose|k: int| 0 <= k < r.len() && r[k] == x;
            if k < before.len() {
                assert(before[k] == x);
                assert(before.contains(x));
            }
        }
    }
}

/// A session that follows a device gets its reports in the fast lane only,
/// never in the slow lane as well.
pub proof fn lemma_lane_dedup(g: Gateway, p: Position, f: Fanout)
    requires
        fanout_spec(g, p, Some(f)),
    ensures
        forall|x: SessionId| f.fast@.contains(x) ==> !(#[trigger] f.slow@.contains(x)),
{
    lemma_bbox_matches_exclude(g.bbox_subscriptions@, f.fast@, p.longitude as int, p.latitude as int);
}

/// The index of session `a` in `s`, if it is there.
fn find_session(s: &Vec<SessionId>, a: SessionId) -> (r: Option<usize>)
    ensures
        match r {
            Some(j) => j < s@.len() && s@[j as int] == a && forall|k: int| 0 <= k < j ==> s@[k] != a,
            None => !s@.contains(a),
        },
{
    let mut i: usize = 0;
    while i < s.len()
        invariant
            0 <= i <= s@.len(),
            forall|k: int| 0 <= k < i ==> s@[k] != a,
        decreases s@.len() - i,
    {
        if s[i] == a {
            return Some(i);
        }
        i = i + 1;
    }
    None
}

/// The index of the region subscription of session `a`.
fn find_bbox(s: &Vec<(SessionId, BoundingBox)>, a: SessionId) -> (r: Option<usize>)
    ensures
        match r {
            Some(j) => j < s@.len() && s@[j as int].0 == a,
            None => forall|k: int| 0 <= k < s@.len() ==> (#[trigger] s@[k]).0 != a,
        },
{
    let mut i: usize = 0;
    while i < s.len()
        invariant
            0 <= i <= s@.len(),
            forall|k: int| 0 <= k < i ==> (#[trigger] s@[k]).0 != a,
        decreases s@.len() - i,
    {
        if s[i].0 == a {
            return Some(i);
        }
        i = i + 1;
    }
    None
}

/// The index of the subscription list of device `id`.
fn find_id(s: &Vec<IdSubscription>, id: &String) -> (r: Option<usize>)
    ensures
        match r {
            Some(j) => j < s@.len() && s@[j as int].id@ == id@,
            None => forall|k: int| 0 <= k < s@.len() ==> (#[trigger] s@[k]).id@ != id@,
        },
{
    let mut i: usize = 0;
    while i < s.len()
        invariant
            0 <= i <= s@.len(),
            forall|k: int| 0 <= k < i ==> (#[trigger] s@[k]).id@ != id@,
        decreases s@.len() - i,
    {
        if s[i].id == *id {
            return Some(i);
        }
        i = i + 1;
    }
    None
}

/// `s` without any occurrence of `a`.
fn remove_all_exec(s: &Vec<SessionId>, a: SessionId) -> (r: Vec<SessionId>)
    ensures
        r@ == remove_all(s@, a),
{
    let mut out: Vec<SessionId> = Vec::new();
    let mut i: usize = 0;
    assert(s@.take(0) =~= Seq::<SessionId>::empty());
    while i < s.len()
        invariant
            0 <= i <= s@.len(),
            out@ == remove_all(s@.take(i as int), a),
        decreases s@.len() - i,
    {
        assert(s@.take(i + 1).drop_last() =~= s@.take(i as int));
        if s[i] != a {
            out.push(s[i]);
        }
        i = i + 1;
    }
    assert(s@.take(s@.len() as int) =~= s@);
    out
}

/// What `remove_all` keeps: every other session of the list.
pub proof fn lemma_remove_all(s: Seq<SessionId>, a: SessionId)
    ensures
        forall|x: SessionId| #[trigger] remove_all(s, a).contains(x) <==> (s.contains(x) && x != a),
    decreases s.len(),
{
    if s.len() > 0 {
        let d = s.drop_last();
        let rd = remove_all(d, a);
        let r = remove_all(s, a);
        lemma_remove_all(d, a);
        assert forall|x: SessionId| r.contains(x) implies s.contains(x) && x != a by {
            let k = choose|k: int| 0 <= k < r.len() && r[k] == x;
            if s.last() == a {
                assert(rd.contains(x));
                let m = choose|m: int| 0 <= m < d.len() && d[m] == x;
                assert(s[m] == x);
            } else if k < r.len() - 1 {
                assert(rd[k] == x);
                assert(rd.contains(x));
                let m = choose|m: int| 0 <= m < d.len() && d[m] == x;
                assert(s[m] == x);
            } else {
                assert(x == s.last());
                assert(s[s.len() - 1] == x);
            }
        }
        assert forall|x: SessionId| s.contains(x) && x != a implies r.contains(x) by {
            let k = choose|k: int| 0 <= k < s.len() && s[k] == x;
            if k < d.len() {
                assert(d[k] == x);
                assert(d.contains(x));
                assert(rd.contains(x));
                let m = choose|m: int| 0 <= m < rd.len() && rd[m] == x;
                if s.last() != a {
                    assert(r[m] == x);
                }
            } else {
                assert(r[r.len() - 1] == x);
            }
        }
    }
}

/// Taking out the first occurrence, at index `k`, is `remove(k)`.
proof fn lemma_remove_first(s: Seq<SessionId>, a: SessionId, k: int)
    requires
        0 <= k < s.len(),
        s[k] == a,
        forall|j: int| 0 <= j < k ==> s[j] != a,
    ensures
        remove_first(s, a) == s.remove(k),
    decreases s.len(),
{
    if k == 0 {
        assert(s.skip(1) =~= s.remove(0));
    } else {
        let t = s.skip(1);
        assert forall|j: int| 0 <= j < k - 1 implies t[j] != a by {
            assert(t[j] == s[j + 1]);
        }
        lemma_remove_first(t, a, k - 1);
        assert(seq![s[0]] + t.remove(k - 1) =~= s.remove(k));
    }
}

/// A list without `a` stays as it is.
proof fn lemma_remove_first_absent(s: Seq<SessionId>, a: SessionId)
    requires
        !s.contains(a),
    ensures
        remove_first(s, a) == s,
    decreases s.len(),
{
    if s.len() > 0 {
        assert(s[0] != a);
        let t = s.skip(1);
        assert(!t.contains(a)) by {
            if t.contains(a) {
                let k = choose|k: int| 0 <= k < t.len() && t[k] == a;
                assert(s[k + 1] == a);
            }
        }
        lemma_remove_first_absent(t, a);
        assert(seq![s[0]] + t =~= s);
    }
}

} // verus!
