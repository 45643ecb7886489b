use vstd::prelude::*;
use vstd::slice::slice_to_vec;
use crate::codec::utf8;

verus! {

pub const SLASH: u8 = 47;

pub const PLUS: u8 = 43;

pub const HASH: u8 = 35;

pub const DOLLAR: u8 = 36;

/// The levels of a topic or filter: its bytes split at every `/`. There is
/// always one more level than there are separators.
pub open spec fn split_levels(b: Seq<u8>) -> Seq<Seq<u8>>
    decreases b.len(),
{
    if b.len() == 0 {
        seq![Seq::empty()]
    } else {
        let prev = split_levels(b.drop_last());
        if b.last() == SLASH {
            prev.push(Seq::empty())
        } else {
            prev.update(prev.len() - 1, prev.last().push(b.last()))
        }
    }
}

pub proof fn lemma_split_levels_nonempty(b: Seq<u8>)
    ensures
        split_levels(b).len() >= 1,
    decreases b.len(),
{
    if b.len() > 0 {
        lemma_split_levels_nonempty(b.drop_last());
    }
}

/// Filter levels `f` match topic levels `t`: a literal level matches an
/// equal level, `+` matches any one level, `#` matches all that is left,
/// the empty tail included.
pub open spec fn levels_match(t: Seq<Seq<u8>>, f: Seq<Seq<u8>>) -> bool
    decreases f.len(),
{
    if f.len() == 0 {
        t.len() == 0
    } else if f[0] == seq![HASH] {
        true
    } else if t.len() == 0 {
        false
    } else if f[0] == seq![PLUS] || f[0] == t[0] {
        levels_match(t.drop_first(), f.drop_first())
    } else {
        false
    }
}

/// The filter bytes `f` match the topic bytes `t` under the MQTT rules; a
/// topic that begins with `$` is not matched by a filter whose first level
/// is a wildcard.
pub open spec fn matches_bytes(t: Seq<u8>, f: Seq<u8>) -> bool {
    let fl = split_levels(f);
    &&& levels_match(split_levels(t), fl)
    &&& !(t.len() > 0 && t[0] == DOLLAR && (fl[0] == seq![PLUS] || fl[0] == seq![HASH]))
}

/// The filter `filter` matches the topic name `topic`.
pub open spec fn topic_matches(topic: Seq<char>, filter: Seq<char>) -> bool {
    matches_bytes(utf8(topic), utf8(filter))
}

/// A level that holds a wildcard character is exactly `+` or `#`, and `#`
/// is the last level.
pub open spec fn valid_levels(ls: Seq<Seq<u8>>) -> bool {
    forall|i: int|
        0 <= i < ls.len() ==> {
            &&& (#[trigger] ls[i]).contains(PLUS) ==> ls[i] == seq![PLUS]
            &&& ls[i].contains(HASH) ==> ls[i] == seq![HASH] && i == ls.len() - 1
        }
}

/// A valid topic filter: non-empty, at most 65535 bytes, no NUL byte, and
/// wildcards only as whole levels with `#` last.
pub open spec fn valid_filter_bytes(f: Seq<u8>) -> bool {
    &&& 0 < f.len() <= 65535
    &&& !f.contains(0)
    &&& valid_levels(split_levels(f))
}

pub open spec fn valid_filter(f: Seq<char>) -> bool {
    valid_filter_bytes(utf8(f))
}

/// A valid topic name: non-empty, at most 65535 bytes, no NUL and no
/// wildcard character.
pub open spec fn valid_topic_bytes(t: Seq<u8>) -> bool {
    &&& 0 < t.len() <= 65535
    &&& !t.contains(0)
    &&& !t.contains(PLUS)
    &&& !t.contains(HASH)
}

pub open spec fn valid_topic(t: Seq<char>) -> bool {
    valid_topic_bytes(utf8(t))
}

pub open spec fn levels_view(v: Seq<Vec<u8>>) -> Seq<Seq<u8>> {
    v.map_values(|l: Vec<u8>| l@)
}

/// Splits `b` into its levels.
pub fn split_levels_exec(b: &[u8]) -> (r: Vec<Vec<u8>>)
    ensures
        levels_view(r@) == split_levels(b@),
{
    let mut done: Vec<Vec<u8>> = Vec::new();
    let mut cur: Vec<u8> = Vec::new();
    let mut i: usize = 0;
    assert(b@.take(0) =~= Seq::<u8>::empty());
    assert(levels_view(done@).push(cur@) =~= split_levels(b@.take(0)));
    while i < b.len()
        invariant
            0 <= i <= b@.len(),
            levels_view(done@).push(cur@) == split_levels(b@.take(i as int)),
        decreases b@.len() - i,
    {
        let c = b[i];
        assert(b@.take(i + 1).drop_last() =~= b@.take(i as int));
        if c == SLASH {
            let ghost old_done = done@;
            done.push(cur);
            cur = Vec::new();
            assert(levels_view(done@).push(cur@) =~= levels_view(old_done).push(
                levels_view(done@).last(),
            ).push(Seq::empty())) by {
                assert(levels_view(done@) =~= levels_view(old_done).push(levels_view(done@).last()));
            }
        } else {
            let ghost old_cur = cur@;
            cur.push(c);
            assert(levels_view(done@).push(cur@) =~= levels_view(done@).push(old_cur).update(
                levels_view(done@).len() as int,
                old_cur.push(c),
            ));
        }
        i = i + 1;
    }
    assert(b@.take(i as int) =~= b@);
    let ghost old_done = done@;
    done.push(cur);
    assert(levels_view(done@) =~= levels_view(old_done).push(levels_view(done@).last()));
    done
}

/// Whether two byte sequences are equal.
pub fn bytes_eq(a: &[u8], b: &[u8]) -> (r: bool)
    ensures
        r == (a@ == b@),
{
    if a.len() != b.len() {
        return false;
    }
    let mut i: usize = 0;
    while i < a.len()
        invariant
            0 <= i <= a@.len(),
            a@.len() == b@.len(),
            forall|j: int| 0 <= j < i ==> a@[j] == b@[j],
        decreases a@.len() - i,
    {
        if a[i] != b[i] {
            return false;
        }
        i = i + 1;
    }
    assert(a@ =~= b@);
    true
}

/// Whether `b` is the one-byte level `[c]`.
fn is_single(b: &Vec<u8>, c: u8) -> (r: bool)
    ensures
        r == (b@ == seq![c]),
{
    let r = b.len() == 1 && b[0] == c;
    if r {
        assert(b@ =~= seq![c]);
    }
    r
}

/// Whether `b` holds the byte `c`.
fn contains_byte(b: &[u8], c: u8) -> (r: bool)
    ensures
        r == b@.contains(c),
{
    let mut i: usize = 0;
    while i < b.len()
        invariant
            0 <= i <= b@.len(),
            forall|j: int| 0 <= j < i ==> b@[j] != c,
        decreases b@.len() - i,
    {
        if b[i] == c {
            assert(b@[i as int] == c);
            return true;
        }
        i = i + 1;
    }
    false
}

/// Whether the filter levels `f` match the topic levels `t`.
pub fn levels_match_exec(t: &Vec<Vec<u8>>, f: &Vec<Vec<u8>>) -> (r: bool)
    ensures
        r == levels_match(levels_view(t@), levels_view(f@)),
{
    let ghost tv = levels_view(t@);
    let ghost fv = levels_view(f@);
    let mut i: usize = 0;
    assert(tv.skip(0) =~= tv);
    assert(fv.skip(0) =~= fv);
    loop
        invariant
            0 <= i <= t@.len(),
            i <= f@.len(),
            tv == levels_view(t@),
            fv == levels_view(f@),
            levels_match(tv, fv) == levels_match(tv.skip(i as int), fv.skip(i as int)),
        decreases f@.len() - i,
    {
        if i == f.len() {
            return i == t.len();
        }
        assert(fv.skip(i as int)[0] == f@[i as int]@);
        if is_single(&f[i], HASH) {
            return true;
        }
        if i == t.len() {
            return false;
        }
        assert(tv.skip(i as int)[0] == t@[i as int]@);
        if is_single(&f[i], PLUS) || bytes_eq(f[i].as_slice(), t[i].as_slice()) {
            assert(tv.skip(i as int).drop_first() =~= tv.skip(i + 1));
            assert(fv.skip(i as int).drop_first() =~= fv.skip(i + 1));
            i = i + 1;
        } else {
            return false;
        }
    }
}

/// Whether the filter `filter` matches the topic name `topic`.
pub fn topic_matches_exec(topic: &str, filter: &str) -> (r: bool)
    ensures
        r == topic_matches(topic@, filter@),
{
    let tb = topic.as_bytes();
    let fb = filter.as_bytes();
    let tl = split_levels_exec(tb);
    let fl = split_levels_exec(fb);
    proof {
        lemma_split_levels_nonempty(fb@);
    }
    if !levels_match_exec(&tl, &fl) {
        return false;
    }
    assert(levels_view(fl@)[0] == fl@[0]@);
    let wild_first = is_single(&fl[0], PLUS) || is_single(&fl[0], HASH);
    !(tb.len() > 0 && tb[0] == DOLLAR && wild_first)
}

/// A subscriber of a topic, with the qos it is granted. Two entries are
/// equal when they name the same client.
#[derive(Debug, Clone)]
pub struct TopicSubscription {
    pub client_id: String,
    pub qos: u8,
}

impl PartialEq for TopicSubscription {
    fn eq(&self, other: &TopicSubscription) -> (r: bool)
        ensures
            r == (self.client_id@ == other.client_id@),
    {
        self.client_id == other.client_id
    }
}

impl vstd::std_specs::cmp::PartialEqSpecImpl for TopicSubscription {
    open spec fn obeys_eq_spec() -> bool {
        true
    }

    open spec fn eq_spec(&self, other: &TopicSubscription) -> bool {
        self.client_id@ == other.client_id@
    }
}

/// One subscription: a client, a filter and the qos granted on it.
#[derive(Debug, Clone)]
pub struct Subscription {
    pub client_id: String,
    pub topic_filter: String,
    pub qos: u8,
}

/// The retained message of a topic.
#[derive(Debug, Clone)]
pub struct RetainedMessage {
    pub topic: String,
    pub payload: Vec<u8>,
    pub qos: u8,
}

pub open spec fn sub_key(s: Subscription) -> (Seq<char>, Seq<char>) {
    (s.client_id@, s.topic_filter@)
}

/// A copy of a byte vector.
pub fn copy_bytes(v: &Vec<u8>) -> (r: Vec<u8>)
    ensures
        r@ == v@,
{
    slice_to_vec(v.as_slice())
}

/// The subscription index and the retained messages of a broker.
///
/// Its model is two maps: (client id, filter) to granted qos, and topic to
/// (payload, qos) of the retained message.
pub struct TopicManager {
    subscriptions: Vec<Subscription>,
    retained: Vec<RetainedMessage>,
    subs: Ghost<Map<(Seq<char>, Seq<char>), u8>>,
    kept: Ghost<Map<Seq<char>, (Seq<u8>, u8)>>,
}

impl TopicManager {
    /// (client id, filter) to the qos granted on that subscription.
    pub closed spec fn subscription_map(self) -> Map<(Seq<char>, Seq<char>), u8> {
        self.subs@
    }

    /// Topic to (payload, qos) of its retained message.
    pub closed spec fn retained_map(self) -> Map<Seq<char>, (Seq<u8>, u8)> {
        self.kept@
    }

    pub closed spec fn wf(self) -> bool {
        &&& forall|i: int|
            0 <= i < self.subscriptions@.len() ==> {
                &&& self.subs@.contains_key(#[trigger] sub_key(self.subscriptions@[i]))
                &&& self.subs@[sub_key(self.subscriptions@[i])] == self.subscriptions@[i].qos
            }
        &&& forall|k: (Seq<char>, Seq<char>)|
            #[trigger] self.subs@.contains_key(k) ==> exists|i: int|
                0 <= i < self.subscriptions@.len() && sub_key(self.subscriptions@[i]) == k
        &&& forall|i: int, j: int|
            0 <= i < j < self.subscriptions@.len() ==> sub_key(#[trigger] self.subscriptions@[i])
                != sub_key(#[trigger] self.subscriptions@[j])
        &&& forall|k: (Seq<char>, Seq<char>)| #[trigger]
            self.subs@.contains_key(k) ==> valid_filter(k.1)
        &&& forall|i: int|
            0 <= i < self.retained@.len() ==> {
                &&& self.kept@.contains_key((#[trigger] self.retained@[i]).topic@)
                &&& self.kept@[self.retained@[i].topic@] == (
                    self.retained@[i].payload@,
                    self.retained@[i].qos,
                )
            }
        &&& forall|t: Seq<char>|
            #[trigger] self.kept@.contains_key(t) ==> exists|i: int|
                0 <= i < self.retained@.len() && self.retained@[i].topic@ == t
        &&& forall|i: int, j: int|
            0 <= i < j < self.retained@.len() ==> (#[trigger] self.retained@[i]).topic@ != (
            #[trigger] self.retained@[j]).topic@
        &&& forall|t: Seq<char>| #[trigger]
            self.kept@.contains_key(t) ==> valid_topic(t) && self.kept@[t].0.len() > 0
    }

    pub fn new() -> (r: TopicManager)
        ensures
            r.wf(),
            r.subscription_map() == Map::<(Seq<char>, Seq<char>), u8>::empty(),
            r.retained_map() == Map::<Seq<char>, (Seq<u8>, u8)>::empty(),
    {
        TopicManager {
            subscriptions: Vec::new(),
            retained: Vec::new(),
            subs: Ghost(Map::empty()),
            kept: Ghost(Map::empty()),
        }
    }

    /// Whether `filter` is a valid topic filter.
    pub fn is_valid_topic_filter(&self, filter: &str) -> (r: bool)
        ensures
            r == valid_filter(filter@),
    {
        let fb = filter.as_bytes();
        if fb.len() == 0 || fb.len() > 65535 || contains_byte(fb, 0) {
            return false;
        }
        let ls = split_levels_exec(fb);
        let ghost lv = levels_view(ls@);
        let mut i: usize = 0;
        while i < ls.len()
            invariant
                0 <= i <= ls@.len(),
                lv == levels_view(ls@),
                lv == split_levels(fb@),
                fb@ == utf8(filter@),
                0 < fb@.len() <= 65535,
                !fb@.contains(0),
                forall|j: int|
                    0 <= j < i ==> {
                        &&& (#[trigger] lv[j]).contains(PLUS) ==> lv[j] == seq![PLUS]
                        &&& lv[j].contains(HASH) ==> lv[j] == seq![HASH] && j == lv.len() - 1
                    },
            decreases ls@.len() - i,
        {
            let level = &ls[i];
            assert(lv[i as int] == level@);
            let has_plus = contains_byte(level.as_slice(), PLUS);
            let has_hash = contains_byte(level.as_slice(), HASH);
            if has_plus && !is_single(level, PLUS) {
                assert(!valid_levels(lv));
                return false;
            }
            if has_hash && !(is_single(level, HASH) && i == ls.len() - 1) {
                assert(!valid_levels(lv));
                return false;
            }
            i = i + 1;
        }
        true
    }

    /// Whether `topic` is a valid topic name (no wildcards).
    pub fn is_valid_topic(&self, topic: &str) -> (r: bool)
        ensures
            r == valid_topic(topic@),
    {
        let tb = topic.as_bytes();
        tb.len() > 0 && tb.len() <= 65535 && !contains_byte(tb, 0) && !contains_byte(tb, PLUS)
            && !contains_byte(tb, HASH)
    }

    fn find_subscription(&self, client_id: &String, topic_filter: &String) -> (r: Option<usize>)
        requires
            self.wf(),
        ensures
            match r {
                Some(i) => i < self.subscriptions@.len() && sub_key(self.subscriptions@[i as int])
                    == (client_id@, topic_filter@),
                None => !self.subs@.contains_key((client_id@, topic_filter@)),
            },
    {
        let mut i: usize = 0;
        while i < self.subscriptions.len()
            invariant
                self.wf(),
                0 <= i <= self.subscriptions@.len(),
                forall|j: int|
                    0 <= j < i ==> sub_key(#[trigger] self.subscriptions@[j]) != (
                        client_id@,
                        topic_filter@,
                    ),
            decreases self.subscriptions@.len() - i,
        {
            let s = &self.subscriptions[i];
            if s.client_id == *client_id && s.topic_filter == *topic_filter {
                return Some(i);
            }
            i = i + 1;
        }
        None
    }

    /// Adds, or updates the qos of, the subscription of `client_id` to
    /// `topic_filter`. An invalid filter is refused and changes nothing.
    pub fn add_subscription(&mut self, topic_filter: &str, client_id: String, qos: u8) -> (r: bool)
        requires
            old(self).wf(),
        ensures
            final(self).wf(),
            r == valid_filter(topic_filter@),
            r ==> final(self).subscription_map() == old(self).subscription_map().insert(
                (client_id@, topic_filter@),
                qos,
            ),
            !r ==> final(self).subscription_map() == old(self).subscription_map(),
            final(self).retained_map() == old(self).retained_map(),
    {
        if !self.is_valid_topic_filter(topic_filter) {
            return false;
        }
        let ghost key = (client_id@, topic_filter@);
        let filter = topic_filter.to_owned();
        match self.find_subscription(&client_id, &filter) {
            Some(i) => {
                self.subscriptions[i].qos = qos;
                self.subs = Ghost(self.subs@.insert(key, qos));
                assert forall|j: int| 0 <= j < self.subscriptions@.len() implies sub_key(
                    #[trigger] self.subscriptions@[j],
                ) == sub_key(old(self).subscriptions@[j]) by {}
                assert forall|k: (Seq<char>, Seq<char>)| #[trigger]
                    self.subs@.contains_key(k) implies exists|j: int|
                        0 <= j < self.subscriptions@.len() && sub_key(self.subscriptions@[j]) == k by {
                    if k != key {
                        let j = choose|j: int|
                            0 <= j < old(self).subscriptions@.len() && sub_key(
                                old(self).subscriptions@[j],
                            ) == k;
                        assert(sub_key(self.subscriptions@[j]) == k);
                    } else {
                        assert(sub_key(self.subscriptions@[i as int]) == k);
                    }
                }
            },
            None => {
                self.subscriptions.push(Subscription { client_id, topic_filter: filter, qos });
                self.subs = Ghost(self.subs@.insert(key, qos));
                let ghost n = self.subscriptions@.len() - 1;
                assert(sub_key(self.subscriptions@[n]) == key);
                assert forall|j: int| 0 <= j < n implies sub_key(#[trigger] self.subscriptions@[j])
                    != key by {
                    assert(sub_key(self.subscriptions@[j]) == sub_key(old(self).subscriptions@[j]));
                    assert(old(self).subs@.contains_key(sub_key(old(self).subscriptions@[j])));
                }
                assert forall|k: (Seq<char>, Seq<char>)| #[trigger]
                    self.subs@.contains_key(k) implies exists|j: int|
                        0 <= j < self.subscriptions@.len() && sub_key(self.subscriptions@[j]) == k by {
                    if k != key {
                        let j = choose|j: int|
                            0 <= j < old(self).subscriptions@.len() && sub_key(
                                old(self).subscriptions@[j],
                            ) == k;
                        assert(sub_key(self.subscriptions@[j]) == k);
                    } else {
                        assert(sub_key(self.subscriptions@[n]) == k);
                    }
                }
            },
        }
        assert(forall|i: int|
            0 <= i < self.subscriptions@.len() ==> {
                &&& self.subs@.contains_key(#[trigger] sub_key(self.subscriptions@[i]))
                &&& self.subs@[sub_key(self.subscriptions@[i])] == self.subscriptions@[i].qos
            });
        assert(forall|i: int, j: int|
            0 <= i < j < self.subscriptions@.len() ==> sub_key(#[trigger] self.subscriptions@[i])
                != sub_key(#[trigger] self.subscriptions@[j]));
        assert(forall|k: (Seq<char>, Seq<char>)| #[trigger]
            self.subs@.contains_key(k) ==> valid_filter(k.1));
        assert(self.retained@ == old(self).retained@);
        true
    }

    /// Removes the subscription of `client_id` to `topic_filter`, if any.
    pub fn remove_subscription(&mut self, topic_filter: &str, client_id: &String)
        requires
            old(self).wf(),
        ensures
            final(self).wf(),
            final(self).subscription_map() == old(self).subscription_map().remove(
                (client_id@, topic_filter@),
            ),
            final(self).retained_map() == old(self).retained_map(),
    {
        let filter = topic_filter.to_owned();
        let ghost key = (client_id@, topic_filter@);
        match self.find_subscription(client_id, &filter) {
            None => {
                assert(self.subs@.remove(key) =~= self.subs@);
            },
            Some(i) => {
                let ghost old_v = self.subscriptions@;
                self.subscriptions.remove(i);
                self.subs = Ghost(self.subs@.remove(key));
                assert forall|j: int| 0 <= j < self.subscriptions@.len() implies sub_key(
                    #[trigger] self.subscriptions@[j],
                ) != key by {
                    if j < i {
                        assert(self.subscriptions@[j] == old_v[j]);
                    } else {
                        assert(self.subscriptions@[j] == old_v[j + 1]);
                    }
                }
                assert forall|k: (Seq<char>, Seq<char>)| #[trigger]
                    self.subs@.contains_key(k) implies exists|j: int|
                        0 <= j < self.subscriptions@.len() && sub_key(self.subscriptions@[j]) == k by {
                    let j = choose|j: int| 0 <= j < old_v.len() && sub_key(old_v[j]) == k;
                    if j < i {
                        assert(sub_key(self.subscriptions@[j]) == k);
                    } else {
                        assert(j != i);
                        assert(sub_key(self.subscriptions@[j - 1]) == k);
                    }
                }
                assert forall|j: int| 0 <= j < self.subscriptions@.len() implies {
                    &&& self.subs@.contains_key(#[trigger] sub_key(self.subscriptions@[j]))
                    &&& self.subs@[sub_key(self.subscriptions@[j])] == self.subscriptions@[j].qos
                } by {
                    let oj = if j < i { j } else { j + 1 };
                    assert(self.subscriptions@[j] == old_v[oj]);
                    assert(old(self).subs@.contains_key(sub_key(old_v[oj])));
                }
                assert forall|a: int, b: int|
                    0 <= a < b < self.subscriptions@.len() implies sub_key(
                    #[trigger] self.subscriptions@[a],
                ) != sub_key(#[trigger] self.subscriptions@[b]) by {
                    let oa = if a < i { a } else { a + 1 };
                    let ob = if b < i { b } else { b + 1 };
                    assert(self.subscriptions@[a] == old_v[oa]);
                    assert(self.subscriptions@[b] == old_v[ob]);
                }
                assert(forall|k: (Seq<char>, Seq<char>)| #[trigger]
                    self.subs@.contains_key(k) ==> valid_filter(k.1));
                assert(self.retained@ == old(self).retained@);
            },
        }
    }
}

/// Every entry of `r` is a client with a subscription matching `topic`
/// whose granted qos is the entry's qos.
pub open spec fn subscribers_attained(
    subs: Map<(Seq<char>, Seq<char>), u8>,
    topic: Seq<char>,
    r: Seq<TopicSubscription>,
) -> bool {
    forall|m: int| 0 <= m < r.len() ==> granted_to(subs, topic, #[trigger] r[m])
}

/// `s.client_id` has a subscription matching `topic` granted exactly `s.qos`.
pub open spec fn granted_to(
    subs: Map<(Seq<char>, Seq<char>), u8>,
    topic: Seq<char>,
    s: TopicSubscription,
) -> bool {
    exists|k: (Seq<char>, Seq<char>)|
        #![trigger subs.contains_key(k)]
        subs.contains_key(k) && k.0 == s.client_id@ && topic_matches(topic, k.1) && subs[k]
            == s.qos
}

/// Every subscription matching `topic` has an entry of its client in `r`
/// with at least its qos.
pub open spec fn subscribers_covered(
    subs: Map<(Seq<char>, Seq<char>), u8>,
    topic: Seq<char>,
    r: Seq<TopicSubscription>,
) -> bool {
    forall|k: (Seq<char>, Seq<char>)|
        #![trigger subs[k]]
        subs.contains_key(k) && topic_matches(topic, k.1) ==> exists|m: int|
            0 <= m < r.len() && r[m].client_id@ == k.0 && r[m].qos >= subs[k]
}

proof fn lemma_attained(
    subs: Map<(Seq<char>, Seq<char>), u8>,
    topic: Seq<char>,
    r: Seq<TopicSubscription>,
    keys: Seq<(Seq<char>, Seq<char>)>,
)
    requires
        keys.len() == r.len(),
        forall|m: int|
            0 <= m < r.len() ==> {
                &&& subs.contains_key(#[trigger] keys[m])
                &&& keys[m].0 == r[m].client_id@
                &&& topic_matches(topic, keys[m].1)
                &&& subs[keys[m]] == r[m].qos
            },
    ensures
        subscribers_attained(subs, topic, r),
{
    assert forall|m: int| 0 <= m < r.len() implies granted_to(subs, topic, #[trigger] r[m]) by {
        let k = keys[m];
        assert(subs.contains_key(k));
    }
}

pub open spec fn distinct_clients(v: Seq<TopicSubscription>) -> bool {
    forall|a: int, b: int|
        0 <= a < b < v.len() ==> (#[trigger] v[a]).client_id@ != (#[trigger] v[b]).client_id@
}

/// Records that `client_id` is a subscriber with at least `qos`: raises the
/// qos of its entry, or adds an entry. Returns the position of its entry.
fn merge_subscriber(out: &mut Vec<TopicSubscription>, client_id: &String, qos: u8) -> (x: usize)
    requires
        distinct_clients(old(out)@),
    ensures
        distinct_clients(final(out)@),
        x <= old(out)@.len(),
        x == old(out)@.len() ==> final(out)@.len() == old(out)@.len() + 1,
        x < old(out)@.len() ==> final(out)@.len() == old(out)@.len(),
        final(out)@[x as int].client_id@ == client_id@,
        x == old(out)@.len() ==> final(out)@[x as int].qos == qos,
        x < old(out)@.len() ==> old(out)@[x as int].client_id@ == client_id@,
        x < old(out)@.len() ==> final(out)@[x as int].qos == old(out)@[x as int].qos
            || final(out)@[x as int].qos == qos,
        x < old(out)@.len() ==> final(out)@[x as int].qos >= old(out)@[x as int].qos,
        final(out)@[x as int].qos >= qos,
        forall|y: int|
            0 <= y < old(out)@.len() && y != x ==> #[trigger] final(out)@[y] == old(out)@[y],
{
    let mut m: usize = 0;
    while m < out.len()
        invariant
            0 <= m <= out@.len(),
            out@ == old(out)@,
            distinct_clients(out@),
            forall|x: int| 0 <= x < m ==> (#[trigger] out@[x]).client_id@ != client_id@,
        decreases out@.len() - m,
    {
        if out[m].client_id == *client_id {
            if qos > out[m].qos {
                out[m].qos = qos;
            }
            assert forall|a: int, b: int| 0 <= a < b < out@.len() implies (#[trigger] out@[a]).client_id@
                != (#[trigger] out@[b]).client_id@ by {
                assert(out@[a].client_id@ == old(out)@[a].client_id@);
                assert(out@[b].client_id@ == old(out)@[b].client_id@);
            }
            return m;
        }
        m = m + 1;
    }
    out.push(TopicSubscription { client_id: client_id.clone(), qos });
    assert forall|a: int, b: int| 0 <= a < b < out@.len() implies (#[trigger] out@[a]).client_id@
        != (#[trigger] out@[b]).client_id@ by {
        if b < m {
            assert(out@[a] == old(out)@[a]);
            assert(out@[b] == old(out)@[b]);
        } else {
            assert(out@[a] == old(out)@[a]);
        }
    }
    m
}

impl TopicManager {
    /// The subscribers whose filters match `topic`, one entry per client
    /// with the largest qos among its matching subscriptions.
    #[verifier::rlimit(50)]
    pub fn find_subscribers(&self, topic: &str) -> (r: Vec<TopicSubscription>)
        requires
            self.wf(),
        ensures
            subscribers_attained(self.subscription_map(), topic@, r@),
            subscribers_covered(self.subscription_map(), topic@, r@),
            distinct_clients(r@),
    {
        let ghost v = self.subscriptions@;
        let mut out: Vec<TopicSubscription> = Vec::new();
        let ghost mut wit: Seq<int> = Seq::empty();
        let ghost mut cov: Seq<int> = Seq::empty();
        let mut i: usize = 0;
        while i < self.subscriptions.len()
            invariant
                self.wf(),
                v == self.subscriptions@,
                0 <= i <= v.len(),
                wit.len() == out@.len(),
                cov.len() == i,
                forall|m: int|
                    0 <= m < out@.len() ==> {
                        &&& 0 <= #[trigger] wit[m] < i
                        &&& v[wit[m]].client_id@ == out@[m].client_id@
                        &&& topic_matches(topic@, v[wit[m]].topic_filter@)
                        &&& v[wit[m]].qos == out@[m].qos
                    },
                forall|j: int|
                    0 <= j < i && topic_matches(topic@, v[j].topic_filter@) ==> {
                        &&& 0 <= #[trigger] cov[j] < out@.len()
                        &&& out@[cov[j]].client_id@ == v[j].client_id@
                        &&& out@[cov[j]].qos >= v[j].qos
                    },
                distinct_clients(out@),
            decreases v.len() - i,
        {
            let s = &self.subscriptions[i];
            if topic_matches_exec(topic, s.topic_filter.as_str()) {
                let ghost old_out = out@;
                let x = merge_subscriber(&mut out, &s.client_id, s.qos);
                proof {
                    if x == old_out.len() {
                        wit = wit.push(i as int);
                    } else if out@[x as int].qos != old_out[x as int].qos {
                        wit = wit.update(x as int, i as int);
                    }
                    cov = cov.push(x as int);
                    assert forall|m: int| 0 <= m < out@.len() implies {
                        &&& 0 <= #[trigger] wit[m] < i + 1
                        &&& v[wit[m]].client_id@ == out@[m].client_id@
                        &&& topic_matches(topic@, v[wit[m]].topic_filter@)
                        &&& v[wit[m]].qos == out@[m].qos
                    } by {
                        if m != x {
                            assert(out@[m] == old_out[m]);
                        }
                    }
                    assert forall|j: int| 0 <= j < i + 1 && topic_matches(topic@, v[j].topic_filter@) implies {
                        &&& 0 <= #[trigger] cov[j] < out@.len()
                        &&& out@[cov[j]].client_id@ == v[j].client_id@
                        &&& out@[cov[j]].qos >= v[j].qos
                    } by {
                        if j < i && cov[j] != x {
                            assert(out@[cov[j]] == old_out[cov[j]]);
                        }
                    }
                }
            } else {
                proof {
                    cov = cov.push(0);
                }
            }
            i = i + 1;
        }
        proof {
            let keys = Seq::new(out@.len(), |m: int| sub_key(v[wit[m]]));
            assert forall|m: int| 0 <= m < out@.len() implies {
                &&& self.subscription_map().contains_key(#[trigger] keys[m])
                &&& keys[m].0 == out@[m].client_id@
                &&& topic_matches(topic@, keys[m].1)
                &&& self.subscription_map()[keys[m]] == out@[m].qos
            } by {
                assert(self.subs@.contains_key(sub_key(v[wit[m]])));
            }
            lemma_attained(self.subscription_map(), topic@, out@, keys);
        }
        assert(subscribers_covered(self.subscription_map(), topic@, out@)) by {
            assert forall|k: (Seq<char>, Seq<char>)|
                #![trigger self.subscription_map()[k]]
                self.subscription_map().contains_key(k) && topic_matches(topic@, k.1) implies exists|
                m: int,
            |
                0 <= m < out@.len() && out@[m].client_id@ == k.0 && out@[m].qos
                    >= self.subscription_map()[k] by {
                assert(self.subs@.contains_key(k));
                let j = choose|j: int| 0 <= j < v.len() && sub_key(v[j]) == k;
                assert(topic_matches(topic@, v[j].topic_filter@));
                assert(0 <= cov[j] < out@.len());
            }
        }
        out
    }
}

impl TopicManager {
    fn find_retained(&self, topic: &String) -> (r: Option<usize>)
        requires
            self.wf(),
        ensures
            match r {
                Some(i) => i < self.retained@.len() && self.retained@[i as int].topic@ == topic@,
                None => !self.kept@.contains_key(topic@),
            },
    {
        let mut i: usize = 0;
        while i < self.retained.len()
            invariant
                self.wf(),
                0 <= i <= self.retained@.len(),
                forall|j: int| 0 <= j < i ==> (#[trigger] self.retained@[j]).topic@ != topic@,
            decreases self.retained@.len() - i,
        {
            if self.retained[i].topic == *topic {
                return Some(i);
            }
            i = i + 1;
        }
        None
    }

    /// Sets the retained message of `topic`, or clears it when `payload` is
    /// empty. A topic that is not a valid topic name is refused.
    pub fn store_retained_message(&mut self, topic: &str, payload: Vec<u8>, qos: u8) -> (r: bool)
        requires
            old(self).wf(),
        ensures
            final(self).wf(),
            r == valid_topic(topic@),
            r && payload@.len() > 0 ==> final(self).retained_map() == old(self).retained_map().insert(
                topic@,
                (payload@, qos),
            ),
            r && payload@.len() == 0 ==> final(self).retained_map() == old(self).retained_map().remove(topic@),
            !r ==> final(self).retained_map() == old(self).retained_map(),
            final(self).subscription_map() == old(self).subscription_map(),
    {
        if !self.is_valid_topic(topic) {
            return false;
        }
        let t = topic.to_owned();
        let ghost key = topic@;
        let ghost old_v = self.retained@;
        let found = self.find_retained(&t);
        if payload.len() == 0 {
            match found {
                None => {
                    assert(self.kept@.remove(key) =~= self.kept@);
                },
                Some(i) => {
                    self.retained.remove(i);
                    self.kept = Ghost(self.kept@.remove(key));
                    assert forall|j: int| 0 <= j < self.retained@.len() implies {
                        &&& self.kept@.contains_key((#[trigger] self.retained@[j]).topic@)
                        &&& self.kept@[self.retained@[j].topic@] == (
                            self.retained@[j].payload@,
                            self.retained@[j].qos,
                        )
                    } by {
                        let oj = if j < i { j } else { j + 1 };
                        assert(self.retained@[j] == old_v[oj]);
                        assert(old_v[oj].topic@ != key);
                    }
                    assert forall|t2: Seq<char>| #[trigger]
                        self.kept@.contains_key(t2) implies exists|j: int|
                            0 <= j < self.retained@.len() && self.retained@[j].topic@ == t2 by {
                        let j = choose|j: int| 0 <= j < old_v.len() && old_v[j].topic@ == t2;
                        if j < i {
                            assert(self.retained@[j] == old_v[j]);
                        } else {
                            assert(self.retained@[j - 1] == old_v[j]);
                        }
                    }
                    assert forall|a: int, b: int|
                        0 <= a < b < self.retained@.len() implies (
                        #[trigger] self.retained@[a]).topic@ != (
                        #[trigger] self.retained@[b]).topic@ by {
                        let oa = if a < i { a } else { a + 1 };
                        let ob = if b < i { b } else { b + 1 };
                        assert(self.retained@[a] == old_v[oa]);
                        assert(self.retained@[b] == old_v[ob]);
                    }
                },
            }
        } else {
            let ghost pv = payload@;
            match found {
                Some(i) => {
                    self.retained[i].payload = payload;
                    self.retained[i].qos = qos;
                    self.kept = Ghost(self.kept@.insert(key, (pv, qos)));
                    assert forall|j: int| 0 <= j < self.retained@.len() && j != i implies #[trigger] self.retained@[j] == old_v[j] by {}
                    assert forall|t2: Seq<char>| #[trigger]
                        self.kept@.contains_key(t2) implies exists|j: int|
                            0 <= j < self.retained@.len() && self.retained@[j].topic@ == t2 by {
                        if t2 != key {
                            let j = choose|j: int| 0 <= j < old_v.len() && old_v[j].topic@ == t2;
                            assert(self.retained@[j].topic@ == t2);
                        } else {
                            assert(self.retained@[i as int].topic@ == t2);
                        }
                    }
                    assert forall|a: int, b: int|
                        0 <= a < b < self.retained@.len() implies (
                        #[trigger] self.retained@[a]).topic@ != (
                        #[trigger] self.retained@[b]).topic@ by {
                        assert(self.retained@[a].topic@ == old_v[a].topic@);
                        assert(self.retained@[b].topic@ == old_v[b].topic@);
                    }
                },
                None => {
                    self.retained.push(RetainedMessage { topic: t, payload, qos });
                    self.kept = Ghost(self.kept@.insert(key, (pv, qos)));
                    let ghost n = self.retained@.len() - 1;
                    assert forall|j: int| 0 <= j < n implies (#[trigger] self.retained@[j]).topic@
                        != key by {
                        assert(self.retained@[j] == old_v[j]);
                        assert(old(self).kept@.contains_key(old_v[j].topic@));
                    }
                    assert forall|t2: Seq<char>| #[trigger]
                        self.kept@.contains_key(t2) implies exists|j: int|
                            0 <= j < self.retained@.len() && self.retained@[j].topic@ == t2 by {
                        if t2 != key {
                            let j = choose|j: int| 0 <= j < old_v.len() && old_v[j].topic@ == t2;
                            assert(self.retained@[j] == old_v[j]);
                        } else {
                            assert(self.retained@[n].topic@ == t2);
                        }
                    }
                },
            }
        }
        assert(self.subscriptions@ == old(self).subscriptions@);
        assert(self.subs@ == old(self).subs@);
        assert(forall|t2: Seq<char>| #[trigger]
            self.kept@.contains_key(t2) ==> valid_topic(t2) && self.kept@[t2].0.len() > 0);
        assert(forall|j: int|
            0 <= j < self.retained@.len() ==> {
                &&& self.kept@.contains_key((#[trigger] self.retained@[j]).topic@)
                &&& self.kept@[self.retained@[j].topic@] == (
                    self.retained@[j].payload@,
                    self.retained@[j].qos,
                )
            });
        assert(forall|i: int, j: int|
            0 <= i < j < self.retained@.len() ==> (#[trigger] self.retained@[i]).topic@ != (
            #[trigger] self.retained@[j]).topic@);
        true
    }

    /// The retained messages whose topics match `topic_filter`, one per topic.
    pub fn get_retained_messages(&self, topic_filter: &str) -> (r: Vec<RetainedMessage>)
        requires
            self.wf(),
        ensures
            forall|m: int|
                0 <= m < r@.len() ==> {
                    &&& self.retained_map().contains_key((#[trigger] r@[m]).topic@)
                    &&& self.retained_map()[r@[m].topic@] == (r@[m].payload@, r@[m].qos)
                    &&& topic_matches(r@[m].topic@, topic_filter@)
                },
            forall|t: Seq<char>|
                #[trigger] self.retained_map().contains_key(t) && topic_matches(t, topic_filter@)
                    ==> exists|m: int| 0 <= m < r@.len() && r@[m].topic@ == t,
            forall|a: int, b: int|
                0 <= a < b < r@.len() ==> (#[trigger] r@[a]).topic@ != (#[trigger] r@[b]).topic@,
    {
        let ghost v = self.retained@;
        let mut out: Vec<RetainedMessage> = Vec::new();
        let ghost mut wit: Seq<int> = Seq::empty();
        let ghost mut cov: Seq<int> = Seq::empty();
        let mut i: usize = 0;
        while i < self.retained.len()
            invariant
                self.wf(),
                v == self.retained@,
                0 <= i <= v.len(),
                wit.len() == out@.len(),
                cov.len() == i,
                forall|m: int|
                    0 <= m < out@.len() ==> {
                        &&& 0 <= #[trigger] wit[m] < i
                        &&& v[wit[m]].topic@ == out@[m].topic@
                        &&& v[wit[m]].payload@ == out@[m].payload@
                        &&& v[wit[m]].qos == out@[m].qos
                        &&& topic_matches(out@[m].topic@, topic_filter@)
                    },
                forall|a: int, b: int| 0 <= a < b < out@.len() ==> #[trigger] wit[a] < #[trigger] wit[b],
                forall|j: int|
                    0 <= j < i && topic_matches(v[j].topic@, topic_filter@) ==> {
                        &&& 0 <= #[trigger] cov[j] < out@.len()
                        &&& out@[cov[j]].topic@ == v[j].topic@
                    },
            decreases v.len() - i,
        {
            let e = &self.retained[i];
            if topic_matches_exec(e.topic.as_str(), topic_filter) {
                out.push(RetainedMessage { topic: e.topic.clone(), payload: copy_bytes(&e.payload), qos: e.qos });
                proof {
                    wit = wit.push(i as int);
                    cov = cov.push(out@.len() - 1);
                }
            } else {
                proof {
                    cov = cov.push(0);
                }
            }
            i = i + 1;
        }
        proof {
            assert forall|m: int| 0 <= m < out@.len() implies {
                &&& self.retained_map().contains_key((#[trigger] out@[m]).topic@)
                &&& self.retained_map()[out@[m].topic@] == (out@[m].payload@, out@[m].qos)
                &&& topic_matches(out@[m].topic@, topic_filter@)
            } by {
                assert(self.kept@.contains_key(v[wit[m]].topic@));
            }
            assert forall|t: Seq<char>|
                #[trigger] self.retained_map().contains_key(t) && topic_matches(t, topic_filter@)
                implies exists|m: int| 0 <= m < out@.len() && out@[m].topic@ == t by {
                let j = choose|j: int| 0 <= j < v.len() && v[j].topic@ == t;
                assert(0 <= cov[j] < out@.len());
            }
            assert forall|a: int, b: int| 0 <= a < b < out@.len() implies (#[trigger] out@[a]).topic@
                != (#[trigger] out@[b]).topic@ by {
                assert(wit[a] < wit[b]);
                assert(v[wit[a]].topic@ != v[wit[b]].topic@);
            }
        }
        out
    }

    /// Removes every subscription of `client_id`.
    pub fn remove_client(&mut self, client_id: &String)
        requires
            old(self).wf(),
        ensures
            final(self).wf(),
            final(self).subscription_map() == old(self).subscription_map().restrict(
                old(self).subscription_map().dom().filter(
                    |k: (Seq<char>, Seq<char>)| k.0 != client_id@,
                ),
            ),
            final(self).retained_map() == old(self).retained_map(),
    {
        let ghost v = self.subscriptions@;
        let ghost target = self.subs@.restrict(
            self.subs@.dom().filter(|k: (Seq<char>, Seq<char>)| k.0 != client_id@),
        );
        let mut rest: Vec<Subscription> = Vec::new();
        let ghost mut wit: Seq<int> = Seq::empty();
        let ghost mut cov: Seq<int> = Seq::empty();
        let mut i: usize = 0;
        while i < self.subscriptions.len()
            invariant
                self.wf(),
                v == self.subscriptions@,
                0 <= i <= v.len(),
                wit.len() == rest@.len(),
                cov.len() == i,
                forall|m: int|
                    0 <= m < rest@.len() ==> {
                        &&& 0 <= #[trigger] wit[m] < i
                        &&& sub_key(v[wit[m]]) == sub_key(rest@[m])
                        &&& v[wit[m]].qos == rest@[m].qos
                        &&& rest@[m].client_id@ != client_id@
                    },
                forall|a: int, b: int| 0 <= a < b < rest@.len() ==> #[trigger] wit[a] < #[trigger] wit[b],
                forall|j: int|
                    0 <= j < i && v[j].client_id@ != client_id@ ==> {
                        &&& 0 <= #[trigger] cov[j] < rest@.len()
                        &&& sub_key(rest@[cov[j]]) == sub_key(v[j])
                    },
            decreases v.len() - i,
        {
            let e = &self.subscriptions[i];
            if e.client_id != *client_id {
                rest.push(Subscription { client_id: e.client_id.clone(), topic_filter: e.topic_filter.clone(), qos: e.qos });
                proof {
                    wit = wit.push(i as int);
                    cov = cov.push(rest@.len() - 1);
                }
            } else {
                proof {
                    cov = cov.push(0);
                }
            }
            i = i + 1;
        }
        let ghost old_subs = self.subs@;
        self.subscriptions = rest;
        self.subs = Ghost(target);
        proof {
            assert forall|m: int| 0 <= m < self.subscriptions@.len() implies {
                &&& self.subs@.contains_key(#[trigger] sub_key(self.subscriptions@[m]))
                &&& self.subs@[sub_key(self.subscriptions@[m])] == self.subscriptions@[m].qos
            } by {
                assert(old_subs.contains_key(sub_key(v[wit[m]])));
            }
            assert forall|k: (Seq<char>, Seq<char>)| #[trigger]
                self.subs@.contains_key(k) implies exists|j: int|
                    0 <= j < self.subscriptions@.len() && sub_key(self.subscriptions@[j]) == k by {
                let j = choose|j: int| 0 <= j < v.len() && sub_key(v[j]) == k;
                assert(0 <= cov[j] < self.subscriptions@.len());
            }
            assert forall|a: int, b: int|
                0 <= a < b < self.subscriptions@.len() implies sub_key(
                #[trigger] self.subscriptions@[a],
            ) != sub_key(#[trigger] self.subscriptions@[b]) by {
                assert(wit[a] < wit[b]);
            }
            assert(forall|k: (Seq<char>, Seq<char>)| #[trigger]
                self.subs@.contains_key(k) ==> old_subs.contains_key(k));
            assert(self.retained@ == old(self).retained@);
            assert(self.kept@ == old(self).kept@);
        }
    }
}

} // verus!
