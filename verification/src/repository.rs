use crate::clock::now_millis;
use crate::fanout::{broadcast_send, broadcast_subscribe, new_sender};
use crate::request::{views_of, Request, RequestView};
use vstd::prelude::*;

verus! {

/// How many values a live subscriber's buffer can hold before it lags.
pub const BROADCAST_CHANNEL_CAPACITY: usize = 1000;

/// How many requests each endpoint's history keeps. During insertions older
/// requests are removed from the front to make space for new ones.
pub const MAX_REQUESTS_PER_ENDPOINT: usize = 1000;

/// Requests older than this (in milliseconds) are removed during a cleanup
/// sweep. The boundary rule: an entry whose age equals the bound exactly is
/// retained; only a strictly greater age is evicted.
pub const MAX_REQUEST_AGE_MILLIS: i64 = 86400000;

/// The history and fan-out state of one endpoint identifier: its key, its
/// bounded ordered history (old requests at the front, new at the back), the
/// number of attached subscribers, and the sending half of its broadcast
/// channel.
struct EndpointStore {
    key: u128,
    requests: Vec<Request>,
    subscribers: usize,
    sender: tokio::sync::broadcast::Sender<Request>,
}

/// The single shared state of the system: one store per endpoint identifier
/// that has been used, keys unique, created lazily on first insert or
/// subscribe and removed only by the cleanup sweep.
pub struct RequestRepository {
    stores: Vec<EndpointStore>,
}

/// Whether a sequence of stores holds an entry for `id`.
spec fn seq_has(s: Seq<EndpointStore>, id: u128) -> bool {
    exists|i: int| 0 <= i < s.len() && s[i].key == id
}

/// The index of the entry for `id`; meaningful only under unique keys.
spec fn seq_idx(s: Seq<EndpointStore>, id: u128) -> int {
    choose|i: int| 0 <= i < s.len() && s[i].key == id
}

/// The history held for `id`, as a sequence of request values; empty when no
/// store exists.
spec fn seq_hist(s: Seq<EndpointStore>, id: u128) -> Seq<RequestView> {
    if seq_has(s, id) {
        views_of(s[seq_idx(s, id)].requests@)
    } else {
        Seq::empty()
    }
}

/// The number of subscribers attached to the store for `id`; zero when no
/// store exists.
spec fn seq_subs(s: Seq<EndpointStore>, id: u128) -> nat {
    if seq_has(s, id) {
        s[seq_idx(s, id)].subscribers as nat
    } else {
        0
    }
}

/// Keys pairwise distinct.
spec fn uniq(s: Seq<EndpointStore>) -> bool {
    forall|i: int, j: int|
        #![trigger s[i].key, s[j].key]
        0 <= i < j < s.len() ==> s[i].key != s[j].key
}

/// Every history within the capacity bound.
spec fn capped(s: Seq<EndpointStore>) -> bool {
    forall|i: int|
        0 <= i < s.len() ==> (#[trigger] s[i]).requests@.len() <= MAX_REQUESTS_PER_ENDPOINT
}

/// Under unique keys, the entry at `i` is the one `seq_idx` picks.
proof fn lemma_idx_at(s: Seq<EndpointStore>, i: int)
    requires
        uniq(s),
        0 <= i < s.len(),
    ensures
        seq_has(s, s[i].key),
        seq_idx(s, s[i].key) == i,
{
    let id = s[i].key;
    assert(seq_has(s, id));
    let j = seq_idx(s, id);
    assert(0 <= j < s.len() && s[j].key == id);
    if j != i {
        if j < i {
            assert(s[j].key != s[i].key);
        } else {
            assert(s[i].key != s[j].key);
        }
        assert(false);
    }
}

/// Appending a store with a fresh key: the new key becomes present with the
/// pushed history and subscriber count, and every other key keeps what it
/// had.
proof fn lemma_seq_push(s: Seq<EndpointStore>, st: EndpointStore)
    requires
        uniq(s),
        !seq_has(s, st.key),
    ensures
        uniq(s.push(st)),
        forall|id: u128| #[trigger]
            seq_has(s.push(st), id) <==> (seq_has(s, id) || id == st.key),
        seq_hist(s.push(st), st.key) == views_of(st.requests@),
        seq_subs(s.push(st), st.key) == st.subscribers as nat,
        forall|id: u128|
            id != st.key ==> #[trigger] seq_hist(s.push(st), id) == seq_hist(s, id),
        forall|id: u128|
            id != st.key ==> #[trigger] seq_subs(s.push(st), id) == seq_subs(s, id),
{
    let t = s.push(st);
    assert forall|i: int, j: int| 0 <= i < j < t.len() implies t[i].key != t[j].key by {
        if j < s.len() {
            assert(s[i].key != s[j].key);
        } else {
            assert(t[j] == st);
            if t[i].key == st.key {
                assert(seq_has(s, st.key));
            }
        }
    }
    assert forall|id: u128| seq_has(t, id) <==> (seq_has(s, id) || id == st.key) by {
        if seq_has(t, id) {
            let i = seq_idx(t, id);
            assert(0 <= i < t.len() && t[i].key == id);
            if i < s.len() {
                assert(s[i].key == id);
                assert(seq_has(s, id));
            } else {
                assert(id == st.key);
            }
        }
        if seq_has(s, id) {
            let i = seq_idx(s, id);
            assert(0 <= i < s.len() && s[i].key == id);
            assert(t[i].key == id);
            assert(seq_has(t, id));
        }
        if id == st.key {
            assert(t[s.len() as int].key == id);
            assert(seq_has(t, id));
        }
    }
    lemma_idx_at(t, s.len() as int);
    assert forall|id: u128| id != st.key implies #[trigger] seq_hist(t, id) == seq_hist(s, id)
        && #[trigger] seq_subs(t, id) == seq_subs(s, id) by {
        if seq_has(s, id) {
            let i = seq_idx(s, id);
            assert(0 <= i < s.len() && s[i].key == id);
            lemma_idx_at(t, i);
            assert(seq_idx(t, id) == i);
        } else {
            assert(!seq_has(t, id));
        }
    }
}

/// Replacing the entry at `i` while keeping its key: presence is unchanged
/// everywhere, the key at `i` now carries the replacement's history and
/// subscriber count, and every other key keeps what it had.
proof fn lemma_seq_update(s: Seq<EndpointStore>, i: int, st: EndpointStore)
    requires
        uniq(s),
        0 <= i < s.len(),
        st.key == s[i].key,
    ensures
        uniq(s.update(i, st)),
        forall|id: u128| #[trigger] seq_has(s.update(i, st), id) == seq_has(s, id),
        seq_hist(s.update(i, st), st.key) == views_of(st.requests@),
        seq_subs(s.update(i, st), st.key) == st.subscribers as nat,
        forall|id: u128|
            id != st.key ==> #[trigger] seq_hist(s.update(i, st), id) == seq_hist(s, id),
        forall|id: u128|
            id != st.key ==> #[trigger] seq_subs(s.update(i, st), id) == seq_subs(s, id),
{
    let t = s.update(i, st);
    assert forall|p: int, q: int| 0 <= p < q < t.len() implies t[p].key != t[q].key by {
        assert(s[p].key != s[q].key);
        assert(t[p].key == s[p].key && t[q].key == s[q].key);
    }
    assert forall|id: u128| seq_has(t, id) == seq_has(s, id) by {
        if seq_has(t, id) {
            let p = seq_idx(t, id);
            assert(0 <= p < t.len() && t[p].key == id);
            assert(s[p].key == id);
            assert(seq_has(s, id));
        }
        if seq_has(s, id) {
            let p = seq_idx(s, id);
            assert(0 <= p < s.len() && s[p].key == id);
            assert(t[p].key == id);
            assert(seq_has(t, id));
        }
    }
    lemma_idx_at(t, i);
    assert(seq_hist(t, st.key) == views_of(st.requests@));
    assert forall|id: u128| id != st.key implies #[trigger] seq_hist(t, id) == seq_hist(s, id)
        && #[trigger] seq_subs(t, id) == seq_subs(s, id) by {
        if seq_has(s, id) {
            let p = seq_idx(s, id);
            assert(0 <= p < s.len() && s[p].key == id);
            assert(p != i);
            assert(t[p] == s[p]);
            lemma_idx_at(t, p);
            lemma_idx_at(s, p);
        }
    }
}

/// The history that remains once room for one more entry has been made:
/// unchanged when below capacity, otherwise everything before the newest
/// capacity-minus-one entries is dropped from the front.
pub open spec fn pruned_for_insert<T>(s: Seq<T>) -> Seq<T> {
    if s.len() < MAX_REQUESTS_PER_ENDPOINT as nat {
        s
    } else {
        s.skip(s.len() - (MAX_REQUESTS_PER_ENDPOINT - 1) as int)
    }
}

/// The bounded append: what one insertion leaves in a history.
pub open spec fn push_capped(h: Seq<RequestView>, r: RequestView) -> Seq<RequestView> {
    pruned_for_insert(h).push(r)
}

/// Removes entries from the front until one more can be appended without
/// exceeding the capacity.
fn evict_for_insert(requests: &mut Vec<Request>)
    ensures
        final(requests)@ == pruned_for_insert(old(requests)@),
        final(requests)@.len() < MAX_REQUESTS_PER_ENDPOINT,
{
    proof {
        assert(requests@ =~= old(requests)@.skip(0));
    }
    while requests.len() >= MAX_REQUESTS_PER_ENDPOINT
        invariant
            requests@.len() <= old(requests)@.len(),
            requests@ =~= old(requests)@.skip(
                old(requests)@.len() - requests@.len(),
            ),
            old(requests)@.len() >= MAX_REQUESTS_PER_ENDPOINT
                ==> requests@.len() >= MAX_REQUESTS_PER_ENDPOINT - 1,
            old(requests)@.len() < MAX_REQUESTS_PER_ENDPOINT
                ==> requests@.len() == old(requests)@.len(),
        decreases requests@.len(),
    {
        requests.remove(0);
        proof {
            assert(requests@ =~= old(requests)@.skip(
                old(requests)@.len() - requests@.len(),
            ));
        }
    }
    proof {
        if old(requests)@.len() < MAX_REQUESTS_PER_ENDPOINT as nat {
            assert(requests@ =~= old(requests)@);
        }
        assert(requests@ =~= pruned_for_insert(old(requests)@));
    }
}

/// The history an endpoint holds after the insertions in `inserts`, in
/// order, starting from history `h`.
pub open spec fn history_after_inserts(
    h: Seq<RequestView>,
    inserts: Seq<RequestView>,
) -> Seq<RequestView>
    decreases inserts.len(),
{
    if inserts.len() == 0 {
        h
    } else {
        history_after_inserts(push_capped(h, inserts.first()), inserts.drop_first())
    }
}

/// Law of the bounded history: starting from any history within capacity, a
/// run of insertions leaves exactly the most recent
/// MAX_REQUESTS_PER_ENDPOINT entries of the combined sequence, in insertion
/// order — the whole combined sequence when it fits.
pub proof fn lemma_history_after_inserts(h: Seq<RequestView>, inserts: Seq<RequestView>)
    requires
        h.len() <= MAX_REQUESTS_PER_ENDPOINT,
    ensures
        history_after_inserts(h, inserts) == if h.len() + inserts.len()
            <= MAX_REQUESTS_PER_ENDPOINT {
            h + inserts
        } else {
            (h + inserts).skip(
                h.len() + inserts.len() - MAX_REQUESTS_PER_ENDPOINT,
            )
        },
    decreases inserts.len(),
{
    if inserts.len() == 0 {
        assert(h + inserts =~= h);
    } else {
        let first = inserts.first();
        let rest = inserts.drop_first();
        let h1 = push_capped(h, first);
        if h.len() < MAX_REQUESTS_PER_ENDPOINT as nat {
            assert(h1 =~= h.push(first));
            assert(h1 + rest =~= h + inserts);
            lemma_history_after_inserts(h1, rest);
        } else {
            assert(h.len() == MAX_REQUESTS_PER_ENDPOINT as nat);
            assert(h1 =~= h.skip(1).push(first));
            assert(h1 + rest =~= (h + inserts).skip(1));
            lemma_history_after_inserts(h1, rest);
            if h1.len() + rest.len() > MAX_REQUESTS_PER_ENDPOINT {
                assert((h1 + rest).skip(
                    h1.len() + rest.len() - MAX_REQUESTS_PER_ENDPOINT,
                ) =~= (h + inserts).skip(
                    h.len() + inserts.len() - MAX_REQUESTS_PER_ENDPOINT,
                ));
            }
        }
    }
}

/// Law of capacity eviction: inserting more requests than the capacity into
/// a fresh endpoint leaves exactly the most recent
/// MAX_REQUESTS_PER_ENDPOINT of them, in insertion order.
pub proof fn lemma_capacity_retains_newest(inserts: Seq<RequestView>)
    requires
        inserts.len() > MAX_REQUESTS_PER_ENDPOINT,
    ensures
        history_after_inserts(Seq::empty(), inserts) == inserts.skip(
            inserts.len() - MAX_REQUESTS_PER_ENDPOINT,
        ),
{
    lemma_history_after_inserts(Seq::empty(), inserts);
    assert(Seq::empty() + inserts =~= inserts);
}

/// Law of the snapshot boundary: a request inserted between two snapshots
/// of the same endpoint sits in the later snapshot at one pinned position —
/// neither duplicated nor omitted — unless later insertions have already
/// pushed it out by capacity.
pub proof fn lemma_between_snapshots(h: Seq<RequestView>, inserts: Seq<RequestView>, j: int)
    requires
        h.len() <= MAX_REQUESTS_PER_ENDPOINT,
        0 <= j < inserts.len(),
        h.len() + inserts.len() - MAX_REQUESTS_PER_ENDPOINT <= h.len() + j,
    ensures
        history_after_inserts(h, inserts).contains(inserts[j]),
{
    lemma_history_after_inserts(h, inserts);
    let all = h + inserts;
    let n = h.len() as int;
    let m = inserts.len() as int;
    let c = MAX_REQUESTS_PER_ENDPOINT as int;
    if n + m <= c {
        assert(history_after_inserts(h, inserts)[n + j] == inserts[j]);
    } else {
        let off = n + m - c;
        assert(all.skip(off)[n + j - off] == all[n + j]);
        assert(all[n + j] == inserts[j]);
        assert(history_after_inserts(h, inserts)[n + j - off] == inserts[j]);
    }
}

/// Whether an entry is young enough to survive a sweep at time `now`: its
/// age is at most MAX_REQUEST_AGE_MILLIS. The boundary rule: an entry whose
/// age equals the bound exactly survives.
pub open spec fn fresh_at(r: RequestView, now: i64) -> bool {
    now - r.received_time <= MAX_REQUEST_AGE_MILLIS
}

/// What a sweep at `now` leaves of a history: its fresh entries, in order.
pub open spec fn retained(s: Seq<RequestView>, now: i64) -> Seq<RequestView>
    decreases s.len(),
{
    if s.len() == 0 {
        Seq::empty()
    } else if fresh_at(s.last(), now) {
        retained(s.drop_last(), now).push(s.last())
    } else {
        retained(s.drop_last(), now)
    }
}

/// A sweep never grows a history.
pub proof fn lemma_retained_len(s: Seq<RequestView>, now: i64)
    ensures
        retained(s, now).len() <= s.len(),
    decreases s.len(),
{
    if s.len() > 0 {
        lemma_retained_len(s.drop_last(), now);
    }
}

/// Law of the sweep's age rule: every entry the sweep keeps is fresh at the
/// sweep time, and every fresh entry of the history is kept — so exactly
/// the entries strictly older than the TTL are removed, and an entry at an
/// age exactly equal to the TTL counts as fresh.
pub proof fn lemma_retained_age_rule(s: Seq<RequestView>, now: i64)
    ensures
        forall|i: int|
            0 <= i < retained(s, now).len() ==> fresh_at(
                #[trigger] retained(s, now)[i],
                now,
            ),
        forall|j: int|
            0 <= j < s.len() && fresh_at(#[trigger] s[j], now) ==> retained(s, now).contains(
                s[j],
            ),
    decreases s.len(),
{
    if s.len() > 0 {
        lemma_retained_age_rule(s.drop_last(), now);
        let r0 = retained(s.drop_last(), now);
        let r = retained(s, now);
        assert forall|i: int| 0 <= i < r.len() implies fresh_at(r[i], now) by {
            if fresh_at(s.last(), now) {
                if i < r0.len() {
                    assert(r[i] == r0[i]);
                } else {
                    assert(r[i] == s.last());
                }
            } else {
                assert(r[i] == r0[i]);
            }
        }
        assert forall|j: int|
            0 <= j < s.len() && fresh_at(s[j], now) implies r.contains(s[j]) by {
            if j == s.len() - 1 {
                assert(s[j] == s.last());
                assert(r[r0.len() as int] == s.last());
            } else {
                assert(s.drop_last()[j] == s[j]);
                assert(r0.contains(s[j]));
                let k = choose|k: int| 0 <= k < r0.len() && r0[k] == s[j];
                assert(r[k] == s[j]);
            }
        }
    }
}

/// What one sweep at time `now` does to the repository: a store survives
/// exactly when its swept history is nonempty or a subscriber is attached;
/// a surviving store keeps exactly its fresh entries, in order, and its
/// subscriber count.
pub open spec fn swept(pre: RequestRepository, post: RequestRepository, now: i64) -> bool {
    &&& forall|id: u128| #[trigger]
        post.has(id) <==> (pre.has(id) && (retained(pre.history(id), now).len() > 0
            || pre.subscriber_count(id) > 0))
    &&& forall|id: u128|
        post.has(id) ==> #[trigger] post.history(id) == retained(pre.history(id), now)
    &&& forall|id: u128|
        post.has(id) ==> #[trigger] post.subscriber_count(id) == pre.subscriber_count(id)
}

/// Keeps exactly the entries that are fresh at `now`, in order.
fn sweep_requests(v: &mut Vec<Request>, now: i64)
    ensures
        views_of(final(v)@) == retained(views_of(old(v)@), now),
        final(v)@.len() <= old(v)@.len(),
{
    let mut out: Vec<Request> = Vec::new();
    let mut i: usize = 0;
    proof {
        assert(views_of(v@.take(0)) =~= Seq::<RequestView>::empty());
    }
    while i < v.len()
        invariant
            v@ == old(v)@,
            i <= v@.len(),
            out@.len() <= i,
            views_of(out@) == retained(views_of(v@.take(i as int)), now),
        decreases v@.len() - i,
    {
        let ghost prev = views_of(out@);
        let keep = (now as i128) - (v[i].received_time as i128) <= (
        MAX_REQUEST_AGE_MILLIS as i128);
        if keep {
            out.push(v[i].clone());
        }
        proof {
            let t1 = views_of(v@.take(i as int + 1));
            assert(t1.drop_last() =~= views_of(v@.take(i as int)));
            assert(t1.last() == v@[i as int]@);
            assert(keep == fresh_at(v@[i as int]@, now));
            if keep {
                assert(views_of(out@) =~= prev.push(v@[i as int]@));
            }
            assert(views_of(out@) == retained(t1, now));
        }
        i += 1;
    }
    proof {
        assert(v@.take(v@.len() as int) =~= v@);
    }
    *v = out;
}

/// The characterization the sweep loop maintains: `kept` holds, for the
/// processed prefix of the stores as they stood before the sweep, exactly
/// the surviving stores with their swept histories and unchanged subscriber
/// counts.
spec fn sweep_inv(prefix: Seq<EndpointStore>, kept: Seq<EndpointStore>, now: i64) -> bool {
    &&& forall|id: u128| #[trigger]
        seq_has(kept, id) <==> (seq_has(prefix, id) && (retained(seq_hist(prefix, id), now).len()
            > 0 || seq_subs(prefix, id) > 0))
    &&& forall|id: u128|
        seq_has(kept, id) ==> #[trigger] seq_hist(kept, id) == retained(
            seq_hist(prefix, id),
            now,
        )
    &&& forall|id: u128|
        seq_has(kept, id) ==> #[trigger] seq_subs(kept, id) == seq_subs(prefix, id)
}

/// One more subscriber, saturating at the machine bound.
pub open spec fn bumped(n: nat) -> nat {
    if n == usize::MAX as nat {
        n
    } else {
        n + 1
    }
}

/// Copies a request list entry by entry; the result carries the same
/// sequence of request values.
fn clone_requests(v: &Vec<Request>) -> (r: Vec<Request>)
    ensures
        views_of(r@) == views_of(v@),
{
    let mut out: Vec<Request> = Vec::new();
    let mut i: usize = 0;
    while i < v.len()
        invariant
            i <= v@.len(),
            out@.len() == i,
            forall|j: int| 0 <= j < i ==> (#[trigger] out@[j])@ == v@[j]@,
        decreases v@.len() - i,
    {
        out.push(v[i].clone());
        i += 1;
    }
    proof {
        assert(views_of(out@) =~= views_of(v@));
    }
    out
}

impl RequestRepository {
    /// Well-formedness: endpoint keys are unique and no history exceeds the
    /// capacity bound.
    pub closed spec fn wf(self) -> bool {
        uniq(self.stores@) && capped(self.stores@)
    }

    /// Whether a store for `id` currently exists.
    pub closed spec fn has(self, id: u128) -> bool {
        seq_has(self.stores@, id)
    }

    /// The ordered history held for `id`, oldest first; empty when no store
    /// exists.
    pub closed spec fn history(self, id: u128) -> Seq<RequestView> {
        seq_hist(self.stores@, id)
    }

    /// The number of subscribers attached to the store for `id`; zero when
    /// no store exists.
    pub closed spec fn subscriber_count(self, id: u128) -> nat {
        seq_subs(self.stores@, id)
    }

    /// A fresh repository: no stores, no histories, no subscribers.
    pub fn new() -> (r: RequestRepository)
        ensures
            r.wf(),
            forall|id: u128| !r.has(id),
            forall|id: u128| #[trigger] r.history(id) == Seq::<RequestView>::empty(),
            forall|id: u128| #[trigger] r.subscriber_count(id) == 0,
    {
        let r = RequestRepository { stores: Vec::new() };
        proof {
            assert(forall|id: u128| !seq_has(r.stores@, id));
        }
        r
    }

    /// Linear scan for the store of `id`.
    fn find_store(&self, id: u128) -> (r: Option<usize>)
        requires
            self.wf(),
        ensures
            match r {
                Some(i) => self.has(id) && seq_idx(self.stores@, id) == i as int
                    && i < self.stores@.len(),
                None => !self.has(id),
            },
    {
        let n = self.stores.len();
        let mut i: usize = 0;
        while i < n
            invariant
                self.wf(),
                n == self.stores@.len(),
                i <= n,
                forall|j: int| 0 <= j < i ==> (#[trigger] self.stores@[j]).key != id,
            decreases n - i,
        {
            if self.stores[i].key == id {
                proof {
                    lemma_idx_at(self.stores@, i as int);
                }
                return Some(i);
            }
            i += 1;
        }
        proof {
            if seq_has(self.stores@, id) {
                let j = seq_idx(self.stores@, id);
                assert(0 <= j < self.stores@.len() && self.stores@[j].key == id);
                assert(false);
            }
        }
        None
    }

    /// Gets or creates the store for `id`, returning its index. Creation
    /// starts from an empty history, no subscribers, and a fresh broadcast
    /// channel.
    fn ensure_store(&mut self, id: u128) -> (i: usize)
        requires
            old(self).wf(),
        ensures
            final(self).wf(),
            (i as int) < final(self).stores@.len(),
            final(self).stores@[i as int].key == id,
            seq_idx(final(self).stores@, id) == i as int,
            final(self).has(id),
            final(self).history(id) == old(self).history(id),
            final(self).subscriber_count(id) == old(self).subscriber_count(id),
            forall|other: u128| #[trigger]
                final(self).has(other) == (old(self).has(other) || other == id),
            forall|other: u128|
                other != id ==> #[trigger] final(self).history(other) == old(self).history(
                    other,
                ),
            forall|other: u128|
                other != id ==> #[trigger] final(self).subscriber_count(other) == old(
                    self,
                ).subscriber_count(other),
    {
        match self.find_store(id) {
            Some(i) => i,
            None => {
                let ghost pre = self.stores@;
                let store = EndpointStore {
                    key: id,
                    requests: Vec::new(),
                    subscribers: 0,
                    sender: new_sender(BROADCAST_CHANNEL_CAPACITY),
                };
                proof {
                    lemma_seq_push(pre, store);
                }
                self.stores.push(store);
                let i = self.stores.len() - 1;
                proof {
                    lemma_idx_at(self.stores@, i as int);
                    assert(views_of(Seq::<Request>::empty()) =~= Seq::<RequestView>::empty());
                    assert(self.history(id) =~= Seq::<RequestView>::empty());
                }
                i
            },
        }
    }

    /// Inserts a request into the history of `uuid` — creating the store on
    /// first use — evicting from the front while the history is at capacity,
    /// and publishing the request to the store's broadcast channel. This
    /// operation cannot fail from the caller's perspective: publication is
    /// best effort per subscriber.
    pub fn insert(&mut self, uuid: u128, request: Request)
        requires
            old(self).wf(),
        ensures
            final(self).wf(),
            final(self).has(uuid),
            final(self).history(uuid) == push_capped(old(self).history(uuid), request@),
            final(self).subscriber_count(uuid) == old(self).subscriber_count(uuid),
            forall|other: u128| #[trigger]
                final(self).has(other) == (old(self).has(other) || other == uuid),
            forall|other: u128|
                other != uuid ==> #[trigger] final(self).history(other) == old(self).history(
                    other,
                ),
            forall|other: u128|
                other != uuid ==> #[trigger] final(self).subscriber_count(other) == old(
                    self,
                ).subscriber_count(other),
    {
        let i = self.ensure_store(uuid);
        let ghost midrepo = *self;
        let ghost mid = self.stores@;
        let copy = request.clone();
        let entry = &mut self.stores[i];
        evict_for_insert(&mut entry.requests);
        entry.requests.push(request);
        broadcast_send(&entry.sender, copy);
        proof {
            let st = self.stores@[i as int];
            assert(self.stores@ == mid.update(i as int, st));
            lemma_seq_update(mid, i as int, st);
            lemma_idx_at(mid, i as int);
            assert(st.requests@ == pruned_for_insert(mid[i as int].requests@).push(request));
            assert(views_of(st.requests@) =~= push_capped(
                views_of(mid[i as int].requests@),
                request@,
            ));
            assert(midrepo.history(uuid) == views_of(mid[i as int].requests@));
            assert(self.history(uuid) == push_capped(old(self).history(uuid), request@));
            assert forall|other: u128| #[trigger]
                self.has(other) == (old(self).has(other) || other == uuid) by {
                assert(seq_has(mid.update(i as int, st), other) == seq_has(mid, other));
                assert(midrepo.has(other) == (old(self).has(other) || other == uuid));
            }
            assert forall|other: u128|
                other != uuid implies #[trigger] self.history(other) == old(self).history(
                other,
            ) by {
                assert(seq_hist(mid.update(i as int, st), other) == seq_hist(mid, other));
                assert(midrepo.history(other) == old(self).history(other));
            }
            assert forall|other: u128|
                other != uuid implies #[trigger] self.subscriber_count(other) == old(
                self,
            ).subscriber_count(other) by {
                assert(seq_subs(mid.update(i as int, st), other) == seq_subs(mid, other));
                assert(midrepo.subscriber_count(other) == old(self).subscriber_count(other));
            }
            assert(self.subscriber_count(uuid) == st.subscribers as nat);
            assert(midrepo.subscriber_count(uuid) == mid[i as int].subscribers as nat);
        }
    }

    /// Takes, in one atomic step against this repository, a snapshot of the
    /// current history of `uuid` (oldest first) and a fresh live receiver on
    /// its broadcast channel — creating the store on first use, and counting
    /// the new subscriber. A request inserted after this call can reach the
    /// receiver and is never in the snapshot; the snapshot is exactly the
    /// history at call time.
    pub fn get_requests_and_receiver(&mut self, uuid: u128) -> (r: (
        Vec<Request>,
        tokio::sync::broadcast::Receiver<Request>,
    ))
        requires
            old(self).wf(),
        ensures
            final(self).wf(),
            final(self).has(uuid),
            views_of(r.0@) == old(self).history(uuid),
            final(self).history(uuid) == old(self).history(uuid),
            final(self).subscriber_count(uuid) == bumped(old(self).subscriber_count(uuid)),
            forall|other: u128| #[trigger]
                final(self).has(other) == (old(self).has(other) || other == uuid),
            forall|other: u128|
                other != uuid ==> #[trigger] final(self).history(other) == old(self).history(
                    other,
                ),
            forall|other: u128|
                other != uuid ==> #[trigger] final(self).subscriber_count(other) == old(
                    self,
                ).subscriber_count(other),
    {
        let i = self.ensure_store(uuid);
        let ghost midrepo = *self;
        let ghost mid = self.stores@;
        let backlog = clone_requests(&self.stores[i].requests);
        let receiver = broadcast_subscribe(&self.stores[i].sender);
        let entry = &mut self.stores[i];
        if entry.subscribers < usize::MAX {
            entry.subscribers += 1;
        }
        proof {
            let st = self.stores@[i as int];
            assert(self.stores@ == mid.update(i as int, st));
            lemma_seq_update(mid, i as int, st);
            lemma_idx_at(mid, i as int);
            assert(st.requests == mid[i as int].requests);
            assert(midrepo.history(uuid) == views_of(mid[i as int].requests@));
            assert(st.subscribers as nat == bumped(mid[i as int].subscribers as nat));
            assert(midrepo.subscriber_count(uuid) == mid[i as int].subscribers as nat);
            assert forall|other: u128| #[trigger]
                self.has(other) == (old(self).has(other) || other == uuid) by {
                assert(seq_has(mid.update(i as int, st), other) == seq_has(mid, other));
                assert(midrepo.has(other) == (old(self).has(other) || other == uuid));
            }
            assert forall|other: u128|
                other != uuid implies #[trigger] self.history(other) == old(self).history(
                other,
            ) by {
                assert(seq_hist(mid.update(i as int, st), other) == seq_hist(mid, other));
                assert(midrepo.history(other) == old(self).history(other));
            }
            assert forall|other: u128|
                other != uuid implies #[trigger] self.subscriber_count(other) == old(
                self,
            ).subscriber_count(other) by {
                assert(seq_subs(mid.update(i as int, st), other) == seq_subs(mid, other));
                assert(midrepo.subscriber_count(other) == old(self).subscriber_count(other));
            }
        }
        (backlog, receiver)
    }

    /// Hands back one subscriber registration for `uuid`, when a
    /// subscription session ends. Presence and histories are untouched: an
    /// empty, subscriber-less store is removed only by the cleanup sweep.
    pub fn release_subscriber(&mut self, uuid: u128)
        requires
            old(self).wf(),
        ensures
            final(self).wf(),
            forall|other: u128| #[trigger] final(self).has(other) == old(self).has(other),
            forall|other: u128| #[trigger]
                final(self).history(other) == old(self).history(other),
            forall|other: u128|
                other != uuid ==> #[trigger] final(self).subscriber_count(other) == old(
                    self,
                ).subscriber_count(other),
            final(self).subscriber_count(uuid) == if old(self).subscriber_count(uuid) > 0 {
                (old(self).subscriber_count(uuid) - 1) as nat
            } else {
                0nat
            },
    {
        match self.find_store(uuid) {
            None => {},
            Some(i) => {
                let ghost mid = self.stores@;
                let entry = &mut self.stores[i];
                if entry.subscribers > 0 {
                    entry.subscribers -= 1;
                }
                proof {
                    let st = self.stores@[i as int];
                    assert(self.stores@ == mid.update(i as int, st));
                    lemma_seq_update(mid, i as int, st);
                    lemma_idx_at(mid, i as int);
                    assert(st.requests == mid[i as int].requests);
                    assert forall|other: u128| #[trigger]
                        self.has(other) == old(self).has(other) by {
                        assert(seq_has(mid.update(i as int, st), other) == seq_has(mid, other));
                    }
                    assert forall|other: u128| #[trigger]
                        self.history(other) == old(self).history(other) by {
                        if other == uuid {
                            assert(seq_hist(mid.update(i as int, st), uuid) == views_of(
                                st.requests@,
                            ));
                            assert(seq_hist(mid, uuid) == views_of(
                                mid[i as int].requests@,
                            ));
                        } else {
                            assert(seq_hist(mid.update(i as int, st), other) == seq_hist(
                                mid,
                                other,
                            ));
                        }
                    }
                    assert forall|other: u128|
                        other != uuid implies #[trigger] self.subscriber_count(other) == old(
                        self,
                    ).subscriber_count(other) by {
                        assert(seq_subs(mid.update(i as int, st), other) == seq_subs(
                            mid,
                            other,
                        ));
                    }
                    assert(self.subscriber_count(uuid) == st.subscribers as nat);
                    assert(old(self).subscriber_count(uuid) == mid[i as int].subscribers as nat);
                }
            },
        }
    }

    /// Sweeps every store against sweep time `now`: drops every entry whose
    /// age exceeds the TTL (an age exactly at the bound is retained), then
    /// drops each store left with an empty history and no attached
    /// subscriber.
    pub fn cleanup_at(&mut self, now: i64)
        requires
            old(self).wf(),
        ensures
            final(self).wf(),
            swept(*old(self), *final(self), now),
    {
        let mut pending: Vec<EndpointStore> = Vec::new();
        core::mem::swap(&mut pending, &mut self.stores);
        let ghost orig = pending@;
        let mut kept: Vec<EndpointStore> = Vec::new();
        proof {
            assert(orig == old(self).stores@);
            assert(pending@ =~= orig.skip(0));
            assert(orig.take(0) =~= Seq::<EndpointStore>::empty());
        }
        while pending.len() > 0
            invariant
                uniq(orig),
                capped(orig),
                pending@.len() <= orig.len(),
                pending@ == orig.skip(orig.len() - pending@.len()),
                uniq(kept@),
                capped(kept@),
                sweep_inv(orig.take(orig.len() - pending@.len()), kept@, now),
            decreases pending@.len(),
        {
            let ghost p = orig.len() - pending@.len();
            let ghost prefix = orig.take(p);
            let mut store = pending.remove(0);
            proof {
                assert(store == orig[p]);
                assert(pending@ =~= orig.skip(orig.len() - pending@.len()));
            }
            let ghost oldreqs = store.requests@;
            sweep_requests(&mut store.requests, now);
            let ghost kept_before = kept@;
            proof {
                assert(orig.take(p + 1) =~= prefix.push(orig[p]));
                assert forall|a: int, b: int|
                    0 <= a < b < prefix.len() implies prefix[a].key != prefix[b].key by {
                    assert(orig[a].key != orig[b].key);
                }
                assert(!seq_has(prefix, orig[p].key)) by {
                    if seq_has(prefix, orig[p].key) {
                        let q = seq_idx(prefix, orig[p].key);
                        assert(0 <= q < prefix.len() && prefix[q].key == orig[p].key);
                        assert(orig[q].key == orig[p].key);
                        assert(false);
                    }
                }
                lemma_seq_push(prefix, orig[p]);
            }
            let keep_it = store.requests.len() > 0 || store.subscribers > 0;
            if keep_it {
                proof {
                    assert(!seq_has(kept@, store.key)) by {
                        if seq_has(kept@, store.key) {
                            assert(seq_has(prefix, store.key));
                        }
                    }
                    lemma_seq_push(kept@, store);
                }
                kept.push(store);
            }
            proof {
                let prefix1 = orig.take(p + 1);
                let key = orig[p].key;
                assert(seq_hist(prefix1, key) == views_of(oldreqs));
                assert(seq_subs(prefix1, key) == orig[p].subscribers as nat);
                assert(views_of(store.requests@) == retained(views_of(oldreqs), now));
                assert(store.requests@.len() == views_of(store.requests@).len());
                assert(keep_it == (retained(seq_hist(prefix1, key), now).len() > 0
                    || seq_subs(prefix1, key) > 0));
                if keep_it {
                    assert(kept@ == kept_before.push(store));
                    assert(seq_hist(kept@, key) == views_of(store.requests@));
                    assert(seq_subs(kept@, key) == store.subscribers as nat);
                }
                assert forall|id: u128| #[trigger]
                    seq_has(kept@, id) <==> (seq_has(prefix1, id) && (retained(
                    seq_hist(prefix1, id),
                    now,
                ).len() > 0 || seq_subs(prefix1, id) > 0)) by {
                    if id != key {
                        assert(seq_has(prefix1, id) == seq_has(prefix, id));
                        assert(seq_hist(prefix1, id) == seq_hist(prefix, id));
                        assert(seq_subs(prefix1, id) == seq_subs(prefix, id));
                        if keep_it {
                            assert(seq_has(kept@, id) == (seq_has(kept_before, id) || id
                                == key));
                            assert(seq_hist(kept@, id) == seq_hist(kept_before, id));
                        }
                        assert(seq_has(kept_before, id) <==> (seq_has(prefix, id) && (
                        retained(seq_hist(prefix, id), now).len() > 0 || seq_subs(prefix, id)
                            > 0)));
                    }
                }
                assert forall|id: u128|
                    seq_has(kept@, id) implies #[trigger] seq_hist(kept@, id) == retained(
                    seq_hist(prefix1, id),
                    now,
                ) && #[trigger] seq_subs(kept@, id) == seq_subs(prefix1, id) by {
                    if id != key {
                        assert(seq_has(prefix1, id) == seq_has(prefix, id));
                        assert(seq_hist(prefix1, id) == seq_hist(prefix, id));
                        assert(seq_subs(prefix1, id) == seq_subs(prefix, id));
                        if keep_it {
                            assert(seq_hist(kept@, id) == seq_hist(kept_before, id));
                            assert(seq_subs(kept@, id) == seq_subs(kept_before, id));
                            assert(seq_has(kept@, id) == (seq_has(kept_before, id) || id
                                == key));
                        }
                        assert(seq_has(kept_before, id) ==> seq_hist(kept_before, id)
                            == retained(seq_hist(prefix, id), now));
                        assert(seq_has(kept_before, id) ==> seq_subs(kept_before, id)
                            == seq_subs(prefix, id));
                    }
                }
                assert forall|a: int|
                    0 <= a < kept@.len() implies (#[trigger] kept@[a]).requests@.len()
                    <= MAX_REQUESTS_PER_ENDPOINT by {
                    if keep_it && a == kept@.len() - 1 {
                        assert(kept@[a] == store);
                        lemma_retained_len(views_of(oldreqs), now);
                        assert(oldreqs.len() <= MAX_REQUESTS_PER_ENDPOINT);
                    } else {
                        assert(kept_before[a].requests@.len() <= MAX_REQUESTS_PER_ENDPOINT);
                    }
                }
                assert(sweep_inv(orig.take(orig.len() - pending@.len()), kept@, now));
            }
        }
        self.stores = kept;
        proof {
            assert(orig.take(orig.len() as int) =~= orig);
            assert(sweep_inv(orig, self.stores@, now));
            let pre = *old(self);
            assert forall|id: u128| #[trigger]
                self.has(id) <==> (pre.has(id) && (retained(pre.history(id), now).len() > 0
                || pre.subscriber_count(id) > 0)) by {
                assert(seq_has(self.stores@, id) <==> (seq_has(orig, id) && (retained(
                    seq_hist(orig, id),
                    now,
                ).len() > 0 || seq_subs(orig, id) > 0)));
            }
            assert forall|id: u128|
                self.has(id) implies #[trigger] self.history(id) == retained(
                pre.history(id),
                now,
            ) && #[trigger] self.subscriber_count(id) == pre.subscriber_count(id) by {
                assert(seq_hist(self.stores@, id) == retained(seq_hist(orig, id), now));
                assert(seq_subs(self.stores@, id) == seq_subs(orig, id));
            }
        }
    }

    /// Runs one sweep at the current wall-clock time, read once at the
    /// start. What that time is depends on the machine's clock, so the
    /// contract promises a sweep at some time, whatever the clock returned.
    pub fn cleanup(&mut self)
        requires
            old(self).wf(),
        ensures
            final(self).wf(),
            exists|now: i64| swept(*old(self), *final(self), now),
    {
        let now = now_millis();
        self.cleanup_at(now);
        proof {
            assert(swept(*old(self), *self, now));
        }
    }

    /// Whether a store for `id` currently exists in the repository.
    pub fn contains(&self, id: u128) -> (b: bool)
        requires
            self.wf(),
        ensures
            b == self.has(id),
    {
        self.find_store(id).is_some()
    }
}

} // verus!
