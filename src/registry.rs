//! The registry of live peers that receive broadcasts. Each entry pairs the
//! peer's address, by which a sender is left out of its own broadcast, with
//! an id under which the caller keeps the connection's write side.
use vstd::prelude::*;

verus! {

/// An IPv4 peer address: the four octets as one big-endian number, and a port.
#[derive(Clone, Copy, Debug, PartialEq, Eq, Structural)]
pub struct PeerAddr {
    pub ip: u32,
    pub port: u16,
}

/// One registered connection.
#[derive(Clone, Copy, Debug, PartialEq, Eq, Structural)]
pub struct Entry {
    pub id: u64,
    pub peer: PeerAddr,
}

/// No two entries share an id.
pub open spec fn ids_unique(entries: Seq<Entry>) -> bool {
    forall|a: int, b: int|
        0 <= a < entries.len() && 0 <= b < entries.len() && a != b ==> entries[a].id
            != entries[b].id
}

/// The ids of the entries whose peer is not `exclude`, in registry order.
pub open spec fn recipients_of(entries: Seq<Entry>, exclude: PeerAddr) -> Seq<u64>
    decreases entries.len(),
{
    if entries.len() == 0 {
        Seq::empty()
    } else {
        let rest = recipients_of(entries.drop_last(), exclude);
        if entries.last().peer != exclude {
            rest.push(entries.last().id)
        } else {
            rest
        }
    }
}

/// The entries of `before` whose ids are not in `failed`, in their order.
pub open spec fn kept(before: Seq<Entry>, failed: Seq<u64>) -> Seq<Entry> {
    before.filter(|e: Entry| !failed.contains(e.id))
}

/// The entries of `before` that stay once the ids in `failed` are evicted.
pub open spec fn survivors(before: Seq<Entry>, failed: Seq<u64>, e: Entry) -> bool {
    before.contains(e) && !failed.contains(e.id)
}

/// An update's recipients are exactly the ids of the entries whose peer is
/// not the sender: the sender never gets its own update back, and every
/// other registered peer gets it.
pub proof fn lemma_no_echo(entries: Seq<Entry>, sender: PeerAddr)
    requires
        ids_unique(entries),
    ensures
        forall|e: Entry|
            entries.contains(e) ==> (#[trigger] recipients_of(entries, sender).contains(e.id)
                <==> e.peer != sender),
        forall|id: u64| #[trigger]
            recipients_of(entries, sender).contains(id) ==> exists|e: Entry|
                entries.contains(e) && e.id == id && e.peer != sender,
    decreases entries.len(),
{
    if entries.len() > 0 {
        let init = entries.drop_last();
        let last = entries.last();
        assert(ids_unique(init));
        lemma_no_echo(init, sender);
        let got = recipients_of(entries, sender);
        let prev = recipients_of(init, sender);
        assert forall|e: Entry| entries.contains(e) implies (#[trigger] got.contains(e.id)
            <==> e.peer != sender) by {
            let k = choose|k: int| 0 <= k < entries.len() && entries[k] == e;
            if k < entries.len() - 1 {
                assert(init[k] == e);
                assert(init.contains(e));
                assert(e.id != last.id);
                if last.peer != sender {
                    assert(got == prev.push(last.id));
                    if got.contains(e.id) {
                        let j = choose|j: int| 0 <= j < got.len() && got[j] == e.id;
                        assert(j < prev.len());
                        assert(prev[j] == e.id);
                    }
                    if prev.contains(e.id) {
                        let j = choose|j: int| 0 <= j < prev.len() && prev[j] == e.id;
                        assert(got[j] == e.id);
                    }
                }
            } else {
                assert(e == last);
                if last.peer != sender {
                    assert(got[got.len() - 1] == e.id);
                } else {
                    if prev.contains(e.id) {
                        let w = choose|w: Entry| init.contains(w) && w.id == e.id && w.peer != sender;
                        let m = choose|m: int| 0 <= m < init.len() && init[m] == w;
                        assert(entries[m] == w);
                    }
                }
            }
        }
        assert forall|id: u64| #[trigger] got.contains(id) implies exists|e: Entry|
            entries.contains(e) && e.id == id && e.peer != sender by {
            if last.peer != sender && id == last.id {
                assert(entries[entries.len() - 1] == last);
                assert(entries.contains(last));
            } else {
                if last.peer != sender {
                    let j = choose|j: int| 0 <= j < got.len() && got[j] == id;
                    assert(j < prev.len());
                    assert(prev[j] == id);
                }
                assert(prev.contains(id));
                let w = choose|w: Entry| init.contains(w) && w.id == id && w.peer != sender;
                let m = choose|m: int| 0 <= m < init.len() && init[m] == w;
                assert(entries[m] == w);
                assert(entries.contains(w));
            }
        }
    }
}

/// Among unique entries, no id is a recipient twice: each peer is written
/// to once per update.
pub proof fn lemma_recipients_unique(entries: Seq<Entry>, sender: PeerAddr)
    requires
        ids_unique(entries),
    ensures
        recipients_of(entries, sender).no_duplicates(),
    decreases entries.len(),
{
    if entries.len() > 0 {
        let init = entries.drop_last();
        let last = entries.last();
        assert(ids_unique(init));
        lemma_recipients_unique(init, sender);
        let prev = recipients_of(init, sender);
        if last.peer != sender {
            lemma_no_echo(init, sender);
            assert forall|i: int| 0 <= i < prev.len() implies prev[i] != last.id by {
                assert(prev.contains(prev[i]));
                let w = choose|w: Entry| init.contains(w) && w.id == prev[i] && w.peer != sender;
                let m = choose|m: int| 0 <= m < init.len() && init[m] == w;
                assert(entries[m] == w);
            }
            assert(recipients_of(entries, sender) == prev.push(last.id));
        }
    }
}

/// Evicting the connections whose writes failed leaves every other peer in
/// reach: a later update from any sender goes to each remaining peer but the
/// sender, and to no evicted one.
pub proof fn lemma_eviction_spares_others(
    before: Seq<Entry>,
    after: Seq<Entry>,
    failed: Seq<u64>,
    sender: PeerAddr,
)
    requires
        ids_unique(after),
        forall|e: Entry| #[trigger] after.contains(e) <==> survivors(before, failed, e),
    ensures
        forall|e: Entry|
            survivors(before, failed, e) && e.peer != sender ==> #[trigger] recipients_of(
                after,
                sender,
            ).contains(e.id),
        forall|id: u64| #[trigger]
            recipients_of(after, sender).contains(id) ==> !failed.contains(id),
{
    lemma_no_echo(after, sender);
    assert forall|id: u64| #[trigger]
        recipients_of(after, sender).contains(id) implies !failed.contains(id) by {
        let e = choose|e: Entry| after.contains(e) && e.id == id && e.peer != sender;
        assert(survivors(before, failed, e));
    }
}

proof fn lemma_unique_no_duplicates(s: Seq<Entry>)
    requires
        ids_unique(s),
    ensures
        s.no_duplicates(),
{
}

proof fn lemma_kept_no_duplicates(s: Seq<Entry>, failed: Seq<u64>)
    requires
        s.no_duplicates(),
    ensures
        kept(s, failed).no_duplicates(),
    decreases s.len(),
{
    let p = |e: Entry| !failed.contains(e.id);
    if s.len() > 0 {
        let init = s.drop_last();
        assert(init.no_duplicates());
        lemma_kept_no_duplicates(init, failed);
        assert(s =~= init.push(s.last()));
        init.lemma_filter_push(s.last(), p);
        if p(s.last()) {
            assert forall|i: int| 0 <= i < kept(init, failed).len() implies kept(init, failed)[i]
                != s.last() by {
                init.lemma_filter_contains_rev(p, kept(init, failed)[i]);
                if kept(init, failed)[i] == s.last() {
                    let j = choose|j: int| 0 <= j < init.len() && init[j] == s.last();
                    assert(s[j] == s[s.len() - 1]);
                }
            }
        }
    }
}

/// Two duplicate-free sequences with the same members have the same length.
proof fn lemma_same_members_same_len(
    after: Seq<Entry>,
    expect: Seq<Entry>,
    before: Seq<Entry>,
    failed: Seq<u64>,
)
    requires
        ids_unique(after),
        ids_unique(before),
        expect == kept(before, failed),
        forall|e: Entry| #[trigger] after.contains(e) <==> survivors(before, failed, e),
    ensures
        after.len() == expect.len(),
{
    let p = |e: Entry| !failed.contains(e.id);
    lemma_unique_no_duplicates(after);
    lemma_unique_no_duplicates(before);
    lemma_kept_no_duplicates(before, failed);
    assert forall|e: Entry| after.contains(e) <==> expect.contains(e) by {
        if expect.contains(e) {
            before.lemma_filter_contains_rev(p, e);
        }
        if survivors(before, failed, e) {
            let i = choose|i: int| 0 <= i < before.len() && before[i] == e;
            before.lemma_filter_contains(p, i);
        }
    }
    assert(after.to_set() =~= expect.to_set());
    after.unique_seq_to_set();
    expect.unique_seq_to_set();
}

pub struct ConnectionRegistry {
    entries: Vec<Entry>,
    next_id: u64,
}

impl View for ConnectionRegistry {
    type V = Seq<Entry>;

    /// The entries, in the order a broadcast visits them.
    closed spec fn view(&self) -> Seq<Entry> {
        self.entries@
    }
}

impl ConnectionRegistry {
    /// The id that the next entry gets.
    pub closed spec fn next_id(&self) -> u64 {
        self.next_id
    }

    /// Ids are unique, and every one was handed out before `next_id`.
    pub closed spec fn wf(&self) -> bool {
        &&& ids_unique(self.entries@)
        &&& forall|k: int| 0 <= k < self.entries@.len() ==> self.entries@[k].id < self.next_id
    }

    /// A well-formed registry holds no id twice.
    pub proof fn lemma_wf_ids_unique(&self)
        requires
            self.wf(),
        ensures
            ids_unique(self@),
    {
    }

    pub fn new() -> (r: ConnectionRegistry)
        ensures
            r.wf(),
            ids_unique(r@),
            r@ == Seq::<Entry>::empty(),
            r.next_id() == 0,
    {
        ConnectionRegistry { entries: Vec::new(), next_id: 0 }
    }

    pub fn len(&self) -> (r: usize)
        ensures
            r == self@.len(),
    {
        self.entries.len()
    }

    /// Registers a connection to `peer` at the end and returns its new id;
    /// `None`, with nothing changed, once every id has been handed out.
    pub fn add(&mut self, peer: PeerAddr) -> (r: Option<u64>)
        requires
            old(self).wf(),
        ensures
            final(self).wf(),
            ids_unique(final(self)@),
            old(self).next_id() == u64::MAX ==> r is None && *final(self) == *old(self),
            old(self).next_id() < u64::MAX ==> r == Some(old(self).next_id()) && final(self)@
                == old(self)@.push(Entry { id: old(self).next_id(), peer })
                && final(self).next_id() == old(self).next_id() + 1,
    {
        if self.next_id == u64::MAX {
            return None;
        }
        let id = self.next_id;
        self.entries.push(Entry { id, peer });
        self.next_id = id + 1;
        Some(id)
    }

    /// The ids to which an update from `exclude` goes: every entry whose peer
    /// differs from it, in registry order.
    pub fn recipients(&self, exclude: PeerAddr) -> (r: Vec<u64>)
        ensures
            r@ == recipients_of(self@, exclude),
            ids_unique(self@) ==> r@.no_duplicates(),
    {
        proof {
            if ids_unique(self@) {
                lemma_recipients_unique(self@, exclude);
            }
        }
        let mut r: Vec<u64> = Vec::new();
        let mut i: usize = 0;
        while i < self.entries.len()
            invariant
                i <= self.entries@.len(),
                r@ == recipients_of(self.entries@.take(i as int), exclude),
            decreases self.entries@.len() - i,
        {
            let e = self.entries[i];
            assert(self.entries@.take(i + 1).drop_last() =~= self.entries@.take(i as int));
            if e.peer != exclude {
                r.push(e.id);
            }
            i += 1;
        }
        assert(self.entries@.take(i as int) =~= self.entries@);
        r
    }

    /// Evicts the entries whose ids are in `failed`: each is overwritten by
    /// the last entry, and the last slot dropped. The order of the entries
    /// that stay is not kept.
    pub fn evict(&mut self, failed: &[u64])
        requires
            old(self).wf(),
        ensures
            final(self).wf(),
            ids_unique(final(self)@),
            final(self).next_id() == old(self).next_id(),
            forall|e: Entry| #[trigger]
                final(self)@.contains(e) <==> survivors(old(self)@, failed@, e),
            final(self)@.len() == kept(old(self)@, failed@).len(),
    {
        let ghost before = self.entries@;
        let mut i: usize = 0;
        while i < self.entries.len()
            invariant
                i <= self.entries@.len(),
                self.wf(),
                self.next_id == old(self).next_id,
                before == old(self).entries@,
                forall|e: Entry| #[trigger] self.entries@.contains(e) ==> before.contains(e),
                forall|e: Entry| survivors(before, failed@, e) ==> #[trigger] self.entries@.contains(e),
                forall|j: int| 0 <= j < i ==> !failed@.contains(#[trigger] self.entries@[j].id),
            decreases self.entries@.len() - i,
        {
            if contains_id(failed, self.entries[i].id) {
                let ghost cur = self.entries@;
                self.entries.swap_remove(i);
                proof {
                    let next = self.entries@;
                    assert forall|e: Entry| #[trigger] next.contains(e) implies before.contains(e) by {
                        let k = choose|k: int| 0 <= k < next.len() && next[k] == e;
                        if k == i {
                            assert(cur.contains(cur.last()));
                        } else {
                            assert(cur[k] == e);
                            assert(cur.contains(e));
                        }
                    }
                    assert forall|e: Entry| survivors(before, failed@, e) implies #[trigger] next.contains(e) by {
                        assert(cur.contains(e));
                        let k = choose|k: int| 0 <= k < cur.len() && cur[k] == e;
                        assert(k != i);
                        if k == cur.len() - 1 {
                            assert(next[i as int] == e);
                        } else {
                            assert(next[k] == e);
                        }
                    }
                }
            } else {
                i += 1;
            }
        }
        proof {
            assert forall|e: Entry| #[trigger]
                self.entries@.contains(e) implies survivors(before, failed@, e) by {
                let k = choose|k: int| 0 <= k < self.entries@.len() && self.entries@[k] == e;
                assert(!failed@.contains(self.entries@[k].id));
            }
            lemma_same_members_same_len(self.entries@, kept(before, failed@), before, failed@);
        }
    }
}

/// Whether `id` occurs in `ids`.
fn contains_id(ids: &[u64], id: u64) -> (r: bool)
    ensures
        r == ids@.contains(id),
{
    let mut i: usize = 0;
    while i < ids.len()
        invariant
            i <= ids@.len(),
            forall|j: int| 0 <= j < i ==> ids@[j] != id,
        decreases ids@.len() - i,
    {
        if ids[i] == id {
            assert(ids@[i as int] == id);
            return true;
        }
        i += 1;
    }
    false
}

} // verus!
