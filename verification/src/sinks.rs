//! The gossip engine's subscribers: for each group, the sinks that receive
//! its notifications, and what to do with a notification given which sinks
//! are ready. A sink is known by an id; the channels themselves stay with the
//! caller.
use vstd::prelude::*;

use crate::assoc::{
    assoc_remove, assoc_set, distinct, has_key, keys, lemma_assoc_remove_at, lemma_distinct_push,
    lemma_distinct_remove,
};
use crate::shards::shard::bytes_equal;

verus! {

/// Whether a subscribed sink can take a notification now.
#[derive(Debug, Clone, Copy, PartialEq, Eq, Structural)]
pub enum SinkState {
    /// It has room for one more notification.
    Ready,
    /// It has no room yet.
    Pending,
    /// Its receiver was dropped.
    Closed,
}

/// What to do with the notification at the front of the forwarding queue.
#[derive(Debug, PartialEq, Eq)]
pub enum ForwardStep {
    /// Drop it: nobody listens to its group.
    Skip,
    /// Keep it in front and try again later: a sink has no room.
    Wait,
    /// Send it to each of these sinks.
    Deliver(Vec<u64>),
}

struct SinkGroup {
    group: Vec<u8>,
    sinks: Vec<u64>,
}

impl View for SinkGroup {
    type V = (Seq<u8>, Seq<u64>);

    closed spec fn view(&self) -> (Seq<u8>, Seq<u64>) {
        (self.group@, self.sinks@)
    }
}

spec fn group_models(s: Seq<SinkGroup>) -> Seq<(Seq<u8>, Seq<u64>)> {
    s.map_values(|g: SinkGroup| g@)
}

/// The sinks subscribed to each group.
pub struct SinkTable {
    groups: Vec<SinkGroup>,
}

impl View for SinkTable {
    type V = Seq<(Seq<u8>, Seq<u64>)>;

    closed spec fn view(&self) -> Seq<(Seq<u8>, Seq<u64>)> {
        group_models(self.groups@)
    }
}

/// The sinks of group `g` (those of its last entry); none when nobody
/// subscribed to it.
pub open spec fn sinks_for(t: Seq<(Seq<u8>, Seq<u64>)>, g: Seq<u8>) -> Seq<u64>
    decreases t.len(),
{
    if t.len() == 0 {
        Seq::empty()
    } else if t.last().0 == g {
        t.last().1
    } else {
        sinks_for(t.drop_last(), g)
    }
}

/// The table with sink `id` subscribed to group `g`, after its other sinks.
pub open spec fn table_after_add(t: Seq<(Seq<u8>, Seq<u64>)>, g: Seq<u8>, id: u64) -> Seq<(Seq<u8>, Seq<u64>)> {
    if has_key(t, g) {
        t.map_values(|e: (Seq<u8>, Seq<u64>)| if e.0 == g { (e.0, e.1.push(id)) } else { e })
    } else {
        t.push((g, seq![id]))
    }
}

/// The sinks whose state is not closed, in order.
pub open spec fn open_sinks(ids: Seq<u64>, states: Seq<SinkState>) -> Seq<u64>
    decreases ids.len(),
{
    if ids.len() == 0 {
        Seq::empty()
    } else {
        let before = open_sinks(ids.drop_last(), states.drop_last());
        if states.last() == SinkState::Closed { before } else { before.push(ids.last()) }
    }
}

/// The table without the closed sinks, and without the groups left with none.
pub open spec fn table_after_prune(t: Seq<(Seq<u8>, Seq<u64>)>, closed: Seq<u64>) -> Seq<(Seq<u8>, Seq<u64>)> {
    t.map_values(|e: (Seq<u8>, Seq<u64>)| (e.0, e.1.filter(|id: u64| !closed.contains(id)))).filter(
        |e: (Seq<u8>, Seq<u64>)| e.1.len() > 0,
    )
}

proof fn lemma_sinks_at(t: Seq<(Seq<u8>, Seq<u64>)>, g: Seq<u8>, k: int)
    requires
        distinct(keys(t)),
        0 <= k < t.len(),
        t[k].0 == g,
    ensures
        sinks_for(t, g) == t[k].1,
    decreases t.len(),
{
    if k < t.len() - 1 {
        assert(keys(t)[k] == t[k].0 && keys(t)[t.len() - 1] == t.last().0);
        let d = t.drop_last();
        assert(keys(d) =~= keys(t).drop_last());
        assert forall|a: int, b: int| 0 <= a < keys(d).len() && 0 <= b < keys(d).len() && a != b implies keys(d)[a] != keys(d)[b] by {
            assert(keys(d)[a] == keys(t)[a] && keys(d)[b] == keys(t)[b]);
        }
        lemma_sinks_at(d, g, k);
    }
}

proof fn lemma_sinks_absent(t: Seq<(Seq<u8>, Seq<u64>)>, g: Seq<u8>)
    requires
        !has_key(t, g),
    ensures
        sinks_for(t, g) == Seq::<u64>::empty(),
    decreases t.len(),
{
    if t.len() > 0 {
        assert(t[t.len() - 1].0 != g);
        let d = t.drop_last();
        assert(!has_key(d, g)) by {
            if has_key(d, g) {
                let w = choose|w: int| 0 <= w < d.len() && d[w].0 == g;
                assert(t[w].0 == g);
            }
        }
        lemma_sinks_absent(d, g);
    }
}

proof fn lemma_filter_keys_distinct<V>(s: Seq<(Seq<u8>, V)>, pred: spec_fn((Seq<u8>, V)) -> bool)
    requires
        distinct(keys(s)),
    ensures
        distinct(keys(s.filter(pred))),
    decreases s.len(),
{
    reveal(Seq::filter);
    if s.len() > 0 {
        let d = s.drop_last();
        assert(keys(d) =~= keys(s).drop_last());
        assert forall|i: int, j: int| 0 <= i < keys(d).len() && 0 <= j < keys(d).len() && i != j implies keys(d)[i] != keys(d)[j] by {
            assert(keys(d)[i] == keys(s)[i] && keys(d)[j] == keys(s)[j]);
        }
        lemma_filter_keys_distinct(d, pred);
        if pred(s.last()) {
            let f = d.filter(pred);
            assert(keys(f.push(s.last())) =~= keys(f).push(s.last().0));
            assert(!keys(f).contains(s.last().0)) by {
                if keys(f).contains(s.last().0) {
                    let k = choose|k: int| 0 <= k < keys(f).len() && keys(f)[k] == s.last().0;
                    assert(f.contains(f[k]));
                    d.lemma_filter_contains_rev(pred, f[k]);
                    let w = choose|w: int| 0 <= w < d.len() && d[w] == f[k];
                    assert(keys(s)[w] == keys(s)[s.len() - 1]);
                }
            }
            lemma_distinct_push(keys(f), s.last().0);
        }
    }
}

fn find_group(s: &Vec<SinkGroup>, g: &Vec<u8>) -> (r: Option<usize>)
    ensures
        match r {
            Some(i) => i < s@.len() && group_models(s@)[i as int].0 == g@,
            None => !has_key(group_models(s@), g@),
        },
{
    let mut i: usize = 0;
    while i < s.len()
        invariant
            i <= s@.len(),
            forall|j: int| 0 <= j < i ==> group_models(s@)[j].0 != g@,
        decreases s@.len() - i,
    {
        if bytes_equal(&s[i].group, g) {
            return Some(i);
        }
        i = i + 1;
    }
    None
}

fn contains_id(ids: &Vec<u64>, id: u64) -> (r: bool)
    ensures
        r == ids@.contains(id),
{
    let mut i: usize = 0;
    while i < ids.len()
        invariant
            i <= ids@.len(),
            forall|j: int| 0 <= j < i ==> ids@[j] != id,
        decreases ids@.len() - i,
    {
        if ids[i] == id {
            return true;
        }
        i = i + 1;
    }
    false
}

impl SinkTable {
    /// No group is listed twice.
    pub open spec fn wf(&self) -> bool {
        distinct(keys(self@))
    }

    /// A table with no subscriptions.
    pub fn new() -> (r: SinkTable)
        ensures
            r.wf(),
            r@ == Seq::<(Seq<u8>, Seq<u64>)>::empty(),
    {
        let r = SinkTable { groups: Vec::new() };
        assert(r@ =~= Seq::<(Seq<u8>, Seq<u64>)>::empty());
        assert(keys(r@) =~= Seq::<Seq<u8>>::empty());
        r
    }

    /// Subscribes sink `id` to a group.
    pub fn add(&mut self, group: &Vec<u8>, id: u64)
        requires
            old(self).wf(),
        ensures
            final(self).wf(),
            final(self)@ == table_after_add(old(self)@, group@, id),
    {
        let ghost t0 = self@;
        match find_group(&self.groups, group) {
            Some(i) => {
                let mut e = self.groups.remove(i);
                e.sinks.push(id);
                self.groups.insert(i, e);
                proof {
                    assert forall|j: int| 0 <= j < t0.len() && j != i implies t0[j].0 != group@ by {
                        assert(keys(t0)[j] == t0[j].0 && keys(t0)[i as int] == t0[i as int].0);
                    }
                    assert(self@ =~= table_after_add(t0, group@, id));
                    assert(keys(self@) =~= keys(t0));
                }
            },
            None => {
                let mut ids: Vec<u64> = Vec::new();
                ids.push(id);
                self.groups.push(SinkGroup { group: group.clone(), sinks: ids });
                proof {
                    assert(self@ =~= t0.push((group@, seq![id])));
                    assert(keys(self@) =~= keys(t0).push(group@));
                    assert(!keys(t0).contains(group@)) by {
                        if keys(t0).contains(group@) {
                            let j = choose|j: int| 0 <= j < keys(t0).len() && keys(t0)[j] == group@;
                            assert(t0[j].0 == group@);
                        }
                    }
                    lemma_distinct_push(keys(t0), group@);
                }
            },
        }
    }

    /// The sinks subscribed to a group, in the order they subscribed.
    pub fn sinks_of(&self, group: &Vec<u8>) -> (r: Vec<u64>)
        requires
            self.wf(),
        ensures
            r@ == sinks_for(self@, group@),
    {
        match find_group(&self.groups, group) {
            None => {
                proof {
                    lemma_sinks_absent(self@, group@);
                }
                Vec::new()
            },
            Some(i) => {
                proof {
                    lemma_sinks_at(self@, group@, i as int);
                }
                self.groups[i].sinks.clone()
            },
        }
    }

    /// Decides what to do with a notification for `group`, given the state
    /// of each of its sinks in order: drop it when nobody listens; wait when
    /// a sink has no room; otherwise unsubscribe the closed sinks and drop
    /// the notification if none is left, else deliver it to the others.
    pub fn forward(&mut self, group: &Vec<u8>, states: &Vec<SinkState>) -> (r: ForwardStep)
        requires
            old(self).wf(),
            states@.len() == sinks_for(old(self)@, group@).len(),
        ensures
            final(self).wf(),
            !has_key(old(self)@, group@) ==> r == ForwardStep::Skip && final(self)@ == old(self)@,
            has_key(old(self)@, group@) && states@.contains(SinkState::Pending)
                ==> r == ForwardStep::Wait && final(self)@ == old(self)@,
            has_key(old(self)@, group@) && !states@.contains(SinkState::Pending) ==> ({
                let kept = open_sinks(sinks_for(old(self)@, group@), states@);
                if kept.len() == 0 {
                    r == ForwardStep::Skip && final(self)@ == assoc_remove(old(self)@, group@)
                } else {
                    r matches ForwardStep::Deliver(v) && v@ == kept && final(self)@ == assoc_set(old(self)@, group@, kept)
                }
            }),
    {
        let ghost t0 = self@;
        let i = match find_group(&self.groups, group) {
            None => {
                proof {
                    lemma_sinks_absent(t0, group@);
                }
                return ForwardStep::Skip;
            },
            Some(i) => i,
        };
        proof {
            lemma_sinks_at(t0, group@, i as int);
        }
        let mut k: usize = 0;
        while k < states.len()
            invariant
                k <= states@.len(),
                self@ == t0,
                distinct(keys(t0)),
                i < t0.len() && t0[i as int].0 == group@,
                forall|j: int| 0 <= j < k ==> states@[j] != SinkState::Pending,
            decreases states@.len() - k,
        {
            if states[k] == SinkState::Pending {
                assert(states@[k as int] == SinkState::Pending);
                assert(has_key(t0, group@));
                return ForwardStep::Wait;
            }
            k = k + 1;
        }
        assert(!states@.contains(SinkState::Pending));
        let ghost ids = t0[i as int].1;
        let mut kept: Vec<u64> = Vec::new();
        let mut j: usize = 0;
        while j < states.len()
            invariant
                j <= states@.len(),
                i < self.groups@.len(),
                self@ == t0,
                ids == group_models(self.groups@)[i as int].1,
                ids.len() == states@.len(),
                kept@ == open_sinks(ids.take(j as int), states@.take(j as int)),
            decreases states@.len() - j,
        {
            assert(ids.take(j + 1).drop_last() =~= ids.take(j as int));
            assert(states@.take(j + 1).drop_last() =~= states@.take(j as int));
            assert(group_models(self.groups@)[i as int].1 == self.groups@[i as int].sinks@);
            if states[j] != SinkState::Closed {
                kept.push(self.groups[i].sinks[j]);
            }
            j = j + 1;
        }
        assert(ids.take(states@.len() as int) =~= ids);
        assert(states@.take(states@.len() as int) =~= states@);
        if kept.len() == 0 {
            self.groups.remove(i);
            proof {
                lemma_assoc_remove_at(t0, group@, i as int);
                assert(self@ =~= t0.remove(i as int));
                assert(keys(self@) =~= keys(t0).remove(i as int));
                lemma_distinct_remove(keys(t0), i as int);
            }
            ForwardStep::Skip
        } else {
            let ghost kv = kept@;
            let mut e = self.groups.remove(i);
            e.sinks = kept.clone();
            self.groups.insert(i, e);
            proof {
                assert forall|x: int| 0 <= x < t0.len() && x != i implies t0[x].0 != group@ by {
                    assert(keys(t0)[x] == t0[x].0 && keys(t0)[i as int] == t0[i as int].0);
                }
                assert(self@ =~= assoc_set(t0, group@, kv));
                assert(keys(self@) =~= keys(t0));
            }
            ForwardStep::Deliver(kept)
        }
    }

    /// Unsubscribes the closed sinks, and forgets the groups left with none.
    pub fn prune(&mut self, closed: &Vec<u64>)
        requires
            old(self).wf(),
        ensures
            final(self).wf(),
            final(self)@ == table_after_prune(old(self)@, closed@),
    {
        let ghost t0 = self@;
        let ghost keep_id = |id: u64| !closed@.contains(id);
        let ghost f = |e: (Seq<u8>, Seq<u64>)| (e.0, e.1.filter(|id: u64| !closed@.contains(id)));
        let ghost nonempty = |e: (Seq<u8>, Seq<u64>)| e.1.len() > 0;
        let mut out: Vec<SinkGroup> = Vec::new();
        let mut i: usize = 0;
        while i < self.groups.len()
            invariant
                i <= self.groups@.len(),
                self@ == t0,
                f == (|e: (Seq<u8>, Seq<u64>)| (e.0, e.1.filter(|id: u64| !closed@.contains(id)))),
                nonempty == (|e: (Seq<u8>, Seq<u64>)| e.1.len() > 0),
                keep_id == (|id: u64| !closed@.contains(id)),
                group_models(out@) == t0.take(i as int).map_values(f).filter(nonempty),
            decreases self.groups@.len() - i,
        {
            proof {
                reveal(Seq::filter);
                assert(t0.take(i + 1).map_values(f).drop_last() =~= t0.take(i as int).map_values(f));
                assert(t0.take(i + 1).map_values(f).last() == f(t0[i as int]));
            }
            let g = &self.groups[i];
            assert(t0[i as int] == g@);
            let mut ids: Vec<u64> = Vec::new();
            let mut j: usize = 0;
            while j < g.sinks.len()
                invariant
                    j <= g.sinks@.len(),
                    keep_id == (|id: u64| !closed@.contains(id)),
                    ids@ == g.sinks@.take(j as int).filter(keep_id),
                decreases g.sinks@.len() - j,
            {
                proof {
                    reveal(Seq::filter);
                    assert(g.sinks@.take(j + 1).drop_last() =~= g.sinks@.take(j as int));
                }
                if !contains_id(closed, g.sinks[j]) {
                    ids.push(g.sinks[j]);
                }
                j = j + 1;
            }
            assert(g.sinks@.take(g.sinks@.len() as int) =~= g.sinks@);
            assert(keep_id =~= (|id: u64| !closed@.contains(id)));
            assert(ids@ == f(t0[i as int]).1);
            if ids.len() > 0 {
                let ghost prev = group_models(out@);
                out.push(SinkGroup { group: g.group.clone(), sinks: ids });
                assert(group_models(out@) =~= prev.push(f(t0[i as int])));
            }
            i = i + 1;
        }
        assert(t0.take(t0.len() as int) =~= t0);
        self.groups = out;
        proof {
            let m = t0.map_values(f);
            assert(keys(m) =~= keys(t0));
            lemma_filter_keys_distinct(m, nonempty);
            assert(f =~= (|e: (Seq<u8>, Seq<u64>)| (e.0, e.1.filter(|id: u64| !closed@.contains(id)))));
        }
    }
}

/// The sinks a notification is delivered to, and kept subscribed, are
/// exactly those whose state is not `Closed`, in their order: no closed sink
/// is kept, and no other sink is dropped.
pub proof fn law_open_sinks_exact(ids: Seq<u64>, states: Seq<SinkState>)
    requires
        ids.len() == states.len(),
    ensures
        open_sinks(ids, states) == Seq::new(ids.len(), |i: int| (ids[i], states[i]))
            .filter(|p: (u64, SinkState)| p.1 != SinkState::Closed)
            .map_values(|p: (u64, SinkState)| p.0),
        open_sinks(ids, states).len() == states.filter(|x: SinkState| x != SinkState::Closed).len(),
    decreases ids.len(),
{
    let keep = |p: (u64, SinkState)| p.1 != SinkState::Closed;
    let open = |x: SinkState| x != SinkState::Closed;
    let first = |p: (u64, SinkState)| p.0;
    let z = Seq::new(ids.len(), |i: int| (ids[i], states[i]));
    if ids.len() == 0 {
        assert(z.filter(keep) =~= Seq::<(u64, SinkState)>::empty()) by {
            reveal(Seq::filter);
        }
        assert(states.filter(open) =~= Seq::<SinkState>::empty()) by {
            reveal(Seq::filter);
        }
        assert(z.filter(keep).map_values(first) =~= Seq::<u64>::empty());
    } else {
        let di = ids.drop_last();
        let ds = states.drop_last();
        law_open_sinks_exact(di, ds);
        let zd = Seq::new(di.len(), |i: int| (di[i], ds[i]));
        let last = (ids.last(), states.last());
        assert(z =~= zd.push(last));
        zd.lemma_filter_push(last, keep);
        assert(states =~= ds.push(states.last()));
        ds.lemma_filter_push(states.last(), open);
        if states.last() == SinkState::Closed {
            assert(z.filter(keep) == zd.filter(keep));
        } else {
            assert(z.filter(keep) == zd.filter(keep).push(last));
            assert(zd.filter(keep).push(last).map_values(first) =~= zd.filter(keep).map_values(first).push(ids.last()));
        }
    }
}

} // verus!
