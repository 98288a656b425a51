use vstd::prelude::*;
use crate::hashing::{full_digest, hash_full, hash_subsystem, scoped_digest};
use crate::model::Document;

verus! {

/// The nodes that produced one digest, in the order they were processed.
pub struct Bucket {
    pub digest: Vec<u8>,
    pub nodes: Vec<String>,
}

/// Nodes grouped by digest, plus (in scoped mode) the nodes that lack the
/// subsystem. Buckets stand in the order their digest was first seen.
pub struct Report {
    pub buckets: Vec<Bucket>,
    pub not_found: Vec<String>,
}

pub struct ReportModel {
    pub buckets: Seq<(Seq<u8>, Seq<Seq<char>>)>,
    pub not_found: Seq<Seq<char>>,
}

pub open spec fn bucket_view(b: Bucket) -> (Seq<u8>, Seq<Seq<char>>) {
    (b.digest@, names_view(b.nodes@))
}

pub open spec fn names_view(s: Seq<String>) -> Seq<Seq<char>> {
    s.map_values(|n: String| n@)
}

impl View for Report {
    type V = ReportModel;

    open spec fn view(&self) -> ReportModel {
        ReportModel {
            buckets: self.buckets@.map_values(|b: Bucket| bucket_view(b)),
            not_found: names_view(self.not_found@),
        }
    }
}

/// One processed node: its endpoint, and its digest or none when the
/// subsystem under comparison is absent.
pub type Event = (Seq<char>, Option<Seq<u8>>);

pub open spec fn empty_model() -> ReportModel {
    ReportModel { buckets: Seq::empty(), not_found: Seq::empty() }
}

pub open spec fn has_key(m: ReportModel, d: Seq<u8>) -> bool {
    exists|j: int| 0 <= j < m.buckets.len() && m.buckets[j].0 == d
}

pub open spec fn key_index(m: ReportModel, d: Seq<u8>) -> int {
    choose|j: int| 0 <= j < m.buckets.len() && m.buckets[j].0 == d
}

/// No digest has two buckets.
pub open spec fn keys_unique(m: ReportModel) -> bool {
    forall|a: int, b: int|
        0 <= a < m.buckets.len() && 0 <= b < m.buckets.len() && a != b ==> m.buckets[a].0
            != m.buckets[b].0
}

/// One aggregation step: the node goes to the end of its digest's bucket,
/// which is created on first sight, or to the end of the not-found list.
pub open spec fn step(m: ReportModel, node: Seq<char>, d: Option<Seq<u8>>) -> ReportModel {
    match d {
        None => ReportModel { buckets: m.buckets, not_found: m.not_found.push(node) },
        Some(k) => if has_key(m, k) {
            let j = key_index(m, k);
            ReportModel {
                buckets: m.buckets.update(j, (k, m.buckets[j].1.push(node))),
                not_found: m.not_found,
            }
        } else {
            ReportModel { buckets: m.buckets.push((k, seq![node])), not_found: m.not_found }
        },
    }
}

/// The report after processing `events` in order from an empty one.
pub open spec fn report_of(events: Seq<Event>) -> ReportModel
    decreases events.len(),
{
    if events.len() == 0 {
        empty_model()
    } else {
        let e = events.last();
        step(report_of(events.drop_last()), e.0, e.1)
    }
}

/// The endpoints of the events with digest `d`, in order.
pub open spec fn nodes_with(events: Seq<Event>, d: Seq<u8>) -> Seq<Seq<char>>
    decreases events.len(),
{
    if events.len() == 0 {
        Seq::empty()
    } else {
        let rest = nodes_with(events.drop_last(), d);
        if events.last().1 == Some(d) {
            rest.push(events.last().0)
        } else {
            rest
        }
    }
}

/// The endpoints of the events without a digest, in order.
pub open spec fn nodes_without(events: Seq<Event>) -> Seq<Seq<char>>
    decreases events.len(),
{
    if events.len() == 0 {
        Seq::empty()
    } else {
        let rest = nodes_without(events.drop_last());
        if events.last().1 is None {
            rest.push(events.last().0)
        } else {
            rest
        }
    }
}

/// How many endpoints the buckets hold together.
pub open spec fn total(b: Seq<(Seq<u8>, Seq<Seq<char>>)>) -> nat
    decreases b.len(),
{
    if b.len() == 0 {
        0
    } else {
        total(b.drop_last()) + b.last().1.len()
    }
}

pub open spec fn opt_view(d: Option<Vec<u8>>) -> Option<Seq<u8>> {
    match d {
        Some(v) => Some(v@),
        None => None,
    }
}

fn digest_eq(a: &Vec<u8>, b: &Vec<u8>) -> (r: bool)
    ensures
        r == (a@ == b@),
{
    if a.len() != b.len() {
        return false;
    }
    let mut i: usize = 0;
    while i < a.len()
        invariant
            a@.len() == b@.len(),
            i <= a@.len(),
            forall|k: int| 0 <= k < i ==> a@[k] == b@[k],
        decreases a@.len() - i,
    {
        if a[i] != b[i] {
            return false;
        }
        i = i + 1;
    }
    assert(a@ =~= b@);
    true
}

impl Report {
    /// An empty report.
    pub fn new() -> (r: Report)
        ensures
            r@ == empty_model(),
    {
        let r = Report { buckets: Vec::new(), not_found: Vec::new() };
        assert(r@.buckets =~= Seq::<(Seq<u8>, Seq<Seq<char>>)>::empty());
        assert(r@.not_found =~= Seq::<Seq<char>>::empty());
        r
    }

    /// Well formed: no digest has two buckets.
    pub open spec fn wf(&self) -> bool {
        keys_unique(self@)
    }

    fn find_bucket(&self, d: &Vec<u8>) -> (r: Option<usize>)
        ensures
            r is None ==> !has_key(self@, d@),
            r matches Some(j) ==> j < self@.buckets.len() && self@.buckets[j as int].0 == d@,
    {
        let mut j: usize = 0;
        while j < self.buckets.len()
            invariant
                j <= self.buckets@.len(),
                forall|k: int| 0 <= k < j ==> self@.buckets[k].0 != d@,
            decreases self.buckets@.len() - j,
        {
            if digest_eq(&self.buckets[j].digest, d) {
                return Some(j);
            }
            j = j + 1;
        }
        None
    }

    /// Files `node` under `digest`, or under the not-found list when there is
    /// no digest.
    pub fn record(&mut self, node: String, digest: Option<Vec<u8>>)
        requires
            old(self).wf(),
        ensures
            final(self).wf(),
            final(self)@ == step(old(self)@, node@, opt_view(digest)),
    {
        let ghost m = self@;
        match digest {
            None => {
                self.not_found.push(node);
                assert(self@.not_found =~= m.not_found.push(node@));
                assert(self@.buckets =~= m.buckets);
            },
            Some(d) => {
                match self.find_bucket(&d) {
                    Some(j) => {
                        assert(key_index(m, d@) == j as int);
                        let ghost old_buckets = self.buckets@;
                        let mut b = self.buckets.remove(j);
                        let ghost old_nodes = b.nodes@;
                        b.nodes.push(node);
                        assert(names_view(b.nodes@) =~= names_view(old_nodes).push(node@));
                        assert(bucket_view(b) == (d@, m.buckets[j as int].1.push(node@)));
                        self.buckets.insert(j, b);
                        assert(self.buckets@ =~= old_buckets.update(j as int, b));
                        assert(self@.buckets =~= m.buckets.update(
                            j as int,
                            (d@, m.buckets[j as int].1.push(node@)),
                        ));
                        assert(self@.not_found =~= m.not_found);
                    },
                    None => {
                        let mut nodes: Vec<String> = Vec::new();
                        nodes.push(node);
                        let b = Bucket { digest: d, nodes };
                        assert(bucket_view(b) == (d@, seq![node@])) by {
                            assert(names_view(b.nodes@) =~= seq![node@]);
                        }
                        self.buckets.push(b);
                        assert(self@.buckets =~= m.buckets.push((d@, seq![node@])));
                        assert(self@.not_found =~= m.not_found);
                    },
                }
            },
        }
    }
}

/// One hexadecimal digit, lower case.
pub open spec fn hex_digit(n: u8) -> char {
    seq!['0', '1', '2', '3', '4', '5', '6', '7', '8', '9', 'a', 'b', 'c', 'd', 'e', 'f'][n as int
        % 16]
}

/// Two lower-case hexadecimal digits per byte, high nibble first.
pub open spec fn hex_of(b: Seq<u8>) -> Seq<char>
    decreases b.len(),
{
    if b.len() == 0 {
        Seq::empty()
    } else {
        hex_of(b.drop_last()) + seq![hex_digit(b.last() / 16), hex_digit(b.last() % 16)]
    }
}

/// Relies on hex::encode: two lower-case hexadecimal digits per byte, high
/// nibble first.
#[verifier::external_body]
fn hex_encode(b: &Vec<u8>) -> (r: String)
    ensures
        r@ == hex_of(b@),
{
    hex::encode(b)
}

fn copy_names(v: &Vec<String>) -> (r: Vec<String>)
    ensures
        names_view(r@) == names_view(v@),
{
    let mut r: Vec<String> = Vec::new();
    let mut i: usize = 0;
    while i < v.len()
        invariant
            i <= v@.len(),
            r@.len() == i,
            forall|k: int| 0 <= k < i ==> (#[trigger] r@[k])@ == v@[k]@,
        decreases v@.len() - i,
    {
        let c = v[i].clone();
        r.push(c);
        i = i + 1;
    }
    assert(names_view(r@) =~= names_view(v@));
    r
}

impl Report {
    /// Hashes the whole of `node`'s document and files the node under the digest.
    pub fn record_full(&mut self, node: String, d: &Document)
        requires
            old(self).wf(),
        ensures
            final(self).wf(),
            final(self)@ == step(old(self)@, node@, Some(full_digest(*d))),
    {
        let h = hash_full(d);
        self.record(node, Some(h));
    }

    /// Hashes the subsystem `name` of `node`'s document and files the node
    /// under the digest, or under the not-found list when it has no such
    /// subsystem.
    pub fn record_scoped(&mut self, node: String, d: &Document, name: &String)
        requires
            old(self).wf(),
        ensures
            final(self).wf(),
            final(self)@ == step(old(self)@, node@, scoped_digest(*d, name@)),
    {
        let h = hash_subsystem(d, name);
        self.record(node, h);
    }

    /// The buckets in order, each with its digest hex-encoded and its nodes
    /// in order.
    pub fn hex_buckets(&self) -> (r: Vec<(String, Vec<String>)>)
        ensures
            r@.len() == self@.buckets.len(),
            forall|j: int|
                0 <= j < r@.len() ==> (#[trigger] r@[j]).0@ == hex_of(self@.buckets[j].0)
                    && names_view(r@[j].1@) == self@.buckets[j].1,
    {
        let mut r: Vec<(String, Vec<String>)> = Vec::new();
        let mut j: usize = 0;
        while j < self.buckets.len()
            invariant
                j <= self.buckets@.len(),
                r@.len() == j,
                forall|x: int|
                    0 <= x < j ==> (#[trigger] r@[x]).0@ == hex_of(self@.buckets[x].0)
                        && names_view(r@[x].1@) == self@.buckets[x].1,
            decreases self.buckets@.len() - j,
        {
            let b = &self.buckets[j];
            let h = hex_encode(&b.digest);
            let ns = copy_names(&b.nodes);
            r.push((h, ns));
            j = j + 1;
        }
        r
    }
}

/// The events that a list of per-node outcomes stands for.
pub open spec fn events_view(s: Seq<(String, Option<Vec<u8>>)>) -> Seq<Event> {
    s.map_values(|e: (String, Option<Vec<u8>>)| (e.0@, opt_view(e.1)))
}

impl Report {
    /// Aggregates per-node outcomes (endpoint, and digest or none), in the
    /// order given, into a report.
    pub fn from_outcomes(outcomes: Vec<(String, Option<Vec<u8>>)>) -> (r: Report)
        ensures
            r.wf(),
            r@ == report_of(events_view(outcomes@)),
    {
        let ghost all = events_view(outcomes@);
        let mut rest = outcomes;
        let mut r = Report::new();
        while rest.len() > 0
            invariant
                r.wf(),
                rest@.len() <= all.len(),
                events_view(rest@) == all.subrange(all.len() - rest@.len(), all.len() as int),
                r@ == report_of(all.subrange(0, all.len() - rest@.len())),
            decreases rest@.len(),
        {
            let ghost done = all.len() - rest@.len();
            let ghost before = rest@;
            let (node, digest) = rest.remove(0);
            assert(all[done] == events_view(before)[0]);
            assert(rest@ =~= before.subrange(1, before.len() as int));
            assert forall|i: int| 0 <= i < rest@.len() implies #[trigger] events_view(rest@)[i]
                == all[done + 1 + i] by {
                assert(events_view(before)[i + 1] == all[done + 1 + i]);
            }
            assert(events_view(rest@) =~= all.subrange(all.len() - rest@.len(), all.len() as int));
            r.record(node, digest);
            let ghost p = all.subrange(0, done + 1);
            assert(p.drop_last() =~= all.subrange(0, done));
        }
        assert(all.subrange(0, all.len() as int) =~= all);
        r
    }
}

proof fn lemma_total_update(b: Seq<(Seq<u8>, Seq<Seq<char>>)>, j: int, e: (Seq<u8>, Seq<Seq<char>>))
    requires
        0 <= j < b.len(),
    ensures
        total(b.update(j, e)) == total(b) - b[j].1.len() + e.1.len(),
    decreases b.len(),
{
    let u = b.update(j, e);
    if j < b.len() - 1 {
        lemma_total_update(b.drop_last(), j, e);
        assert(u.drop_last() =~= b.drop_last().update(j, e));
    } else {
        assert(u.drop_last() =~= b.drop_last());
    }
}

proof fn lemma_nodes_with_unseen(events: Seq<Event>, d: Seq<u8>)
    requires
        forall|i: int| 0 <= i < events.len() ==> events[i].1 != Some(d),
    ensures
        nodes_with(events, d) == Seq::<Seq<char>>::empty(),
    decreases events.len(),
{
    if events.len() > 0 {
        lemma_nodes_with_unseen(events.drop_last(), d);
    }
}

/// Aggregation is partition-exact and order-preserving: after any sequence
/// of processed nodes, each digest has one non-empty bucket that lists exactly
/// the nodes with that digest in processing order, every digest seen has its
/// bucket, the not-found list lists exactly the nodes without a digest in
/// order, and together they hold each processed node once.
pub proof fn lemma_aggregation_partition(events: Seq<Event>)
    ensures
        keys_unique(report_of(events)),
        forall|j: int|
            0 <= j < report_of(events).buckets.len() ==> (#[trigger] report_of(events).buckets[j]).1
                == nodes_with(events, report_of(events).buckets[j].0)
                && report_of(events).buckets[j].1.len() > 0,
        forall|i: int|
            0 <= i < events.len() && #[trigger] events[i].1 is Some ==> has_key(
                report_of(events),
                events[i].1->0,
            ),
        report_of(events).not_found == nodes_without(events),
        total(report_of(events).buckets) + report_of(events).not_found.len() == events.len(),
    decreases events.len(),
{
    if events.len() > 0 {
        let prev = events.drop_last();
        lemma_aggregation_partition(prev);
        let m = report_of(prev);
        let e = events.last();
        let r = report_of(events);
        assert(r == step(m, e.0, e.1));
        assert forall|i: int| 0 <= i < prev.len() implies #[trigger] events[i] == prev[i] by {}
        match e.1 {
            None => {
                assert forall|j: int| 0 <= j < r.buckets.len() implies (#[trigger] r.buckets[j]).1
                    == nodes_with(events, r.buckets[j].0) && r.buckets[j].1.len() > 0 by {
                    assert(m.buckets[j] == r.buckets[j]);
                }
                assert forall|i: int|
                    0 <= i < events.len() && #[trigger] events[i].1 is Some implies has_key(
                        r,
                        events[i].1->0,
                    ) by {
                    assert(prev[i] == events[i]);
                    let d = events[i].1->0;
                    let w = choose|w: int| 0 <= w < m.buckets.len() && m.buckets[w].0 == d;
                    assert(r.buckets[w].0 == d);
                }
            },
            Some(k) => {
                if has_key(m, k) {
                    let jk = key_index(m, k);
                    lemma_total_update(m.buckets, jk, (k, m.buckets[jk].1.push(e.0)));
                    assert forall|j: int| 0 <= j < r.buckets.len() implies (
                    #[trigger] r.buckets[j]).1 == nodes_with(events, r.buckets[j].0)
                        && r.buckets[j].1.len() > 0 by {
                        if j != jk {
                            assert(m.buckets[j] == r.buckets[j]);
                            assert(m.buckets[j].0 != k);
                        }
                    }
                    assert forall|i: int|
                        0 <= i < events.len() && #[trigger] events[i].1 is Some implies has_key(
                            r,
                            events[i].1->0,
                        ) by {
                        if i < prev.len() {
                            assert(prev[i] == events[i]);
                            let d = events[i].1->0;
                            let w = choose|w: int| 0 <= w < m.buckets.len() && m.buckets[w].0 == d;
                            assert(r.buckets[w].0 == d);
                        } else {
                            assert(r.buckets[jk].0 == k);
                        }
                    }
                } else {
                    lemma_nodes_with_unseen(prev, k);
                    assert(r.buckets.drop_last() =~= m.buckets);
                    assert forall|j: int| 0 <= j < r.buckets.len() implies (
                    #[trigger] r.buckets[j]).1 == nodes_with(events, r.buckets[j].0)
                        && r.buckets[j].1.len() > 0 by {
                        if j < m.buckets.len() {
                            assert(m.buckets[j] == r.buckets[j]);
                            assert(m.buckets[j].0 != k);
                        } else {
                            assert(nodes_with(events, k) =~= seq![e.0]);
                        }
                    }
                    assert forall|i: int|
                        0 <= i < events.len() && #[trigger] events[i].1 is Some implies has_key(
                            r,
                            events[i].1->0,
                        ) by {
                        if i < prev.len() {
                            assert(prev[i] == events[i]);
                            let d = events[i].1->0;
                            let w = choose|w: int| 0 <= w < m.buckets.len() && m.buckets[w].0 == d;
                            assert(r.buckets[w].0 == d);
                        } else {
                            assert(r.buckets[m.buckets.len() as int].0 == k);
                        }
                    }
                }
            },
        }
    }
}

} // verus!
