//! The local store: stream settings, device notes and Wi-Fi endpoints, each
//! a map from text keys kept in key order, and its line format
//! `S<TAB>key<TAB>value`, `N<TAB>serial<TAB>text`, `W<TAB>host:port<TAB>secs`.
use vstd::prelude::*;
use crate::number::{decimal, format_u64, parse_u64, parse_u64_spec};
use crate::text::{
    chars_eq, lemma_lex_order, lex_less, lex_lt, lines, lines_from, lines_spec, push_chars, strip_cr,
    views,
};

verus! {

// ---------- ordered association lists ----------
/// The keys of `ps` strictly increase.
pub open spec fn strictly_sorted<W>(ps: Seq<(Seq<char>, W)>) -> bool {
    forall|i: int, j: int| 0 <= i < j < ps.len() ==> lex_lt(#[trigger] ps[i].0, #[trigger] ps[j].0)
}

/// The map that `ps` lists.
pub open spec fn map_of<W>(ps: Seq<(Seq<char>, W)>) -> Map<Seq<char>, W>
    decreases ps.len(),
{
    if ps.len() == 0 {
        Map::empty()
    } else {
        map_of(ps.drop_last()).insert(ps.last().0, ps.last().1)
    }
}

/// The entries of a finite map in increasing key order.
pub open spec fn sorted_pairs<W>(m: Map<Seq<char>, W>) -> Seq<(Seq<char>, W)> {
    choose|ps: Seq<(Seq<char>, W)>| strictly_sorted(ps) && map_of(ps) == m
}

/// The number of leading entries whose keys sort before `k`, counted from `i`.
pub open spec fn insert_pos<W>(ps: Seq<(Seq<char>, W)>, k: Seq<char>, i: int) -> int
    decreases ps.len() - i,
{
    if 0 <= i < ps.len() && lex_lt(ps[i].0, k) {
        insert_pos(ps, k, i + 1)
    } else {
        i
    }
}

/// `ps` with `k` mapped to `v`, in key order.
pub open spec fn put<W>(ps: Seq<(Seq<char>, W)>, k: Seq<char>, v: W) -> Seq<(Seq<char>, W)> {
    let p = insert_pos(ps, k, 0);
    if p < ps.len() && ps[p].0 == k {
        ps.update(p, (k, v))
    } else {
        ps.insert(p, (k, v))
    }
}

/// `ps` without the entry for `k`.
pub open spec fn del<W>(ps: Seq<(Seq<char>, W)>, k: Seq<char>) -> Seq<(Seq<char>, W)> {
    let p = insert_pos(ps, k, 0);
    if p < ps.len() && ps[p].0 == k {
        ps.remove(p)
    } else {
        ps
    }
}

proof fn lemma_sorted_distinct<W>(ps: Seq<(Seq<char>, W)>)
    requires
        strictly_sorted(ps),
    ensures
        forall|i: int, j: int|
            0 <= i < ps.len() && 0 <= j < ps.len() && i != j ==> #[trigger] ps[i].0
                != #[trigger] ps[j].0,
{
    lemma_lex_order();
    assert forall|i: int, j: int|
        0 <= i < ps.len() && 0 <= j < ps.len() && i != j implies #[trigger] ps[i].0
            != #[trigger] ps[j].0 by {
        if i < j {
            assert(lex_lt(ps[i].0, ps[j].0));
        } else {
            assert(lex_lt(ps[j].0, ps[i].0));
        }
    }
}

/// What `map_of` holds, for a strictly sorted list.
proof fn lemma_map_of<W>(ps: Seq<(Seq<char>, W)>)
    requires
        strictly_sorted(ps),
    ensures
        map_of(ps).dom().finite(),
        forall|i: int|
            0 <= i < ps.len() ==> map_of(ps).dom().contains(#[trigger] ps[i].0) && map_of(ps)[ps[i].0]
                == ps[i].1,
        forall|k: Seq<char>|
            #[trigger] map_of(ps).dom().contains(k) ==> exists|i: int|
                0 <= i < ps.len() && ps[i].0 == k,
    decreases ps.len(),
{
    if ps.len() > 0 {
        let q = ps.drop_last();
        assert(strictly_sorted(q)) by {
            assert forall|i: int, j: int| 0 <= i < j < q.len() implies lex_lt(
                #[trigger] q[i].0,
                #[trigger] q[j].0,
            ) by {
                assert(q[i] == ps[i] && q[j] == ps[j]);
            }
        }
        lemma_map_of(q);
        lemma_sorted_distinct(ps);
        let x = ps.last();
        assert forall|i: int| 0 <= i < ps.len() implies map_of(ps).dom().contains(
            #[trigger] ps[i].0,
        ) && map_of(ps)[ps[i].0] == ps[i].1 by {
            if i < ps.len() - 1 {
                assert(q[i] == ps[i]);
                assert(ps[i].0 != ps[ps.len() - 1].0);
            }
        }
        assert forall|k: Seq<char>| #[trigger] map_of(ps).dom().contains(k) implies exists|i: int|
            0 <= i < ps.len() && ps[i].0 == k by {
            if k == x.0 {
                assert(ps[ps.len() - 1].0 == k);
            } else {
                assert(map_of(q).dom().contains(k));
                let i = choose|i: int| 0 <= i < q.len() && q[i].0 == k;
                assert(ps[i] == q[i]);
            }
        }
    }
}

proof fn lemma_insert_pos<W>(ps: Seq<(Seq<char>, W)>, k: Seq<char>, i: int)
    requires
        0 <= i <= ps.len(),
        forall|t: int| 0 <= t < i ==> lex_lt(#[trigger] ps[t].0, k),
    ensures
        i <= insert_pos(ps, k, i) <= ps.len(),
        forall|t: int| 0 <= t < insert_pos(ps, k, i) ==> lex_lt(#[trigger] ps[t].0, k),
        insert_pos(ps, k, i) < ps.len() ==> !lex_lt(ps[insert_pos(ps, k, i)].0, k),
    decreases ps.len() - i,
{
    if i < ps.len() && lex_lt(ps[i].0, k) {
        lemma_insert_pos(ps, k, i + 1);
    }
}

proof fn lemma_put<W>(ps: Seq<(Seq<char>, W)>, k: Seq<char>, v: W)
    requires
        strictly_sorted(ps),
    ensures
        strictly_sorted(put(ps, k, v)),
        map_of(put(ps, k, v)) == map_of(ps).insert(k, v),
{
    lemma_put_sorted(ps, k, v);
    lemma_put_map(ps, k, v);
}

#[verifier::spinoff_prover]
proof fn lemma_put_sorted<W>(ps: Seq<(Seq<char>, W)>, k: Seq<char>, v: W)
    requires
        strictly_sorted(ps),
    ensures
        strictly_sorted(put(ps, k, v)),
{
    lemma_lex_order();
    lemma_insert_pos(ps, k, 0);
    let p = insert_pos(ps, k, 0);
    let r = put(ps, k, v);
    if p < ps.len() && ps[p].0 == k {
        assert(strictly_sorted(r)) by {
            assert forall|i: int, j: int| 0 <= i < j < r.len() implies lex_lt(
                #[trigger] r[i].0,
                #[trigger] r[j].0,
            ) by {
                assert(r[i].0 == ps[i].0 && r[j].0 == ps[j].0);
            }
        }
    } else {
        assert(p < ps.len() ==> lex_lt(k, ps[p].0));
        assert(strictly_sorted(r)) by {
            assert forall|i: int, j: int| 0 <= i < j < r.len() implies lex_lt(
                #[trigger] r[i].0,
                #[trigger] r[j].0,
            ) by {
                if j < p {
                    assert(r[i] == ps[i] && r[j] == ps[j]);
                } else if j == p {
                    assert(r[i] == ps[i]);
                } else if i < p {
                    assert(r[i] == ps[i] && r[j] == ps[j - 1]);
                    assert(lex_lt(ps[i].0, k));
                    if j - 1 > p {
                        assert(lex_lt(ps[p].0, ps[j - 1].0));
                    }
                } else if i == p {
                    assert(r[j] == ps[j - 1]);
                    if j - 1 > p {
                        assert(lex_lt(ps[p].0, ps[j - 1].0));
                    }
                } else {
                    assert(r[i] == ps[i - 1] && r[j] == ps[j - 1]);
                }
            }
        }
    }
}

#[verifier::spinoff_prover]
proof fn lemma_put_map<W>(ps: Seq<(Seq<char>, W)>, k: Seq<char>, v: W)
    requires
        strictly_sorted(ps),
    ensures
        map_of(put(ps, k, v)) == map_of(ps).insert(k, v),
{
    lemma_lex_order();
    lemma_insert_pos(ps, k, 0);
    lemma_put_sorted(ps, k, v);
    let p = insert_pos(ps, k, 0);
    let r = put(ps, k, v);
    lemma_map_of(ps);
    lemma_map_of(r);
    lemma_sorted_distinct(r);
    let m = map_of(ps).insert(k, v);
    assert forall|q: Seq<char>| map_of(r).dom().contains(q) <==> m.dom().contains(q) by {
        if map_of(r).dom().contains(q) {
            let i = choose|i: int| 0 <= i < r.len() && r[i].0 == q;
            if q != k {
                if p < ps.len() && ps[p].0 == k {
                    assert(r[i] == ps[i]);
                } else if i < p {
                    assert(r[i] == ps[i]);
                } else {
                    assert(r[i] == ps[i - 1]);
                }
            }
        }
        if m.dom().contains(q) {
            if q == k {
                assert(r[p].0 == k);
            } else {
                assert(map_of(ps).dom().contains(q));
                let i = choose|i: int| 0 <= i < ps.len() && ps[i].0 == q;
                if p < ps.len() && ps[p].0 == k {
                    assert(r[i] == ps[i]);
                } else if i < p {
                    assert(r[i] == ps[i]);
                } else {
                    assert(r[i + 1] == ps[i]);
                }
            }
        }
    }
    assert forall|q: Seq<char>| #[trigger] map_of(r).dom().contains(q) implies map_of(r)[q] == m[q] by {
        let i = choose|i: int| 0 <= i < r.len() && r[i].0 == q;
        if q == k {
            assert(r[p].0 == k);
        } else if p < ps.len() && ps[p].0 == k {
            assert(r[i] == ps[i]);
        } else if i < p {
            assert(r[i] == ps[i]);
        } else {
            assert(r[i] == ps[i - 1]);
        }
    }
    assert(map_of(r) =~= m);
}

proof fn lemma_del<W>(ps: Seq<(Seq<char>, W)>, k: Seq<char>)
    requires
        strictly_sorted(ps),
    ensures
        strictly_sorted(del(ps, k)),
        map_of(del(ps, k)) == map_of(ps).remove(k),
{
    lemma_lex_order();
    lemma_insert_pos(ps, k, 0);
    let p = insert_pos(ps, k, 0);
    let r = del(ps, k);
    let found = p < ps.len() && ps[p].0 == k;
    assert(strictly_sorted(r)) by {
        assert forall|i: int, j: int| 0 <= i < j < r.len() implies lex_lt(
            #[trigger] r[i].0,
            #[trigger] r[j].0,
        ) by {
            if found {
                if j < p {
                    assert(r[i] == ps[i] && r[j] == ps[j]);
                } else if i < p {
                    assert(r[i] == ps[i] && r[j] == ps[j + 1]);
                } else {
                    assert(r[i] == ps[i + 1] && r[j] == ps[j + 1]);
                }
            }
        }
    }
    lemma_map_of(ps);
    lemma_map_of(r);
    lemma_sorted_distinct(ps);
    let m = map_of(ps).remove(k);
    assert(!found ==> !map_of(ps).dom().contains(k)) by {
        if !found && map_of(ps).dom().contains(k) {
            let i = choose|i: int| 0 <= i < ps.len() && ps[i].0 == k;
            if i < p {
                assert(lex_lt(ps[i].0, k));
            } else if i > p {
                assert(lex_lt(k, ps[p].0));
                assert(lex_lt(ps[p].0, ps[i].0));
            }
        }
    }
    assert forall|q: Seq<char>| map_of(r).dom().contains(q) <==> m.dom().contains(q) by {
        if map_of(r).dom().contains(q) {
            let i = choose|i: int| 0 <= i < r.len() && r[i].0 == q;
            if found {
                if i < p {
                    assert(r[i] == ps[i]);
                } else {
                    assert(r[i] == ps[i + 1]);
                }
            }
        }
        if m.dom().contains(q) {
            let i = choose|i: int| 0 <= i < ps.len() && ps[i].0 == q;
            if found {
                if i < p {
                    assert(r[i] == ps[i]);
                } else {
                    assert(i != p);
                    assert(r[i - 1] == ps[i]);
                }
            }
        }
    }
    assert forall|q: Seq<char>| #[trigger] map_of(r).dom().contains(q) implies map_of(r)[q] == m[q] by {
        let i = choose|i: int| 0 <= i < r.len() && r[i].0 == q;
        if found {
            if i < p {
                assert(r[i] == ps[i]);
            } else {
                assert(r[i] == ps[i + 1]);
            }
        }
    }
    assert(map_of(r) =~= m);
}

/// Two strictly sorted lists of the same map are the same list.
proof fn lemma_sorted_unique<W>(a: Seq<(Seq<char>, W)>, b: Seq<(Seq<char>, W)>)
    requires
        strictly_sorted(a),
        strictly_sorted(b),
        map_of(a) == map_of(b),
    ensures
        a == b,
    decreases a.len(),
{
    lemma_lex_order();
    lemma_map_of(a);
    lemma_map_of(b);
    if a.len() == 0 {
        if b.len() > 0 {
            assert(map_of(b).dom().contains(b[0].0));
        }
        assert(a =~= b);
    } else if b.len() == 0 {
        assert(map_of(a).dom().contains(a[0].0));
    } else {
        let x = a.last();
        let y = b.last();
        let ja = choose|j: int| 0 <= j < b.len() && b[j].0 == x.0;
        assert(map_of(b).dom().contains(x.0)) by {
            assert(map_of(a).dom().contains(a[a.len() - 1].0));
        }
        let jb = choose|j: int| 0 <= j < a.len() && a[j].0 == y.0;
        assert(map_of(a).dom().contains(y.0)) by {
            assert(map_of(b).dom().contains(b[b.len() - 1].0));
        }
        if x.0 != y.0 {
            assert(ja < b.len() - 1 ==> lex_lt(b[ja].0, b[b.len() - 1].0));
            assert(jb < a.len() - 1 ==> lex_lt(a[jb].0, a[a.len() - 1].0));
        }
        assert(x.0 == y.0);
        assert(map_of(a)[a[a.len() - 1].0] == x.1);
        assert(map_of(b)[b[b.len() - 1].0] == y.1);
        let qa = a.drop_last();
        let qb = b.drop_last();
        assert(strictly_sorted(qa)) by {
            assert forall|i: int, j: int| 0 <= i < j < qa.len() implies lex_lt(
                #[trigger] qa[i].0,
                #[trigger] qa[j].0,
            ) by {
                assert(qa[i] == a[i] && qa[j] == a[j]);
            }
        }
        assert(strictly_sorted(qb)) by {
            assert forall|i: int, j: int| 0 <= i < j < qb.len() implies lex_lt(
                #[trigger] qb[i].0,
                #[trigger] qb[j].0,
            ) by {
                assert(qb[i] == b[i] && qb[j] == b[j]);
            }
        }
        lemma_map_of(qa);
        lemma_map_of(qb);
        assert(!map_of(qa).dom().contains(x.0)) by {
            if map_of(qa).dom().contains(x.0) {
                let i = choose|i: int| 0 <= i < qa.len() && qa[i].0 == x.0;
                assert(lex_lt(a[i].0, a[a.len() - 1].0));
            }
        }
        assert(!map_of(qb).dom().contains(x.0)) by {
            if map_of(qb).dom().contains(x.0) {
                let i = choose|i: int| 0 <= i < qb.len() && qb[i].0 == x.0;
                assert(lex_lt(b[i].0, b[b.len() - 1].0));
            }
        }
        assert(map_of(qa) =~= map_of(a).remove(x.0));
        assert(map_of(qb) =~= map_of(b).remove(x.0));
        lemma_sorted_unique(qa, qb);
        assert(a =~= qa.push(x));
        assert(b =~= qb.push(y));
    }
}

/// Every finite map has a strictly sorted listing.
proof fn lemma_sorted_exists<W>(m: Map<Seq<char>, W>)
    requires
        m.dom().finite(),
    ensures
        strictly_sorted(sorted_pairs(m)),
        map_of(sorted_pairs(m)) == m,
    decreases m.dom().len(),
{
    if m.dom().len() == 0 {
        let e = Seq::<(Seq<char>, W)>::empty();
        assert(m.dom() =~= Set::empty()) by {
            if exists|k: Seq<char>| m.dom().contains(k) {
                let k = choose|k: Seq<char>| m.dom().contains(k);
                vstd::set_lib::lemma_set_empty_equivalency_len(m.dom());
            }
        }
        assert(map_of(e) =~= m);
        assert(strictly_sorted(e));
    } else {
        let k = m.dom().choose();
        vstd::set_lib::lemma_set_empty_equivalency_len(m.dom());
        assert(m.dom().contains(k));
        let m2 = m.remove(k);
        assert(m2.dom() =~= m.dom().remove(k));
        lemma_sorted_exists(m2);
        let ps = sorted_pairs(m2);
        lemma_put(ps, k, m[k]);
        assert(m2.insert(k, m[k]) =~= m);
        assert(strictly_sorted(put(ps, k, m[k])) && map_of(put(ps, k, m[k])) == m);
    }
}

/// A strictly sorted listing is the listing `sorted_pairs` names.
proof fn lemma_sorted_pairs_is<W>(ps: Seq<(Seq<char>, W)>)
    requires
        strictly_sorted(ps),
    ensures
        sorted_pairs(map_of(ps)) == ps,
{
    assert(strictly_sorted(ps) && map_of(ps) == map_of(ps));
    lemma_sorted_unique(sorted_pairs(map_of(ps)), ps);
}

// ---------- the executable ordered map ----------
struct OrderedMap<V> {
    entries: Vec<(Vec<char>, V)>,
}

impl<V: View> OrderedMap<V> {
    spec fn pairs(self) -> Seq<(Seq<char>, V::V)> {
        self.entries@.map_values(|e: (Vec<char>, V)| (e.0@, e.1@))
    }

    spec fn wf(self) -> bool {
        strictly_sorted(self.pairs())
    }

    spec fn map(self) -> Map<Seq<char>, V::V> {
        map_of(self.pairs())
    }

    fn new() -> (r: Self)
        ensures
            r.wf(),
            r.pairs() == Seq::<(Seq<char>, V::V)>::empty(),
    {
        let r = OrderedMap { entries: Vec::new() };
        assert(r.pairs() =~= Seq::<(Seq<char>, V::V)>::empty());
        r
    }

    fn position(&self, k: &[char]) -> (p: usize)
        requires
            self.wf(),
        ensures
            p as int == insert_pos(self.pairs(), k@, 0),
            p <= self.entries@.len(),
    {
        let mut p: usize = 0;
        while p < self.entries.len() && lex_less(self.entries[p].0.as_slice(), k)
            invariant
                p <= self.entries@.len(),
                insert_pos(self.pairs(), k@, p as int) == insert_pos(self.pairs(), k@, 0),
            decreases self.entries@.len() - p,
        {
            assert(self.pairs()[p as int].0 == self.entries@[p as int].0@);
            p = p + 1;
        }
        proof {
            if p < self.entries@.len() {
                assert(self.pairs()[p as int].0 == self.entries@[p as int].0@);
            }
        }
        p
    }

    fn insert(&mut self, k: Vec<char>, v: V)
        requires
            old(self).wf(),
        ensures
            final(self).wf(),
            final(self).pairs() == put(old(self).pairs(), k@, v@),
            final(self).map() == old(self).map().insert(k@, v@),
    {
        let p = self.position(k.as_slice());
        let ghost ps = self.pairs();
        proof {
            lemma_put(ps, k@, v@);
        }
        if p < self.entries.len() && chars_eq(self.entries[p].0.as_slice(), k.as_slice()) {
            assert(ps[p as int].0 == self.entries@[p as int].0@);
            self.entries.set(p, (k, v));
            assert(self.pairs() =~= put(ps, k@, v@));
        } else {
            proof {
                if p < self.entries@.len() {
                    assert(ps[p as int].0 == self.entries@[p as int].0@);
                }
            }
            self.entries.insert(p, (k, v));
            assert(self.pairs() =~= put(ps, k@, v@));
        }
    }

    fn remove(&mut self, k: &[char])
        requires
            old(self).wf(),
        ensures
            final(self).wf(),
            final(self).pairs() == del(old(self).pairs(), k@),
            final(self).map() == old(self).map().remove(k@),
    {
        let p = self.position(k);
        let ghost ps = self.pairs();
        proof {
            lemma_del(ps, k@);
        }
        if p < self.entries.len() && chars_eq(self.entries[p].0.as_slice(), k) {
            assert(ps[p as int].0 == self.entries@[p as int].0@);
            self.entries.remove(p);
            assert(self.pairs() =~= del(ps, k@));
        } else {
            proof {
                if p < self.entries@.len() {
                    assert(ps[p as int].0 == self.entries@[p as int].0@);
                }
            }
        }
    }

    fn get(&self, k: &[char]) -> (r: Option<&V>)
        requires
            self.wf(),
        ensures
            self.map().dom().contains(k@) ==> (r matches Some(v) && v@ == self.map()[k@]),
            !self.map().dom().contains(k@) ==> r is None,
    {
        let p = self.position(k);
        let ghost ps = self.pairs();
        proof {
            lemma_map_of(ps);
            lemma_insert_pos(ps, k@, 0);
            lemma_lex_order();
        }
        if p < self.entries.len() && chars_eq(self.entries[p].0.as_slice(), k) {
            assert(ps[p as int].0 == self.entries@[p as int].0@);
            assert(ps[p as int].1 == self.entries@[p as int].1@);
            Some(&self.entries[p].1)
        } else {
            proof {
                if p < ps.len() {
                    assert(ps[p as int].0 == self.entries@[p as int].0@);
                }
                if self.map().dom().contains(k@) {
                    let i = choose|i: int| 0 <= i < ps.len() && ps[i].0 == k@;
                    if i < p {
                        assert(lex_lt(ps[i].0, k@));
                    } else if i > p {
                        assert(lex_lt(k@, ps[p as int].0));
                        assert(lex_lt(ps[p as int].0, ps[i].0));
                    }
                }
            }
            None
        }
    }
}

// ---------- the store ----------
/// What the store holds.
pub struct StoreView {
    pub settings: Map<Seq<char>, Seq<char>>,
    pub notes: Map<Seq<char>, Seq<char>>,
    pub wifi_endpoints: Map<Seq<char>, u64>,
}

pub open spec fn empty_view() -> StoreView {
    StoreView { settings: Map::empty(), notes: Map::empty(), wifi_endpoints: Map::empty() }
}

/// Stream settings, device notes, and the Wi-Fi endpoints last connected with
/// the time of connection in seconds.
pub struct Store {
    settings: OrderedMap<Vec<char>>,
    notes: OrderedMap<Vec<char>>,
    wifi_endpoints: OrderedMap<u64>,
}

impl View for Store {
    type V = StoreView;

    closed spec fn view(&self) -> StoreView {
        StoreView {
            settings: self.settings.map(),
            notes: self.notes.map(),
            wifi_endpoints: self.wifi_endpoints.map(),
        }
    }
}

/// `s` with each tab and newline replaced by a space, so that it fits in one
/// field of one line.
pub open spec fn clean_spec(s: Seq<char>) -> Seq<char> {
    s.map_values(|c: char| if c == '\t' || c == '\n' { ' ' } else { c })
}

/// A line of the store without its newline.
pub open spec fn record(tag: char, k: Seq<char>, v: Seq<char>) -> Seq<char> {
    seq![tag, '\t'] + k + seq!['\t'] + v
}

pub open spec fn text_records(tag: char, ps: Seq<(Seq<char>, Seq<char>)>) -> Seq<char>
    decreases ps.len(),
{
    if ps.len() == 0 {
        Seq::empty()
    } else {
        record(tag, clean_spec(ps[0].0), clean_spec(ps[0].1)) + seq!['\n'] + text_records(
            tag,
            ps.drop_first(),
        )
    }
}

pub open spec fn stamp_records(ps: Seq<(Seq<char>, u64)>) -> Seq<char>
    decreases ps.len(),
{
    if ps.len() == 0 {
        Seq::empty()
    } else {
        record('W', clean_spec(ps[0].0), decimal(ps[0].1 as nat)) + seq!['\n'] + stamp_records(
            ps.drop_first(),
        )
    }
}

/// The text of the store: its settings, then its notes, then its Wi-Fi
/// endpoints, one line each, each group in increasing key order.
pub open spec fn store_text(v: StoreView) -> Seq<char> {
    text_records('S', sorted_pairs(v.settings)) + text_records('N', sorted_pairs(v.notes))
        + stamp_records(sorted_pairs(v.wifi_endpoints))
}

/// The first tab at or after `i`, or the length of `l`.
pub open spec fn tab_from(l: Seq<char>, i: int) -> int
    decreases l.len() - i,
{
    if 0 <= i < l.len() && l[i] != '\t' {
        tab_from(l, i + 1)
    } else {
        i
    }
}

/// The store after reading one line: a line splits at its first two tabs
/// into a tag, a key and a value (which may hold further tabs); tag `S` sets
/// a setting, `N` a note, `W` an endpoint, whose time is the value read as a
/// number, or 0 when it does not read as one; any other line changes nothing.
pub open spec fn apply_record(v: StoreView, l: Seq<char>) -> StoreView {
    let t1 = tab_from(l, 0);
    let t2 = tab_from(l, t1 + 1);
    if t1 >= l.len() || t2 >= l.len() {
        v
    } else {
        let tag = l.subrange(0, t1);
        let k = l.subrange(t1 + 1, t2);
        let val = l.subrange(t2 + 1, l.len() as int);
        if tag == seq!['S'] {
            StoreView { settings: v.settings.insert(k, val), notes: v.notes, wifi_endpoints: v.wifi_endpoints }
        } else if tag == seq!['N'] {
            StoreView { settings: v.settings, notes: v.notes.insert(k, val), wifi_endpoints: v.wifi_endpoints }
        } else if tag == seq!['W'] {
            let t = match parse_u64_spec(val) {
                Some(n) => n,
                None => 0u64,
            };
            StoreView { settings: v.settings, notes: v.notes, wifi_endpoints: v.wifi_endpoints.insert(k, t) }
        } else {
            v
        }
    }
}

pub open spec fn load_lines(v: StoreView, ls: Seq<Seq<char>>) -> StoreView
    decreases ls.len(),
{
    if ls.len() == 0 {
        v
    } else {
        load_lines(apply_record(v, ls[0]), ls.drop_first())
    }
}

/// The store that a text describes, read line by line from an empty store.
pub open spec fn load_text(t: Seq<char>) -> StoreView {
    load_lines(empty_view(), lines_spec(t))
}

/// `s` with tabs and newlines replaced by spaces.
pub fn clean(s: &[char]) -> (r: Vec<char>)
    ensures
        r@ == clean_spec(s@),
{
    let mut r: Vec<char> = Vec::new();
    let mut i: usize = 0;
    while i < s.len()
        invariant
            i <= s.len(),
            r@ == clean_spec(s@.subrange(0, i as int)),
        decreases s.len() - i,
    {
        let c = s[i];
        if c == '\t' || c == '\n' {
            r.push(' ');
        } else {
            r.push(c);
        }
        assert(r@ =~= clean_spec(s@.subrange(0, i + 1)));
        i = i + 1;
    }
    assert(s@.subrange(0, s@.len() as int) == s@);
    r
}

fn tab_from_exec(l: &[char], i: usize) -> (r: usize)
    requires
        i <= l.len(),
    ensures
        r as int == tab_from(l@, i as int),
        i <= r <= l.len(),
{
    let mut j = i;
    while j < l.len() && l[j] != '\t'
        invariant
            i <= j <= l.len(),
            tab_from(l@, j as int) == tab_from(l@, i as int),
        decreases l.len() - j,
    {
        j = j + 1;
    }
    j
}

fn push_record(out: &mut Vec<char>, tag: char, k: &[char], v: &[char])
    ensures
        final(out)@ == old(out)@ + record(tag, k@, v@) + seq!['\n'],
{
    out.push(tag);
    out.push('\t');
    push_chars(out, k);
    out.push('\t');
    push_chars(out, v);
    out.push('\n');
    assert(out@ =~= old(out)@ + record(tag, k@, v@) + seq!['\n']);
}

impl Store {
    #[verifier::type_invariant]
    spec fn well_formed(self) -> bool {
        self.settings.wf() && self.notes.wf() && self.wifi_endpoints.wf()
    }

    /// An empty store.
    pub fn new() -> (r: Store)
        ensures
            r@ == empty_view(),
    {
        let r = Store {
            settings: OrderedMap::new(),
            notes: OrderedMap::new(),
            wifi_endpoints: OrderedMap::new(),
        };
        assert(r@.settings =~= Map::<Seq<char>, Seq<char>>::empty());
        assert(r@.notes =~= Map::<Seq<char>, Seq<char>>::empty());
        assert(r@.wifi_endpoints =~= Map::<Seq<char>, u64>::empty());
        r
    }

    /// Reads one line into the store.
    pub fn apply_line(&mut self, l: &[char])
        ensures
            final(self)@ == apply_record(old(self)@, l@),
    {
        proof {
            use_type_invariant(&*self);
        }
        let t1 = tab_from_exec(l, 0);
        if t1 >= l.len() {
            return ;
        }
        let t2 = tab_from_exec(l, t1 + 1);
        if t2 >= l.len() {
            return ;
        }
        let ghost tag = l@.subrange(0, t1 as int);
        let k = crate::text::slice_chars(l, t1 + 1, t2);
        let val = crate::text::slice_chars(l, t2 + 1, l.len());
        let is_s = t1 == 1 && l[0] == 'S';
        let is_n = t1 == 1 && l[0] == 'N';
        let is_w = t1 == 1 && l[0] == 'W';
        assert(is_s == (tag == seq!['S'])) by {
            let w = seq!['S'];
            assert(w.len() == 1 && w[0] == 'S');
            if tag == w {
                assert(tag[0] == w[0]);
            }
            if t1 == 1 {
                assert(tag.len() == 1 && tag[0] == l@[0]);
                if l@[0] == 'S' {
                    assert(tag =~= seq!['S']);
                }
            }
        }
        assert(is_n == (tag == seq!['N'])) by {
            let w = seq!['N'];
            assert(w.len() == 1 && w[0] == 'N');
            if tag == w {
                assert(tag[0] == w[0]);
            }
            if t1 == 1 {
                assert(tag.len() == 1 && tag[0] == l@[0]);
                if l@[0] == 'N' {
                    assert(tag =~= seq!['N']);
                }
            }
        }
        assert(is_w == (tag == seq!['W'])) by {
            let w = seq!['W'];
            assert(w.len() == 1 && w[0] == 'W');
            if tag == w {
                assert(tag[0] == w[0]);
            }
            if t1 == 1 {
                assert(tag.len() == 1 && tag[0] == l@[0]);
                if l@[0] == 'W' {
                    assert(tag =~= seq!['W']);
                }
            }
        }
        if is_s {
            let mut m = OrderedMap::new();
            std::mem::swap(&mut m, &mut self.settings);
            m.insert(k, val);
            self.settings = m;
        } else if is_n {
            let mut m = OrderedMap::new();
            std::mem::swap(&mut m, &mut self.notes);
            m.insert(k, val);
            self.notes = m;
        } else if is_w {
            let t = match parse_u64(val.as_slice()) {
                Some(n) => n,
                None => 0u64,
            };
            let mut m = OrderedMap::new();
            std::mem::swap(&mut m, &mut self.wifi_endpoints);
            m.insert(k, t);
            self.wifi_endpoints = m;
        }
    }

    /// The store that `txt` describes.
    pub fn parse(txt: &[char]) -> (r: Store)
        ensures
            r@ == load_text(txt@),
    {
        let ls = lines(txt);
        let mut st = Store::new();
        let mut i: usize = 0;
        assert(views(ls@).skip(0) =~= views(ls@));
        while i < ls.len()
            invariant
                i <= ls@.len(),
                views(ls@) == lines_spec(txt@),
                load_lines(st@, views(ls@).skip(i as int)) == load_text(txt@),
            decreases ls@.len() - i,
        {
            assert(views(ls@).skip(i as int)[0] == ls@[i as int]@);
            assert(views(ls@).skip(i as int).drop_first() =~= views(ls@).skip(i + 1));
            st.apply_line(ls[i].as_slice());
            i = i + 1;
        }
        assert(views(ls@).skip(i as int) =~= Seq::<Seq<char>>::empty());
        st
    }

    /// The text that describes the store.
    pub fn text(&self) -> (r: Vec<char>)
        ensures
            r@ == store_text(self@),
    {
        proof {
            use_type_invariant(self);
            lemma_sorted_pairs_is(self.settings.pairs());
            lemma_sorted_pairs_is(self.notes.pairs());
            lemma_sorted_pairs_is(self.wifi_endpoints.pairs());
        }
        let mut out: Vec<char> = Vec::new();
        let ghost ps = self.settings.pairs();
        let mut i: usize = 0;
        assert(ps.skip(0) =~= ps);
        assert(out@ + text_records('S', ps.skip(0)) =~= text_records('S', ps));
        while i < self.settings.entries.len()
            invariant
                ps == self.settings.pairs(),
                i <= ps.len(),
                out@ + text_records('S', ps.skip(i as int)) == text_records('S', ps),
            decreases ps.len() - i,
        {
            let k = clean(self.settings.entries[i].0.as_slice());
            let v = clean(self.settings.entries[i].1.as_slice());
            let ghost before = out@;
            push_record(&mut out, 'S', k.as_slice(), v.as_slice());
            assert(ps.skip(i as int)[0] == ps[i as int]);
            assert(ps.skip(i as int).drop_first() =~= ps.skip(i + 1));
            assert(out@ + text_records('S', ps.skip(i + 1)) =~= before + text_records(
                'S',
                ps.skip(i as int),
            ));
            i = i + 1;
        }
        assert(ps.skip(i as int) =~= Seq::<(Seq<char>, Seq<char>)>::empty());
        let ghost part1 = out@;
        let ghost ns = self.notes.pairs();
        let mut i: usize = 0;
        assert(ns.skip(0) =~= ns);
        assert(out@ + text_records('N', ns.skip(0)) =~= part1 + text_records('N', ns));
        while i < self.notes.entries.len()
            invariant
                ns == self.notes.pairs(),
                i <= ns.len(),
                out@ + text_records('N', ns.skip(i as int)) == part1 + text_records('N', ns),
            decreases ns.len() - i,
        {
            let k = clean(self.notes.entries[i].0.as_slice());
            let v = clean(self.notes.entries[i].1.as_slice());
            let ghost before = out@;
            push_record(&mut out, 'N', k.as_slice(), v.as_slice());
            assert(ns.skip(i as int)[0] == ns[i as int]);
            assert(ns.skip(i as int).drop_first() =~= ns.skip(i + 1));
            assert(out@ + text_records('N', ns.skip(i + 1)) =~= before + text_records(
                'N',
                ns.skip(i as int),
            ));
            i = i + 1;
        }
        assert(ns.skip(i as int) =~= Seq::<(Seq<char>, Seq<char>)>::empty());
        let ghost part2 = out@;
        let ghost ws = self.wifi_endpoints.pairs();
        let mut i: usize = 0;
        assert(ws.skip(0) =~= ws);
        assert(out@ + stamp_records(ws.skip(0)) =~= part2 + stamp_records(ws));
        while i < self.wifi_endpoints.entries.len()
            invariant
                ws == self.wifi_endpoints.pairs(),
                i <= ws.len(),
                out@ + stamp_records(ws.skip(i as int)) == part2 + stamp_records(ws),
            decreases ws.len() - i,
        {
            let k = clean(self.wifi_endpoints.entries[i].0.as_slice());
            let v = format_u64(self.wifi_endpoints.entries[i].1);
            let ghost before = out@;
            push_record(&mut out, 'W', k.as_slice(), v.as_slice());
            assert(ws.skip(i as int)[0] == ws[i as int]);
            assert(ws.skip(i as int).drop_first() =~= ws.skip(i + 1));
            assert(out@ + stamp_records(ws.skip(i + 1)) =~= before + stamp_records(
                ws.skip(i as int),
            ));
            i = i + 1;
        }
        assert(ws.skip(i as int) =~= Seq::<(Seq<char>, u64)>::empty());
        assert(out@ =~= store_text(self@));
        out
    }

    /// Sets a stream setting.
    pub fn set_setting(&mut self, key: Vec<char>, value: Vec<char>)
        ensures
            final(self)@ == (StoreView {
                settings: old(self)@.settings.insert(key@, value@),
                ..old(self)@
            }),
    {
        proof {
            use_type_invariant(&*self);
        }
        let mut m = OrderedMap::new();
        std::mem::swap(&mut m, &mut self.settings);
        m.insert(key, value);
        self.settings = m;
    }

    /// Attaches a note to a device.
    pub fn set_note(&mut self, serial: Vec<char>, note: Vec<char>)
        ensures
            final(self)@ == (StoreView { notes: old(self)@.notes.insert(serial@, note@), ..old(self)@ }),
    {
        proof {
            use_type_invariant(&*self);
        }
        let mut m = OrderedMap::new();
        std::mem::swap(&mut m, &mut self.notes);
        m.insert(serial, note);
        self.notes = m;
    }

    /// Records a Wi-Fi endpoint connected at time `now`.
    pub fn record_endpoint(&mut self, target: Vec<char>, now: u64)
        ensures
            final(self)@ == (StoreView {
                wifi_endpoints: old(self)@.wifi_endpoints.insert(target@, now),
                ..old(self)@
            }),
    {
        proof {
            use_type_invariant(&*self);
        }
        let mut m = OrderedMap::new();
        std::mem::swap(&mut m, &mut self.wifi_endpoints);
        m.insert(target, now);
        self.wifi_endpoints = m;
    }

    /// Forgets a Wi-Fi endpoint.
    pub fn forget_endpoint(&mut self, target: &[char])
        ensures
            final(self)@ == (StoreView {
                wifi_endpoints: old(self)@.wifi_endpoints.remove(target@),
                ..old(self)@
            }),
    {
        proof {
            use_type_invariant(&*self);
        }
        let mut m = OrderedMap::new();
        std::mem::swap(&mut m, &mut self.wifi_endpoints);
        m.remove(target);
        self.wifi_endpoints = m;
    }

    /// The value of a stream setting.
    pub fn setting(&self, key: &[char]) -> (r: Option<Vec<char>>)
        ensures
            self@.settings.dom().contains(key@) ==> (r matches Some(v) && v@ == self@.settings[key@]),
            !self@.settings.dom().contains(key@) ==> r is None,
    {
        proof {
            use_type_invariant(self);
        }
        match self.settings.get(key) {
            Some(v) => Some(crate::text::copy_chars(v.as_slice())),
            None => None,
        }
    }
}

// ---------- reading back what was written ----------
/// Text that fits in one field of a line: no tab, no newline.
pub open spec fn fits_field(s: Seq<char>) -> bool {
    !s.contains('\t') && !s.contains('\n')
}

/// A value that reads back unchanged from the end of a line: it fits in a
/// field and does not end in a carriage return.
pub open spec fn fits_last_field(s: Seq<char>) -> bool {
    fits_field(s) && !(s.len() > 0 && s.last() == '\r')
}

/// Inserting the entries of `ps` into `m`, first to last.
pub open spec fn insert_all<W>(m: Map<Seq<char>, W>, ps: Seq<(Seq<char>, W)>) -> Map<Seq<char>, W>
    decreases ps.len(),
{
    if ps.len() == 0 {
        m
    } else {
        insert_all(m.insert(ps[0].0, ps[0].1), ps.drop_first())
    }
}

proof fn lemma_lines_shift(p: Seq<char>, r: Seq<char>, i: int, st: int)
    requires
        0 <= st <= i,
    ensures
        lines_from(p + r, p.len() + i, p.len() + st) == lines_from(r, i, st),
    decreases r.len() - i,
{
    let t = p + r;
    if i >= r.len() {
        if st < r.len() {
            assert(t.subrange(p.len() + st, t.len() as int) =~= r.subrange(st, r.len() as int));
        }
    } else {
        assert(t[p.len() + i] == r[i]);
        if r[i] == '\n' {
            assert(t.subrange(p.len() + st, p.len() + i) =~= r.subrange(st, i));
            lemma_lines_shift(p, r, i + 1, i + 1);
        } else {
            lemma_lines_shift(p, r, i + 1, st);
        }
    }
}

proof fn lemma_lines_scan(l: Seq<char>, rest: Seq<char>, i: int)
    requires
        0 <= i <= l.len(),
        !l.contains('\n'),
    ensures
        lines_from(l + rest, i, 0) == lines_from(l + rest, l.len() as int, 0),
    decreases l.len() - i,
{
    if i < l.len() {
        assert((l + rest)[i] == l[i]);
        assert(l[i] != '\n');
        lemma_lines_scan(l, rest, i + 1);
    }
}

/// A line without newline, then a newline, then more text: the first line
/// comes first.
proof fn lemma_lines_cons(l: Seq<char>, rest: Seq<char>)
    requires
        !l.contains('\n'),
    ensures
        lines_spec(l + seq!['\n'] + rest) == seq![strip_cr(l)] + lines_spec(rest),
{
    let head = l + seq!['\n'];
    let t = head + rest;
    assert(l + seq!['\n'] + rest == l + (seq!['\n'] + rest));
    lemma_lines_scan(l, seq!['\n'] + rest, 0);
    assert(t[l.len() as int] == '\n');
    assert(t.subrange(0, l.len() as int) =~= l);
    lemma_lines_shift(head, rest, 0, 0);
    assert(lines_from(t, l.len() as int, 0) == seq![strip_cr(l)] + lines_from(
        t,
        l.len() + 1int,
        l.len() + 1int,
    ));
}

proof fn lemma_tab_scan(l: Seq<char>, from: int, to: int, i: int)
    requires
        0 <= from <= i <= to < l.len(),
        l[to] == '\t',
        forall|j: int| from <= j < to ==> l[j] != '\t',
    ensures
        tab_from(l, i) == to,
    decreases to - i,
{
    if i < to {
        lemma_tab_scan(l, from, to, i + 1);
    }
}

/// How a written record reads back.
proof fn lemma_record_fields(tag: char, k: Seq<char>, val: Seq<char>)
    requires
        tag != '\t',
        !k.contains('\t'),
    ensures
        tab_from(record(tag, k, val), 0) == 1,
        tab_from(record(tag, k, val), 2) == 2 + k.len(),
        record(tag, k, val).subrange(0, 1) == seq![tag],
        record(tag, k, val).subrange(2, 2 + k.len() as int) == k,
        record(tag, k, val).subrange(3 + k.len() as int, record(tag, k, val).len() as int) == val,
{
    let r = record(tag, k, val);
    assert(r[0] == tag && r[1] == '\t');
    assert(tab_from(r, 1) == 1);
    assert(r[2 + k.len() as int] == '\t');
    assert forall|j: int| 2 <= j < 2 + k.len() as int implies r[j] != '\t' by {
        assert(r[j] == k[j - 2]);
    }
    lemma_tab_scan(r, 2, 2 + k.len() as int, 2);
    assert(r.subrange(0, 1) =~= seq![tag]);
    assert(r.subrange(2, 2 + k.len() as int) =~= k);
    assert(r.subrange(3 + k.len() as int, r.len() as int) =~= val);
}

proof fn lemma_record_line(tag: char, k: Seq<char>, val: Seq<char>)
    requires
        tag != '\n' && tag != '\r',
        fits_field(k),
        fits_last_field(val),
    ensures
        !record(tag, k, val).contains('\n'),
        strip_cr(record(tag, k, val)) == record(tag, k, val),
{
    let r = record(tag, k, val);
    assert forall|j: int| 0 <= j < r.len() implies r[j] != '\n' by {
        if 2 <= j < 2 + k.len() as int {
            assert(r[j] == k[j - 2]);
        } else if 3 + k.len() as int <= j {
            assert(r[j] == val[j - 3 - k.len()]);
        }
    }
    if val.len() > 0 {
        assert(r.last() == val.last());
    } else {
        assert(r.last() == '\t');
    }
}

proof fn lemma_clean_fitting(s: Seq<char>)
    requires
        fits_field(s),
    ensures
        clean_spec(s) == s,
{
    assert forall|i: int| 0 <= i < s.len() implies clean_spec(s)[i] == s[i] by {
        assert(s[i] != '\t' && s[i] != '\n');
    }
    assert(clean_spec(s) =~= s);
}

proof fn lemma_load_cons(v: StoreView, l: Seq<char>, rest: Seq<Seq<char>>)
    ensures
        load_lines(v, seq![l] + rest) == load_lines(apply_record(v, l), rest),
{
    assert((seq![l] + rest)[0] == l);
    assert((seq![l] + rest).drop_first() =~= rest);
}

proof fn lemma_load_settings(v: StoreView, ps: Seq<(Seq<char>, Seq<char>)>, rest: Seq<char>)
    requires
        forall|i: int|
            0 <= i < ps.len() ==> fits_field(#[trigger] ps[i].0) && fits_last_field(ps[i].1),
    ensures
        load_lines(v, lines_spec(text_records('S', ps) + rest)) == load_lines(
            StoreView { settings: insert_all(v.settings, ps), ..v },
            lines_spec(rest),
        ),
    decreases ps.len(),
{
    if ps.len() == 0 {
        assert(text_records('S', ps) + rest =~= rest);
        assert(StoreView { settings: insert_all(v.settings, ps), ..v } == v);
    } else {
        let (k, val) = ps[0];
        assert(fits_field(ps[0].0) && fits_last_field(ps[0].1));
        lemma_clean_fitting(k);
        lemma_clean_fitting(val);
        let r = record('S', k, val);
        let tail = text_records('S', ps.drop_first()) + rest;
        assert(text_records('S', ps) + rest =~= r + seq!['\n'] + tail);
        lemma_record_line('S', k, val);
        lemma_lines_cons(r, tail);
        lemma_load_cons(v, r, lines_spec(tail));
        lemma_record_fields('S', k, val);
        let v1 = StoreView { settings: v.settings.insert(k, val), ..v };
        assert(apply_record(v, r) == v1);
        assert forall|i: int| 0 <= i < ps.drop_first().len() implies fits_field(
            #[trigger] ps.drop_first()[i].0,
        ) && fits_last_field(ps.drop_first()[i].1) by {
            assert(ps.drop_first()[i] == ps[i + 1]);
            assert(fits_field(ps[i + 1].0) && fits_last_field(ps[i + 1].1));
        }
        lemma_load_settings(v1, ps.drop_first(), rest);
    }
}

proof fn lemma_load_notes(v: StoreView, ps: Seq<(Seq<char>, Seq<char>)>, rest: Seq<char>)
    requires
        forall|i: int|
            0 <= i < ps.len() ==> fits_field(#[trigger] ps[i].0) && fits_last_field(ps[i].1),
    ensures
        load_lines(v, lines_spec(text_records('N', ps) + rest)) == load_lines(
            StoreView { notes: insert_all(v.notes, ps), ..v },
            lines_spec(rest),
        ),
    decreases ps.len(),
{
    if ps.len() == 0 {
        assert(text_records('N', ps) + rest =~= rest);
        assert(StoreView { notes: insert_all(v.notes, ps), ..v } == v);
    } else {
        let (k, val) = ps[0];
        assert(fits_field(ps[0].0) && fits_last_field(ps[0].1));
        lemma_clean_fitting(k);
        lemma_clean_fitting(val);
        let r = record('N', k, val);
        let tail = text_records('N', ps.drop_first()) + rest;
        assert(text_records('N', ps) + rest =~= r + seq!['\n'] + tail);
        lemma_record_line('N', k, val);
        lemma_lines_cons(r, tail);
        lemma_load_cons(v, r, lines_spec(tail));
        lemma_record_fields('N', k, val);
        let v1 = StoreView { notes: v.notes.insert(k, val), ..v };
        assert(seq!['N'] != seq!['S']) by {
            assert(seq!['N'][0] != seq!['S'][0]);
        }
        assert(apply_record(v, r) == v1);
        assert forall|i: int| 0 <= i < ps.drop_first().len() implies fits_field(
            #[trigger] ps.drop_first()[i].0,
        ) && fits_last_field(ps.drop_first()[i].1) by {
            assert(ps.drop_first()[i] == ps[i + 1]);
            assert(fits_field(ps[i + 1].0) && fits_last_field(ps[i + 1].1));
        }
        lemma_load_notes(v1, ps.drop_first(), rest);
    }
}

proof fn lemma_decimal_fits(n: nat)
    ensures
        fits_last_field(decimal(n)),
{
    crate::number::lemma_decimal_digits(n);
    let d = decimal(n);
    assert forall|i: int| 0 <= i < d.len() implies d[i] != '\t' && d[i] != '\n' && d[i]
        != '\r' by {
        assert(crate::number::is_digit(d[i]));
    }
    assert(d.last() == d[d.len() - 1]);
}

proof fn lemma_load_stamps(v: StoreView, ps: Seq<(Seq<char>, u64)>, rest: Seq<char>)
    requires
        forall|i: int| 0 <= i < ps.len() ==> fits_field(#[trigger] ps[i].0),
    ensures
        load_lines(v, lines_spec(stamp_records(ps) + rest)) == load_lines(
            StoreView { wifi_endpoints: insert_all(v.wifi_endpoints, ps), ..v },
            lines_spec(rest),
        ),
    decreases ps.len(),
{
    if ps.len() == 0 {
        assert(stamp_records(ps) + rest =~= rest);
        assert(StoreView { wifi_endpoints: insert_all(v.wifi_endpoints, ps), ..v } == v);
    } else {
        let (k, n) = ps[0];
        assert(fits_field(ps[0].0));
        lemma_clean_fitting(k);
        let d = decimal(n as nat);
        lemma_decimal_fits(n as nat);
        crate::number::lemma_parse_format_u64(n);
        let r = record('W', k, d);
        let tail = stamp_records(ps.drop_first()) + rest;
        assert(stamp_records(ps) + rest =~= r + seq!['\n'] + tail);
        lemma_record_line('W', k, d);
        lemma_lines_cons(r, tail);
        lemma_load_cons(v, r, lines_spec(tail));
        lemma_record_fields('W', k, d);
        let v1 = StoreView { wifi_endpoints: v.wifi_endpoints.insert(k, n), ..v };
        assert(seq!['W'] != seq!['S']) by {
            assert(seq!['W'][0] != seq!['S'][0]);
        }
        assert(seq!['W'] != seq!['N']) by {
            assert(seq!['W'][0] != seq!['N'][0]);
        }
        assert(apply_record(v, r) == v1);
        assert forall|i: int| 0 <= i < ps.drop_first().len() implies fits_field(
            #[trigger] ps.drop_first()[i].0,
        ) by {
            assert(ps.drop_first()[i] == ps[i + 1]);
        }
        lemma_load_stamps(v1, ps.drop_first(), rest);
    }
}

proof fn lemma_insert_all<W>(m: Map<Seq<char>, W>, ps: Seq<(Seq<char>, W)>)
    requires
        strictly_sorted(ps),
    ensures
        insert_all(m, ps) == m.union_prefer_right(map_of(ps)),
    decreases ps.len(),
{
    if ps.len() == 0 {
        assert(m.union_prefer_right(map_of(ps)) =~= m);
    } else {
        let q = ps.drop_first();
        assert(strictly_sorted(q)) by {
            assert forall|i: int, j: int| 0 <= i < j < q.len() implies lex_lt(
                #[trigger] q[i].0,
                #[trigger] q[j].0,
            ) by {
                assert(q[i] == ps[i + 1] && q[j] == ps[j + 1]);
            }
        }
        lemma_insert_all(m.insert(ps[0].0, ps[0].1), q);
        lemma_map_of(ps);
        lemma_map_of(q);
        lemma_sorted_distinct(ps);
        let a = m.insert(ps[0].0, ps[0].1).union_prefer_right(map_of(q));
        let b = m.union_prefer_right(map_of(ps));
        assert forall|x: Seq<char>| map_of(q).dom().contains(x) <==> (map_of(ps).dom().contains(x)
            && x != ps[0].0) by {
            if map_of(q).dom().contains(x) {
                let i = choose|i: int| 0 <= i < q.len() && q[i].0 == x;
                assert(q[i] == ps[i + 1]);
            }
            if map_of(ps).dom().contains(x) && x != ps[0].0 {
                let i = choose|i: int| 0 <= i < ps.len() && ps[i].0 == x;
                assert(q[i - 1] == ps[i]);
            }
        }
        assert forall|x: Seq<char>| #[trigger] map_of(q).dom().contains(x) implies map_of(q)[x]
            == map_of(ps)[x] by {
            let i = choose|i: int| 0 <= i < q.len() && q[i].0 == x;
            assert(q[i] == ps[i + 1]);
        }
        assert(map_of(ps).dom().contains(ps[0].0));
        assert(a =~= b);
    }
}

/// Writing a store out and reading the text back gives the same store,
/// provided no key or value holds a tab or a newline (which writing replaces
/// by spaces) and no text value ends in a carriage return (which reading
/// drops with the line's end).
pub proof fn lemma_store_text_round_trip(v: StoreView)
    requires
        v.settings.dom().finite(),
        v.notes.dom().finite(),
        v.wifi_endpoints.dom().finite(),
        forall|k: Seq<char>|
            #[trigger] v.settings.dom().contains(k) ==> fits_field(k) && fits_last_field(
                v.settings[k],
            ),
        forall|k: Seq<char>|
            #[trigger] v.notes.dom().contains(k) ==> fits_field(k) && fits_last_field(v.notes[k]),
        forall|k: Seq<char>| #[trigger] v.wifi_endpoints.dom().contains(k) ==> fits_field(k),
    ensures
        load_text(store_text(v)) == v,
{
    let sp = sorted_pairs(v.settings);
    let np = sorted_pairs(v.notes);
    let wp = sorted_pairs(v.wifi_endpoints);
    lemma_sorted_exists(v.settings);
    lemma_sorted_exists(v.notes);
    lemma_sorted_exists(v.wifi_endpoints);
    lemma_map_of(sp);
    lemma_map_of(np);
    lemma_map_of(wp);
    let a = text_records('S', sp);
    let b = text_records('N', np);
    let c = stamp_records(wp);
    assert(store_text(v) == a + (b + c));
    lemma_load_settings(empty_view(), sp, b + c);
    let v1 = StoreView { settings: insert_all(Map::empty(), sp), ..empty_view() };
    lemma_load_notes(v1, np, c);
    let v2 = StoreView { notes: insert_all(Map::empty(), np), ..v1 };
    assert(c + Seq::<char>::empty() == c);
    lemma_load_stamps(v2, wp, Seq::empty());
    let v3 = StoreView { wifi_endpoints: insert_all(Map::empty(), wp), ..v2 };
    assert(lines_spec(Seq::<char>::empty()) == Seq::<Seq<char>>::empty());
    lemma_insert_all(Map::<Seq<char>, Seq<char>>::empty(), sp);
    lemma_insert_all(Map::<Seq<char>, Seq<char>>::empty(), np);
    lemma_insert_all(Map::<Seq<char>, u64>::empty(), wp);
    assert(Map::<Seq<char>, Seq<char>>::empty().union_prefer_right(map_of(sp)) =~= v.settings);
    assert(Map::<Seq<char>, Seq<char>>::empty().union_prefer_right(map_of(np)) =~= v.notes);
    assert(Map::<Seq<char>, u64>::empty().union_prefer_right(map_of(wp)) =~= v.wifi_endpoints);
    assert(v3 == v);
}

// ---------- listing ----------
pub open spec fn setting_lines(ps: Seq<(Seq<char>, Seq<char>)>) -> Seq<Seq<char>> {
    ps.map_values(|p: (Seq<char>, Seq<char>)| p.0 + " = "@ + p.1)
}

pub open spec fn note_lines(ps: Seq<(Seq<char>, Seq<char>)>) -> Seq<Seq<char>> {
    ps.map_values(|p: (Seq<char>, Seq<char>)| p.0 + ": "@ + p.1)
}

pub open spec fn endpoint_lines(ps: Seq<(Seq<char>, u64)>) -> Seq<Seq<char>> {
    ps.map_values(|p: (Seq<char>, u64)| p.0 + " (last_ok="@ + decimal(p.1 as nat) + ")"@)
}

/// What `config` prints: where the store is, then its settings, notes and
/// Wi-Fi endpoints under headings, each group in increasing key order.
pub open spec fn config_lines_spec(v: StoreView, path: Seq<char>) -> Seq<Seq<char>> {
    seq!["# store: "@ + path, "[settings]"@] + setting_lines(sorted_pairs(v.settings)) + seq![
        "[notes]"@,
    ] + note_lines(sorted_pairs(v.notes)) + seq!["[wifi_endpoints]"@] + endpoint_lines(
        sorted_pairs(v.wifi_endpoints),
    )
}

impl Store {
    fn push_setting_lines(&self, r: &mut Vec<Vec<char>>)
        ensures
            views(final(r)@) == views(old(r)@) + setting_lines(sorted_pairs(self@.settings)),
    {
        proof {
            use_type_invariant(self);
            lemma_sorted_pairs_is(self.settings.pairs());
        }
        let ghost base = views(r@);
        let ghost ps = self.settings.pairs();
        let mut i: usize = 0;
        assert(setting_lines(ps.subrange(0, 0)) =~= Seq::<Seq<char>>::empty());
        assert(base + setting_lines(ps.subrange(0, 0)) =~= base);
        while i < self.settings.entries.len()
            invariant
                ps == self.settings.pairs(),
                i <= ps.len(),
                views(r@) == base + setting_lines(ps.subrange(0, i as int)),
            decreases ps.len() - i,
        {
            let mut l = crate::text::copy_chars(self.settings.entries[i].0.as_slice());
            crate::text::push_str(&mut l, " = ");
            push_chars(&mut l, self.settings.entries[i].1.as_slice());
            let ghost before = views(r@);
            let ghost lv = l@;
            r.push(l);
            assert(views(r@) =~= before.push(lv));
            assert(setting_lines(ps.subrange(0, i + 1)) =~= setting_lines(
                ps.subrange(0, i as int),
            ).push(lv));
            i = i + 1;
        }
        assert(ps.subrange(0, ps.len() as int) =~= ps);
    }

    fn push_note_lines(&self, r: &mut Vec<Vec<char>>)
        ensures
            views(final(r)@) == views(old(r)@) + note_lines(sorted_pairs(self@.notes)),
    {
        proof {
            use_type_invariant(self);
            lemma_sorted_pairs_is(self.notes.pairs());
        }
        let ghost base = views(r@);
        let ghost ns = self.notes.pairs();
        let mut i: usize = 0;
        assert(note_lines(ns.subrange(0, 0)) =~= Seq::<Seq<char>>::empty());
        assert(base + note_lines(ns.subrange(0, 0)) =~= base);
        while i < self.notes.entries.len()
            invariant
                ns == self.notes.pairs(),
                i <= ns.len(),
                views(r@) == base + note_lines(ns.subrange(0, i as int)),
            decreases ns.len() - i,
        {
            let mut l = crate::text::copy_chars(self.notes.entries[i].0.as_slice());
            crate::text::push_str(&mut l, ": ");
            push_chars(&mut l, self.notes.entries[i].1.as_slice());
            let ghost before = views(r@);
            let ghost lv = l@;
            r.push(l);
            assert(views(r@) =~= before.push(lv));
            assert(note_lines(ns.subrange(0, i + 1)) =~= note_lines(ns.subrange(0, i as int)).push(
                lv,
            ));
            i = i + 1;
        }
        assert(ns.subrange(0, ns.len() as int) =~= ns);
    }

    fn push_endpoint_lines(&self, r: &mut Vec<Vec<char>>)
        ensures
            views(final(r)@) == views(old(r)@) + endpoint_lines(sorted_pairs(self@.wifi_endpoints)),
    {
        proof {
            use_type_invariant(self);
            lemma_sorted_pairs_is(self.wifi_endpoints.pairs());
        }
        let ghost base = views(r@);
        let ghost ws = self.wifi_endpoints.pairs();
        let mut i: usize = 0;
        assert(endpoint_lines(ws.subrange(0, 0)) =~= Seq::<Seq<char>>::empty());
        assert(base + endpoint_lines(ws.subrange(0, 0)) =~= base);
        while i < self.wifi_endpoints.entries.len()
            invariant
                ws == self.wifi_endpoints.pairs(),
                i <= ws.len(),
                views(r@) == base + endpoint_lines(ws.subrange(0, i as int)),
            decreases ws.len() - i,
        {
            let mut l = crate::text::copy_chars(self.wifi_endpoints.entries[i].0.as_slice());
            crate::text::push_str(&mut l, " (last_ok=");
            let d = format_u64(self.wifi_endpoints.entries[i].1);
            push_chars(&mut l, d.as_slice());
            crate::text::push_str(&mut l, ")");
            let ghost before = views(r@);
            let ghost lv = l@;
            r.push(l);
            assert(views(r@) =~= before.push(lv));
            assert(endpoint_lines(ws.subrange(0, i + 1)) =~= endpoint_lines(
                ws.subrange(0, i as int),
            ).push(lv));
            i = i + 1;
        }
        assert(ws.subrange(0, ws.len() as int) =~= ws);
    }

    /// What `config` prints.
    pub fn config_lines(&self, path: &[char]) -> (r: Vec<Vec<char>>)
        ensures
            views(r@) == config_lines_spec(self@, path@),
    {
        let mut r: Vec<Vec<char>> = Vec::new();
        let mut first = crate::text::chars_of("# store: ");
        push_chars(&mut first, path);
        r.push(first);
        r.push(crate::text::chars_of("[settings]"));
        assert(views(r@) =~= seq!["# store: "@ + path@, "[settings]"@]);
        self.push_setting_lines(&mut r);
        let ghost a = views(r@);
        r.push(crate::text::chars_of("[notes]"));
        assert(views(r@) =~= a.push("[notes]"@));
        self.push_note_lines(&mut r);
        let ghost b = views(r@);
        r.push(crate::text::chars_of("[wifi_endpoints]"));
        assert(views(r@) =~= b.push("[wifi_endpoints]"@));
        self.push_endpoint_lines(&mut r);
        assert(views(r@) =~= config_lines_spec(self@, path@));
        r
    }
}

/// After `clean`, text fits in one field of a line, has as many characters
/// as before, and cleaning it again changes nothing.
pub proof fn lemma_clean_fits(s: Seq<char>)
    ensures
        fits_field(clean_spec(s)),
        clean_spec(s).len() == s.len(),
        clean_spec(clean_spec(s)) == clean_spec(s),
{
    let c = clean_spec(s);
    assert forall|i: int| 0 <= i < c.len() implies c[i] != '\t' && c[i] != '\n' by {}
    lemma_clean_fitting(c);
}

/// Disconnecting from an endpoint after connecting to it leaves the store's
/// endpoints as disconnecting alone would: the endpoint is gone and no other
/// entry changed.
pub proof fn lemma_forget_after_record(v: StoreView, target: Seq<char>, now: u64)
    ensures
        v.wifi_endpoints.insert(target, now).remove(target) == v.wifi_endpoints.remove(target),
        !v.wifi_endpoints.insert(target, now).remove(target).dom().contains(target),
{
    assert(v.wifi_endpoints.insert(target, now).remove(target) =~= v.wifi_endpoints.remove(target));
}

/// An empty text describes the empty store.
pub proof fn lemma_load_empty_text()
    ensures
        load_text(Seq::empty()) == empty_view(),
{
    assert(lines_spec(Seq::<char>::empty()) == Seq::<Seq<char>>::empty());
}

// ---------- what any store writes ----------
proof fn lemma_map_of_finite<W>(ps: Seq<(Seq<char>, W)>)
    ensures
        map_of(ps).dom().finite(),
    decreases ps.len(),
{
    if ps.len() > 0 {
        lemma_map_of_finite(ps.drop_last());
    }
}

impl Store {
    /// The maps of a store are finite.
    pub proof fn lemma_view_finite(self)
        ensures
            self@.settings.dom().finite(),
            self@.notes.dom().finite(),
            self@.wifi_endpoints.dom().finite(),
    {
        lemma_map_of_finite(self.settings.pairs());
        lemma_map_of_finite(self.notes.pairs());
        lemma_map_of_finite(self.wifi_endpoints.pairs());
    }

    /// Writing this store out and reading the text back gives this store,
    /// provided no key or value holds a tab or a newline and no text value
    /// ends in a carriage return.
    pub proof fn lemma_round_trip(self)
        requires
            forall|k: Seq<char>|
                #[trigger] self@.settings.dom().contains(k) ==> fits_field(k) && fits_last_field(
                    self@.settings[k],
                ),
            forall|k: Seq<char>|
                #[trigger] self@.notes.dom().contains(k) ==> fits_field(k) && fits_last_field(
                    self@.notes[k],
                ),
            forall|k: Seq<char>| #[trigger] self@.wifi_endpoints.dom().contains(k) ==> fits_field(k),
        ensures
            load_text(store_text(self@)) == self@,
    {
        self.lemma_view_finite();
        lemma_store_text_round_trip(self@);
    }

    /// What writing this store out gives, whatever its keys and values hold:
    /// one line per entry, each a record of three tab-separated fields, and
    /// reading the text back finds only cleaned keys of this store.
    pub proof fn lemma_text_shape(self)
        ensures
            lines_spec(store_text(self@)) == store_lines(self@),
            store_lines(self@).len() == self@.settings.dom().len() + self@.notes.dom().len()
                + self@.wifi_endpoints.dom().len(),
            forall|i: int|
                0 <= i < store_lines(self@).len() ==> is_store_record(
                    #[trigger] store_lines(self@)[i],
                ),
            forall|k: Seq<char>|
                #[trigger] load_text(store_text(self@)).settings.dom().contains(k) ==> exists|
                    k0: Seq<char>,
                | self@.settings.dom().contains(k0) && clean_spec(k0) == k,
            forall|k: Seq<char>|
                #[trigger] load_text(store_text(self@)).notes.dom().contains(k) ==> exists|
                    k0: Seq<char>,
                | self@.notes.dom().contains(k0) && clean_spec(k0) == k,
            forall|k: Seq<char>|
                #[trigger] load_text(store_text(self@)).wifi_endpoints.dom().contains(k) ==> exists|
                    k0: Seq<char>,
                | self@.wifi_endpoints.dom().contains(k0) && clean_spec(k0) == k,
    {
        self.lemma_view_finite();
        lemma_store_text_shape(self@);
    }
}

/// The line that writing a text entry gives, as reading sees it: the record of
/// the cleaned key and value, without a carriage return at its end.
pub open spec fn saved_lines(tag: char, ps: Seq<(Seq<char>, Seq<char>)>) -> Seq<Seq<char>> {
    ps.map_values(
        |p: (Seq<char>, Seq<char>)| strip_cr(record(tag, clean_spec(p.0), clean_spec(p.1))),
    )
}

pub open spec fn saved_stamp_lines(ps: Seq<(Seq<char>, u64)>) -> Seq<Seq<char>> {
    ps.map_values(|p: (Seq<char>, u64)| record('W', clean_spec(p.0), decimal(p.1 as nat)))
}

/// The lines of the text a store is written as.
pub open spec fn store_lines(v: StoreView) -> Seq<Seq<char>> {
    saved_lines('S', sorted_pairs(v.settings)) + saved_lines('N', sorted_pairs(v.notes))
        + saved_stamp_lines(sorted_pairs(v.wifi_endpoints))
}

/// A line of three tab-separated fields led by `S`, `N` or `W`.
pub open spec fn is_store_record(l: Seq<char>) -> bool {
    &&& l.len() >= 2
    &&& (l[0] == 'S' || l[0] == 'N' || l[0] == 'W')
    &&& l[1] == '\t'
    &&& tab_from(l, 2) < l.len()
    &&& tab_from(l, tab_from(l, 2) + 1) == l.len()
    &&& !l.contains('\n')
}

/// What reading a written entry stores: the cleaned key and the cleaned value
/// without a carriage return at its end.
pub open spec fn cleaned_pairs(ps: Seq<(Seq<char>, Seq<char>)>) -> Seq<(Seq<char>, Seq<char>)> {
    ps.map_values(|p: (Seq<char>, Seq<char>)| (clean_spec(p.0), strip_cr(clean_spec(p.1))))
}

pub open spec fn cleaned_stamps(ps: Seq<(Seq<char>, u64)>) -> Seq<(Seq<char>, u64)> {
    ps.map_values(|p: (Seq<char>, u64)| (clean_spec(p.0), p.1))
}

proof fn lemma_no_tab_to_end(l: Seq<char>, i: int)
    requires
        0 <= i <= l.len(),
        forall|j: int| i <= j < l.len() ==> l[j] != '\t',
    ensures
        tab_from(l, i) == l.len(),
    decreases l.len() - i,
{
    if i < l.len() {
        lemma_no_tab_to_end(l, i + 1);
    }
}

proof fn lemma_strip_cr_record(tag: char, k: Seq<char>, val: Seq<char>)
    requires
        tag != '\r',
    ensures
        strip_cr(record(tag, k, val)) == record(tag, k, strip_cr(val)),
{
    let r = record(tag, k, val);
    if val.len() > 0 {
        assert(r.last() == val.last());
        if val.last() == '\r' {
            assert(r.drop_last() =~= record(tag, k, val.drop_last()));
        }
    } else {
        assert(r.last() == '\t');
    }
}

proof fn lemma_fits_strip_cr(s: Seq<char>)
    requires
        fits_field(s),
    ensures
        fits_field(strip_cr(s)),
{
    if s.len() > 0 && s.last() == '\r' {
        assert forall|j: int| 0 <= j < s.drop_last().len() implies s.drop_last()[j] != '\t'
            && s.drop_last()[j] != '\n' by {
            assert(s.drop_last()[j] == s[j]);
        }
    }
}

proof fn lemma_record_shape(tag: char, k: Seq<char>, val: Seq<char>)
    requires
        tag == 'S' || tag == 'N' || tag == 'W',
        fits_field(k),
        fits_field(val),
    ensures
        is_store_record(record(tag, k, val)),
{
    let r = record(tag, k, val);
    lemma_record_fields(tag, k, val);
    assert forall|j: int| 3 + k.len() <= j < r.len() implies r[j] != '\t' by {
        assert(r[j] == val[j - 3 - k.len()]);
    }
    lemma_no_tab_to_end(r, 3 + k.len() as int);
    assert forall|j: int| 0 <= j < r.len() implies r[j] != '\n' by {
        if 2 <= j < 2 + k.len() {
            assert(r[j] == k[j - 2]);
        } else if 3 + k.len() <= j {
            assert(r[j] == val[j - 3 - k.len()]);
        }
    }
}

proof fn lemma_lines_records(tag: char, ps: Seq<(Seq<char>, Seq<char>)>, rest: Seq<char>)
    requires
        tag == 'S' || tag == 'N',
    ensures
        lines_spec(text_records(tag, ps) + rest) == saved_lines(tag, ps) + lines_spec(rest),
    decreases ps.len(),
{
    if ps.len() == 0 {
        assert(text_records(tag, ps) + rest =~= rest);
        assert(saved_lines(tag, ps) + lines_spec(rest) =~= lines_spec(rest));
    } else {
        let k = clean_spec(ps[0].0);
        let val = clean_spec(ps[0].1);
        lemma_clean_fits(ps[0].0);
        lemma_clean_fits(ps[0].1);
        let r = record(tag, k, val);
        lemma_record_shape(tag, k, val);
        let tail = text_records(tag, ps.drop_first()) + rest;
        assert(text_records(tag, ps) + rest =~= r + seq!['\n'] + tail);
        lemma_lines_cons(r, tail);
        lemma_lines_records(tag, ps.drop_first(), rest);
        assert(saved_lines(tag, ps) =~= seq![strip_cr(r)] + saved_lines(tag, ps.drop_first()));
        assert(seq![strip_cr(r)] + (saved_lines(tag, ps.drop_first()) + lines_spec(rest))
            =~= saved_lines(tag, ps) + lines_spec(rest));
    }
}

proof fn lemma_lines_stamps(ps: Seq<(Seq<char>, u64)>, rest: Seq<char>)
    ensures
        lines_spec(stamp_records(ps) + rest) == saved_stamp_lines(ps) + lines_spec(rest),
    decreases ps.len(),
{
    if ps.len() == 0 {
        assert(stamp_records(ps) + rest =~= rest);
        assert(saved_stamp_lines(ps) + lines_spec(rest) =~= lines_spec(rest));
    } else {
        let k = clean_spec(ps[0].0);
        let d = decimal(ps[0].1 as nat);
        lemma_clean_fits(ps[0].0);
        lemma_decimal_fits(ps[0].1 as nat);
        let r = record('W', k, d);
        lemma_record_line('W', k, d);
        let tail = stamp_records(ps.drop_first()) + rest;
        assert(stamp_records(ps) + rest =~= r + seq!['\n'] + tail);
        lemma_lines_cons(r, tail);
        lemma_lines_stamps(ps.drop_first(), rest);
        assert(saved_stamp_lines(ps) =~= seq![r] + saved_stamp_lines(ps.drop_first()));
        assert(seq![r] + (saved_stamp_lines(ps.drop_first()) + lines_spec(rest))
            =~= saved_stamp_lines(ps) + lines_spec(rest));
    }
}

proof fn lemma_load_append(v: StoreView, x: Seq<Seq<char>>, y: Seq<Seq<char>>)
    ensures
        load_lines(v, x + y) == load_lines(load_lines(v, x), y),
    decreases x.len(),
{
    if x.len() == 0 {
        assert(x + y =~= y);
    } else {
        assert((x + y)[0] == x[0]);
        assert((x + y).drop_first() =~= x.drop_first() + y);
        lemma_load_append(apply_record(v, x[0]), x.drop_first(), y);
    }
}

proof fn lemma_load_saved(v: StoreView, tag: char, ps: Seq<(Seq<char>, Seq<char>)>)
    requires
        tag == 'S' || tag == 'N',
    ensures
        tag == 'S' ==> load_lines(v, saved_lines(tag, ps)) == (StoreView {
            settings: insert_all(v.settings, cleaned_pairs(ps)),
            ..v
        }),
        tag == 'N' ==> load_lines(v, saved_lines(tag, ps)) == (StoreView {
            notes: insert_all(v.notes, cleaned_pairs(ps)),
            ..v
        }),
    decreases ps.len(),
{
    if ps.len() == 0 {
        assert(saved_lines(tag, ps) =~= Seq::<Seq<char>>::empty());
        assert(cleaned_pairs(ps) =~= Seq::<(Seq<char>, Seq<char>)>::empty());
        assert(StoreView { settings: insert_all(v.settings, cleaned_pairs(ps)), ..v } == v);
        assert(StoreView { notes: insert_all(v.notes, cleaned_pairs(ps)), ..v } == v);
    } else {
        let k = clean_spec(ps[0].0);
        let val = clean_spec(ps[0].1);
        lemma_clean_fits(ps[0].0);
        lemma_clean_fits(ps[0].1);
        lemma_strip_cr_record(tag, k, val);
        let l = record(tag, k, strip_cr(val));
        lemma_record_fields(tag, k, strip_cr(val));
        assert(saved_lines(tag, ps) =~= seq![l] + saved_lines(tag, ps.drop_first()));
        lemma_load_cons(v, l, saved_lines(tag, ps.drop_first()));
        assert(seq!['N'] != seq!['S']) by {
            assert(seq!['N'][0] != seq!['S'][0]);
        }
        let v1 = apply_record(v, l);
        if tag == 'S' {
            assert(v1 == StoreView { settings: v.settings.insert(k, strip_cr(val)), ..v });
        } else {
            assert(v1 == StoreView { notes: v.notes.insert(k, strip_cr(val)), ..v });
        }
        lemma_load_saved(v1, tag, ps.drop_first());
        assert(cleaned_pairs(ps)[0] == (k, strip_cr(val)));
        assert(cleaned_pairs(ps).drop_first() =~= cleaned_pairs(ps.drop_first()));
    }
}

proof fn lemma_load_saved_stamps(v: StoreView, ps: Seq<(Seq<char>, u64)>)
    ensures
        load_lines(v, saved_stamp_lines(ps)) == (StoreView {
            wifi_endpoints: insert_all(v.wifi_endpoints, cleaned_stamps(ps)),
            ..v
        }),
    decreases ps.len(),
{
    if ps.len() == 0 {
        assert(saved_stamp_lines(ps) =~= Seq::<Seq<char>>::empty());
        assert(cleaned_stamps(ps) =~= Seq::<(Seq<char>, u64)>::empty());
        assert(StoreView { wifi_endpoints: insert_all(v.wifi_endpoints, cleaned_stamps(ps)), ..v }
            == v);
    } else {
        let k = clean_spec(ps[0].0);
        let n = ps[0].1;
        let d = decimal(n as nat);
        lemma_clean_fits(ps[0].0);
        crate::number::lemma_parse_format_u64(n);
        let l = record('W', k, d);
        lemma_record_fields('W', k, d);
        assert(saved_stamp_lines(ps) =~= seq![l] + saved_stamp_lines(ps.drop_first()));
        lemma_load_cons(v, l, saved_stamp_lines(ps.drop_first()));
        assert(seq!['W'] != seq!['S']) by {
            assert(seq!['W'][0] != seq!['S'][0]);
        }
        assert(seq!['W'] != seq!['N']) by {
            assert(seq!['W'][0] != seq!['N'][0]);
        }
        let v1 = apply_record(v, l);
        assert(v1 == StoreView { wifi_endpoints: v.wifi_endpoints.insert(k, n), ..v });
        lemma_load_saved_stamps(v1, ps.drop_first());
        assert(cleaned_stamps(ps)[0] == (k, n));
        assert(cleaned_stamps(ps).drop_first() =~= cleaned_stamps(ps.drop_first()));
    }
}

proof fn lemma_insert_all_dom<W>(m: Map<Seq<char>, W>, qs: Seq<(Seq<char>, W)>, x: Seq<char>)
    requires
        insert_all(m, qs).dom().contains(x),
    ensures
        m.dom().contains(x) || exists|i: int| 0 <= i < qs.len() && qs[i].0 == x,
    decreases qs.len(),
{
    if qs.len() > 0 {
        lemma_insert_all_dom(m.insert(qs[0].0, qs[0].1), qs.drop_first(), x);
        if !m.insert(qs[0].0, qs[0].1).dom().contains(x) {
            let i = choose|i: int| 0 <= i < qs.drop_first().len() && qs.drop_first()[i].0 == x;
            assert(qs[i + 1].0 == x);
        } else if x == qs[0].0 {
            assert(qs[0].0 == x);
        }
    }
}

proof fn lemma_sorted_len<W>(ps: Seq<(Seq<char>, W)>)
    requires
        strictly_sorted(ps),
    ensures
        map_of(ps).dom().len() == ps.len(),
    decreases ps.len(),
{
    if ps.len() > 0 {
        let q = ps.drop_last();
        assert(strictly_sorted(q)) by {
            assert forall|i: int, j: int| 0 <= i < j < q.len() implies lex_lt(
                #[trigger] q[i].0,
                #[trigger] q[j].0,
            ) by {
                assert(q[i] == ps[i] && q[j] == ps[j]);
            }
        }
        lemma_sorted_len(q);
        lemma_map_of(q);
        assert(!map_of(q).dom().contains(ps.last().0)) by {
            if map_of(q).dom().contains(ps.last().0) {
                let i = choose|i: int| 0 <= i < q.len() && q[i].0 == ps.last().0;
                lemma_lex_order();
                assert(lex_lt(ps[i].0, ps[ps.len() - 1].0));
            }
        }
        assert(map_of(ps).dom() =~= map_of(q).dom().insert(ps.last().0));
    }
}

/// What any store writes: one line per entry, in the order of `store_lines`,
/// each of three tab-separated fields led by `S`, `N` or `W`; and every key
/// that reading the text back finds is the cleaned form of a key of the
/// store, so no value can bring in an entry of its own.
pub proof fn lemma_store_text_shape(v: StoreView)
    requires
        v.settings.dom().finite(),
        v.notes.dom().finite(),
        v.wifi_endpoints.dom().finite(),
    ensures
        lines_spec(store_text(v)) == store_lines(v),
        store_lines(v).len() == v.settings.dom().len() + v.notes.dom().len()
            + v.wifi_endpoints.dom().len(),
        forall|i: int| 0 <= i < store_lines(v).len() ==> is_store_record(#[trigger] store_lines(v)[i]),
        forall|k: Seq<char>|
            #[trigger] load_text(store_text(v)).settings.dom().contains(k) ==> exists|k0: Seq<char>|
                v.settings.dom().contains(k0) && clean_spec(k0) == k,
        forall|k: Seq<char>|
            #[trigger] load_text(store_text(v)).notes.dom().contains(k) ==> exists|k0: Seq<char>|
                v.notes.dom().contains(k0) && clean_spec(k0) == k,
        forall|k: Seq<char>|
            #[trigger] load_text(store_text(v)).wifi_endpoints.dom().contains(k) ==> exists|
                k0: Seq<char>,
            | v.wifi_endpoints.dom().contains(k0) && clean_spec(k0) == k,
{
    let sp = sorted_pairs(v.settings);
    let np = sorted_pairs(v.notes);
    let wp = sorted_pairs(v.wifi_endpoints);
    lemma_sorted_exists(v.settings);
    lemma_sorted_exists(v.notes);
    lemma_sorted_exists(v.wifi_endpoints);
    lemma_map_of(sp);
    lemma_map_of(np);
    lemma_map_of(wp);
    lemma_sorted_len(sp);
    lemma_sorted_len(np);
    lemma_sorted_len(wp);
    let a = text_records('S', sp);
    let b = text_records('N', np);
    let c = stamp_records(wp);
    assert(store_text(v) == a + (b + c));
    assert(c + Seq::<char>::empty() == c);
    assert(lines_spec(Seq::<char>::empty()) == Seq::<Seq<char>>::empty());
    lemma_lines_stamps(wp, Seq::empty());
    lemma_lines_records('N', np, c);
    lemma_lines_records('S', sp, b + c);
    let ls = saved_lines('S', sp);
    let ln = saved_lines('N', np);
    let lw = saved_stamp_lines(wp);
    assert(lw + Seq::<Seq<char>>::empty() =~= lw);
    assert(lines_spec(store_text(v)) =~= store_lines(v));
    assert forall|i: int| 0 <= i < store_lines(v).len() implies is_store_record(
        #[trigger] store_lines(v)[i],
    ) by {
        if i < ls.len() {
            assert(store_lines(v)[i] == ls[i]);
            lemma_clean_fits(sp[i].0);
            lemma_clean_fits(sp[i].1);
            lemma_strip_cr_record('S', clean_spec(sp[i].0), clean_spec(sp[i].1));
            lemma_fits_strip_cr(clean_spec(sp[i].1));
            lemma_record_shape('S', clean_spec(sp[i].0), strip_cr(clean_spec(sp[i].1)));
        } else if i < ls.len() + ln.len() {
            let j = i - ls.len();
            assert(store_lines(v)[i] == ln[j]);
            lemma_clean_fits(np[j].0);
            lemma_clean_fits(np[j].1);
            lemma_strip_cr_record('N', clean_spec(np[j].0), clean_spec(np[j].1));
            lemma_fits_strip_cr(clean_spec(np[j].1));
            lemma_record_shape('N', clean_spec(np[j].0), strip_cr(clean_spec(np[j].1)));
        } else {
            let j = i - ls.len() - ln.len();
            assert(store_lines(v)[i] == lw[j]);
            lemma_clean_fits(wp[j].0);
            lemma_decimal_fits(wp[j].1 as nat);
            lemma_record_shape('W', clean_spec(wp[j].0), decimal(wp[j].1 as nat));
        }
    }
    lemma_load_append(empty_view(), ls, ln + lw);
    lemma_load_saved(empty_view(), 'S', sp);
    let v1 = StoreView { settings: insert_all(Map::empty(), cleaned_pairs(sp)), ..empty_view() };
    lemma_load_append(v1, ln, lw);
    lemma_load_saved(v1, 'N', np);
    let v2 = StoreView { notes: insert_all(Map::empty(), cleaned_pairs(np)), ..v1 };
    lemma_load_saved_stamps(v2, wp);
    assert(store_lines(v) =~= ls + (ln + lw));
    let r = load_text(store_text(v));
    assert(r.settings == insert_all(Map::<Seq<char>, Seq<char>>::empty(), cleaned_pairs(sp)));
    assert(r.notes == insert_all(Map::<Seq<char>, Seq<char>>::empty(), cleaned_pairs(np)));
    assert(r.wifi_endpoints == insert_all(Map::<Seq<char>, u64>::empty(), cleaned_stamps(wp)));
    assert forall|k: Seq<char>| #[trigger] r.settings.dom().contains(k) implies exists|k0: Seq<char>|
        v.settings.dom().contains(k0) && clean_spec(k0) == k by {
        lemma_insert_all_dom(Map::<Seq<char>, Seq<char>>::empty(), cleaned_pairs(sp), k);
        let i = choose|i: int| 0 <= i < cleaned_pairs(sp).len() && cleaned_pairs(sp)[i].0 == k;
        assert(v.settings.dom().contains(sp[i].0));
    }
    assert forall|k: Seq<char>| #[trigger] r.notes.dom().contains(k) implies exists|k0: Seq<char>|
        v.notes.dom().contains(k0) && clean_spec(k0) == k by {
        lemma_insert_all_dom(Map::<Seq<char>, Seq<char>>::empty(), cleaned_pairs(np), k);
        let i = choose|i: int| 0 <= i < cleaned_pairs(np).len() && cleaned_pairs(np)[i].0 == k;
        assert(v.notes.dom().contains(np[i].0));
    }
    assert forall|k: Seq<char>| #[trigger] r.wifi_endpoints.dom().contains(k) implies exists|
        k0: Seq<char>,
    | v.wifi_endpoints.dom().contains(k0) && clean_spec(k0) == k by {
        lemma_insert_all_dom(Map::<Seq<char>, u64>::empty(), cleaned_stamps(wp), k);
        let i = choose|i: int| 0 <= i < cleaned_stamps(wp).len() && cleaned_stamps(wp)[i].0 == k;
        assert(v.wifi_endpoints.dom().contains(wp[i].0));
    }
}

} // verus!
