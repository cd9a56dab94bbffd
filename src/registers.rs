use vstd::prelude::*;
use std::collections::VecDeque;
use crate::text::chars_of;

verus! {

/// The map that a sequence of (name, contents) entries denotes; a later entry
/// for a name replaces an earlier one.
pub open spec fn bank_of(e: Seq<(Seq<char>, Seq<char>)>) -> Map<Seq<char>, Seq<char>>
    decreases e.len(),
{
    if e.len() == 0 {
        Map::empty()
    } else {
        bank_of(e.drop_last()).insert(e.last().0, e.last().1)
    }
}

pub open spec fn names_distinct(e: Seq<(Seq<char>, Seq<char>)>) -> bool {
    forall|i: int, j: int| 0 <= i < j < e.len() ==> e[i].0 != e[j].0
}

proof fn lemma_bank_absent(e: Seq<(Seq<char>, Seq<char>)>, k: Seq<char>)
    requires
        forall|i: int| 0 <= i < e.len() ==> e[i].0 != k,
    ensures
        !bank_of(e).contains_key(k),
    decreases e.len(),
{
    if e.len() > 0 {
        lemma_bank_absent(e.drop_last(), k);
    }
}

proof fn lemma_bank_find(e: Seq<(Seq<char>, Seq<char>)>, i: int)
    requires
        names_distinct(e),
        0 <= i < e.len(),
    ensures
        bank_of(e).contains_key(e[i].0),
        bank_of(e)[e[i].0] == e[i].1,
    decreases e.len(),
{
    if i < e.len() - 1 {
        lemma_bank_find(e.drop_last(), i);
    }
}

proof fn lemma_bank_update(e: Seq<(Seq<char>, Seq<char>)>, i: int, v: Seq<char>)
    requires
        names_distinct(e),
        0 <= i < e.len(),
    ensures
        bank_of(e.update(i, (e[i].0, v))) == bank_of(e).insert(e[i].0, v),
    decreases e.len(),
{
    let u = e.update(i, (e[i].0, v));
    if i == e.len() - 1 {
        assert(u.drop_last() =~= e.drop_last());
        assert(bank_of(u) =~= bank_of(e).insert(e[i].0, v));
    } else {
        assert(u.drop_last() =~= e.drop_last().update(i, (e[i].0, v)));
        lemma_bank_update(e.drop_last(), i, v);
        assert(bank_of(u) =~= bank_of(e).insert(e[i].0, v));
    }
}

proof fn lemma_bank_remove(e: Seq<(Seq<char>, Seq<char>)>, i: int)
    requires
        names_distinct(e),
        0 <= i < e.len(),
    ensures
        bank_of(e.remove(i)) == bank_of(e).remove(e[i].0),
    decreases e.len(),
{
    let u = e.remove(i);
    if i == e.len() - 1 {
        assert(u =~= e.drop_last());
        lemma_bank_absent(e.drop_last(), e[i].0);
        assert(bank_of(u) =~= bank_of(e).remove(e[i].0));
    } else {
        assert(u.drop_last() =~= e.drop_last().remove(i));
        assert(u.last() == e.last());
        lemma_bank_remove(e.drop_last(), i);
        assert(bank_of(u) =~= bank_of(e).remove(e[i].0));
    }
}

pub open spec fn entries_view(s: Seq<(String, VecDeque<char>)>) -> Seq<(Seq<char>, Seq<char>)> {
    s.map_values(|p: (String, VecDeque<char>)| (p.0@, p.1@))
}

/// Names ordered character by character, a proper prefix first: the order of
/// `String`'s `Ord`, since UTF-8 keeps the order of code points.
pub open spec fn name_lt(a: Seq<char>, b: Seq<char>) -> bool
    decreases a.len(),
{
    if b.len() == 0 {
        false
    } else if a.len() == 0 {
        true
    } else if a[0] != b[0] {
        a[0] < b[0]
    } else {
        name_lt(a.drop_first(), b.drop_first())
    }
}

pub proof fn lemma_name_lt_total(a: Seq<char>, b: Seq<char>)
    ensures
        a != b ==> (name_lt(a, b) || name_lt(b, a)),
        !(name_lt(a, b) && name_lt(b, a)),
        !name_lt(a, a),
    decreases a.len(),
{
    if a.len() > 0 && b.len() > 0 && a[0] == b[0] {
        lemma_name_lt_total(a.drop_first(), b.drop_first());
        if a != b {
            assert(a =~= seq![a[0]] + a.drop_first());
            assert(b =~= seq![b[0]] + b.drop_first());
        }
    }
    if a.len() > 0 {
        lemma_name_lt_total(a.drop_first(), a.drop_first());
    }
    if a.len() == 0 && b.len() == 0 {
        assert(a =~= b);
    }
}

pub proof fn lemma_name_lt_trans(a: Seq<char>, b: Seq<char>, c: Seq<char>)
    requires
        name_lt(a, b),
        name_lt(b, c),
    ensures
        name_lt(a, c),
    decreases a.len(),
{
    if a.len() > 0 && a[0] == b[0] && b[0] == c[0] {
        lemma_name_lt_trans(a.drop_first(), b.drop_first(), c.drop_first());
    }
}

/// Whether `a` comes before `b` in name order.
pub fn name_less(a: &String, b: &String) -> (r: bool)
    ensures
        r == name_lt(a@, b@),
{
    let x = chars_of(a.as_str());
    let y = chars_of(b.as_str());
    let mut i: usize = 0;
    assert(x@.skip(0) =~= x@);
    assert(y@.skip(0) =~= y@);
    while i < x.len() && i < y.len()
        invariant
            x@ == a@,
            y@ == b@,
            i <= x@.len(),
            i <= y@.len(),
            name_lt(a@, b@) == name_lt(x@.skip(i as int), y@.skip(i as int)),
        decreases x@.len() - i,
    {
        if x[i] != y[i] {
            return x[i] < y[i];
        }
        assert(x@.skip(i as int).drop_first() =~= x@.skip(i + 1));
        assert(y@.skip(i as int).drop_first() =~= y@.skip(i + 1));
        i = i + 1;
    }
    i < y.len()
}

pub open spec fn sorted_by_name(s: Seq<(Seq<char>, Seq<char>)>) -> bool {
    forall|i: int, j: int| 0 <= i < j < s.len() ==> name_lt(s[i].0, s[j].0)
}

spec fn in_prefix(e: Seq<(Seq<char>, Seq<char>)>, x: (Seq<char>, Seq<char>), n: int) -> bool {
    exists|m: int| 0 <= m < n && #[trigger] e[m] == x && e[m].1.len() > 0
}

spec fn drawn_from(e: Seq<(Seq<char>, Seq<char>)>, ov: Seq<(Seq<char>, Seq<char>)>, n: int) -> bool {
    forall|j: int| 0 <= j < ov.len() ==> in_prefix(e, #[trigger] ov[j], n)
}

spec fn covers(e: Seq<(Seq<char>, Seq<char>)>, ov: Seq<(Seq<char>, Seq<char>)>, n: int) -> bool {
    forall|m: int| 0 <= m < n && (#[trigger] e[m]).1.len() > 0 ==> exists|j: int|
        0 <= j < ov.len() && ov[j] == e[m]
}

proof fn lemma_skip_keeps(e: Seq<(Seq<char>, Seq<char>)>, ov: Seq<(Seq<char>, Seq<char>)>, i: int)
    requires
        0 <= i < e.len(),
        e[i].1.len() == 0,
        drawn_from(e, ov, i),
        covers(e, ov, i),
    ensures
        drawn_from(e, ov, i + 1),
        covers(e, ov, i + 1),
{
    assert forall|j: int| 0 <= j < ov.len() implies in_prefix(e, #[trigger] ov[j], i + 1) by {
        assert(in_prefix(e, ov[j], i));
        let m = choose|m: int| 0 <= m < i && #[trigger] e[m] == ov[j] && e[m].1.len() > 0;
        assert(0 <= m < i + 1 && e[m] == ov[j] && e[m].1.len() > 0);
    }
}

proof fn lemma_insert_keeps(
    e: Seq<(Seq<char>, Seq<char>)>,
    ov: Seq<(Seq<char>, Seq<char>)>,
    nv: Seq<(Seq<char>, Seq<char>)>,
    pos: int,
    i: int,
)
    requires
        0 <= i < e.len(),
        e[i].1.len() > 0,
        0 <= pos <= ov.len(),
        nv == ov.insert(pos, e[i]),
        drawn_from(e, ov, i),
        covers(e, ov, i),
    ensures
        drawn_from(e, nv, i + 1),
        covers(e, nv, i + 1),
{
    assert forall|j: int| 0 <= j < nv.len() implies in_prefix(e, #[trigger] nv[j], i + 1) by {
        if j == pos {
            assert(e[i] == nv[j]);
        } else {
            let k = if j < pos { j } else { j - 1 };
            assert(nv[j] == ov[k]);
            assert(in_prefix(e, ov[k], i));
            let m = choose|m: int| 0 <= m < i && #[trigger] e[m] == ov[k] && e[m].1.len() > 0;
            assert(0 <= m < i + 1 && e[m] == nv[j] && e[m].1.len() > 0);
        }
    }
    assert forall|m: int| 0 <= m < i + 1 && (#[trigger] e[m]).1.len() > 0 implies exists|j: int|
        0 <= j < nv.len() && nv[j] == e[m] by {
        if m == i {
            assert(nv[pos] == e[m]);
        } else {
            let j = choose|j: int| 0 <= j < ov.len() && ov[j] == e[m];
            if j < pos {
                assert(nv[j] == e[m]);
            } else {
                assert(nv[j + 1] == e[m]);
            }
        }
    }
}

/// Inserts `(name, q)` into `out`, which is sorted by name and does not hold
/// `name`, where it keeps `out` sorted; returns the position.
fn insert_by_name(out: &mut Vec<(String, VecDeque<char>)>, name: String, q: VecDeque<char>) -> (pos: Ghost<int>)
    requires
        sorted_by_name(entries_view(old(out)@)),
        forall|j: int| 0 <= j < old(out)@.len() ==> (#[trigger] entries_view(old(out)@)[j]).0 != name@,
    ensures
        sorted_by_name(entries_view(final(out)@)),
        0 <= pos@ <= old(out)@.len(),
        entries_view(final(out)@) == entries_view(old(out)@).insert(pos@, (name@, q@)),
{
    let ghost ov = entries_view(out@);
    let ghost x = (name@, q@);
    let mut p: usize = 0;
    while p < out.len() && !name_less(&name, &out[p].0)
        invariant
            ov == entries_view(out@),
            p <= ov.len(),
            forall|j: int| 0 <= j < ov.len() ==> (#[trigger] ov[j]).0 != x.0,
            forall|j: int| 0 <= j < p ==> name_lt(#[trigger] ov[j].0, x.0),
            x.0 == name@,
        decreases ov.len() - p,
    {
        proof {
            lemma_name_lt_total(x.0, ov[p as int].0);
            assert(ov[p as int].0 != x.0);
        }
        p = p + 1;
    }
    proof {
        if p < ov.len() {
            assert forall|j: int| p <= j < ov.len() implies name_lt(x.0, #[trigger] ov[j].0) by {
                if j > p {
                    lemma_name_lt_trans(x.0, ov[p as int].0, ov[j].0);
                }
            }
        }
    }
    out.insert(p, (name, q));
    proof {
        let nv = entries_view(out@);
        assert(nv =~= ov.insert(p as int, x));
        assert forall|a: int, b: int| 0 <= a < b < nv.len() implies name_lt(nv[a].0, nv[b].0) by {
            if b < p {
                assert(nv[a] == ov[a] && nv[b] == ov[b]);
            } else if b == p {
                assert(nv[a] == ov[a]);
            } else if a < p {
                assert(nv[a] == ov[a] && nv[b] == ov[b - 1]);
                lemma_name_lt_trans(nv[a].0, x.0, nv[b].0);
            } else if a == p {
                assert(nv[b] == ov[b - 1]);
            } else {
                assert(nv[a] == ov[a - 1] && nv[b] == ov[b - 1]);
            }
        }
    }
    Ghost(p as int)
}

/// `s` lists the registers of `b` with non-empty contents, each with its
/// contents, strictly in name order.
pub open spec fn output_order(b: Map<Seq<char>, Seq<char>>, s: Seq<(Seq<char>, Seq<char>)>) -> bool {
    &&& sorted_by_name(s)
    &&& forall|i: int| 0 <= i < s.len() ==> {
        let (k, v) = #[trigger] s[i];
        b.contains_key(k) && b[k] == v && v.len() > 0
    }
    &&& forall|k: Seq<char>| #[trigger] b.contains_key(k) && b[k].len() > 0 ==> exists|i: int|
        0 <= i < s.len() && (#[trigger] s[i]).0 == k
}

/// A bank of registers: each name maps to a FIFO queue of characters (front
/// first). A name that is absent differs from a name with an empty queue.
pub struct Registers {
    entries: Vec<(String, VecDeque<char>)>,
}

impl Registers {
    pub closed spec fn pairs(&self) -> Seq<(Seq<char>, Seq<char>)> {
        entries_view(self.entries@)
    }

    pub closed spec fn wf(&self) -> bool {
        names_distinct(self.pairs())
    }

    pub closed spec fn view(&self) -> Map<Seq<char>, Seq<char>> {
        bank_of(self.pairs())
    }

    /// An empty bank.
    pub fn new() -> (r: Registers)
        ensures
            r.wf(),
            r.view() == Map::<Seq<char>, Seq<char>>::empty(),
    {
        let r = Registers { entries: Vec::new() };
        assert(r.pairs() =~= Seq::empty());
        r
    }

    fn position(&self, name: &String) -> (r: Option<usize>)
        requires
            self.wf(),
        ensures
            match r {
                Some(i) => i < self.pairs().len() && self.pairs()[i as int].0 == name@,
                None => !self.view().contains_key(name@),
            },
    {
        let mut i: usize = 0;
        while i < self.entries.len()
            invariant
                i <= self.entries@.len(),
                forall|j: int| 0 <= j < i ==> self.pairs()[j].0 != name@,
            decreases self.entries@.len() - i,
        {
            if self.entries[i].0 == *name {
                return Some(i);
            }
            i = i + 1;
        }
        proof {
            lemma_bank_absent(self.pairs(), name@);
        }
        None
    }

    /// Whether the bank has a queue, possibly empty, under `name`.
    pub fn contains(&self, name: &String) -> (r: bool)
        requires
            self.wf(),
        ensures
            r == self.view().contains_key(name@),
    {
        match self.position(name) {
            Some(i) => {
                proof {
                    lemma_bank_find(self.pairs(), i as int);
                }
                true
            },
            None => false,
        }
    }

    /// The queue under `name`, front first, if there is one.
    pub fn get(&self, name: &String) -> (r: Option<VecDeque<char>>)
        requires
            self.wf(),
        ensures
            match r {
                Some(q) => self.view().contains_key(name@) && q@ == self.view()[name@],
                None => !self.view().contains_key(name@),
            },
    {
        match self.position(name) {
            Some(i) => {
                proof {
                    lemma_bank_find(self.pairs(), i as int);
                }
                let q = self.entries[i].1.clone();
                assert(q@ =~= self.entries@[i as int].1@);
                Some(q)
            },
            None => None,
        }
    }

    /// Sets the queue under `name` to `q`, creating it if absent.
    pub fn put(&mut self, name: String, q: VecDeque<char>)
        requires
            old(self).wf(),
        ensures
            final(self).wf(),
            final(self).view() == old(self).view().insert(name@, q@),
    {
        match self.position(&name) {
            Some(i) => {
                let ghost e = self.pairs();
                self.entries.set(i, (name, q));
                proof {
                    assert(self.pairs() =~= e.update(i as int, (e[i as int].0, q@)));
                    lemma_bank_update(e, i as int, q@);
                }
            },
            None => {
                let ghost e = self.pairs();
                let ghost k = name@;
                proof {
                    assert forall|j: int| 0 <= j < e.len() implies e[j].0 != k by {
                        if e[j].0 == k {
                            lemma_bank_find(e, j);
                        }
                    }
                }
                self.entries.push((name, q));
                assert(self.pairs() =~= e.push((k, q@)));
                assert(self.pairs().drop_last() =~= e);
            },
        }
    }

    /// Sets the register `name` to the characters of `value`, front first.
    pub fn insert(&mut self, name: String, value: &str)
        requires
            old(self).wf(),
        ensures
            final(self).wf(),
            final(self).view() == old(self).view().insert(name@, value@),
    {
        let v = chars_of(value);
        let mut q: VecDeque<char> = VecDeque::new();
        let mut i: usize = 0;
        while i < v.len()
            invariant
                i <= v@.len(),
                q@ == v@.take(i as int),
            decreases v@.len() - i,
        {
            q.push_back(v[i]);
            assert(v@.take(i + 1) =~= v@.take(i as int).push(v@[i as int]));
            i = i + 1;
        }
        assert(v@.take(i as int) =~= v@);
        self.put(name, q);
    }

    /// Takes `name` out of the bank entirely.
    pub fn remove(&mut self, name: &String)
        requires
            old(self).wf(),
        ensures
            final(self).wf(),
            final(self).view() == old(self).view().remove(name@),
    {
        match self.position(name) {
            Some(i) => {
                let ghost e = self.pairs();
                self.entries.remove(i);
                proof {
                    assert(self.pairs() =~= e.remove(i as int));
                    lemma_bank_remove(e, i as int);
                }
            },
            None => {
                assert(self.view() =~= self.view().remove(name@));
            },
        }
    }

    /// The registers with non-empty contents, in name order: the final
    /// output of a run.
    pub fn nonempty_sorted(&self) -> (r: Vec<(String, VecDeque<char>)>)
        requires
            self.wf(),
        ensures
            output_order(self.view(), entries_view(r@)),
    {
        let ghost e = self.pairs();
        let mut out: Vec<(String, VecDeque<char>)> = Vec::new();
        let mut i: usize = 0;
        while i < self.entries.len()
            invariant
                e == self.pairs(),
                names_distinct(e),
                i <= e.len(),
                sorted_by_name(entries_view(out@)),
                drawn_from(e, entries_view(out@), i as int),
                covers(e, entries_view(out@), i as int),
            decreases e.len() - i,
        {
            if self.entries[i].1.len() > 0 {
                let name = self.entries[i].0.clone();
                let q = self.entries[i].1.clone();
                assert(q@ =~= e[i as int].1);
                let ghost x = (name@, q@);
                let ghost ov = entries_view(out@);
                // out holds only names of e[..i], all different from e[i]'s
                assert forall|j: int| 0 <= j < ov.len() implies (#[trigger] ov[j]).0 != x.0 by {
                    assert(in_prefix(e, ov[j], i as int));
                    let m = choose|m: int| 0 <= m < i && #[trigger] e[m] == ov[j] && e[m].1.len() > 0;
                    assert(e[m] == ov[j]);
                }
                let gp = insert_by_name(&mut out, name, q);
                proof {
                    lemma_insert_keeps(e, ov, entries_view(out@), gp@, i as int);
                }
            } else {
                proof {
                    lemma_skip_keeps(e, entries_view(out@), i as int);
                }
            }
            i = i + 1;
        }
        proof {
            let ov = entries_view(out@);
            assert(drawn_from(e, ov, e.len() as int));
            assert(covers(e, ov, e.len() as int));
            assert forall|j: int| 0 <= j < out@.len() implies {
                let (k, v) = #[trigger] entries_view(out@)[j];
                self.view().contains_key(k) && self.view()[k] == v && v.len() > 0
            } by {
                assert(in_prefix(e, ov[j], e.len() as int));
                let m = choose|m: int| 0 <= m < e.len() && #[trigger] e[m] == ov[j] && e[m].1.len() > 0;
                lemma_bank_find(e, m);
            }
            assert forall|k: Seq<char>| #[trigger] self.view().contains_key(k) && self.view()[k].len() > 0
                implies exists|j: int| 0 <= j < out@.len() && (#[trigger] entries_view(out@)[j]).0 == k by {
                if forall|m: int| 0 <= m < e.len() ==> e[m].0 != k {
                    lemma_bank_absent(e, k);
                }
                let m = choose|m: int| 0 <= m < e.len() && e[m].0 == k;
                lemma_bank_find(e, m);
                assert(e[m].1.len() > 0);
                let j = choose|j: int| 0 <= j < ov.len() && ov[j] == e[m];
                assert(ov[j].0 == k);
            }
        }
        out
    }

    /// The (name, contents) entries, in no particular order, one per name.
    pub fn entries(&self) -> (r: Vec<(String, VecDeque<char>)>)
        requires
            self.wf(),
        ensures
            entries_view(r@) == self.pairs(),
    {
        let mut out: Vec<(String, VecDeque<char>)> = Vec::new();
        let mut i: usize = 0;
        while i < self.entries.len()
            invariant
                i <= self.entries@.len(),
                entries_view(out@) == self.pairs().take(i as int),
            decreases self.entries@.len() - i,
        {
            let n = self.entries[i].0.clone();
            let q = self.entries[i].1.clone();
            assert(q@ =~= self.entries@[i as int].1@);
            let ghost before = out@;
            assert((n@, q@) == self.pairs()[i as int]);
            out.push((n, q));
            assert(out@ == before.push((n, q)));
            assert(entries_view(out@) =~= entries_view(before).push((n@, q@)));
            assert(self.pairs().take(i + 1) =~= self.pairs().take(i as int).push(self.pairs()[i as int]));
            assert(entries_view(out@)
                =~= self.pairs().take(i + 1));
            i = i + 1;
        }
        assert(self.pairs().take(i as int) =~= self.pairs());
        out
    }
}

} // verus!
