//! The key-value store: entries carry an optional time-to-live in
//! milliseconds, judged against a caller-supplied clock reading, and the map
//! is modelled as a `Map` from key characters to entry views.
use vstd::prelude::*;

verus! {

/// A stored value: incoming text that parses as a signed 64-bit integer is
/// kept in the narrower integer representation.
#[derive(Debug)]
pub enum DBVal {
    String(String),
    Int(i64),
}

/// The mathematical shape of a stored value.
pub enum DBValView {
    Str(Seq<char>),
    Int(i64),
}

impl View for DBVal {
    type V = DBValView;

    open spec fn view(&self) -> DBValView {
        match self {
            DBVal::String(s) => DBValView::Str(s@),
            DBVal::Int(n) => DBValView::Int(*n),
        }
    }
}

impl DBVal {
    /// A deep copy that is equal, as a value, to the original.
    pub fn duplicate(&self) -> (r: DBVal)
        ensures
            r == *self,
    {
        match self {
            DBVal::String(s) => DBVal::String(s.clone()),
            DBVal::Int(n) => DBVal::Int(*n),
        }
    }
}

/// One entry of the store: the value, the instant it was written (in
/// milliseconds of the process clock) and the optional time-to-live.
#[derive(Debug)]
pub struct DBData {
    data: DBVal,
    created_at: u64,
    exp: Option<u64>,
}

/// The mathematical shape of an entry.
pub struct DBDataView {
    pub data: DBValView,
    pub created_at: u64,
    pub exp: Option<u64>,
}

impl View for DBData {
    type V = DBDataView;

    closed spec fn view(&self) -> DBDataView {
        DBDataView { data: self.data@, created_at: self.created_at, exp: self.exp }
    }
}

impl DBData {
    pub fn new(data: DBVal, created_at: u64, exp: Option<u64>) -> (r: Self)
        ensures
            r@ == (DBDataView { data: data@, created_at, exp }),
    {
        Self { data, created_at, exp }
    }

    pub fn data(&self) -> (r: &DBVal)
        ensures
            r@ == self@.data,
    {
        &self.data
    }

    pub fn created_at(&self) -> (r: u64)
        ensures
            r == self@.created_at,
    {
        self.created_at
    }

    pub fn exp(&self) -> (r: Option<u64>)
        ensures
            r == self@.exp,
    {
        self.exp
    }

    /// A deep copy that is equal, as a value, to the original.
    pub fn duplicate(&self) -> (r: DBData)
        ensures
            r == *self,
    {
        DBData { data: self.data.duplicate(), created_at: self.created_at, exp: self.exp }
    }
}

/// An entry's deadline has passed: it has a time-to-live and at least that
/// many milliseconds have elapsed since it was written.
pub open spec fn spec_expired(d: DBDataView, now: u64) -> bool {
    match d.exp {
        Some(ms) => now >= d.created_at + ms,
        None => false,
    }
}

pub fn is_expired(d: &DBData, now: u64) -> (r: bool)
    ensures
        r == spec_expired(d@, now),
{
    match d.exp {
        Some(ms) => {
            let c = d.created_at;
            now >= c && now - c >= ms
        },
        None => false,
    }
}

pub open spec fn distinct_keys(s: Seq<(String, DBData)>) -> bool {
    forall|i: int, j: int|
        0 <= i < j < s.len() ==> (#[trigger] s[i]).0@ != (#[trigger] s[j]).0@
}

pub open spec fn map_of(s: Seq<(String, DBData)>) -> Map<Seq<char>, DBDataView>
    decreases s.len(),
{
    if s.len() == 0 {
        Map::empty()
    } else {
        map_of(s.drop_last()).insert(s.last().0@, s.last().1@)
    }
}

proof fn lemma_map_of_props(s: Seq<(String, DBData)>)
    requires
        distinct_keys(s),
    ensures
        forall|k: Seq<char>| #[trigger]
            map_of(s).contains_key(k) ==> exists|i: int| 0 <= i < s.len() && s[i].0@ == k,
        forall|i: int|
            0 <= i < s.len() ==> map_of(s).contains_key((#[trigger] s[i]).0@) && map_of(s)[s[i].0@]
                == s[i].1@,
    decreases s.len(),
{
    if s.len() > 0 {
        let b = s.drop_last();
        assert(distinct_keys(b)) by {
            assert(forall|i: int| 0 <= i < b.len() ==> #[trigger] b[i] == s[i]);
        }
        lemma_map_of_props(b);
        assert(forall|i: int| 0 <= i < b.len() ==> #[trigger] b[i] == s[i]);
        assert(s.last() == s[s.len() - 1]);
        let kl = s.last().0@;
        assert forall|k: Seq<char>| #[trigger] map_of(s).contains_key(k) implies exists|i: int|
            0 <= i < s.len() && s[i].0@ == k by {
            if k == kl {
                assert(s[s.len() - 1].0@ == k);
            } else {
                assert(map_of(b).contains_key(k));
                let i = choose|i: int| 0 <= i < b.len() && b[i].0@ == k;
                assert(s[i].0@ == k);
            }
        }
        assert forall|i: int| 0 <= i < s.len() implies map_of(s).contains_key(
            (#[trigger] s[i]).0@,
        ) && map_of(s)[s[i].0@] == s[i].1@ by {
            if i < s.len() - 1 {
                assert(b[i] == s[i]);
                assert(map_of(b).contains_key(b[i].0@) && map_of(b)[b[i].0@] == b[i].1@);
                assert(s[i].0@ != kl);
            }
        }
    }
}

/// The store itself: an association list with pairwise-distinct keys, seen
/// abstractly as a map.
pub struct Store {
    entries: Vec<(String, DBData)>,
}

/// Removing every entry whose deadline has passed, judged once against `now`.
pub open spec fn spec_sweep(m: Map<Seq<char>, DBDataView>, now: u64) -> Map<
    Seq<char>,
    DBDataView,
> {
    Map::new(|k: Seq<char>| m.contains_key(k) && !spec_expired(m[k], now), |k: Seq<char>| m[k])
}

spec fn live_entries(s: Seq<(String, DBData)>, now: u64) -> Seq<(String, DBData)>
    decreases s.len(),
{
    if s.len() == 0 {
        s
    } else {
        let rest = live_entries(s.drop_last(), now);
        if spec_expired(s.last().1@, now) {
            rest
        } else {
            rest.push(s.last())
        }
    }
}

proof fn lemma_live_subset(s: Seq<(String, DBData)>, now: u64)
    ensures
        forall|i: int|
            0 <= i < live_entries(s, now).len() ==> exists|j: int|
                0 <= j < s.len() && s[j] == #[trigger] live_entries(s, now)[i],
    decreases s.len(),
{
    if s.len() > 0 {
        let b = s.drop_last();
        lemma_live_subset(b, now);
        assert(forall|i: int| 0 <= i < b.len() ==> #[trigger] b[i] == s[i]);
        assert(s.last() == s[s.len() - 1]);
        let lv = live_entries(s, now);
        let lb = live_entries(b, now);
        assert forall|i: int| 0 <= i < lv.len() implies exists|j: int|
            0 <= j < s.len() && s[j] == #[trigger] lv[i] by {
            if spec_expired(s.last().1@, now) {
                assert(lv[i] == lb[i]);
                let j = choose|j: int| 0 <= j < b.len() && b[j] == lb[i];
                assert(s[j] == lv[i]);
            } else {
                if i < lb.len() {
                    assert(lv[i] == lb[i]);
                    let j = choose|j: int| 0 <= j < b.len() && b[j] == lb[i];
                    assert(s[j] == lv[i]);
                } else {
                    assert(lv[i] == s[s.len() - 1]);
                }
            }
        }
    }
}

proof fn lemma_live_entries(s: Seq<(String, DBData)>, now: u64)
    requires
        distinct_keys(s),
    ensures
        distinct_keys(live_entries(s, now)),
        map_of(live_entries(s, now)) == spec_sweep(map_of(s), now),
    decreases s.len(),
{
    if s.len() == 0 {
        assert(map_of(live_entries(s, now)) =~= spec_sweep(map_of(s), now));
    } else {
        let b = s.drop_last();
        assert(distinct_keys(b)) by {
            assert(forall|i: int| 0 <= i < b.len() ==> #[trigger] b[i] == s[i]);
        }
        lemma_live_entries(b, now);
        lemma_map_of_props(b);
        lemma_live_subset(b, now);
        let k = s.last().0@;
        let v = s.last().1@;
        assert(s.last() == s[s.len() - 1]);
        assert(forall|i: int| 0 <= i < b.len() ==> #[trigger] b[i] == s[i]);
        assert(!map_of(b).contains_key(k)) by {
            if map_of(b).contains_key(k) {
                let i = choose|i: int| 0 <= i < b.len() && b[i].0@ == k;
                assert(s[i].0@ == s[s.len() - 1].0@);
            }
        }
        let lb = live_entries(b, now);
        if spec_expired(v, now) {
            assert(map_of(lb) =~= spec_sweep(map_of(s), now));
        } else {
            assert(distinct_keys(lb.push(s.last()))) by {
                assert forall|i: int, j: int|
                    0 <= i < j < lb.push(s.last()).len() implies (#[trigger] lb.push(
                    s.last(),
                )[i]).0@ != (#[trigger] lb.push(s.last())[j]).0@ by {
                    if j < lb.len() {
                        assert(lb.push(s.last())[i] == lb[i]);
                        assert(lb.push(s.last())[j] == lb[j]);
                    } else {
                        assert(lb.push(s.last())[j] == s.last());
                        assert(lb.push(s.last())[i] == lb[i]);
                        let j2 = choose|j2: int| 0 <= j2 < b.len() && b[j2] == lb[i];
                        if lb[i].0@ == k {
                            assert(s[j2].0@ == s[s.len() - 1].0@);
                        }
                    }
                }
            }
            assert(lb.push(s.last()).drop_last() =~= lb);
            assert(map_of(live_entries(s, now)) == map_of(lb).insert(k, v));
            assert(map_of(lb).insert(k, v) =~= spec_sweep(map_of(s), now));
        }
    }
}

impl Store {
    pub closed spec fn view(&self) -> Map<Seq<char>, DBDataView> {
        map_of(self.entries@)
    }

    /// The store's internal well-formedness: no key occurs twice.
    pub closed spec fn wf(&self) -> bool {
        distinct_keys(self.entries@)
    }

    pub fn new() -> (r: Store)
        ensures
            r.wf(),
            r@ == Map::<Seq<char>, DBDataView>::empty(),
    {
        let r = Store { entries: Vec::new() };
        proof {
            assert(r@ =~= Map::<Seq<char>, DBDataView>::empty());
        }
        r
    }

    fn find_index(&self, key: &String) -> (r: Option<usize>)
        ensures
            match r {
                Some(i) => i < self.entries@.len() && self.entries@[i as int].0@ == key@,
                None => forall|i: int|
                    0 <= i < self.entries@.len() ==> (#[trigger] self.entries@[i]).0@ != key@,
            },
    {
        let n = self.entries.len();
        let mut i: usize = 0;
        while i < n
            invariant
                i <= n,
                n == self.entries@.len(),
                forall|j: int| 0 <= j < i ==> (#[trigger] self.entries@[j]).0@ != key@,
            decreases n - i,
        {
            if self.entries[i].0 == *key {
                return Some(i);
            }
            i += 1;
        }
        None
    }

    /// Read-only lookup.
    pub fn get(&self, key: &String) -> (r: Option<&DBData>)
        requires
            self.wf(),
        ensures
            match r {
                Some(d) => self@.contains_key(key@) && d@ == self@[key@],
                None => !self@.contains_key(key@),
            },
    {
        proof {
            lemma_map_of_props(self.entries@);
        }
        match self.find_index(key) {
            Some(i) => Some(&self.entries[i].1),
            None => {
                proof {
                    if self@.contains_key(key@) {
                        let i = choose|i: int|
                            0 <= i < self.entries@.len() && self.entries@[i].0@ == key@;
                        assert((self.entries@[i]).0@ != key@);
                    }
                }
                None
            },
        }
    }

    /// Inserts or overwrites unconditionally.
    pub fn set(&mut self, key: String, data: DBData)
        requires
            old(self).wf(),
        ensures
            final(self).wf(),
            final(self)@ == old(self)@.insert(key@, data@),
    {
        proof {
            lemma_map_of_props(self.entries@);
        }
        match self.find_index(&key) {
            Some(i) => {
                proof {
                    lemma_map_of_remove(self.entries@, i as int);
                }
                let ghost mid = self.entries@.remove(i as int);
                let _ = self.entries.remove(i);
                proof {
                    lemma_map_of_props(mid);
                    assert(map_of(mid).insert(key@, data@) =~= map_of(self.entries@.push(
                        (key, data),
                    ))) by {
                        assert(self.entries@.push((key, data)).drop_last() =~= self.entries@);
                    }
                    assert(distinct_keys(mid.push((key, data)))) by {
                        assert forall|a: int, b: int|
                            0 <= a < b < mid.push((key, data)).len() implies (#[trigger] mid.push(
                            (key, data),
                        )[a]).0@ != (#[trigger] mid.push((key, data))[b]).0@ by {
                            if b < mid.len() {
                                assert(mid.push((key, data))[a] == mid[a]);
                                assert(mid.push((key, data))[b] == mid[b]);
                            } else {
                                assert(mid.push((key, data))[a] == mid[a]);
                                assert(mid.push((key, data))[b] == (key, data));
                                if mid[a].0@ == key@ {
                                    assert(map_of(mid).contains_key(key@));
                                    assert(!map_of(self.entries@).remove(key@).contains_key(
                                        key@,
                                    ));
                                }
                            }
                        }
                    }
                    assert(map_of(self.entries@).remove(key@).insert(key@, data@) =~= map_of(
                        self.entries@,
                    ).insert(key@, data@));
                }
                self.entries.push((key, data));
            },
            None => {
                proof {
                    assert(self.entries@.push((key, data)).drop_last() =~= self.entries@);
                    assert(distinct_keys(self.entries@.push((key, data)))) by {
                        let p = self.entries@.push((key, data));
                        assert forall|a: int, b: int|
                            0 <= a < b < p.len() implies (#[trigger] p[a]).0@ != (
                        #[trigger] p[b]).0@ by {
                            if b < p.len() - 1 {
                                assert(p[a] == self.entries@[a]);
                                assert(p[b] == self.entries@[b]);
                            } else {
                                assert(p[a] == self.entries@[a]);
                                assert(p[b] == (key, data));
                            }
                        }
                    }
                }
                self.entries.push((key, data));
            },
        }
    }

    /// Deletes the key if present; without it the map is unchanged.
    pub fn remove(&mut self, key: &String)
        requires
            old(self).wf(),
        ensures
            final(self).wf(),
            final(self)@ == old(self)@.remove(key@),
    {
        proof {
            lemma_map_of_props(self.entries@);
        }
        match self.find_index(key) {
            Some(i) => {
                proof {
                    lemma_map_of_remove(self.entries@, i as int);
                }
                let _ = self.entries.remove(i);
            },
            None => {
                proof {
                    if self@.contains_key(key@) {
                        let i = choose|i: int|
                            0 <= i < self.entries@.len() && self.entries@[i].0@ == key@;
                        assert((self.entries@[i]).0@ != key@);
                    }
                    assert(self@.remove(key@) =~= self@);
                }
            },
        }
    }

    /// Combined read and conditional delete: an entry whose deadline has
    /// passed is removed and reported absent; a live one is returned.
    pub fn get_and_expire_if_due(&mut self, key: &String, now: u64) -> (r: Option<DBVal>)
        requires
            old(self).wf(),
        ensures
            final(self).wf(),
            match r {
                Some(v) => {
                    &&& old(self)@.contains_key(key@)
                    &&& !spec_expired(old(self)@[key@], now)
                    &&& v@ == old(self)@[key@].data
                    &&& final(self)@ == old(self)@
                },
                None => {
                    &&& (old(self)@.contains_key(key@) ==> spec_expired(old(self)@[key@], now))
                    &&& final(self)@ == old(self)@.remove(key@)
                },
            },
    {
        match self.get(key) {
            None => {
                proof {
                    assert(self@.remove(key@) =~= self@);
                }
                return None;
            },
            Some(d) => {
                if !is_expired(d, now) {
                    return Some(d.data().duplicate());
                }
            },
        }
        self.remove(key);
        None
    }

    /// Removes every entry whose deadline has passed, judged once against
    /// the single instant `now`.
    pub fn sweep(&mut self, now: u64)
        requires
            old(self).wf(),
        ensures
            final(self).wf(),
            final(self)@ == spec_sweep(old(self)@, now),
    {
        let ghost g = self.entries@;
        let n = self.entries.len();
        let mut kept: Vec<(String, DBData)> = Vec::new();
        let mut i: usize = 0;
        proof {
            assert(g.subrange(0, 0) =~= Seq::<(String, DBData)>::empty());
        }
        while i < n
            invariant
                i <= n,
                n == self.entries@.len(),
                self.entries@ == g,
                kept@ == live_entries(g.subrange(0, i as int), now),
            decreases n - i,
        {
            let ghost pre = g.subrange(0, i as int);
            let ghost ext = g.subrange(0, i + 1);
            proof {
                assert(ext.drop_last() =~= pre);
                assert(ext.last() == g[i as int]);
            }
            let e = &self.entries[i];
            if is_expired(&e.1, now) {
            } else {
                let k2 = e.0.clone();
                let d2 = e.1.duplicate();
                proof {
                    assert((k2, d2) == g[i as int]);
                }
                kept.push((k2, d2));
            }
            i += 1;
        }
        proof {
            assert(g.subrange(0, n as int) =~= g);
            lemma_live_entries(g, now);
        }
        self.entries = kept;
    }
}

proof fn lemma_map_of_remove(s: Seq<(String, DBData)>, i: int)
    requires
        distinct_keys(s),
        0 <= i < s.len(),
    ensures
        distinct_keys(s.remove(i)),
        map_of(s.remove(i)) == map_of(s).remove(s[i].0@),
{
    let t = s.remove(i);
    let k0 = s[i].0@;
    assert(forall|j: int| 0 <= j < i ==> #[trigger] t[j] == s[j]);
    assert(forall|j: int| i <= j < t.len() ==> #[trigger] t[j] == s[j + 1]);
    assert(distinct_keys(t)) by {
        assert forall|a: int, b: int| 0 <= a < b < t.len() implies (#[trigger] t[a]).0@ != (
        #[trigger] t[b]).0@ by {
            let a2 = if a < i {
                a
            } else {
                a + 1
            };
            let b2 = if b < i {
                b
            } else {
                b + 1
            };
            assert(t[a] == s[a2]);
            assert(t[b] == s[b2]);
        }
    }
    lemma_map_of_props(s);
    lemma_map_of_props(t);
    assert forall|k: Seq<char>| #[trigger] map_of(t).contains_key(k) implies map_of(s).remove(
        k0,
    ).contains_key(k) && map_of(t)[k] == map_of(s).remove(k0)[k] by {
        let j = choose|j: int| 0 <= j < t.len() && t[j].0@ == k;
        let j2 = if j < i {
            j
        } else {
            j + 1
        };
        assert(t[j] == s[j2]);
        assert(map_of(t)[k] == t[j].1@);
        assert(map_of(s)[k] == s[j2].1@);
        if k == k0 {
            if j2 < i {
                assert(s[j2].0@ != s[i].0@);
            } else {
                assert(s[i].0@ != s[j2].0@);
            }
        }
    }
    assert forall|k: Seq<char>| #[trigger]
        map_of(s).remove(k0).contains_key(k) implies map_of(t).contains_key(k) by {
        let j2 = choose|j2: int| 0 <= j2 < s.len() && s[j2].0@ == k;
        if j2 == i {
            assert(k == k0);
        } else {
            let j = if j2 < i {
                j2
            } else {
                j2 - 1
            };
            assert(t[j] == s[j2]);
            assert(map_of(t).contains_key(t[j].0@));
        }
    }
    assert(map_of(t) =~= map_of(s).remove(k0));
}

} // verus!
