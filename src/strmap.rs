//! A map keyed by strings whose entries are kept sorted by key.
//!
//! Keeping the entries sorted makes the order in which a map is written out a
//! function of its contents alone, which is what content addressing needs.
//! vstd specifies `BTreeMap` only for keys whose `Ord` obeys its order laws,
//! which it does not establish for `String`; this map proves its own.
use vstd::prelude::*;

verus! {

/// Strict lexicographic order on character sequences. It is the order of
/// `String`, since UTF-8 keeps the order of code points.
pub open spec fn key_lt(a: Seq<char>, b: Seq<char>) -> bool
    decreases a.len(),
{
    if a.len() == 0 {
        b.len() > 0
    } else if b.len() == 0 {
        false
    } else if a[0] != b[0] {
        (a[0] as int) < (b[0] as int)
    } else {
        key_lt(a.skip(1), b.skip(1))
    }
}

pub proof fn lemma_key_lt_irreflexive(a: Seq<char>)
    ensures
        !key_lt(a, a),
    decreases a.len(),
{
    if a.len() > 0 {
        lemma_key_lt_irreflexive(a.skip(1));
    }
}

pub proof fn lemma_key_lt_transitive(a: Seq<char>, b: Seq<char>, c: Seq<char>)
    requires
        key_lt(a, b),
        key_lt(b, c),
    ensures
        key_lt(a, c),
    decreases a.len(),
{
    if a.len() > 0 && b.len() > 0 && c.len() > 0 && a[0] == b[0] && b[0] == c[0] {
        lemma_key_lt_transitive(a.skip(1), b.skip(1), c.skip(1));
    }
}

pub proof fn lemma_key_lt_total(a: Seq<char>, b: Seq<char>)
    requires
        a != b,
    ensures
        key_lt(a, b) || key_lt(b, a),
    decreases a.len(),
{
    if a.len() == 0 {
        if b.len() == 0 {
            assert(a =~= b);
        }
    } else if b.len() == 0 {
    } else if a[0] == b[0] {
        if a.skip(1) =~= b.skip(1) {
            assert forall|i: int| 0 <= i < a.len() implies a[i] == b[i] by {
                if i > 0 {
                    assert(a[i] == a.skip(1)[i - 1]);
                    assert(b[i] == b.skip(1)[i - 1]);
                }
            }
            assert(a =~= b);
        } else {
            lemma_key_lt_total(a.skip(1), b.skip(1));
        }
    } else {
        assert((a[0] as int) != (b[0] as int));
    }
}

/// The keys of `s` strictly increase.
pub open spec fn sorted_keys<W>(s: Seq<(Seq<char>, W)>) -> bool {
    forall|i: int, j: int| 0 <= i < j < s.len() ==> key_lt(#[trigger] s[i].0, #[trigger] s[j].0)
}

pub open spec fn has_key<W>(s: Seq<(Seq<char>, W)>, k: Seq<char>) -> bool {
    exists|i: int| 0 <= i < s.len() && #[trigger] s[i].0 == k
}

pub open spec fn key_pos<W>(s: Seq<(Seq<char>, W)>, k: Seq<char>) -> int {
    choose|i: int| 0 <= i < s.len() && #[trigger] s[i].0 == k
}

/// The mapping that a sequence of entries describes.
pub open spec fn seq_to_map<W>(s: Seq<(Seq<char>, W)>) -> Map<Seq<char>, W> {
    Map::new(|k: Seq<char>| has_key(s, k), |k: Seq<char>| s[key_pos(s, k)].1)
}

/// `m` is the mapping of some sorted sequence of entries, as the view of every
/// `StrMap` is.
pub open spec fn is_entry_map<W>(m: Map<Seq<char>, W>) -> bool {
    exists|s: Seq<(Seq<char>, W)>| sorted_keys(s) && seq_to_map(s) == m
}

/// The entries of `m` in increasing order of keys.
pub open spec fn canonical<W>(m: Map<Seq<char>, W>) -> Seq<(Seq<char>, W)> {
    choose|s: Seq<(Seq<char>, W)>| sorted_keys(s) && seq_to_map(s) == m
}

pub proof fn lemma_sorted_unique<W>(s: Seq<(Seq<char>, W)>, i: int, j: int)
    requires
        sorted_keys(s),
        0 <= i < s.len(),
        0 <= j < s.len(),
        i != j,
    ensures
        s[i].0 != s[j].0,
{
    if i < j {
        assert(key_lt(s[i].0, s[j].0));
        lemma_key_lt_irreflexive(s[i].0);
    } else {
        assert(key_lt(s[j].0, s[i].0));
        lemma_key_lt_irreflexive(s[j].0);
    }
}

pub proof fn lemma_map_at<W>(s: Seq<(Seq<char>, W)>, i: int)
    requires
        sorted_keys(s),
        0 <= i < s.len(),
    ensures
        seq_to_map(s).contains_key(s[i].0),
        seq_to_map(s)[s[i].0] == s[i].1,
{
    let k = s[i].0;
    assert(has_key(s, k));
    let p = key_pos(s, k);
    if p != i {
        lemma_sorted_unique(s, p, i);
    }
}

/// A map equals the mapping of a sequence when each entry of the sequence is in
/// the map and each key of the map is in the sequence.
pub proof fn lemma_seq_to_map_eq<W>(s: Seq<(Seq<char>, W)>, m: Map<Seq<char>, W>)
    requires
        forall|i: int|
            0 <= i < s.len() ==> m.contains_key(#[trigger] s[i].0) && m[s[i].0] == s[i].1,
        forall|k: Seq<char>| m.contains_key(k) ==> has_key(s, k),
    ensures
        seq_to_map(s) == m,
{
    assert forall|k: Seq<char>| #[trigger] seq_to_map(s).contains_key(k) implies m.contains_key(
        k,
    ) && seq_to_map(s)[k] == m[k] by {
        let p = key_pos(s, k);
        assert(0 <= p < s.len() && s[p].0 == k);
    }
    assert(seq_to_map(s) =~= m);
}

proof fn lemma_skip_first<W>(s: Seq<(Seq<char>, W)>)
    requires
        sorted_keys(s),
        s.len() > 0,
    ensures
        sorted_keys(s.skip(1)),
        seq_to_map(s.skip(1)) == seq_to_map(s).remove(s[0].0),
{
    let t = s.skip(1);
    assert(sorted_keys(t)) by {
        assert forall|i: int, j: int| 0 <= i < j < t.len() implies key_lt(
            #[trigger] t[i].0,
            #[trigger] t[j].0,
        ) by {
            assert(t[i] == s[i + 1] && t[j] == s[j + 1]);
        }
    }
    let m = seq_to_map(s).remove(s[0].0);
    assert forall|i: int| 0 <= i < t.len() implies m.contains_key(#[trigger] t[i].0) && m[t[i].0]
        == t[i].1 by {
        assert(t[i] == s[i + 1]);
        lemma_map_at(s, i + 1);
        lemma_sorted_unique(s, 0, i + 1);
    }
    assert forall|k: Seq<char>| m.contains_key(k) implies has_key(t, k) by {
        let p = key_pos(s, k);
        assert(p != 0);
        assert(t[p - 1] == s[p]);
    }
    lemma_seq_to_map_eq(t, m);
}

pub proof fn lemma_map_len<W>(s: Seq<(Seq<char>, W)>)
    requires
        sorted_keys(s),
    ensures
        seq_to_map(s).dom().finite(),
        seq_to_map(s).len() == s.len(),
    decreases s.len(),
{
    if s.len() == 0 {
        assert(seq_to_map(s) =~= Map::<Seq<char>, W>::empty());
    } else {
        lemma_skip_first(s);
        lemma_map_len(s.skip(1));
        lemma_map_at(s, 0);
        let m = seq_to_map(s);
        assert(m =~= seq_to_map(s.skip(1)).insert(s[0].0, s[0].1));
    }
}

/// Extending a sorted prefix by one entry adds that entry to its mapping.
pub proof fn lemma_prefix_push<W>(s: Seq<(Seq<char>, W)>, i: int)
    requires
        sorted_keys(s),
        0 <= i < s.len(),
    ensures
        sorted_keys(s.subrange(0, i + 1)),
        seq_to_map(s.subrange(0, i + 1)) == seq_to_map(s.subrange(0, i)).insert(s[i].0, s[i].1),
        !seq_to_map(s.subrange(0, i)).contains_key(s[i].0),
{
    let a = s.subrange(0, i);
    let b = s.subrange(0, i + 1);
    assert(sorted_keys(a)) by {
        assert forall|x: int, y: int| 0 <= x < y < a.len() implies key_lt(
            #[trigger] a[x].0,
            #[trigger] a[y].0,
        ) by {
            assert(a[x] == s[x] && a[y] == s[y]);
        }
    }
    assert(sorted_keys(b)) by {
        assert forall|x: int, y: int| 0 <= x < y < b.len() implies key_lt(
            #[trigger] b[x].0,
            #[trigger] b[y].0,
        ) by {
            assert(b[x] == s[x] && b[y] == s[y]);
        }
    }
    if seq_to_map(a).contains_key(s[i].0) {
        let p = key_pos(a, s[i].0);
        assert(a[p] == s[p]);
        lemma_sorted_unique(s, p, i);
    }
    let m = seq_to_map(a).insert(s[i].0, s[i].1);
    assert forall|j: int| 0 <= j < b.len() implies m.contains_key(#[trigger] b[j].0) && m[b[j].0]
        == b[j].1 by {
        if j < i {
            assert(a[j] == b[j]);
            lemma_map_at(a, j);
            lemma_sorted_unique(b, j, i);
        }
    }
    assert forall|k: Seq<char>| m.contains_key(k) implies has_key(b, k) by {
        if k != s[i].0 {
            let p = key_pos(a, k);
            assert(b[p] == a[p]);
        } else {
            assert(b[i].0 == k);
        }
    }
    lemma_seq_to_map_eq(b, m);
}

/// Two sorted sequences of entries that describe the same mapping are equal.
pub proof fn lemma_sorted_same_map<W>(s: Seq<(Seq<char>, W)>, t: Seq<(Seq<char>, W)>)
    requires
        sorted_keys(s),
        sorted_keys(t),
        seq_to_map(s) == seq_to_map(t),
    ensures
        s == t,
    decreases s.len(),
{
    if s.len() == 0 {
        if t.len() > 0 {
            lemma_map_at(t, 0);
        }
        assert(s =~= t);
    } else if t.len() == 0 {
        lemma_map_at(s, 0);
    } else {
        let a = s[0].0;
        let b = t[0].0;
        lemma_map_at(s, 0);
        lemma_map_at(t, 0);
        if a != b {
            let j = key_pos(t, a);
            let i = key_pos(s, b);
            assert(j != 0 && i != 0);
            assert(key_lt(t[0].0, t[j].0));
            assert(key_lt(s[0].0, s[i].0));
            lemma_key_lt_transitive(a, b, a);
            lemma_key_lt_irreflexive(a);
        }
        assert(s[0] == t[0]);
        lemma_skip_first(s);
        lemma_skip_first(t);
        lemma_sorted_same_map(s.skip(1), t.skip(1));
        assert(s =~= seq![s[0]] + s.skip(1));
        assert(t =~= seq![t[0]] + t.skip(1));
    }
}

/// A sorted sequence of entries is the canonical form of its mapping.
pub proof fn lemma_canonical<W>(s: Seq<(Seq<char>, W)>)
    requires
        sorted_keys(s),
    ensures
        canonical(seq_to_map(s)) == s,
{
    let m = seq_to_map(s);
    assert(sorted_keys(s) && seq_to_map(s) == m);
    let c = canonical(m);
    lemma_sorted_same_map(c, s);
}

/// Compares two strings in the order of `key_lt`.
pub fn str_lt(a: &String, b: &String) -> (r: bool)
    ensures
        r == key_lt(a@, b@),
{
    let sa = a.as_str();
    let sb = b.as_str();
    let la = sa.unicode_len();
    let lb = sb.unicode_len();
    let mut i: usize = 0;
    assert(a@.skip(0) =~= a@ && b@.skip(0) =~= b@);
    while i < la && i < lb
        invariant
            sa@ == a@,
            sb@ == b@,
            la == a@.len(),
            lb == b@.len(),
            i <= la,
            i <= lb,
            key_lt(a@, b@) == key_lt(a@.skip(i as int), b@.skip(i as int)),
        decreases la - i,
    {
        let ca = sa.get_char(i);
        let cb = sb.get_char(i);
        if ca != cb {
            assert(a@.skip(i as int)[0] == ca);
            assert(b@.skip(i as int)[0] == cb);
            return (ca as u32) < (cb as u32);
        }
        proof {
            let x = a@.skip(i as int);
            let y = b@.skip(i as int);
            assert(x[0] == y[0]);
            assert(x.skip(1) =~= a@.skip(i + 1));
            assert(y.skip(1) =~= b@.skip(i + 1));
        }
        i = i + 1;
    }
    i < lb
}

/// A map from strings to values, its entries kept sorted by key.
#[derive(Debug, PartialEq, Eq)]
pub struct StrMap<V: View> {
    entries: Vec<(String, V)>,
}

impl<V: View> StrMap<V> {
    /// The entries, viewed, in the order in which they are kept.
    pub closed spec fn pairs(&self) -> Seq<(Seq<char>, V::V)> {
        self.entries@.map_values(|e: (String, V)| (e.0@, e.1@))
    }

    #[verifier::type_invariant]
    pub open spec fn inv(&self) -> bool {
        sorted_keys(self.pairs())
    }

    pub fn new() -> (m: Self)
        ensures
            m@ == Map::<Seq<char>, V::V>::empty(),
            m.pairs().len() == 0,
    {
        let m = StrMap { entries: Vec::new() };
        assert(m.pairs() =~= Seq::<(Seq<char>, V::V)>::empty());
        assert(seq_to_map(m.pairs()) =~= Map::<Seq<char>, V::V>::empty());
        m
    }

    pub fn len(&self) -> (n: usize)
        ensures
            n == self.pairs().len(),
            n == self@.len(),
            is_entry_map(self@),
    {
        proof {
            use_type_invariant(self);
            lemma_map_len(self.pairs());
        }
        self.entries.len()
    }

    pub fn key_at(&self, i: usize) -> (k: &String)
        requires
            i < self.pairs().len(),
        ensures
            k@ == self.pairs()[i as int].0,
    {
        &self.entries[i].0
    }

    pub fn value_at(&self, i: usize) -> (v: &V)
        requires
            i < self.pairs().len(),
        ensures
            v@ == self.pairs()[i as int].1,
    {
        &self.entries[i].1
    }

    /// The first position whose key is not below `k`.
    fn find(&self, k: &String) -> (r: usize)
        ensures
            r <= self.pairs().len(),
            forall|j: int| 0 <= j < r ==> key_lt(#[trigger] self.pairs()[j].0, k@),
            r < self.pairs().len() ==> !key_lt(self.pairs()[r as int].0, k@),
    {
        let mut i: usize = 0;
        while i < self.entries.len()
            invariant
                i <= self.pairs().len(),
                self.pairs().len() == self.entries@.len(),
                forall|j: int| 0 <= j < i ==> key_lt(#[trigger] self.pairs()[j].0, k@),
            decreases self.entries@.len() - i,
        {
            if str_lt(&self.entries[i].0, k) {
                i = i + 1;
            } else {
                return i;
            }
        }
        i
    }

    pub fn get(&self, k: &String) -> (r: Option<&V>)
        ensures
            match r {
                Some(v) => self@.contains_key(k@) && self@[k@] == v@,
                None => !self@.contains_key(k@),
            },
    {
        proof {
            use_type_invariant(self);
        }
        let i = self.find(k);
        if i < self.entries.len() && self.entries[i].0 == *k {
            proof {
                lemma_map_at(self.pairs(), i as int);
            }
            Some(&self.entries[i].1)
        } else {
            proof {
                let s = self.pairs();
                if self@.contains_key(k@) {
                    let j = key_pos(s, k@);
                    lemma_key_lt_irreflexive(k@);
                    if j >= i {
                        lemma_key_lt_total(s[i as int].0, k@);
                        if j > i {
                            lemma_key_lt_transitive(k@, s[i as int].0, k@);
                        }
                    }
                }
            }
            None
        }
    }

    pub fn contains_key(&self, k: &String) -> (r: bool)
        ensures
            r == self@.contains_key(k@),
    {
        self.get(k).is_some()
    }

    pub fn insert(&mut self, k: String, v: V)
        ensures
            final(self)@ == old(self)@.insert(k@, v@),
    {
        proof {
            use_type_invariant(&*self);
        }
        let i = self.find(&k);
        let ghost s = self.pairs();
        let ghost e = (k@, v@);
        let mut es = self.take_entries();
        assert(es@.map_values(|e: (String, V)| (e.0@, e.1@)) == s);
        if i < es.len() && es[i].0 == k {
            let _ = es.remove(i);
            es.insert(i, (k, v));
            proof {
                let t = es@.map_values(|e: (String, V)| (e.0@, e.1@));
                assert(t =~= s.update(i as int, e));
                let m = seq_to_map(s).insert(e.0, e.1);
                assert forall|j: int| 0 <= j < t.len() implies m.contains_key(#[trigger] t[j].0)
                    && m[t[j].0] == t[j].1 by {
                    if j != i {
                        lemma_map_at(s, j);
                        lemma_sorted_unique(s, i as int, j);
                    }
                }
                assert forall|q: Seq<char>| m.contains_key(q) implies has_key(t, q) by {
                    if q != e.0 {
                        let p = key_pos(s, q);
                        assert(t[p].0 == q);
                    } else {
                        assert(t[i as int].0 == q);
                    }
                }
                lemma_seq_to_map_eq(t, m);
            }
            *self = StrMap { entries: es };
        } else {
            proof {
                if i < s.len() {
                    lemma_key_lt_total(s[i as int].0, k@);
                }
                let t = s.insert(i as int, e);
                assert forall|a: int, b: int| 0 <= a < b < t.len() implies key_lt(
                    #[trigger] t[a].0,
                    #[trigger] t[b].0,
                ) by {
                    if b < i {
                    } else if b == i {
                    } else if a > i {
                        assert(t[a] == s[a - 1] && t[b] == s[b - 1]);
                    } else if a == i {
                        assert(t[b] == s[b - 1]);
                        if b - 1 > i {
                            lemma_key_lt_transitive(k@, s[i as int].0, s[b - 1].0);
                        }
                    } else {
                        assert(t[b] == s[b - 1]);
                    }
                }
            }
            es.insert(i, (k, v));
            proof {
                let t = es@.map_values(|e: (String, V)| (e.0@, e.1@));
                assert(t =~= s.insert(i as int, e));
                let m = seq_to_map(s).insert(e.0, e.1);
                assert forall|j: int| 0 <= j < t.len() implies m.contains_key(#[trigger] t[j].0)
                    && m[t[j].0] == t[j].1 by {
                    if j != i {
                        lemma_sorted_unique(t, i as int, j);
                        if j < i {
                            lemma_map_at(s, j);
                        } else {
                            assert(t[j] == s[j - 1]);
                            lemma_map_at(s, j - 1);
                        }
                    }
                }
                assert forall|q: Seq<char>| m.contains_key(q) implies has_key(t, q) by {
                    if q != e.0 {
                        let p = key_pos(s, q);
                        if p < i {
                            assert(t[p].0 == q);
                        } else {
                            assert(t[p + 1].0 == q);
                        }
                    } else {
                        assert(t[i as int].0 == q);
                    }
                }
                lemma_seq_to_map_eq(t, m);
            }
            *self = StrMap { entries: es };
        }
    }

    /// Moves the entries out, leaving the map empty.
    fn take_entries(&mut self) -> (es: Vec<(String, V)>)
        ensures
            es@.map_values(|e: (String, V)| (e.0@, e.1@)) == old(self).pairs(),
            final(self).pairs().len() == 0,
    {
        let mut taken = StrMap::new();
        core::mem::swap(self, &mut taken);
        let StrMap { entries } = taken;
        entries
    }

    pub fn remove(&mut self, k: &String) -> (r: Option<V>)
        ensures
            final(self)@ == old(self)@.remove(k@),
            match r {
                Some(v) => old(self)@.contains_key(k@) && v@ == old(self)@[k@],
                None => !old(self)@.contains_key(k@),
            },
    {
        proof {
            use_type_invariant(&*self);
        }
        let ghost s = self.pairs();
        let found = self.get(k);
        if found.is_some() {
            let i = self.find(k);
            proof {
                let j = key_pos(s, k@);
                lemma_key_lt_irreflexive(k@);
                if j > i {
                    lemma_key_lt_total(s[i as int].0, k@);
                    if s[i as int].0 != k@ {
                        lemma_key_lt_transitive(k@, s[i as int].0, k@);
                    }
                }
                if i != j {
                    lemma_sorted_unique(s, i as int, j);
                }
            }
            let mut es = self.take_entries();
            let (_, v) = es.remove(i);
            proof {
                lemma_map_at(s, i as int);
            }
            proof {
                let t = es@.map_values(|e: (String, V)| (e.0@, e.1@));
                assert(t =~= s.remove(i as int));
                let m = seq_to_map(s).remove(k@);
                assert forall|j: int| 0 <= j < t.len() implies m.contains_key(#[trigger] t[j].0)
                    && m[t[j].0] == t[j].1 by {
                    if j < i {
                        lemma_map_at(s, j);
                        lemma_sorted_unique(s, i as int, j);
                    } else {
                        assert(t[j] == s[j + 1]);
                        lemma_map_at(s, j + 1);
                        lemma_sorted_unique(s, i as int, j + 1);
                    }
                }
                assert forall|q: Seq<char>| m.contains_key(q) implies has_key(t, q) by {
                    let p = key_pos(s, q);
                    if p < i {
                        assert(t[p].0 == q);
                    } else {
                        assert(p != i);
                        assert(t[p - 1].0 == q);
                    }
                }
                lemma_seq_to_map_eq(t, m);
            }
            *self = StrMap { entries: es };
            Some(v)
        } else {
            assert(seq_to_map(s).remove(k@) =~= seq_to_map(s));
            None
        }
    }
}

impl<V: View> View for StrMap<V> {
    type V = Map<Seq<char>, V::V>;

    open spec fn view(&self) -> Map<Seq<char>, V::V> {
        seq_to_map(self.pairs())
    }
}

impl StrMap<String> {
    /// A second map with the same entries, owned separately.
    pub fn duplicate(&self) -> (r: Self)
        ensures
            r@ == self@,
            r.pairs() == self.pairs(),
    {
        proof {
            use_type_invariant(self);
        }
        let mut es: Vec<(String, String)> = Vec::new();
        let mut i: usize = 0;
        while i < self.entries.len()
            invariant
                i <= self.entries@.len(),
                es@.len() == i,
                forall|j: int| 0 <= j < i ==> #[trigger] es@[j] == self.entries@[j],
            decreases self.entries@.len() - i,
        {
            let k = self.entries[i].0.clone();
            let v = self.entries[i].1.clone();
            es.push((k, v));
            i = i + 1;
        }
        assert(es@ =~= self.entries@);
        StrMap { entries: es }
    }
}

} // verus!
