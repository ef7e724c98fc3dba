use vstd::prelude::*;

verus! {

/// A value that the index can store: it can be compared and copied by its view.
pub trait Keyed: View + Sized {
    fn same_as(&self, other: &Self) -> (r: bool)
        ensures
            r == (self@ == other@),
    ;

    fn duplicate(&self) -> (r: Self)
        ensures
            r@ == self@,
    ;
}

impl Keyed for String {
    fn same_as(&self, other: &Self) -> (r: bool) {
        <String as PartialEq>::eq(self, other)
    }

    fn duplicate(&self) -> (r: Self) {
        self.clone()
    }
}

/// Relies on String::push: the character is appended.
#[verifier::external_body]
pub(crate) fn push_char(s: &mut String, c: char)
    ensures
        final(s)@ == old(s)@.push(c),
{
    s.push(c)
}

/// The views of a list of ranked entries.
pub open spec fn view_entries<T: View>(s: Seq<(T, u8)>) -> Seq<(T::V, u8)> {
    s.map_values(|e: (T, u8)| (e.0@, e.1))
}

/// Whether some entry of `s` is for `v`.
pub open spec fn has_key<V>(s: Seq<(V, u8)>, v: V) -> bool {
    exists|i: int| 0 <= i < s.len() && s[i].0 == v
}

/// `s` with `(v, r)` appended, unless `s` already holds an entry for `v`.
pub open spec fn add_entry<V>(s: Seq<(V, u8)>, v: V, r: u8) -> Seq<(V, u8)> {
    if has_key(s, v) {
        s
    } else {
        s.push((v, r))
    }
}

/// The entries of node `n` in `s`, in order of insertion.
pub open spec fn entries_at<T: View>(s: Seq<(usize, T, u8)>, n: int) -> Seq<(T::V, u8)>
    decreases s.len(),
{
    if s.len() == 0 {
        Seq::empty()
    } else {
        let rest = entries_at(s.drop_last(), n);
        if s.last().0 == n {
            rest.push((s.last().1@, s.last().2))
        } else {
            rest
        }
    }
}

proof fn lemma_entries_at_absent<T: View>(s: Seq<(usize, T, u8)>, n: int)
    requires
        forall|e: int| 0 <= e < s.len() ==> s[e].0 != n,
    ensures
        entries_at(s, n) == Seq::<(T::V, u8)>::empty(),
    decreases s.len(),
{
    if s.len() > 0 {
        lemma_entries_at_absent(s.drop_last(), n);
    }
}

proof fn lemma_entries_at_has_key<T: View>(s: Seq<(usize, T, u8)>, n: int, v: T::V)
    ensures
        has_key(entries_at(s, n), v) <==> exists|e: int|
            0 <= e < s.len() && s[e].0 == n && (#[trigger] s[e]).1@ == v,
    decreases s.len(),
{
    if s.len() > 0 {
        let d = s.drop_last();
        lemma_entries_at_has_key(d, n, v);
        let rest = entries_at(d, n);
        if has_key(entries_at(s, n), v) {
            let i = choose|i: int| 0 <= i < entries_at(s, n).len() && entries_at(s, n)[i].0 == v;
            if i < rest.len() {
                let e = choose|e: int| 0 <= e < d.len() && d[e].0 == n && (#[trigger] d[e]).1@ == v;
                assert(s[e] == d[e]);
            } else {
                assert(s[s.len() - 1] == s.last());
            }
        }
        if exists|e: int| 0 <= e < s.len() && s[e].0 == n && (#[trigger] s[e]).1@ == v {
            let e = choose|e: int| 0 <= e < s.len() && s[e].0 == n && (#[trigger] s[e]).1@ == v;
            if e < d.len() {
                assert(d[e] == s[e]);
                let i = choose|i: int| 0 <= i < rest.len() && rest[i].0 == v;
                if s.last().0 == n {
                    assert(entries_at(s, n)[i] == rest[i]);
                }
            } else {
                assert(entries_at(s, n).last().0 == v);
            }
        }
    }
}

/// `s` after adding each entry of `es` in turn, as `add_entry` does.
pub open spec fn add_all<V>(s: Seq<(V, u8)>, es: Seq<(V, u8)>) -> Seq<(V, u8)>
    decreases es.len(),
{
    if es.len() == 0 {
        s
    } else {
        add_entry(add_all(s, es.drop_last()), es.last().0, es.last().1)
    }
}

/// No two entries of `s` are for the same value.
pub open spec fn distinct_keys<V>(s: Seq<(V, u8)>) -> bool {
    forall|a: int, b: int| 0 <= a < b < s.len() ==> s[a].0 != s[b].0
}

proof fn lemma_add_all_distinct<V>(es: Seq<(V, u8)>)
    requires
        distinct_keys(es),
    ensures
        add_all(Seq::empty(), es) == es,
    decreases es.len(),
{
    if es.len() > 0 {
        let d = es.drop_last();
        assert(distinct_keys(d));
        lemma_add_all_distinct(d);
        if has_key(d, es.last().0) {
            let i = choose|i: int| 0 <= i < d.len() && d[i].0 == es.last().0;
            assert(es[i] == d[i]);
        }
        assert(d.push(es.last()) =~= es);
    }
}

/// The edges that leave node `n`, as (label, child) pairs in their order.
pub open spec fn edges_from(ed: Seq<(usize, char, usize)>, n: int) -> Seq<(char, usize)>
    decreases ed.len(),
{
    if ed.len() == 0 {
        Seq::empty()
    } else {
        let rest = edges_from(ed.drop_last(), n);
        if ed.last().0 == n {
            rest.push((ed.last().1, ed.last().2))
        } else {
            rest
        }
    }
}

/// One node of an index in a form that can be stored: the token it stands
/// for, its ranked entries, and its children by label and position.
pub struct StoredNode<T> {
    pub path: String,
    pub rank: Vec<(T, u8)>,
    pub children: Vec<(char, usize)>,
}

/// What an index rebuilt from `nodes` holds under `t`: the entries of every
/// node stored for `t`, added in order and without repeated values.
pub open spec fn restored<T: View>(nodes: Seq<StoredNode<T>>, t: Seq<char>) -> Seq<(T::V, u8)>
    decreases nodes.len(),
{
    if nodes.len() == 0 {
        Seq::empty()
    } else {
        let prev = restored(nodes.drop_last(), t);
        if nodes.last().path@ == t {
            add_all(prev, view_entries(nodes.last().rank@))
        } else {
            prev
        }
    }
}

proof fn lemma_entries_at_distinct<T: View>(s: Seq<(usize, T, u8)>, n: int)
    requires
        forall|a: int, b: int|
            0 <= a < b < s.len() && (#[trigger] s[a]).0 == (#[trigger] s[b]).0 ==> s[a].1@
                != s[b].1@,
    ensures
        distinct_keys(entries_at(s, n)),
    decreases s.len(),
{
    if s.len() > 0 {
        let d = s.drop_last();
        assert forall|a: int, b: int|
            0 <= a < b < d.len() && (#[trigger] d[a]).0 == (#[trigger] d[b]).0 implies d[a].1@
                != d[b].1@ by {
            assert(d[a] == s[a] && d[b] == s[b]);
        }
        lemma_entries_at_distinct(d, n);
        if s.last().0 == n {
            let v = s.last().1@;
            lemma_entries_at_has_key(d, n, v);
            if has_key(entries_at(d, n), v) {
                let e = choose|e: int| 0 <= e < d.len() && d[e].0 == n && (#[trigger] d[e]).1@ == v;
                assert(s[e] == d[e]);
                assert(s[s.len() - 1] == s.last());
            }
            let r = entries_at(s, n);
            assert forall|a: int, b: int| 0 <= a < b < r.len() implies r[a].0 != r[b].0 by {
                if b == r.len() - 1 {
                    assert(entries_at(d, n)[a] == r[a]);
                }
            }
        }
    }
}

/// A character trie that maps tokens to ranked entries.
///
/// Node 0 is the root; every node stands for the token spelled by the edges
/// from the root to it. Each entry belongs to one node, and a node keeps at
/// most one entry per value.
pub struct IndexNode<T> {
    paths: Vec<String>,
    edges: Vec<(usize, char, usize)>,
    entries: Vec<(usize, T, u8)>,
}

impl<T: Keyed> IndexNode<T> {
    pub closed spec fn wf(&self) -> bool {
        &&& self.paths@.len() > 0
        &&& self.paths@[0]@ == Seq::<char>::empty()
        &&& self.unique_paths()
        &&& self.edges_wf()
        &&& self.parents_wf()
        &&& self.prefix_closed()
        &&& self.entries_wf()
    }

    closed spec fn unique_paths(&self) -> bool {
        let p = self.paths@;
        forall|i: int, j: int|
            0 <= i < p.len() && 0 <= j < p.len() && i != j ==> #[trigger] p[i]@ != #[trigger] p[j]@
    }

    closed spec fn edges_wf(&self) -> bool {
        let p = self.paths@;
        let ed = self.edges@;
        forall|e: int|
            #![trigger ed[e]]
            0 <= e < ed.len() ==> ed[e].0 < p.len() && ed[e].2 < p.len() && p[ed[e].2 as int]@
                == p[ed[e].0 as int]@.push(ed[e].1)
    }

    closed spec fn parents_wf(&self) -> bool {
        let p = self.paths@;
        let ed = self.edges@;
        forall|j: int|
            #![trigger p[j]]
            0 < j < p.len() ==> p[j]@.len() > 0 && exists|e: int|
                0 <= e < ed.len() && #[trigger] ed[e].2 == j
    }

    closed spec fn prefix_closed(&self) -> bool {
        let p = self.paths@;
        forall|j: int, m: int|
            0 <= j < p.len() && 0 <= m <= p[j]@.len() ==> exists|i: int|
                0 <= i < p.len() && #[trigger] p[i]@ == #[trigger] p[j]@.take(m)
    }

    closed spec fn entries_wf(&self) -> bool {
        let p = self.paths@;
        let en = self.entries@;
        &&& forall|e: int| #![trigger en[e]] 0 <= e < en.len() ==> en[e].0 < p.len()
        &&& forall|a: int, b: int|
            0 <= a < b < en.len() && (#[trigger] en[a]).0 == (#[trigger] en[b]).0 ==> en[a].1@
                != en[b].1@
    }

    /// Whether some node stands for `token`.
    pub closed spec fn has_node(&self, token: Seq<char>) -> bool {
        exists|i: int| 0 <= i < self.paths@.len() && #[trigger] self.paths@[i]@ == token
    }

    /// The entries stored under exactly `token`, in order of insertion.
    pub closed spec fn find_spec(&self, token: Seq<char>) -> Seq<(T::V, u8)> {
        if self.has_node(token) {
            entries_at(
                self.entries@,
                choose|i: int| 0 <= i < self.paths@.len() && #[trigger] self.paths@[i]@ == token,
            )
        } else {
            Seq::empty()
        }
    }

    proof fn lemma_find_at(&self, i: int)
        requires
            self.wf(),
            0 <= i < self.paths@.len(),
        ensures
            self.find_spec(self.paths@[i]@) == entries_at(self.entries@, i),
    {
        let t = self.paths@[i]@;
        assert(self.has_node(t));
        let k = choose|k: int| 0 <= k < self.paths@.len() && #[trigger] self.paths@[k]@ == t;
        assert(k == i);
    }

    /// A walk that stops at node `cur`, for a token whose next character has
    /// no edge there, finds no node for the token.
    proof fn lemma_absent(&self, cur: int, token: Seq<char>, k: int)
        requires
            self.wf(),
            0 <= cur < self.paths@.len(),
            0 <= k < token.len(),
            self.paths@[cur]@ == token.take(k),
            forall|e: int|
                0 <= e < self.edges@.len() ==> !((#[trigger] self.edges@[e]).0 == cur
                    && self.edges@[e].1 == token[k]),
        ensures
            !self.has_node(token),
    {
        let p = self.paths@;
        if self.has_node(token) {
            let x = choose|x: int| 0 <= x < p.len() && #[trigger] p[x]@ == token;
            assert(p[x]@.take(k + 1) == token.take(k + 1));
            let y = choose|y: int| 0 <= y < p.len() && #[trigger] p[y]@ == p[x]@.take(k + 1);
            assert(p[y]@.len() == k + 1);
            assert(y != 0);
            assert(p[y] == p[y]);
            let e = choose|e: int| 0 <= e < self.edges@.len() && #[trigger] self.edges@[e].2 == y;
            let par = self.edges@[e].0 as int;
            assert(p[y]@ == p[par]@.push(self.edges@[e].1));
            assert(p[par]@ =~= token.take(k));
            assert(p[y]@.last() == token[k]);
            assert(par == cur);
        }
    }

    /// Adds a node for `paths[cur]` followed by `c`, which must be missing.
    fn add_child(&mut self, cur: usize, c: char) -> (j: usize)
        requires
            old(self).wf(),
            cur < old(self).paths@.len(),
            forall|e: int|
                0 <= e < old(self).edges@.len() ==> !((#[trigger] old(self).edges@[e]).0 == cur
                    && old(self).edges@[e].1 == c),
        ensures
            final(self).wf(),
            j == old(self).paths@.len(),
            final(self).paths@.len() == j + 1,
            forall|i: int| 0 <= i < j ==> final(self).paths@[i] == old(self).paths@[i],
            final(self).paths@[j as int]@ == old(self).paths@[cur as int]@.push(c),
            final(self).entries@ == old(self).entries@,
            forall|t: Seq<char>| #[trigger] final(self).find_spec(t) == old(self).find_spec(t),
    {
        let ghost pre = *self;
        let mut q = self.paths[cur].clone();
        push_char(&mut q, c);
        let j = self.paths.len();
        proof {
            let k = pre.paths@[cur as int]@.len() as int;
            assert(q@.take(k) =~= pre.paths@[cur as int]@);
            assert(q@[k] == c);
            pre.lemma_absent(cur as int, q@, k);
        }
        self.paths.push(q);
        self.edges.push((cur, c, j));
        proof {
            let p = self.paths@;
            let ed = self.edges@;
            let en = self.entries@;
            assert forall|i: int| 0 <= i < j implies p[i] == pre.paths@[i] by {}
            assert(p[j as int] == q);
            assert forall|a: int, b: int|
                0 <= a < p.len() && 0 <= b < p.len() && a != b implies #[trigger] p[a]@
                != #[trigger] p[b]@ by {
                if a == j {
                    assert(pre.paths@[b] == p[b]);
                    if p[b]@ == q@ {
                        assert(pre.has_node(q@));
                    }
                } else if b == j {
                    assert(pre.paths@[a] == p[a]);
                    if p[a]@ == q@ {
                        assert(pre.has_node(q@));
                    }
                } else {
                    assert(pre.paths@[a] == p[a] && pre.paths@[b] == p[b]);
                }
            }
            assert forall|e: int| #![trigger ed[e]] 0 <= e < ed.len() implies ed[e].0 < p.len()
                && ed[e].2 < p.len() && p[ed[e].2 as int]@ == p[ed[e].0 as int]@.push(ed[e].1) by {
                if e < pre.edges@.len() {
                    assert(ed[e] == pre.edges@[e]);
                }
            }
            assert forall|jj: int| #![trigger p[jj]] 0 < jj < p.len() implies p[jj]@.len() > 0 && exists|e: int|
                0 <= e < ed.len() && #[trigger] ed[e].2 == jj by {
                if jj == j {
                    assert(ed[ed.len() - 1].2 == jj);
                } else {
                    assert(pre.paths@[jj] == p[jj]);
                    let e = choose|e: int| 0 <= e < pre.edges@.len() && #[trigger] pre.edges@[e].2 == jj;
                    assert(ed[e] == pre.edges@[e]);
                }
            }
            assert forall|jj: int, m: int| 0 <= jj < p.len() && 0 <= m <= p[jj]@.len() implies exists|i: int|
                0 <= i < p.len() && #[trigger] p[i]@ == #[trigger] p[jj]@.take(m) by {
                if jj == j && m == p[jj]@.len() {
                    assert(p[jj]@.take(m) =~= p[jj]@);
                } else if jj == j {
                    let pc = pre.paths@[cur as int]@;
                    assert(p[jj]@.take(m) =~= pc.take(m));
                    assert(pre.paths@[cur as int] == pre.paths@[cur as int]);
                    let i = choose|i: int| 0 <= i < pre.paths@.len() && #[trigger] pre.paths@[i]@ == pc.take(m);
                    assert(p[i] == pre.paths@[i]);
                } else {
                    assert(pre.paths@[jj] == p[jj]);
                    let i = choose|i: int| 0 <= i < pre.paths@.len() && #[trigger] pre.paths@[i]@ == pre.paths@[jj]@.take(m);
                    assert(p[i] == pre.paths@[i]);
                }
            }
            assert(p[0] == pre.paths@[0]);
            assert forall|e: int| #![trigger en[e]] 0 <= e < en.len() implies en[e].0 < p.len() by {
                assert(en[e] == pre.entries@[e]);
            }
            assert(self.unique_paths());
            assert(self.edges_wf());
            assert(self.parents_wf());
            assert(self.prefix_closed());
            assert(self.entries_wf());
            assert(self.wf());
            assert forall|t: Seq<char>| #[trigger] self.find_spec(t) == pre.find_spec(t) by {
                if t == q@ {
                    self.lemma_find_at(j as int);
                    lemma_entries_at_absent(en, j as int);
                } else if pre.has_node(t) {
                    let i = choose|i: int| 0 <= i < pre.paths@.len() && #[trigger] pre.paths@[i]@ == t;
                    pre.lemma_find_at(i);
                    assert(p[i] == pre.paths@[i]);
                    self.lemma_find_at(i);
                } else if self.has_node(t) {
                    let i = choose|i: int| 0 <= i < p.len() && #[trigger] p[i]@ == t;
                    assert(p[i] == pre.paths@[i]);
                }
            }
        }
        j
    }

    /// An empty index: only the root, with no entries.
    pub fn new() -> (r: IndexNode<T>)
        ensures
            r.wf(),
            forall|t: Seq<char>| #[trigger] r.find_spec(t) == Seq::<(T::V, u8)>::empty(),
    {
        let r = IndexNode { paths: vec![String::new()], edges: Vec::new(), entries: Vec::new() };
        proof {
            assert forall|j: int, m: int| 0 <= j < r.paths@.len() && 0 <= m <= r.paths@[j]@.len() implies exists|i: int|
                0 <= i < r.paths@.len() && #[trigger] r.paths@[i]@ == #[trigger] r.paths@[j]@.take(m) by {
                assert(r.paths@[0]@.take(m) =~= r.paths@[0]@);
            }
        }
        r
    }

    /// The entries stored under exactly `token`, in order of insertion;
    /// entries stored under longer tokens that start with it are not included.
    pub fn find(&self, token: &str) -> (r: Vec<(T, u8)>)
        requires
            self.wf(),
        ensures
            view_entries(r@) == self.find_spec(token@),
    {
        let n = token.unicode_len();
        let mut cur: usize = 0;
        let mut k: usize = 0;
        while k < n
            invariant
                self.wf(),
                n == token@.len(),
                k <= n,
                cur < self.paths@.len(),
                self.paths@[cur as int]@ == token@.take(k as int),
            decreases n - k,
        {
            let c = token.get_char(k);
            match self.child(cur, c) {
                Some(j) => {
                    assert(token@.take(k + 1) =~= token@.take(k as int).push(c));
                    cur = j;
                },
                None => {
                    proof {
                        self.lemma_absent(cur as int, token@, k as int);
                    }
                    return Vec::new();
                },
            }
            k += 1;
        }
        assert(token@.take(n as int) =~= token@);
        proof {
            self.lemma_find_at(cur as int);
        }
        self.entries_of(cur)
    }

    /// Stores `(value, rank)` under `token`, unless an entry for `value` is
    /// already stored under exactly that token.
    pub fn insert(&mut self, token: &str, value: T, rank: u8)
        requires
            old(self).wf(),
        ensures
            final(self).wf(),
            forall|t: Seq<char>| #[trigger]
                final(self).find_spec(t) == if t == token@ {
                    add_entry(old(self).find_spec(t), value@, rank)
                } else {
                    old(self).find_spec(t)
                },
    {
        let ghost pre = *self;
        let n = token.unicode_len();
        let mut cur: usize = 0;
        let mut k: usize = 0;
        while k < n
            invariant
                self.wf(),
                n == token@.len(),
                k <= n,
                cur < self.paths@.len(),
                self.paths@[cur as int]@ == token@.take(k as int),
                forall|t: Seq<char>| #[trigger] self.find_spec(t) == pre.find_spec(t),
            decreases n - k,
        {
            let c = token.get_char(k);
            match self.child(cur, c) {
                Some(j) => {
                    cur = j;
                },
                None => {
                    cur = self.add_child(cur, c);
                },
            }
            assert(token@.take(k + 1) =~= token@.take(k as int).push(c));
            k += 1;
        }
        assert(token@.take(n as int) =~= token@);
        let mut e: usize = 0;
        let mut present = false;
        while e < self.entries.len() && !present
            invariant
                self.wf(),
                cur < self.paths@.len(),
                self.paths@[cur as int]@ == token@,
                forall|t: Seq<char>| #[trigger] self.find_spec(t) == pre.find_spec(t),
                e <= self.entries@.len(),
                present ==> exists|f: int|
                    0 <= f < self.entries@.len() && (#[trigger] self.entries@[f]).0 == cur
                        && self.entries@[f].1@ == value@,
                !present ==> forall|f: int|
                    0 <= f < e ==> !((#[trigger] self.entries@[f]).0 == cur
                        && self.entries@[f].1@ == value@),
            decreases self.entries@.len() - e, if present { 0int } else { 1int },
        {
            if self.entries[e].0 == cur && self.entries[e].1.same_as(&value) {
                present = true;
            } else {
                e += 1;
            }
        }
        proof {
            self.lemma_find_at(cur as int);
            lemma_entries_at_has_key(self.entries@, cur as int, value@);
        }
        if !present {
            let ghost mid = *self;
            let ghost v = value@;
            self.entries.push((cur, value, rank));
            proof {
                let en = self.entries@;
                assert(en.drop_last() =~= mid.entries@);
                assert forall|f: int| #![trigger en[f]] 0 <= f < en.len() implies en[f].0 < self.paths@.len() by {
                    if f < mid.entries@.len() {
                        assert(en[f] == mid.entries@[f]);
                    }
                }
                assert forall|a: int, b: int|
                    0 <= a < b < en.len() && (#[trigger] en[a]).0 == (#[trigger] en[b]).0 implies en[a].1@
                        != en[b].1@ by {
                    assert(en[a] == mid.entries@[a]);
                    if b < mid.entries@.len() {
                        assert(en[b] == mid.entries@[b]);
                    }
                }
                assert(self.paths == mid.paths && self.edges == mid.edges);
                assert(self.entries_wf());
                assert(self.wf());
                assert forall|t: Seq<char>| #[trigger] self.find_spec(t) == if t == token@ {
                    add_entry(pre.find_spec(t), v, rank)
                } else {
                    pre.find_spec(t)
                } by {
                    if t == token@ {
                        self.lemma_find_at(cur as int);
                        mid.lemma_find_at(cur as int);
                        assert(en.last() == (cur, en.last().1, rank));
                        assert(entries_at(en, cur as int) == entries_at(mid.entries@, cur as int).push((v, rank)));
                        assert(!has_key(mid.find_spec(t), v));
                        assert(mid.find_spec(t) == pre.find_spec(t));
                        assert(self.find_spec(t) == add_entry(pre.find_spec(t), v, rank));
                    } else if self.has_node(t) {
                        let i = choose|i: int| 0 <= i < self.paths@.len() && #[trigger] self.paths@[i]@ == t;
                        self.lemma_find_at(i);
                        mid.lemma_find_at(i);
                        assert(i != cur);
                        assert(entries_at(en, i) == entries_at(mid.entries@, i));
                        assert(mid.find_spec(t) == pre.find_spec(t));
                        assert(self.find_spec(t) == pre.find_spec(t));
                    } else {
                        assert(!mid.has_node(t));
                        assert(mid.find_spec(t) == pre.find_spec(t));
                        assert(self.find_spec(t) == pre.find_spec(t));
                    }
                }
            }
        }
    }

    /// The node reached from `cur` over an edge labelled `c`, if there is one.
    fn child(&self, cur: usize, c: char) -> (r: Option<usize>)
        requires
            self.wf(),
        ensures
            r matches Some(j) ==> j < self.paths@.len() && self.paths@[j as int]@
                == self.paths@[cur as int]@.push(c) && cur < self.paths@.len(),
            r is None ==> forall|e: int|
                0 <= e < self.edges@.len() ==> !((#[trigger] self.edges@[e]).0 == cur
                    && self.edges@[e].1 == c),
    {
        let mut e: usize = 0;
        while e < self.edges.len()
            invariant
                self.wf(),
                e <= self.edges@.len(),
                forall|f: int|
                    0 <= f < e ==> !((#[trigger] self.edges@[f]).0 == cur && self.edges@[f].1
                        == c),
            decreases self.edges@.len() - e,
        {
            let (from, label, to) = self.edges[e];
            if from == cur && label == c {
                assert(self.edges@[e as int] == (from, label, to));
                return Some(to);
            }
            e += 1;
        }
        None
    }

    /// Copies of the entries of node `n`, in order of insertion.
    fn entries_of(&self, n: usize) -> (r: Vec<(T, u8)>)
        ensures
            view_entries(r@) == entries_at(self.entries@, n as int),
    {
        let mut r: Vec<(T, u8)> = Vec::new();
        let mut e: usize = 0;
        while e < self.entries.len()
            invariant
                e <= self.entries@.len(),
                view_entries(r@) == entries_at(self.entries@.take(e as int), n as int),
            decreases self.entries@.len() - e,
        {
            let ghost before = r@;
            assert(self.entries@.take(e + 1).drop_last() =~= self.entries@.take(e as int));
            if self.entries[e].0 == n {
                r.push((self.entries[e].1.duplicate(), self.entries[e].2));
                assert(view_entries(r@) =~= view_entries(before).push(
                    (self.entries@[e as int].1@, self.entries@[e as int].2),
                ));
            }
            e += 1;
        }
        assert(self.entries@.take(e as int) =~= self.entries@);
        r
    }
    /// `nodes` lists this index's nodes in order, each with its token, its
    /// entries and its outgoing edges.
    pub closed spec fn stored_as(&self, nodes: Seq<StoredNode<T>>) -> bool {
        &&& nodes.len() == self.paths@.len()
        &&& forall|i: int|
            #![trigger nodes[i]]
            0 <= i < nodes.len() ==> {
                &&& nodes[i].path@ == self.paths@[i]@
                &&& view_entries(nodes[i].rank@) == entries_at(self.entries@, i)
                &&& nodes[i].children@ == edges_from(self.edges@, i)
            }
    }

    /// This index is well formed and holds under each token what rebuilding
    /// from `nodes` gives.
    pub open spec fn restored_from(&self, nodes: Seq<StoredNode<T>>) -> bool {
        &&& self.wf()
        &&& forall|t: Seq<char>| #[trigger] self.find_spec(t) == restored(nodes, t)
    }

    /// The nodes of this index in a form that can be stored.
    pub fn to_nodes(&self) -> (r: Vec<StoredNode<T>>)
        requires
            self.wf(),
        ensures
            self.stored_as(r@),
    {
        let mut r: Vec<StoredNode<T>> = Vec::new();
        let mut i: usize = 0;
        while i < self.paths.len()
            invariant
                self.wf(),
                i <= self.paths@.len(),
                r@.len() == i,
                forall|k: int|
                    #![trigger r@[k]]
                    0 <= k < i ==> {
                        &&& r@[k].path@ == self.paths@[k]@
                        &&& view_entries(r@[k].rank@) == entries_at(self.entries@, k)
                        &&& r@[k].children@ == edges_from(self.edges@, k)
                    },
            decreases self.paths@.len() - i,
        {
            let mut children: Vec<(char, usize)> = Vec::new();
            let mut e: usize = 0;
            while e < self.edges.len()
                invariant
                    e <= self.edges@.len(),
                    children@ == edges_from(self.edges@.take(e as int), i as int),
                decreases self.edges@.len() - e,
            {
                assert(self.edges@.take(e + 1).drop_last() =~= self.edges@.take(e as int));
                let (from, label, to) = self.edges[e];
                if from == i {
                    children.push((label, to));
                }
                e += 1;
            }
            assert(self.edges@.take(e as int) =~= self.edges@);
            let node = StoredNode { path: self.paths[i].clone(), rank: self.entries_of(i), children };
            r.push(node);
            i += 1;
        }
        r
    }

    /// An index that holds, under each token, the entries of the nodes stored
    /// for it, added in order.
    pub fn from_nodes(nodes: &Vec<StoredNode<T>>) -> (r: IndexNode<T>)
        ensures
            r.restored_from(nodes@),
    {
        let mut r = IndexNode::new();
        let mut i: usize = 0;
        while i < nodes.len()
            invariant
                r.wf(),
                i <= nodes@.len(),
                forall|t: Seq<char>| #[trigger] r.find_spec(t) == restored(nodes@.take(i as int), t),
            decreases nodes@.len() - i,
        {
            let node = &nodes[i];
            let ghost before = nodes@.take(i as int);
            let mut k: usize = 0;
            while k < node.rank.len()
                invariant
                    r.wf(),
                    node == nodes@[i as int],
                    i < nodes@.len(),
                    k <= node.rank@.len(),
                    forall|t: Seq<char>| #[trigger] r.find_spec(t) == if t == node.path@ {
                        add_all(restored(before, t), view_entries(node.rank@.take(k as int)))
                    } else {
                        restored(before, t)
                    },
                decreases node.rank@.len() - k,
            {
                assert(view_entries(node.rank@.take(k + 1)).drop_last() =~= view_entries(
                    node.rank@.take(k as int),
                ));
                r.insert(node.path.as_str(), node.rank[k].0.duplicate(), node.rank[k].1);
                k += 1;
            }
            proof {
                assert(node.rank@.take(k as int) =~= node.rank@);
                assert(nodes@.take(i + 1).drop_last() =~= before);
            }
            i += 1;
        }
        assert(nodes@.take(i as int) =~= nodes@);
        r
    }
}

/// Storing an index as nodes and rebuilding it from them gives back, under
/// every token, exactly the entries the index held.
pub proof fn lemma_round_trip<T: Keyed>(
    a: IndexNode<T>,
    nodes: Seq<StoredNode<T>>,
    b: IndexNode<T>,
)
    requires
        a.wf(),
        a.stored_as(nodes),
        b.restored_from(nodes),
    ensures
        forall|t: Seq<char>| #[trigger] b.find_spec(t) == a.find_spec(t),
{
    assert forall|t: Seq<char>| #[trigger] b.find_spec(t) == a.find_spec(t) by {
        a.lemma_restored_prefix(nodes, t, nodes.len() as int);
        assert(nodes.take(nodes.len() as int) =~= nodes);
        if a.has_node(t) {
            let i = choose|i: int| 0 <= i < a.paths@.len() && #[trigger] a.paths@[i]@ == t;
            a.lemma_find_at(i);
        }
    }
}

impl<T: Keyed> IndexNode<T> {
    proof fn lemma_restored_prefix(&self, nodes: Seq<StoredNode<T>>, t: Seq<char>, n: int)
        requires
            self.wf(),
            self.stored_as(nodes),
            0 <= n <= nodes.len(),
        ensures
            restored(nodes.take(n), t) == if exists|k: int|
                0 <= k < n && #[trigger] self.paths@[k]@ == t {
                entries_at(
                    self.entries@,
                    choose|k: int| 0 <= k < n && #[trigger] self.paths@[k]@ == t,
                )
            } else {
                Seq::empty()
            },
        decreases n,
    {
        if n > 0 {
            self.lemma_restored_prefix(nodes, t, n - 1);
            let prev = nodes.take(n - 1);
            assert(nodes.take(n).drop_last() =~= prev);
            let last = nodes[n - 1];
            assert(nodes.take(n).last() == last);
            if last.path@ == t {
                if exists|k: int| 0 <= k < n - 1 && #[trigger] self.paths@[k]@ == t {
                    let k = choose|k: int| 0 <= k < n - 1 && #[trigger] self.paths@[k]@ == t;
                    assert(self.paths@[n - 1]@ == t);
                }
                lemma_entries_at_distinct(self.entries@, n - 1);
                lemma_add_all_distinct(entries_at(self.entries@, n - 1));
                let k = choose|k: int| 0 <= k < n && #[trigger] self.paths@[k]@ == t;
                assert(self.paths@[n - 1]@ == t);
            } else {
                if exists|k: int| 0 <= k < n && #[trigger] self.paths@[k]@ == t {
                    let k = choose|k: int| 0 <= k < n && #[trigger] self.paths@[k]@ == t;
                    assert(k != n - 1);
                    assert(exists|k: int| 0 <= k < n - 1 && #[trigger] self.paths@[k]@ == t);
                    let k2 = choose|k: int| 0 <= k < n - 1 && #[trigger] self.paths@[k]@ == t;
                    assert(k == k2);
                }
            }
        }
    }
}

} // verus!
