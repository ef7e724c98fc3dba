use vstd::prelude::*;

use crate::index::{add_entry, has_key, view_entries, IndexNode, Keyed, StoredNode};
use crate::rank::{first_seen, is_ranking, outranks, rank_entries, score, views};
use crate::token::{strs, WordTokenizer};

verus! {

/// Why a search operation failed.
pub enum SearchError {
    /// The sub-word model could not tokenize the text.
    TokenizationError(String),
    /// Reading or writing the stored index failed.
    IoError(String),
}

/// The entries of `idx` under each of `toks`, one token after another.
pub open spec fn gathered<T: Keyed>(idx: IndexNode<T>, toks: Seq<Seq<char>>) -> Seq<(T::V, u8)>
    decreases toks.len(),
{
    if toks.len() == 0 {
        Seq::empty()
    } else {
        gathered(idx, toks.drop_last()) + idx.find_spec(toks.last())
    }
}

/// `after` is `before` with `(v, r)` added under each of `toks`.
pub open spec fn indexed_under<T: Keyed>(
    before: IndexNode<T>,
    after: IndexNode<T>,
    toks: Seq<Seq<char>>,
    v: T::V,
    r: u8,
) -> bool {
    forall|t: Seq<char>| #[trigger]
        after.find_spec(t) == if toks.contains(t) {
            add_entry(before.find_spec(t), v, r)
        } else {
            before.find_spec(t)
        }
}

impl<T: Keyed> IndexNode<T> {
    /// Stores `(value, rank)` under each of `tokens`.
    pub fn insert_all(&mut self, tokens: &Vec<String>, value: &T, rank: u8)
        requires
            old(self).wf(),
        ensures
            final(self).wf(),
            indexed_under(*old(self), *final(self), strs(tokens@), value@, rank),
    {
        let ghost pre = *self;
        let mut i: usize = 0;
        while i < tokens.len()
            invariant
                self.wf(),
                i <= tokens@.len(),
                indexed_under(pre, *self, strs(tokens@.take(i as int)), value@, rank),
            decreases tokens@.len() - i,
        {
            let ghost mid = *self;
            let tok = tokens[i].as_str();
            self.insert(tok, value.duplicate(), rank);
            proof {
                let before = strs(tokens@.take(i as int));
                let now = strs(tokens@.take(i + 1));
                assert(now =~= before.push(tok@));
                assert forall|t: Seq<char>| #[trigger] self.find_spec(t) == if now.contains(t) {
                    add_entry(pre.find_spec(t), value@, rank)
                } else {
                    pre.find_spec(t)
                } by {
                    assert(mid.find_spec(t) == if before.contains(t) {
                        add_entry(pre.find_spec(t), value@, rank)
                    } else {
                        pre.find_spec(t)
                    });
                    if t == tok@ {
                        assert(now[now.len() - 1] == t);
                        if before.contains(t) {
                            let base = pre.find_spec(t);
                            if !has_key(base, value@) {
                                assert(base.push((value@, rank))[base.len() as int].0 == value@);
                            }
                        }
                    } else if before.contains(t) {
                        let k = choose|k: int| 0 <= k < before.len() && before[k] == t;
                        assert(now[k] == t);
                    } else if now.contains(t) {
                        let k = choose|k: int| 0 <= k < now.len() && now[k] == t;
                        assert(k < before.len());
                        assert(before[k] == t);
                    }
                }
            }
            i += 1;
        }
        assert(tokens@.take(i as int) =~= tokens@);
    }

    /// The entries under each of `tokens`, one token after another.
    pub fn lookup_all(&self, tokens: &Vec<String>) -> (r: Vec<(T, u8)>)
        requires
            self.wf(),
        ensures
            view_entries(r@) == gathered(*self, strs(tokens@)),
    {
        let mut r: Vec<(T, u8)> = Vec::new();
        let mut i: usize = 0;
        while i < tokens.len()
            invariant
                self.wf(),
                i <= tokens@.len(),
                view_entries(r@) == gathered(*self, strs(tokens@.take(i as int))),
            decreases tokens@.len() - i,
        {
            let ghost before = r@;
            let mut found = self.find(tokens[i].as_str());
            let ghost got = found@;
            r.append(&mut found);
            proof {
                assert(strs(tokens@.take(i + 1)).drop_last() =~= strs(tokens@.take(i as int)));
                assert(strs(tokens@.take(i + 1)).last() == tokens@[i as int]@);
                assert(r@ == before + got);
                assert(view_entries(r@) =~= view_entries(before) + view_entries(got));
            }
            i += 1;
        }
        assert(tokens@.take(i as int) =~= tokens@);
        r
    }
}

/// The values found under `tokens`, best ranked first: by the sum of their
/// ranks over all tokens, ties in order of first occurrence.
pub fn rank_tokens<T: Keyed>(index: &IndexNode<T>, tokens: &Vec<String>) -> (r: Vec<T>)
    requires
        index.wf(),
    ensures
        is_ranking(gathered(*index, strs(tokens@)), views(r@)),
{
    let flat = index.lookup_all(tokens);
    rank_entries(&flat)
}

/// In a ranking, a value with a higher score stands before one with a lower.
pub proof fn lemma_higher_score_first<V>(s: Seq<(V, u8)>, r: Seq<V>, i: int, j: int)
    requires
        is_ranking(s, r),
        0 <= i < r.len(),
        0 <= j < r.len(),
        score(s, r[i]) > score(s, r[j]),
    ensures
        i < j,
{
    if j < i {
        assert(outranks(s, r[j], r[i]));
    }
}

proof fn lemma_first_seen_has<V>(s: Seq<(V, u8)>, i: int)
    requires
        0 <= i < s.len(),
    ensures
        first_seen(s).contains(s[i].0),
    decreases s.len(),
{
    let d = s.drop_last();
    let f = first_seen(d);
    assert(first_seen(s) == if f.contains(s.last().0) { f } else { f.push(s.last().0) });
    if i == s.len() - 1 {
        if !f.contains(s.last().0) {
            assert(first_seen(s)[f.len() as int] == s.last().0);
        }
    } else {
        assert(d[i] == s[i]);
        lemma_first_seen_has(d, i);
        let k = choose|k: int| 0 <= k < f.len() && f[k] == s[i].0;
        assert(first_seen(s)[k] == f[k]);
    }
}

proof fn lemma_gathered_has<T: Keyed>(idx: IndexNode<T>, query: Seq<Seq<char>>, t: Seq<char>, v: T::V)
    requires
        query.contains(t),
        has_key(idx.find_spec(t), v),
    ensures
        exists|i: int| 0 <= i < gathered(idx, query).len() && (#[trigger] gathered(idx, query)[i]).0 == v,
    decreases query.len(),
{
    let d = query.drop_last();
    let prev = gathered(idx, d);
    let g = gathered(idx, query);
    assert(g == prev + idx.find_spec(query.last()));
    if query.last() == t {
        let j = choose|j: int| 0 <= j < idx.find_spec(t).len() && idx.find_spec(t)[j].0 == v;
        assert(g[prev.len() + j] == idx.find_spec(t)[j]);
    } else {
        let k = choose|k: int| 0 <= k < query.len() && query[k] == t;
        assert(k < d.len());
        assert(d[k] == t);
        lemma_gathered_has(idx, d, t, v);
        let i = choose|i: int| 0 <= i < prev.len() && (#[trigger] prev[i]).0 == v;
        assert(g[i] == prev[i]);
    }
}

/// A value stored under a token is listed by every search whose tokens
/// include that token.
pub proof fn lemma_stored_is_found<T: Keyed>(
    idx: IndexNode<T>,
    query: Seq<Seq<char>>,
    t: Seq<char>,
    v: T::V,
    results: Seq<T::V>,
)
    requires
        query.contains(t),
        has_key(idx.find_spec(t), v),
        is_ranking(gathered(idx, query), results),
    ensures
        results.contains(v),
{
    lemma_gathered_has(idx, query, t, v);
    let g = gathered(idx, query);
    let i = choose|i: int| 0 <= i < g.len() && (#[trigger] g[i]).0 == v;
    lemma_first_seen_has(g, i);
    let k = choose|k: int| 0 <= k < first_seen(g).len() && first_seen(g)[k] == v;
    assert(results.contains(first_seen(g)[k]));
}

/// Indexing a value under tokens stores it under each of them, and keeps
/// every value that was stored under any token before.
pub proof fn lemma_indexing_stores<T: Keyed>(
    before: IndexNode<T>,
    after: IndexNode<T>,
    toks: Seq<Seq<char>>,
    v: T::V,
    r: u8,
    t: Seq<char>,
    w: T::V,
)
    requires
        indexed_under(before, after, toks, v, r),
    ensures
        toks.contains(t) ==> has_key(after.find_spec(t), v),
        has_key(before.find_spec(t), w) ==> has_key(after.find_spec(t), w),
{
    let old_entries = before.find_spec(t);
    assert(after.find_spec(t) == if toks.contains(t) {
        add_entry(old_entries, v, r)
    } else {
        old_entries
    });
    if toks.contains(t) && !has_key(old_entries, v) {
        assert(old_entries.push((v, r))[old_entries.len() as int].0 == v);
    }
    if has_key(old_entries, w) {
        let i = choose|i: int| 0 <= i < old_entries.len() && old_entries[i].0 == w;
        if toks.contains(t) && !has_key(old_entries, v) {
            assert(old_entries.push((v, r))[i] == old_entries[i]);
        }
    }
}

/// The page `page` of `len` results, `size` to a page: the positions from
/// `page * size` up to the next page or the end; none past the end.
pub open spec fn page_bounds(len: int, page: int, size: int) -> (int, int) {
    if page * size >= len {
        (len, len)
    } else if (page + 1) * size <= len {
        (page * size, (page + 1) * size)
    } else {
        (page * size, len)
    }
}

/// One page of a ranked result list; a page that starts past the end is empty.
pub fn paginate<T: Keyed>(results: &Vec<T>, page: usize, size: usize) -> (r: Vec<T>)
    ensures
        views(r@) == views(results@).subrange(
            page_bounds(results@.len() as int, page as int, size as int).0,
            page_bounds(results@.len() as int, page as int, size as int).1,
        ),
{
    let len = results.len();
    let start = match page.checked_mul(size) {
        Some(s) => s,
        None => len,
    };
    proof {
        assert((page + 1) * size == page * size + size) by (nonlinear_arith);
    }
    let (lo, hi) = if start >= len {
        (len, len)
    } else if size <= len - start {
        (start, start + size)
    } else {
        (start, len)
    };
    let mut r: Vec<T> = Vec::new();
    let mut k = lo;
    while k < hi
        invariant
            lo <= k <= hi,
            hi <= results@.len(),
            views(r@) == views(results@).subrange(lo as int, k as int),
        decreases hi - k,
    {
        let ghost before = r@;
        let d = results[k].duplicate();
        r.push(d);
        assert(views(r@) =~= views(before).push(results@[k as int]@));
        assert(views(results@)[k as int] == results@[k as int]@);
        assert(views(results@).subrange(lo as int, k + 1) =~= views(results@).subrange(
            lo as int,
            k as int,
        ).push(views(results@)[k as int]));
        k += 1;
    }
    r
}

/// A search engine: a tokenizer in front of a ranked token index.
pub struct SearchHandler<T> {
    index_node: IndexNode<T>,
    tokenizer: WordTokenizer,
}

impl<T: Keyed> SearchHandler<T> {
    /// The index behind this engine.
    pub closed spec fn index_spec(&self) -> IndexNode<T> {
        self.index_node
    }

    /// The tokenizer in front of the index.
    pub closed spec fn tokenizer_spec(&self) -> WordTokenizer {
        self.tokenizer
    }

    pub open spec fn wf(&self) -> bool {
        self.index_spec().wf() && self.tokenizer_spec().wf()
    }

    /// An engine with an empty index.
    pub fn new(tokenizer: WordTokenizer) -> (r: SearchHandler<T>)
        requires
            tokenizer.wf(),
        ensures
            r.wf(),
            r.tokenizer_spec() == tokenizer,
            forall|t: Seq<char>| #[trigger] r.index_spec().find_spec(t) == Seq::<(T::V, u8)>::empty(),
    {
        SearchHandler { index_node: IndexNode::new(), tokenizer }
    }

    /// An engine whose index is rebuilt from stored nodes.
    pub fn from_nodes(nodes: &Vec<StoredNode<T>>, tokenizer: WordTokenizer) -> (r: SearchHandler<T>)
        requires
            tokenizer.wf(),
        ensures
            r.wf(),
            r.tokenizer_spec() == tokenizer,
            r.index_spec().restored_from(nodes@),
    {
        SearchHandler { index_node: IndexNode::from_nodes(nodes), tokenizer }
    }

    /// The nodes of the index in a form that can be stored.
    pub fn to_nodes(&self) -> (r: Vec<StoredNode<T>>)
        requires
            self.wf(),
        ensures
            self.index_spec().stored_as(r@),
    {
        self.index_node.to_nodes()
    }

    /// Stores `(value, rank)` under each of the given tokens.
    pub fn index_tokens(&mut self, tokens: &Vec<String>, value: &T, rank: u8)
        requires
            old(self).wf(),
        ensures
            final(self).wf(),
            final(self).tokenizer_spec() == old(self).tokenizer_spec(),
            indexed_under(old(self).index_spec(), final(self).index_spec(), strs(tokens@), value@, rank),
    {
        self.index_node.insert_all(tokens, value, rank);
    }

    /// Tokenizes `content` and stores `(value, rank)` under each token; when
    /// the model cannot encode the text, nothing changes.
    pub fn index(&mut self, content: &str, value: T, rank: u8) -> (r: Result<(), SearchError>)
        requires
            old(self).wf(),
        ensures
            final(self).wf(),
            final(self).tokenizer_spec() == old(self).tokenizer_spec(),
            r is Ok <==> old(self).tokenizer_spec().tokens_spec(content@) is Some,
            r is Ok ==> indexed_under(
                old(self).index_spec(),
                final(self).index_spec(),
                old(self).tokenizer_spec().tokens_spec(content@)->Some_0,
                value@,
                rank,
            ),
            r matches Err(e) ==> e is TokenizationError && final(self).index_spec() == old(
                self,
            ).index_spec(),
    {
        match self.tokenizer.tokenize(content) {
            Ok(tokens) => {
                self.index_tokens(&tokens, &value, rank);
                Ok(())
            },
            Err(e) => Err(SearchError::TokenizationError(e)),
        }
    }

    /// The values stored under the given tokens, best ranked first.
    pub fn search_tokens(&self, tokens: &Vec<String>) -> (r: Vec<T>)
        requires
            self.wf(),
        ensures
            is_ranking(gathered(self.index_spec(), strs(tokens@)), views(r@)),
    {
        rank_tokens(&self.index_node, tokens)
    }

    /// Tokenizes `query` as indexing does and ranks the values found under
    /// its tokens.
    pub fn search(&self, query: &str) -> (r: Result<Vec<T>, SearchError>)
        requires
            self.wf(),
        ensures
            r is Ok <==> self.tokenizer_spec().tokens_spec(query@) is Some,
            r matches Ok(v) ==> is_ranking(
                gathered(self.index_spec(), self.tokenizer_spec().tokens_spec(query@)->Some_0),
                views(v@),
            ),
            r matches Err(e) ==> e is TokenizationError,
    {
        match self.tokenizer.tokenize(query) {
            Ok(tokens) => Ok(self.search_tokens(&tokens)),
            Err(e) => Err(SearchError::TokenizationError(e)),
        }
    }
}

} // verus!
