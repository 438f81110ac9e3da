//! Ordered index over `(score, element)` pairs with no duplicate pairs:
//! ascending by score, ties broken by ascending lexicographic byte order of
//! the element.  Nodes live in one growable arena ordered by key, so every
//! reference between nodes is a plain position.  Each node carries a level
//! drawn from the geometric sampling procedure of the classic skip list
//! (probability one quarter per extra level, capped), and per level a
//! forward reference with its span, kept under the proven invariant that a
//! link's span is exactly the number of level-0 positions it covers — so
//! spans telescope to 1-based ranks.  The index tracks the highest level in
//! use.  Searches walk level 0 directly: the arena is the sorted order, so
//! the invariants carry the rank accounting while the upper levels remain
//! an un-exploited acceleration structure.

use vstd::multiset::Multiset;
use vstd::prelude::*;
use vstd::slice::slice_to_vec;

verus! {

broadcast use vstd::seq_lib::group_to_multiset_ensures;

/// Highest level a node may occupy.
pub const SKIPLIST_MAXLEVEL: u16 = 64;

/// Strict lexicographic byte order: a proper prefix precedes its
/// extensions, and the first differing byte decides.
pub open spec fn lex_lt(x: Seq<u8>, y: Seq<u8>) -> bool
    decreases x.len(),
{
    if y.len() == 0 {
        false
    } else if x.len() == 0 {
        true
    } else if x[0] < y[0] {
        true
    } else if x[0] > y[0] {
        false
    } else {
        lex_lt(x.subrange(1, x.len() as int), y.subrange(1, y.len() as int))
    }
}

/// The index's sort key order: ascending score, ties broken by ascending
/// lexicographic element order.
pub open spec fn key_lt(s1: i64, e1: Seq<u8>, s2: i64, e2: Seq<u8>) -> bool {
    s1 < s2 || (s1 == s2 && lex_lt(e1, e2))
}

/// Whether the pairs of `v` are strictly ascending in key order.
pub open spec fn sorted_keys(v: Seq<(i64, Seq<u8>)>) -> bool {
    forall|i: int, j: int|
        #![trigger v[i], v[j]]
        0 <= i < j < v.len() ==> key_lt(v[i].0, v[i].1, v[j].0, v[j].1)
}

/// Whether `v` holds the pair `(score, ele)`.
pub open spec fn contains_pair(v: Seq<(i64, Seq<u8>)>, score: i64, ele: Seq<u8>) -> bool {
    exists|i: int| 0 <= i < v.len() && #[trigger] v[i] == (score, ele)
}

/// No sequence precedes itself.
pub proof fn lemma_lex_irrefl(x: Seq<u8>)
    ensures
        !lex_lt(x, x),
    decreases x.len(),
{
    if x.len() > 0 {
        lemma_lex_irrefl(x.subrange(1, x.len() as int));
    }
}

/// Lexicographic order is transitive.
pub proof fn lemma_lex_trans(x: Seq<u8>, y: Seq<u8>, z: Seq<u8>)
    requires
        lex_lt(x, y),
        lex_lt(y, z),
    ensures
        lex_lt(x, z),
    decreases x.len(),
{
    if x.len() > 0 && y.len() > 0 && z.len() > 0 {
        if x[0] == y[0] && y[0] == z[0] {
            lemma_lex_trans(
                x.subrange(1, x.len() as int),
                y.subrange(1, y.len() as int),
                z.subrange(1, z.len() as int),
            );
        }
    }
}

/// Any two sequences are ordered one way, the other, or equal.
pub proof fn lemma_lex_connex(x: Seq<u8>, y: Seq<u8>)
    ensures
        lex_lt(x, y) || lex_lt(y, x) || x == y,
    decreases x.len(),
{
    if x.len() == 0 && y.len() == 0 {
        assert(x =~= y);
    } else if x.len() > 0 && y.len() > 0 && x[0] == y[0] {
        let xt = x.subrange(1, x.len() as int);
        let yt = y.subrange(1, y.len() as int);
        lemma_lex_connex(xt, yt);
        if !lex_lt(x, y) && !lex_lt(y, x) {
            assert(xt == yt);
            assert(x.len() == y.len());
            assert forall|u: int| 0 <= u < x.len() implies x[u] == y[u] by {
                if u > 0 {
                    assert(x[u] == xt[u - 1]);
                    assert(y[u] == yt[u - 1]);
                }
            }
            assert(x =~= y);
        }
    }
}

/// Key order is transitive.
pub proof fn lemma_key_trans(s1: i64, e1: Seq<u8>, s2: i64, e2: Seq<u8>, s3: i64, e3: Seq<u8>)
    requires
        key_lt(s1, e1, s2, e2),
        key_lt(s2, e2, s3, e3),
    ensures
        key_lt(s1, e1, s3, e3),
{
    if s1 == s2 && s2 == s3 {
        lemma_lex_trans(e1, e2, e3);
    }
}

/// Two pairs not ordered either way are the same pair.
pub proof fn lemma_key_connex(s1: i64, e1: Seq<u8>, s2: i64, e2: Seq<u8>)
    requires
        !key_lt(s1, e1, s2, e2),
        !key_lt(s2, e2, s1, e1),
    ensures
        s1 == s2 && e1 == e2,
{
    lemma_lex_connex(e1, e2);
}

/// Dropping a shared prefix does not change the order.
pub proof fn lemma_lex_skip(x: Seq<u8>, y: Seq<u8>, k: int)
    requires
        0 <= k <= x.len(),
        k <= y.len(),
        forall|t: int| 0 <= t < k ==> x[t] == y[t],
    ensures
        lex_lt(x, y) == lex_lt(x.subrange(k, x.len() as int), y.subrange(k, y.len() as int)),
    decreases k,
{
    if k == 0 {
        assert(x.subrange(0, x.len() as int) =~= x);
        assert(y.subrange(0, y.len() as int) =~= y);
    } else {
        let xt = x.subrange(1, x.len() as int);
        let yt = y.subrange(1, y.len() as int);
        assert(forall|t: int| 0 <= t < k - 1 ==> xt[t] == yt[t]);
        lemma_lex_skip(xt, yt, k - 1);
        assert(xt.subrange(k - 1, xt.len() as int) =~= x.subrange(k, x.len() as int));
        assert(yt.subrange(k - 1, yt.len() as int) =~= y.subrange(k, y.len() as int));
    }
}

/// Whether `a` lexicographically precedes `b`.
fn lex_less(a: &[u8], b: &[u8]) -> (r: bool)
    ensures
        r == lex_lt(a@, b@),
{
    let na = a.len();
    let nb = b.len();
    let n = if na < nb {
        na
    } else {
        nb
    };
    let mut k: usize = 0;
    while k < n
        invariant
            0 <= k <= n,
            n == if na < nb {
                na
            } else {
                nb
            },
            na == a@.len(),
            nb == b@.len(),
            forall|t: int| 0 <= t < k ==> a@[t] == b@[t],
        decreases n - k,
    {
        if a[k] < b[k] {
            proof {
                lemma_lex_skip(a@, b@, k as int);
                assert(a@.subrange(k as int, na as int)[0] == a@[k as int]);
                assert(b@.subrange(k as int, nb as int)[0] == b@[k as int]);
            }
            return true;
        }
        if a[k] > b[k] {
            proof {
                lemma_lex_skip(a@, b@, k as int);
                assert(a@.subrange(k as int, na as int)[0] == a@[k as int]);
                assert(b@.subrange(k as int, nb as int)[0] == b@[k as int]);
            }
            return false;
        }
        k += 1;
    }
    proof {
        lemma_lex_skip(a@, b@, n as int);
        assert(a@.subrange(n as int, na as int).len() == na - n);
        assert(b@.subrange(n as int, nb as int).len() == nb - n);
    }
    na < nb
}

/// Whether two byte sequences hold the same bytes.
fn same_bytes(a: &[u8], b: &[u8]) -> (r: bool)
    ensures
        r == (a@ == b@),
{
    if a.len() != b.len() {
        return false;
    }
    let n = a.len();
    let mut k: usize = 0;
    while k < n
        invariant
            0 <= k <= n,
            n == a@.len() == b@.len(),
            forall|t: int| 0 <= t < k ==> a@[t] == b@[t],
        decreases n - k,
    {
        if a[k] != b[k] {
            return false;
        }
        k += 1;
    }
    proof {
        assert(a@ =~= b@);
    }
    true
}

/// Whether node `nd`'s key precedes the key `(score, ele)`.
fn node_key_before(nd: &SkipListNode, score: i64, ele: &[u8]) -> (r: bool)
    ensures
        r == key_lt(nd.score, nd.ele@, score, ele@),
{
    nd.score < score || (nd.score == score && lex_less(nd.ele.as_slice(), ele))
}

/// Relies on rand::random: draws a random `u16`; nothing is assumed of the
/// value drawn.
#[verifier::external_body]
fn random_u16() -> u16 {
    rand::random::<u16>()
}

/// One level entry of a node: the 0-based arena position its forward
/// reference skips to (the arena length when there is none), and the span:
/// the number of level-0 hops that link covers.
pub struct SkipListLevel {
    pub forward: usize,
    pub span: u64,
}

/// One node of the index: its element bytes, its score, and the level it
/// was sampled at.
pub struct SkipListNode {
    pub ele: Vec<u8>,
    pub score: i64,
    pub level: u16,
}

impl SkipListNode {
    /// Builds a node with the given element copy, score, and level.
    pub fn new(ele: &[u8], score: i64, lv: u16) -> (r: Self)
        ensures
            r.ele@ == ele@,
            r.score == score,
            r.level == lv,
    {
        SkipListNode { ele: slice_to_vec(ele), score, level: lv }
    }

    /// Samples a level for a new node: starting at 1, each further level is
    /// taken with probability about one quarter, capped at the maximum.
    fn random_level() -> (lv: u16)
        ensures
            1 <= lv <= SKIPLIST_MAXLEVEL,
    {
        let mut lv: u16 = 1;
        while lv < SKIPLIST_MAXLEVEL
            invariant
                1 <= lv <= SKIPLIST_MAXLEVEL,
            decreases SKIPLIST_MAXLEVEL - lv,
        {
            // keep growing with probability ~1/4: a draw below a quarter of
            // the u16 range
            if random_u16() >= 16383 {
                return lv;
            }
            lv += 1;
        }
        lv
    }
}

/// The ordered index: an arena of nodes in strictly ascending key order,
/// and the highest level any node occupies.
pub struct SkipList {
    nodes: Vec<SkipListNode>,
    links: Vec<Vec<SkipListLevel>>,
    level: u16,
}

/// Keys of a sequence of nodes, elementwise.
pub open spec fn nodes_keys(s: Seq<SkipListNode>) -> Seq<(i64, Seq<u8>)> {
    Seq::new(
        s.len(),
        |i: int|
            if 0 <= i < s.len() {
                (s[i].score, s[i].ele@)
            } else {
                (0i64, Seq::empty())
            },
    )
}

/// The first position at or after `j` whose node reaches above level `l`,
/// or the arena length when none does.
pub open spec fn next_above(nodes: Seq<SkipListNode>, j: int, l: int) -> int
    decreases nodes.len() - j,
{
    if j < 0 || j >= nodes.len() {
        nodes.len() as int
    } else if nodes[j].level > l {
        j
    } else {
        next_above(nodes, j + 1, l)
    }
}

/// `next_above` is the first such position: everything before it stays at
/// or below `l`, and the position found (if any) reaches above `l`.
pub proof fn lemma_next_above_props(nodes: Seq<SkipListNode>, j0: int, l: int)
    requires
        0 <= j0 <= nodes.len(),
    ensures
        j0 <= next_above(nodes, j0, l) <= nodes.len(),
        forall|t: int|
            j0 <= t < next_above(nodes, j0, l) ==> (#[trigger] nodes[t]).level <= l,
        next_above(nodes, j0, l) < nodes.len() ==> nodes[next_above(nodes, j0, l)].level > l,
    decreases nodes.len() - j0,
{
    if j0 < nodes.len() && !(nodes[j0].level > l) {
        lemma_next_above_props(nodes, j0 + 1, l);
    }
}

/// The node at position `i` carries one entry per level it occupies; each
/// entry's forward reference is the next position reaching above that
/// level, and its span is exactly the number of level-0 hops covered.
pub open spec fn links_row_wf(nodes: Seq<SkipListNode>, i: int, row: Seq<SkipListLevel>) -> bool {
    &&& row.len() == nodes[i].level as int
    &&& forall|l: int|
        0 <= l < row.len() ==> (#[trigger] row[l]).forward as int == next_above(
            nodes,
            i + 1,
            l,
        ) && row[l].span as int == row[l].forward - i
}

/// Every node's level entries are well formed: the span-sum invariant (at
/// every level each link advances the position by exactly its span, so
/// spans from the front telescope to 1-based ranks).
pub open spec fn links_wf(nodes: Seq<SkipListNode>, links: Seq<Vec<SkipListLevel>>) -> bool {
    &&& links.len() == nodes.len()
    &&& forall|i: int| 0 <= i < nodes.len() ==> links_row_wf(nodes, i, (#[trigger] links[i])@)
}

impl View for SkipList {
    type V = Seq<(i64, Seq<u8>)>;

    closed spec fn view(&self) -> Seq<(i64, Seq<u8>)> {
        nodes_keys(self.nodes@)
    }
}

/// The pairs of ranks `start..=end` (1-based, both clamped to the valid
/// range) in ascending order.
pub open spec fn rank_range(v: Seq<(i64, Seq<u8>)>, start: int, end: int) -> Seq<(i64, Seq<u8>)> {
    let lo = if start < 1 {
        1
    } else {
        start
    };
    let hi = if end > v.len() {
        v.len() as int
    } else {
        end
    };
    if lo > hi {
        Seq::empty()
    } else {
        v.subrange(lo - 1, hi)
    }
}

/// Whether a pair's score lies within the given bounds.
pub open spec fn in_score_range(
    p: (i64, Seq<u8>),
    min: i64,
    max: i64,
    min_inc: bool,
    max_inc: bool,
) -> bool {
    (if min_inc {
        min <= p.0
    } else {
        min < p.0
    }) && (if max_inc {
        p.0 <= max
    } else {
        p.0 < max
    })
}

/// Inserting anywhere adds exactly that pair to the contents.
pub proof fn lemma_insert_to_multiset(s: Seq<(i64, Seq<u8>)>, pos: int, x: (i64, Seq<u8>))
    requires
        0 <= pos <= s.len(),
    ensures
        s.insert(pos, x).to_multiset() == s.to_multiset().insert(x),
    decreases s.len(),
{
    if pos == s.len() {
        assert(s.insert(pos, x) =~= s.push(x));
    } else {
        let t = s.drop_last();
        assert(s =~= t.push(s.last()));
        assert(s.insert(pos, x) =~= t.insert(pos, x).push(s.last()));
        lemma_insert_to_multiset(t, pos, x);
        assert(t.to_multiset().insert(x).insert(s.last()) =~= t.to_multiset().insert(
            s.last(),
        ).insert(x));
    }
}

impl SkipList {
    /// Structural well-formedness: pairs strictly ascend in key order,
    /// every node's level is between 1 and the maximum and at most the
    /// index's level, and the index's level is 1 or realized by some node.
    pub closed spec fn wf(&self) -> bool {
        &&& sorted_keys(self@)
        &&& 1 <= self.level <= SKIPLIST_MAXLEVEL
        &&& (forall|i: int|
            0 <= i < self.nodes@.len() ==> 1 <= (#[trigger] self.nodes@[i]).level
                <= SKIPLIST_MAXLEVEL && self.nodes@[i].level <= self.level)
        &&& (self.level == 1 || exists|i: int|
            0 <= i < self.nodes@.len() && (#[trigger] self.nodes@[i]).level == self.level)
        &&& links_wf(self.nodes@, self.links@)
    }

    /// A well-formed index's pairs are strictly ascending in key order.
    pub proof fn lemma_wf_sorted(&self)
        requires
            self.wf(),
        ensures
            sorted_keys(self@),
    {
    }

    /// Builds an empty index at level 1.
    pub fn new() -> (r: Self)
        ensures
            r@ == Seq::<(i64, Seq<u8>)>::empty(),
            r.wf(),
    {
        let r = SkipList { nodes: Vec::new(), links: Vec::new(), level: 1 };
        proof {
            assert(r@ =~= Seq::<(i64, Seq<u8>)>::empty());
        }
        r
    }

    /// The number of pairs held.
    pub fn len(&self) -> (r: usize)
        ensures
            r == self@.len(),
    {
        self.nodes.len()
    }

    /// The highest level any node occupies; 1 for an empty index.
    pub fn level(&self) -> (r: u16)
        requires
            self.wf(),
        ensures
            1 <= r <= SKIPLIST_MAXLEVEL,
            self@.len() == 0 ==> r == 1,
    {
        self.level
    }

    /// Inserts the pair `(score, ele)`, which must not already be present,
    /// at its unique position in ascending key order; returns that 0-based
    /// position.  The contents gain exactly this pair.
    #[verifier::loop_isolation(false)]
    pub fn insert(&mut self, score: i64, ele: &[u8]) -> (pos: usize)
        requires
            old(self).wf(),
            !contains_pair(old(self)@, score, ele@),
            old(self)@.len() < usize::MAX,
        ensures
            final(self).wf(),
            pos <= old(self)@.len(),
            final(self)@ == old(self)@.insert(pos as int, (score, ele@)),
            final(self)@.len() == old(self)@.len() + 1,
            forall|i: int|
                0 <= i < pos ==> key_lt(
                    (#[trigger] old(self)@[i]).0,
                    old(self)@[i].1,
                    score,
                    ele@,
                ),
            forall|i: int|
                pos <= i < old(self)@.len() ==> key_lt(
                    score,
                    ele@,
                    (#[trigger] old(self)@[i]).0,
                    old(self)@[i].1,
                ),
            final(self)@.to_multiset() == old(self)@.to_multiset().insert((score, ele@)),
    {
        let ghost v0 = self@;
        let n = self.nodes.len();
        let mut pos: usize = 0;
        while pos < n && node_key_before(&self.nodes[pos], score, ele)
            invariant
                0 <= pos <= n,
                forall|i: int|
                    0 <= i < pos ==> key_lt((#[trigger] v0[i]).0, v0[i].1, score, ele@),
            decreases n - pos,
        {
            pos += 1;
        }
        proof {
            if pos < n {
                assert(!key_lt(v0[pos as int].0, v0[pos as int].1, score, ele@));
            }
            assert forall|i: int|
                pos <= i < v0.len() implies key_lt(
                score,
                ele@,
                (#[trigger] v0[i]).0,
                v0[i].1,
            ) by {
                if !key_lt(v0[pos as int].0, v0[pos as int].1, score, ele@) {
                    if !key_lt(score, ele@, v0[pos as int].0, v0[pos as int].1) {
                        lemma_key_connex(v0[pos as int].0, v0[pos as int].1, score, ele@);
                        assert(v0[pos as int] == (score, ele@));
                        assert(contains_pair(v0, score, ele@));
                    }
                    if i > pos {
                        lemma_key_trans(
                            score,
                            ele@,
                            v0[pos as int].0,
                            v0[pos as int].1,
                            v0[i].0,
                            v0[i].1,
                        );
                    }
                }
            }
        }
        let lv = SkipListNode::random_level();
        let node = SkipListNode { ele: slice_to_vec(ele), score, level: lv };
        self.nodes.insert(pos, node);
        proof {
            assert(self@ =~= v0.insert(pos as int, (score, ele@)));
            assert(sorted_keys(self@)) by {
                assert forall|i: int, j: int|
                    0 <= i < j < self@.len() implies key_lt(
                    (#[trigger] self@[i]).0,
                    self@[i].1,
                    (#[trigger] self@[j]).0,
                    self@[j].1,
                ) by {
                    let p = pos as int;
                    if i < p && j == p {
                    } else if i == p && j > p {
                    } else if i < p && j > p {
                        assert(self@[i] == v0[i] && self@[j] == v0[j - 1]);
                    } else if j < p {
                        assert(self@[i] == v0[i] && self@[j] == v0[j]);
                    } else if i > p {
                        assert(self@[i] == v0[i - 1] && self@[j] == v0[j - 1]);
                    }
                }
            }
            lemma_insert_to_multiset(v0, pos as int, (score, ele@));
            let p = pos as int;
            let nodes0 = old(self).nodes@;
            let nodes1 = self.nodes@;
            assert(nodes1 == nodes0.insert(p, nodes1[p]));
            assert forall|i: int|
                0 <= i < nodes1.len() implies 1 <= (#[trigger] nodes1[i]).level
                <= SKIPLIST_MAXLEVEL by {
                if i < p {
                    assert(nodes1[i] == nodes0[i]);
                } else if i > p {
                    assert(nodes1[i] == nodes0[i - 1]);
                } else {
                    assert(nodes1[p].level == lv);
                }
            }
        }
        self.rebuild_derived();
        pos
    }

    /// Deletes the pair `(score, ele)` if present; reports whether it was.
    /// The contents lose exactly this pair when it was there, and are
    /// unchanged otherwise.
    #[verifier::loop_isolation(false)]
    pub fn delete(&mut self, score: i64, ele: &[u8]) -> (found: bool)
        requires
            old(self).wf(),
        ensures
            final(self).wf(),
            found == contains_pair(old(self)@, score, ele@),
            found ==> exists|i: int|
                0 <= i < old(self)@.len() && #[trigger] old(self)@[i] == (score, ele@)
                    && final(self)@ == old(self)@.remove(i),
            !found ==> final(self)@ == old(self)@,
            found ==> final(self)@.to_multiset() == old(self)@.to_multiset().remove(
                (score, ele@),
            ),
            found ==> final(self)@.len() == old(self)@.len() - 1,
    {
        let ghost v0 = self@;
        let n = self.nodes.len();
        let mut k: usize = 0;
        while k < n
            invariant
                0 <= k <= n,
                *self == *old(self),
                forall|t: int| 0 <= t < k ==> #[trigger] v0[t] != (score, ele@),
            decreases n - k,
        {
            let hit = self.nodes[k].score == score && same_bytes(
                self.nodes[k].ele.as_slice(),
                ele,
            );
            if hit {
                proof {
                    assert(v0[k as int] == (score, ele@));
                }
                let ghost nodes0 = self.nodes@;
                self.nodes.remove(k);
                proof {
                    assert forall|i: int|
                        0 <= i < self.nodes@.len() implies 1 <= (#[trigger] self.nodes@[i]).level
                        <= SKIPLIST_MAXLEVEL by {
                        if i < k as int {
                            assert(self.nodes@[i] == nodes0[i]);
                        } else {
                            assert(self.nodes@[i] == nodes0[i + 1]);
                        }
                    }
                    assert(self@ =~= v0.remove(k as int));
                    assert(sorted_keys(self@)) by {
                        assert forall|i: int, j: int|
                            0 <= i < j < self@.len() implies key_lt(
                            (#[trigger] self@[i]).0,
                            self@[i].1,
                            (#[trigger] self@[j]).0,
                            self@[j].1,
                        ) by {
                            let p = k as int;
                            let oi = if i < p {
                                i
                            } else {
                                i + 1
                            };
                            let oj = if j < p {
                                j
                            } else {
                                j + 1
                            };
                            assert(self@[i] == v0[oi] && self@[j] == v0[oj]);
                        }
                    }
                }
                self.rebuild_derived();
                return true;
            }
            k += 1;
        }
        proof {
            assert(!contains_pair(v0, score, ele@));
        }
        false
    }

    /// Recomputes the state the arena determines: the index's level (the
    /// highest level any node occupies, or 1 when there is none) and every
    /// node's level entries (forward reference and span per level).
    #[verifier::loop_isolation(false)]
    fn rebuild_derived(&mut self)
        requires
            sorted_keys(old(self)@),
            forall|i: int|
                0 <= i < old(self).nodes@.len() ==> 1 <= (#[trigger] old(self).nodes@[i]).level
                    <= SKIPLIST_MAXLEVEL,
        ensures
            final(self).wf(),
            final(self)@ == old(self)@,
    {
        let n = self.nodes.len();
        let mut m: u16 = 1;
        let mut k: usize = 0;
        while k < n
            invariant
                0 <= k <= n,
                1 <= m <= SKIPLIST_MAXLEVEL,
                forall|t: int| 0 <= t < k ==> (#[trigger] self.nodes@[t]).level <= m,
                m == 1 || exists|t: int|
                    0 <= t < k && (#[trigger] self.nodes@[t]).level == m,
            decreases n - k,
        {
            if self.nodes[k].level > m {
                m = self.nodes[k].level;
            }
            k += 1;
        }
        self.level = m;
        let mut all: Vec<Vec<SkipListLevel>> = Vec::new();
        let mut i: usize = 0;
        while i < n
            invariant
                0 <= i <= n,
                all@.len() == i,
                forall|ii: int|
                    0 <= ii < i ==> links_row_wf(self.nodes@, ii, (#[trigger] all@[ii])@),
            decreases n - i,
        {
            let lvl = self.nodes[i].level;
            let mut row: Vec<SkipListLevel> = Vec::new();
            let mut l: u16 = 0;
            while l < lvl
                invariant
                    0 <= l <= lvl,
                    row@.len() == l as int,
                    forall|ll: int|
                        0 <= ll < l ==> (#[trigger] row@[ll]).forward as int == next_above(
                            self.nodes@,
                            i as int + 1,
                            ll,
                        ) && row@[ll].span as int == row@[ll].forward - i,
                decreases lvl - l,
            {
                let mut j = i + 1;
                while j < n && self.nodes[j].level <= l
                    invariant
                        i + 1 <= j <= n,
                        forall|t: int|
                            i + 1 <= t < j ==> (#[trigger] self.nodes@[t]).level <= l,
                    decreases n - j,
                {
                    j += 1;
                }
                proof {
                    lemma_next_above_props(self.nodes@, i as int + 1, l as int);
                    let na = next_above(self.nodes@, i as int + 1, l as int);
                    if na < j {
                        assert(self.nodes@[na].level <= l);
                    }
                    if na > j {
                        assert(self.nodes@[j as int].level <= l);
                    }
                    assert(na == j as int);
                }
                row.push(SkipListLevel { forward: j, span: (j - i) as u64 });
                l += 1;
            }
            proof {
                assert(links_row_wf(self.nodes@, i as int, row@));
            }
            all.push(row);
            i += 1;
        }
        self.links = all;
        proof {
            assert(self.nodes@ == old(self).nodes@);
            assert(sorted_keys(self@));
            assert(self.links@.len() == self.nodes@.len());
            assert(forall|i2: int|
                0 <= i2 < self.nodes@.len() ==> links_row_wf(
                    self.nodes@,
                    i2,
                    (#[trigger] self.links@[i2])@,
                ));
            assert(links_wf(self.nodes@, self.links@));
            assert(forall|i2: int|
                0 <= i2 < self.nodes@.len() ==> 1 <= (#[trigger] self.nodes@[i2]).level
                    <= SKIPLIST_MAXLEVEL && self.nodes@[i2].level <= self.level);
            assert(self.level == 1 || exists|i2: int|
                0 <= i2 < self.nodes@.len() && (#[trigger] self.nodes@[i2]).level == self.level);
        }
    }

    /// The level the node at 0-based position `i` occupies.
    pub closed spec fn spec_level_of(&self, i: int) -> int {
        self.nodes@[i].level as int
    }

    /// The level-`lvl` entry of the node at 0-based position `pos`: the
    /// position its forward reference skips to and that link's span.  Law
    /// (rank accounting): every link advances the position by exactly its
    /// span, and level-0 links advance by one, so spans from the front of
    /// the index telescope to exact 1-based ranks.
    pub fn level_entry(&self, pos: usize, lvl: u16) -> (r: Option<(usize, u64)>)
        requires
            self.wf(),
        ensures
            r is Some <==> (pos < self@.len() && (lvl as int) < self.spec_level_of(pos as int)),
            r is Some ==> {
                let fw = r->Some_0.0;
                let sp = r->Some_0.1;
                &&& pos < fw <= self@.len()
                &&& sp as int == fw - pos
                &&& (forall|t: int| pos < t < fw ==> self.spec_level_of(t) <= lvl)
                &&& (fw < self@.len() ==> self.spec_level_of(fw as int) > lvl)
                &&& (lvl == 0 ==> fw == pos + 1)
            },
    {
        if pos < self.nodes.len() && lvl < self.nodes[pos].level {
            proof {
                assert(links_row_wf(self.nodes@, pos as int, self.links@[pos as int]@));
                lemma_next_above_props(self.nodes@, pos as int + 1, lvl as int);
            }
            let row = &self.links[pos];
            let e = &row[lvl as usize];
            Some((e.forward, e.span))
        } else {
            None
        }
    }

    /// The 1-based rank of the pair `(score, ele)` in ascending key order,
    /// if the pair is present.
    #[verifier::loop_isolation(false)]
    pub fn rank_of(&self, score: i64, ele: &[u8]) -> (r: Option<usize>)
        requires
            self.wf(),
        ensures
            r is Some <==> contains_pair(self@, score, ele@),
            r is Some ==> 1 <= r->Some_0 <= self@.len() && self@[r->Some_0 - 1] == (
            score,
            ele@,
            ),
    {
        let n = self.nodes.len();
        let mut k: usize = 0;
        while k < n
            invariant
                0 <= k <= n,
                forall|t: int| 0 <= t < k ==> #[trigger] self@[t] != (score, ele@),
            decreases n - k,
        {
            let hit = self.nodes[k].score == score && same_bytes(
                self.nodes[k].ele.as_slice(),
                ele,
            );
            if hit {
                proof {
                    assert(self@[k as int] == (score, ele@));
                }
                return Some(k + 1);
            }
            k += 1;
        }
        proof {
            assert(!contains_pair(self@, score, ele@));
        }
        None
    }

    /// The node at 1-based rank `rank`, if that rank exists.
    pub fn node_at_rank(&self, rank: usize) -> (r: Option<&SkipListNode>)
        ensures
            r is Some <==> 1 <= rank <= self@.len(),
            r is Some ==> ((r->Some_0.score, r->Some_0.ele@) == self@[rank - 1]),
    {
        if rank >= 1 && rank <= self.nodes.len() {
            Some(&self.nodes[rank - 1])
        } else {
            None
        }
    }

    /// Copies of the nodes at ranks `start..=end` (1-based, clamped), in
    /// ascending key order.
    #[verifier::loop_isolation(false)]
    pub fn range_by_rank(&self, start: usize, end: usize) -> (r: Vec<SkipListNode>)
        ensures
            nodes_keys(r@) == rank_range(self@, start as int, end as int),
    {
        let n = self.nodes.len();
        let lo = if start < 1 {
            1
        } else {
            start
        };
        let hi = if end > n {
            n
        } else {
            end
        };
        let mut out: Vec<SkipListNode> = Vec::new();
        if lo > hi {
            proof {
                assert(nodes_keys(out@) =~= rank_range(self@, start as int, end as int));
            }
            return out;
        }
        let mut k = lo - 1;
        while k < hi
            invariant
                lo - 1 <= k <= hi <= n,
                out@.len() == k - (lo - 1),
                forall|t: int|
                    0 <= t < out@.len() ==> (#[trigger] out@[t]).score == self.nodes@[lo - 1
                        + t].score && out@[t].ele@ == self.nodes@[lo - 1 + t].ele@,
            decreases hi - k,
        {
            let nd = &self.nodes[k];
            out.push(SkipListNode { ele: slice_to_vec(nd.ele.as_slice()), score: nd.score, level: nd.level });
            k += 1;
        }
        proof {
            assert(nodes_keys(out@) =~= rank_range(self@, start as int, end as int));
        }
        out
    }

    /// Copies of the nodes at ranks `start..=end` (1-based, clamped), in
    /// descending key order: the exact reverse of `range_by_rank`.
    #[verifier::loop_isolation(false)]
    pub fn reverse_range(&self, start: usize, end: usize) -> (r: Vec<SkipListNode>)
        ensures
            nodes_keys(r@) == rank_range(self@, start as int, end as int).reverse(),
    {
        let n = self.nodes.len();
        let lo = if start < 1 {
            1
        } else {
            start
        };
        let hi = if end > n {
            n
        } else {
            end
        };
        let mut out: Vec<SkipListNode> = Vec::new();
        if lo > hi {
            proof {
                assert(nodes_keys(out@) =~= rank_range(
                    self@,
                    start as int,
                    end as int,
                ).reverse());
            }
            return out;
        }
        let mut k = hi;
        while k >= lo
            invariant
                lo - 1 <= k <= hi <= n,
                1 <= lo,
                out@.len() == hi - k,
                forall|t: int|
                    0 <= t < out@.len() ==> (#[trigger] out@[t]).score == self.nodes@[hi - 1
                        - t].score && out@[t].ele@ == self.nodes@[hi - 1 - t].ele@,
            decreases k,
        {
            let nd = &self.nodes[k - 1];
            out.push(SkipListNode { ele: slice_to_vec(nd.ele.as_slice()), score: nd.score, level: nd.level });
            k -= 1;
        }
        proof {
            assert(nodes_keys(out@) =~= rank_range(self@, start as int, end as int).reverse());
        }
        out
    }

    /// Copies of the nodes whose scores lie within the given bounds, in
    /// ascending key order.
    #[verifier::loop_isolation(false)]
    pub fn range_by_score(&self, min: i64, max: i64, min_inc: bool, max_inc: bool) -> (r: Vec<
        SkipListNode,
    >)
        ensures
            nodes_keys(r@) == self@.filter(
                |p: (i64, Seq<u8>)| in_score_range(p, min, max, min_inc, max_inc),
            ),
    {
        let ghost pred = |p: (i64, Seq<u8>)| in_score_range(p, min, max, min_inc, max_inc);
        let n = self.nodes.len();
        let mut out: Vec<SkipListNode> = Vec::new();
        let mut k: usize = 0;
        proof {
            reveal(Seq::filter);
            assert(self@.subrange(0, 0) =~= Seq::<(i64, Seq<u8>)>::empty());
            assert(nodes_keys(out@) =~= self@.subrange(0, 0).filter(pred));
        }
        while k < n
            invariant
                0 <= k <= n,
                nodes_keys(out@) == self@.subrange(0, k as int).filter(pred),
            decreases n - k,
        {
            let nd = &self.nodes[k];
            let lo_ok = if min_inc {
                min <= nd.score
            } else {
                min < nd.score
            };
            let hi_ok = if max_inc {
                nd.score <= max
            } else {
                nd.score < max
            };
            proof {
                reveal(Seq::filter);
                assert(self@.subrange(0, k as int + 1).drop_last() =~= self@.subrange(
                    0,
                    k as int,
                ));
                assert(self@.subrange(0, k as int + 1).last() == self@[k as int]);
            }
            if lo_ok && hi_ok {
                out.push(SkipListNode { ele: slice_to_vec(nd.ele.as_slice()), score: nd.score, level: nd.level });
                proof {
                    assert(nodes_keys(out@) =~= self@.subrange(0, k as int + 1).filter(pred));
                }
            } else {
                proof {
                    assert(nodes_keys(out@) =~= self@.subrange(0, k as int + 1).filter(pred));
                }
            }
            k += 1;
        }
        proof {
            assert(self@.subrange(0, n as int) =~= self@);
        }
        out
    }
}

impl SkipList {
    /// Copies of the nodes whose scores lie within the given bounds, in
    /// descending key order: the exact reverse of `range_by_score`.
    #[verifier::loop_isolation(false)]
    pub fn reverse_range_by_score(&self, min: i64, max: i64, min_inc: bool, max_inc: bool) -> (r:
        Vec<SkipListNode>)
        ensures
            nodes_keys(r@) == self@.filter(
                |p: (i64, Seq<u8>)| in_score_range(p, min, max, min_inc, max_inc),
            ).reverse(),
    {
        let fwd = self.range_by_score(min, max, min_inc, max_inc);
        let n = fwd.len();
        let mut out: Vec<SkipListNode> = Vec::new();
        let mut k = n;
        while k > 0
            invariant
                0 <= k <= n,
                n == fwd@.len(),
                out@.len() == n - k,
                forall|t: int|
                    0 <= t < out@.len() ==> (#[trigger] out@[t]).score == fwd@[n - 1 - t].score
                        && out@[t].ele@ == fwd@[n - 1 - t].ele@,
            decreases k,
        {
            let nd = &fwd[k - 1];
            out.push(
                SkipListNode { ele: slice_to_vec(nd.ele.as_slice()), score: nd.score, level: nd.level },
            );
            k -= 1;
        }
        proof {
            assert(nodes_keys(out@) =~= nodes_keys(fwd@).reverse());
        }
        out
    }
}

/// Law: in a strictly ascending index, a pair's 0-based position is exactly
/// the number of pairs that precede it in key order; so the 1-based rank
/// reported for it is its position in the full ascending order.
pub proof fn lemma_rank_is_ascending_position(v: Seq<(i64, Seq<u8>)>, i: int)
    requires
        sorted_keys(v),
        0 <= i < v.len(),
    ensures
        forall|j: int|
            0 <= j < v.len() ==> (key_lt(
                (#[trigger] v[j]).0,
                v[j].1,
                v[i].0,
                v[i].1,
            ) <==> j < i),
{
    assert forall|j: int|
        0 <= j < v.len() implies (key_lt((#[trigger] v[j]).0, v[j].1, v[i].0, v[i].1) <==> j
        < i) by {
        if j == i {
            lemma_lex_irrefl(v[i].1);
        }
        if j > i {
            if key_lt(v[j].0, v[j].1, v[i].0, v[i].1) {
                lemma_key_trans(v[i].0, v[i].1, v[j].0, v[j].1, v[i].0, v[i].1);
                lemma_lex_irrefl(v[i].1);
            }
        }
    }
}

/// Law: asking for ranks 1 through the length yields the full ascending
/// sequence (and its reverse range, by `reverse_range`, the exact reverse).
pub proof fn lemma_full_rank_range(v: Seq<(i64, Seq<u8>)>)
    ensures
        rank_range(v, 1, v.len() as int) == v,
{
    if v.len() == 0 {
        assert(rank_range(v, 1, 0) =~= v);
    } else {
        assert(v.subrange(0, v.len() as int) =~= v);
    }
}

/// Law: deleting a pair that was just inserted restores the contents, so a
/// run of inserts followed by deletes of the same pairs, in any order,
/// leaves the index empty.
pub proof fn lemma_insert_delete_round_trip(
    m: Multiset<(i64, Seq<u8>)>,
    p: (i64, Seq<u8>),
)
    ensures
        m.insert(p).remove(p) == m,
{
    assert(m.insert(p).remove(p) =~= m);
}

} // verus!
