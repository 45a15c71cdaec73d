//! A counter of byte strings, kept as a trie: each node stands for a string
//! (a counted one or a prefix of one) and holds that string's count.
use vstd::prelude::*;
use vstd::slice::slice_to_vec;
use vstd::string::StrSliceExecFns;
use vstd::utf8::{decode_utf8, valid_utf8};

verus! {

/// The nodes of the trie: each node's children, sorted by byte, and the
/// string each node stands for.
struct Shape {
    children: Vec<Vec<(u8, usize)>>,
    keys: Vec<Vec<u8>>,
}

/// `c + k`, stopping at `u64::MAX`.
pub open spec fn sat_add(c: int, k: int) -> int {
    if c + k > u64::MAX {
        u64::MAX as int
    } else {
        c + k
    }
}

/// A string stays after pruning when it counts at least `min_freq` or is a
/// single character.
pub open spec fn keep(t: Seq<u8>, c: nat, min_freq: u64) -> bool {
    c >= min_freq || single_char(t)
}

/// `t` is the UTF-8 encoding of exactly one character.
pub open spec fn single_char(t: Seq<u8>) -> bool {
    valid_utf8(t) && decode_utf8(t).len() == 1
}

/// `std::str::from_utf8`: a string exactly when the bytes are valid UTF-8,
/// holding the characters that they encode.
#[verifier::external_body]
fn str_from_utf8(b: &[u8]) -> (r: Option<&str>)
    ensures
        r is Some <==> valid_utf8(b@),
        r matches Some(s) ==> s@ == decode_utf8(b@),
{
    std::str::from_utf8(b).ok()
}

/// Whether `tok` is the UTF-8 encoding of a single character (rather than a
/// single byte).
pub fn is_single_unicode(tok: &[u8]) -> (r: bool)
    ensures
        r == single_char(tok@),
{
    match str_from_utf8(tok) {
        Some(s) => s.unicode_len() == 1,
        None => false,
    }
}

/// Position of `byte` among the strictly sorted pairs `ch`, or the position
/// where it would be inserted.
fn search_children(ch: &Vec<(u8, usize)>, byte: u8) -> (r: Result<usize, usize>)
    requires
        forall|i: int, j: int| 0 <= i < j < ch@.len() ==> ch@[i].0 < ch@[j].0,
    ensures
        r matches Ok(i) ==> i < ch@.len() && ch@[i as int].0 == byte,
        r matches Err(k) ==> k <= ch@.len() && (forall|i: int| 0 <= i < k ==> ch@[i].0 < byte) && (
        forall|i: int| k <= i < ch@.len() ==> ch@[i].0 > byte),
{
    let mut lo: usize = 0;
    let mut hi: usize = ch.len();
    while lo < hi
        invariant
            lo <= hi <= ch@.len(),
            forall|i: int, j: int| 0 <= i < j < ch@.len() ==> ch@[i].0 < ch@[j].0,
            forall|i: int| 0 <= i < lo ==> ch@[i].0 < byte,
            forall|i: int| hi <= i < ch@.len() ==> ch@[i].0 > byte,
        decreases hi - lo,
    {
        let mid = lo + (hi - lo) / 2;
        let b = ch[mid].0;
        if b == byte {
            return Ok(mid);
        } else if b < byte {
            lo = mid + 1;
        } else {
            hi = mid;
        }
    }
    Err(lo)
}

impl Shape {
    spec fn n(&self) -> int {
        self.keys@.len() as int
    }

    /// The string that node `v` stands for.
    spec fn key(&self, v: int) -> Seq<u8> {
        self.keys@[v]@
    }

    /// Some node stands for `t`.
    spec fn has_node(&self, t: Seq<u8>) -> bool {
        exists|v: int| 0 <= v < self.n() && self.key(v) == t
    }

    /// The node that stands for `t` (meaningful when `has_node(t)`).
    spec fn node_of(&self, t: Seq<u8>) -> int {
        choose|v: int| 0 <= v < self.n() && self.key(v) == t
    }

    spec fn children_ok(&self, v: int) -> bool {
        let ch = self.children@[v]@;
        &&& forall|i: int, j: int| 0 <= i < j < ch.len() ==> ch[i].0 < ch[j].0
        &&& forall|i: int|
            0 <= i < ch.len() ==> 0 < ch[i].1 < self.n() && self.key(ch[i].1 as int) == self.key(v).push(
                ch[i].0,
            )
        &&& forall|w: int|
            0 < w < self.n() && #[trigger] self.key(w).drop_last() == self.key(v) ==> exists|i: int|
                0 <= i < ch.len() && ch[i].1 == w
    }

    spec fn wf(&self) -> bool {
        let n = self.n();
        &&& n >= 1
        &&& self.children@.len() == n
        &&& self.key(0) == Seq::<u8>::empty()
        &&& forall|v: int, w: int| 0 <= v < n && 0 <= w < n && v != w ==> self.key(v) != self.key(w)
        &&& forall|v: int| 0 < v < n ==> #[trigger] self.key(v).len() > 0
        &&& forall|v: int| 0 < v < n ==> #[trigger] self.has_node(self.key(v).drop_last())
        &&& forall|v: int| 0 <= v < n ==> #[trigger] self.children_ok(v)
    }

    /// The node of a key is that key's node.
    proof fn lemma_node_of(&self, v: int)
        requires
            self.wf(),
            0 <= v < self.n(),
        ensures
            self.has_node(self.key(v)),
            self.node_of(self.key(v)) == v,
    {
        assert(self.has_node(self.key(v)));
        let w = self.node_of(self.key(v));
        assert(self.key(w) == self.key(v));
    }

    /// Every prefix of a node's string is a node's string.
    proof fn lemma_prefix_node(&self, w: int, k: int)
        requires
            self.wf(),
            0 <= w < self.n(),
            0 <= k <= self.key(w).len(),
        ensures
            self.has_node(self.key(w).subrange(0, k)),
        decreases self.key(w).len() - k,
    {
        if k == self.key(w).len() {
            assert(self.key(w).subrange(0, k) =~= self.key(w));
        } else {
            assert(w != 0);
            assert(self.has_node(self.key(w).drop_last()));
            let u = choose|u: int| 0 <= u < self.n() && self.key(u) == self.key(w).drop_last();
            self.lemma_prefix_node(u, k);
            assert(self.key(u).subrange(0, k) =~= self.key(w).subrange(0, k));
        }
    }

    /// With no child via `byte`, no node stands for `key(v) + byte`.
    proof fn lemma_no_child(&self, v: int, byte: u8)
        requires
            self.wf(),
            0 <= v < self.n(),
            forall|i: int| 0 <= i < self.children@[v]@.len() ==> self.children@[v]@[i].0 != byte,
        ensures
            !self.has_node(self.key(v).push(byte)),
    {
        let p = self.key(v).push(byte);
        if self.has_node(p) {
            let w = choose|w: int| 0 <= w < self.n() && self.key(w) == p;
            assert(self.key(w).drop_last() =~= self.key(v));
            assert(w != 0);
            assert(self.children_ok(v));
            let ch = self.children@[v]@;
            let i = choose|i: int| 0 <= i < ch.len() && ch[i].1 == w;
            assert(self.key(w).last() == ch[i].0);
        }
    }

    /// The child of `node` via `byte`, added if missing.
    fn child_or_add(&mut self, node: usize, byte: u8) -> (r: usize)
        requires
            old(self).wf(),
            node < old(self).n(),
        ensures
            final(self).wf(),
            r < final(self).n(),
            final(self).key(r as int) == old(self).key(node as int).push(byte),
            final(self).n() == old(self).n() || (final(self).n() == old(self).n() + 1 && r
                == old(self).n() && !old(self).has_node(final(self).key(r as int))),
            forall|v: int| 0 <= v < old(self).n() ==> final(self).key(v) == old(self).key(v),
    {
        let ghost pre = *self;
        let ghost p = pre.key(node as int).push(byte);
        proof {
            assert(pre.children_ok(node as int));
        }
        let found = search_children(&self.children[node], byte);
        let ins = match found {
            Ok(idx) => {
                return self.children[node][idx].1;
            },
            Err(ins) => ins,
        };
        let new_id = self.keys.len();
        proof {
            pre.lemma_no_child(node as int, byte);
        }
        let mut key = slice_to_vec(self.keys[node].as_slice());
        key.push(byte);
        self.keys.push(key);
        self.children.push(Vec::new());
        let mut chn: Vec<(u8, usize)> = Vec::new();
        self.children.set_and_swap(node, &mut chn);
        chn.insert(ins, (byte, new_id));
        self.children.set_and_swap(node, &mut chn);
        proof {
            let n = self.n();
            let old_ch = pre.children@[node as int]@;
            let new_ch = self.children@[node as int]@;
            assert(new_ch == old_ch.insert(ins as int, (byte, new_id)));
            assert(self.key(new_id as int) =~= p);
            assert forall|v: int| 0 <= v < pre.n() implies self.key(v) == pre.key(v) by {}
            assert forall|v: int| 0 <= v < pre.n() implies pre.key(v) != p by {}
            assert forall|q: Seq<u8>| pre.has_node(q) implies self.has_node(q) by {
                let v = choose|v: int| 0 <= v < pre.n() && pre.key(v) == q;
                assert(self.key(v) == q);
            }
            assert(self.key(new_id as int).drop_last() =~= self.key(node as int));
            assert forall|v: int, w: int| 0 <= v < n && 0 <= w < n && v != w implies self.key(v) != self.key(w) by {
                if v < pre.n() && w < pre.n() {
                    assert(pre.key(v) != pre.key(w));
                } else if v == new_id {
                    assert(self.key(w) == pre.key(w));
                } else {
                    assert(self.key(v) == pre.key(v));
                }
            }
            assert forall|v: int| 0 < v < n implies #[trigger] self.key(v).len() > 0 by {
                if v < pre.n() {
                    assert(pre.key(v).len() > 0);
                }
            }
            assert forall|v: int| 0 < v < n implies #[trigger] self.has_node(self.key(v).drop_last()) by {
                if v < pre.n() {
                    assert(pre.has_node(pre.key(v).drop_last()));
                } else {
                    assert(self.key(node as int) == self.key(v).drop_last());
                }
            }
            assert forall|v: int| 0 <= v < n implies #[trigger] self.children_ok(v) by {
                let chv = self.children@[v]@;
                if v == new_id {
                    assert(chv =~= Seq::<(u8, usize)>::empty());
                    assert forall|w: int| 0 < w < n && #[trigger] self.key(w).drop_last() == self.key(v)
                        implies exists|i: int| 0 <= i < chv.len() && chv[i].1 == w by {
                        if w < pre.n() {
                            assert(pre.has_node(pre.key(w).drop_last()));
                            let u = choose|u: int| 0 <= u < pre.n() && pre.key(u) == pre.key(w).drop_last();
                            assert(pre.key(u) == p);
                        } else {
                            assert(self.key(w).drop_last().len() < self.key(w).len());
                        }
                    }
                } else if v == node {
                    assert(pre.children_ok(v));
                    assert(chv == new_ch);
                    assert forall|i: int, j: int| 0 <= i < j < chv.len() implies chv[i].0 < chv[j].0 by {
                        if j < ins {
                            assert(chv[i] == old_ch[i] && chv[j] == old_ch[j]);
                        } else if j == ins {
                            assert(chv[i] == old_ch[i]);
                        } else if i < ins {
                            assert(chv[i] == old_ch[i] && chv[j] == old_ch[j - 1]);
                        } else if i == ins {
                            assert(chv[j] == old_ch[j - 1]);
                        } else {
                            assert(chv[i] == old_ch[i - 1] && chv[j] == old_ch[j - 1]);
                        }
                    }
                    assert forall|i: int| 0 <= i < chv.len() implies 0 < chv[i].1 < n && self.key(chv[i].1 as int) == self.key(v).push(chv[i].0) by {
                        if i < ins {
                            assert(chv[i] == old_ch[i]);
                        } else if i > ins {
                            assert(chv[i] == old_ch[i - 1]);
                        }
                    }
                    assert forall|w: int| 0 < w < n && #[trigger] self.key(w).drop_last() == self.key(v)
                        implies exists|i: int| 0 <= i < chv.len() && chv[i].1 == w by {
                        if w == new_id {
                            assert(chv[ins as int].1 == w);
                        } else {
                            assert(pre.key(w).drop_last() == pre.key(v));
                            let i = choose|i: int| 0 <= i < old_ch.len() && old_ch[i].1 == w;
                            if i < ins {
                                assert(chv[i] == old_ch[i]);
                            } else {
                                assert(chv[i + 1] == old_ch[i]);
                            }
                        }
                    }
                } else {
                    assert(pre.children_ok(v));
                    assert(chv == pre.children@[v]@);
                    assert forall|w: int| 0 < w < n && #[trigger] self.key(w).drop_last() == self.key(v)
                        implies exists|i: int| 0 <= i < chv.len() && chv[i].1 == w by {
                        if w == new_id {
                            assert(self.key(w).drop_last() == self.key(node as int));
                        } else {
                            assert(pre.key(w).drop_last() == pre.key(v));
                        }
                    }
                }
            }
            assert(self.key(0) == Seq::<u8>::empty());
        }
        new_id
    }
}

/// Counts of byte strings; a string that was never counted counts 0.
pub struct SubstringCounts {
    shape: Shape,
    counts: Vec<u64>,
}

impl SubstringCounts {
    /// How many times `t` was counted.
    pub closed spec fn count_of(&self, t: Seq<u8>) -> nat {
        if self.shape.has_node(t) {
            self.counts@[self.shape.node_of(t)] as nat
        } else {
            0
        }
    }

    /// The trie is consistent.
    pub closed spec fn wf(&self) -> bool {
        &&& self.shape.wf()
        &&& self.counts@.len() == self.shape.n()
    }

    /// Counts fit in a `u64`.
    pub proof fn lemma_count_bound(&self, t: Seq<u8>)
        ensures
            self.count_of(t) <= u64::MAX,
    {
    }

    /// The count of node `v`'s string.
    proof fn lemma_count_at(&self, v: int)
        requires
            self.wf(),
            0 <= v < self.shape.n(),
        ensures
            self.count_of(self.shape.key(v)) == self.counts@[v],
    {
        self.shape.lemma_node_of(v);
    }

    /// No string has been counted.
    pub fn new() -> (r: Self)
        ensures
            r.wf(),
            forall|t: Seq<u8>| r.count_of(t) == 0,
    {
        let mut children: Vec<Vec<(u8, usize)>> = Vec::new();
        children.push(Vec::new());
        let mut keys: Vec<Vec<u8>> = Vec::new();
        keys.push(Vec::new());
        let mut counts: Vec<u64> = Vec::new();
        counts.push(0);
        let r = SubstringCounts { shape: Shape { children, keys }, counts };
        proof {
            assert(r.shape.key(0) =~= Seq::<u8>::empty());
            assert(r.shape.children_ok(0)) by {
                assert(r.shape.children@[0]@ =~= Seq::<(u8, usize)>::empty());
            }
            assert forall|t: Seq<u8>| r.count_of(t) == 0 by {
                if r.shape.has_node(t) {
                    r.lemma_count_at(0);
                }
            }
        }
        r
    }

    /// The node for `t`, added (with its prefixes, counting 0) if missing.
    fn node_for(&mut self, t: &[u8]) -> (r: usize)
        requires
            old(self).wf(),
        ensures
            final(self).wf(),
            r < final(self).shape.n(),
            final(self).shape.key(r as int) == t@,
            forall|q: Seq<u8>| #[trigger] final(self).count_of(q) == old(self).count_of(q),
    {
        let mut node: usize = 0;
        let mut k: usize = 0;
        proof {
            assert(t@.subrange(0, 0) =~= Seq::<u8>::empty());
        }
        while k < t.len()
            invariant
                self.wf(),
                0 <= k <= t@.len(),
                node < self.shape.n(),
                self.shape.key(node as int) == t@.subrange(0, k as int),
                forall|q: Seq<u8>| #[trigger] self.count_of(q) == old(self).count_of(q),
            decreases t@.len() - k,
        {
            let ghost pre = *self;
            node = self.shape.child_or_add(node, t[k]);
            if self.counts.len() < self.shape.keys.len() {
                self.counts.push(0);
            }
            proof {
                assert(t@.subrange(0, k + 1) =~= t@.subrange(0, k as int).push(t@[k as int]));
                assert forall|q: Seq<u8>| #[trigger] self.count_of(q) == pre.count_of(q) by {
                    if pre.shape.has_node(q) {
                        let v = choose|v: int| 0 <= v < pre.shape.n() && pre.shape.key(v) == q;
                        pre.lemma_count_at(v);
                        assert(self.shape.key(v) == q);
                        self.lemma_count_at(v);
                    } else if self.shape.has_node(q) {
                        let v = choose|v: int| 0 <= v < self.shape.n() && self.shape.key(v) == q;
                        self.lemma_count_at(v);
                        if v < pre.shape.n() {
                            assert(pre.shape.key(v) == q);
                        }
                    }
                }
            }
            k = k + 1;
        }
        proof {
            assert(t@.subrange(0, k as int) =~= t@);
        }
        node
    }

    /// Sets the count of node `v`'s string to `c`.
    fn set_count(&mut self, v: usize, c: u64)
        requires
            old(self).wf(),
            v < old(self).shape.n(),
        ensures
            final(self).wf(),
            final(self).shape == old(self).shape,
            final(self).count_of(old(self).shape.key(v as int)) == c,
            forall|t: Seq<u8>|
                t != old(self).shape.key(v as int) ==> #[trigger] final(self).count_of(t) == old(
                    self,
                ).count_of(t),
    {
        let ghost pre = *self;
        self.counts.set(v, c);
        proof {
            self.lemma_count_at(v as int);
            assert forall|t: Seq<u8>| t != pre.shape.key(v as int) implies #[trigger] self.count_of(t)
                == pre.count_of(t) by {
                if self.shape.has_node(t) {
                    let u = choose|u: int| 0 <= u < self.shape.n() && self.shape.key(u) == t;
                    self.lemma_count_at(u);
                    pre.lemma_count_at(u);
                }
            }
        }
    }

    /// Counts `t` once more (stopping at `u64::MAX`).
    pub fn add_one(&mut self, t: &[u8])
        requires
            old(self).wf(),
        ensures
            final(self).wf(),
            final(self).count_of(t@) == sat_add(old(self).count_of(t@) as int, 1),
            forall|q: Seq<u8>| q != t@ ==> #[trigger] final(self).count_of(q) == old(self).count_of(q),
    {
        let v = self.node_for(t);
        proof {
            self.lemma_count_at(v as int);
        }
        let c = self.counts[v];
        let c2 = if c < u64::MAX {
            c + 1
        } else {
            c
        };
        self.set_count(v, c2);
    }

    /// Gives `t` the count `c` unless it already counts more than 0.
    pub fn insert_if_absent(&mut self, t: &[u8], c: u64)
        requires
            old(self).wf(),
        ensures
            final(self).wf(),
            final(self).count_of(t@) == if old(self).count_of(t@) == 0 {
                c as nat
            } else {
                old(self).count_of(t@)
            },
            forall|q: Seq<u8>| q != t@ ==> #[trigger] final(self).count_of(q) == old(self).count_of(q),
    {
        let v = self.node_for(t);
        proof {
            self.lemma_count_at(v as int);
        }
        if self.counts[v] == 0 {
            self.set_count(v, c);
        }
    }

    /// Adds `c` to the count of `t` (stopping at `u64::MAX`).
    pub fn add_count(&mut self, t: &[u8], c: u64)
        requires
            old(self).wf(),
        ensures
            final(self).wf(),
            final(self).count_of(t@) == sat_add(old(self).count_of(t@) as int, c as int),
            forall|q: Seq<u8>| q != t@ ==> #[trigger] final(self).count_of(q) == old(self).count_of(q),
    {
        let v = self.node_for(t);
        proof {
            self.lemma_count_at(v as int);
        }
        let cur = self.counts[v];
        let next = if cur <= u64::MAX - c {
            cur + c
        } else {
            u64::MAX
        };
        self.set_count(v, next);
    }

    /// Sets to 0 the count of every string that `keep` rejects: a string
    /// stays when it counts at least `min_freq` or is a single character.
    pub fn prune(&mut self, min_freq: u64)
        requires
            old(self).wf(),
        ensures
            final(self).wf(),
            forall|t: Seq<u8>|
                #[trigger] final(self).count_of(t) == if keep(t, old(self).count_of(t), min_freq) {
                    old(self).count_of(t)
                } else {
                    0
                },
    {
        let n = self.counts.len();
        let mut v: usize = 0;
        while v < n
            invariant
                self.wf(),
                n == self.shape.n(),
                self.shape == old(self).shape,
                0 <= v <= n,
                forall|w: int|
                    0 <= w < n ==> #[trigger] self.counts@[w] == if w < v && !keep(
                        self.shape.key(w),
                        old(self).counts@[w] as nat,
                        min_freq,
                    ) {
                        0
                    } else {
                        old(self).counts@[w]
                    },
            decreases n - v,
        {
            let c = self.counts[v];
            if c > 0 && !(c >= min_freq || is_single_unicode(self.shape.keys[v].as_slice())) {
                self.counts.set(v, 0);
            }
            v = v + 1;
        }
        proof {
            assert forall|t: Seq<u8>| #[trigger] self.count_of(t) == if keep(t, old(self).count_of(t), min_freq) {
                old(self).count_of(t)
            } else {
                0
            } by {
                if self.shape.has_node(t) {
                    let w = choose|w: int| 0 <= w < self.shape.n() && self.shape.key(w) == t;
                    self.lemma_count_at(w);
                    old(self).lemma_count_at(w);
                }
            }
        }
    }

    /// Every counted string with its count, each once.
    pub fn entries(&self) -> (r: Vec<(Vec<u8>, u64)>)
        requires
            self.wf(),
        ensures
            forall|i: int| 0 <= i < r@.len() ==> (#[trigger] r@[i]).1 > 0 && r@[i].1 == self.count_of(r@[i].0@),
            forall|i: int, j: int| 0 <= i < j < r@.len() ==> (#[trigger] r@[i]).0@ != (#[trigger] r@[j]).0@,
            forall|t: Seq<u8>| self.count_of(t) > 0 ==> exists|i: int| 0 <= i < r@.len() && (#[trigger] r@[i]).0@ == t,
    {
        let n = self.counts.len();
        let mut out: Vec<(Vec<u8>, u64)> = Vec::new();
        let mut v: usize = 0;
        let ghost mut from: Seq<int> = seq![];
        while v < n
            invariant
                self.wf(),
                n == self.shape.n(),
                0 <= v <= n,
                from.len() == out@.len(),
                forall|i: int| 0 <= i < from.len() ==> 0 <= #[trigger] from[i] < v,
                forall|i: int, j: int| 0 <= i < j < from.len() ==> #[trigger] from[i] < #[trigger] from[j],
                forall|i: int|
                    0 <= i < out@.len() ==> (#[trigger] out@[i]).0@ == self.shape.key(from[i]) && out@[i].1
                        == self.counts@[from[i]] && out@[i].1 > 0,
                forall|w: int| 0 <= w < v && self.counts@[w] > 0 ==> exists|i: int| 0 <= i < from.len() && from[i] == w,
            decreases n - v,
        {
            let c = self.counts[v];
            let ghost from0 = from;
            if c > 0 {
                let key = slice_to_vec(self.shape.keys[v].as_slice());
                out.push((key, c));
                proof {
                    from = from.push(v as int);
                }
            }
            proof {
                assert forall|w: int| 0 <= w < v + 1 && self.counts@[w] > 0 implies exists|i: int|
                    0 <= i < from.len() && from[i] == w by {
                    if w == v {
                        assert(from[from.len() - 1] == w);
                    } else {
                        let i = choose|i: int| 0 <= i < from0.len() && from0[i] == w;
                        assert(from[i] == w);
                    }
                }
            }
            v = v + 1;
        }
        proof {
            assert forall|i: int| 0 <= i < out@.len() implies (#[trigger] out@[i]).1 > 0 && out@[i].1 == self.count_of(out@[i].0@) by {
                self.lemma_count_at(from[i]);
            }
            assert forall|i: int, j: int| 0 <= i < j < out@.len() implies (#[trigger] out@[i]).0@ != (#[trigger] out@[j]).0@ by {
                assert(from[i] < from[j]);
            }
            assert forall|t: Seq<u8>| self.count_of(t) > 0 implies exists|i: int| 0 <= i < out@.len() && (#[trigger] out@[i]).0@ == t by {
                let w = self.shape.node_of(t);
                assert(self.shape.has_node(t));
                assert(self.shape.key(w) == t);
                let i = choose|i: int| 0 <= i < from.len() && from[i] == w;
                assert(out@[i].0@ == t);
            }
        }
        out
    }

    /// How many times `t` was counted.
    pub fn get(&self, t: &[u8]) -> (r: u64)
        requires
            self.wf(),
        ensures
            r == self.count_of(t@),
    {
        let mut node: usize = 0;
        let mut k: usize = 0;
        proof {
            assert(t@.subrange(0, 0) =~= Seq::<u8>::empty());
        }
        while k < t.len()
            invariant
                self.wf(),
                0 <= k <= t@.len(),
                node < self.shape.n(),
                self.shape.key(node as int) == t@.subrange(0, k as int),
            decreases t@.len() - k,
        {
            let byte = t[k];
            proof {
                assert(self.shape.children_ok(node as int));
                assert(t@.subrange(0, k + 1) =~= t@.subrange(0, k as int).push(byte));
            }
            match search_children(&self.shape.children[node], byte) {
                Ok(idx) => {
                    node = self.shape.children[node][idx].1;
                },
                Err(_) => {
                    proof {
                        self.shape.lemma_no_child(node as int, byte);
                        if self.shape.has_node(t@) {
                            let w = choose|w: int| 0 <= w < self.shape.n() && self.shape.key(w) == t@;
                            self.shape.lemma_prefix_node(w, k + 1);
                        }
                    }
                    return 0;
                },
            }
            k = k + 1;
        }
        proof {
            assert(t@.subrange(0, k as int) =~= t@);
            self.lemma_count_at(node as int);
        }
        self.counts[node]
    }
}

} // verus!
