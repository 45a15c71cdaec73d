//! The vocabulary trie.
//!
//! Tokens are byte strings numbered in insertion order.  While a vocabulary is
//! being built, each trie node keeps a sorted list of `(byte, child)` pairs;
//! `finalize` compacts those lists into a Compressed Sparse Row layout and then
//! builds a double-array trie (DARTS) over it for O(1) child lookup.
use vstd::prelude::*;
use vstd::slice::slice_to_vec;

verus! {

#[verifier::external_type_specification]
#[verifier::external_body]
pub struct ExIoError(std::io::Error);

/// Why a vocabulary could not be read.
#[derive(Debug)]
pub enum VocabError {
    /// The data is not a vocabulary file (or holds more than this library
    /// can index).
    InvalidFormat(String),
    /// Reading failed; for in-memory data, the data ended early.
    Io(std::io::Error),
}

/// Largest number of trie nodes a vocabulary may have: a node may push the
/// DARTS layout up to 256 positions further, and positions are stored in
/// `u32` fields (with head room for `base + byte`).
pub const MAX_NODES: usize = 0xff_fffa;

/// Token ids, node ids and DARTS positions all fit in a `u32`; `u32::MAX` is
/// reserved as the "absent" marker.
pub const NONE_ID: u32 = 0xffff_ffff;

/// Upper bound on DARTS positions and bases (`256 * MAX_NODES + 1`, below
/// `u32::MAX - 255`).
pub const DARTS_MAX: usize = 0xffff_fa01;

/// Upper bound on the scratch arrays used while building the DARTS layout
/// (room for `DARTS_MAX` plus slack, and for `base + byte` in a 32-bit
/// `usize`).
pub const DARTS_CAP_MAX: usize = 0xffff_fe00;

/// The token id that the last insertion of `t` received, if `t` was inserted.
pub open spec fn id_of(tokens: Seq<Seq<u8>>, t: Seq<u8>) -> Option<nat>
    decreases tokens.len(),
{
    if tokens.len() == 0 {
        None
    } else if tokens.last() == t {
        Some((tokens.len() - 1) as nat)
    } else {
        id_of(tokens.drop_last(), t)
    }
}

/// `id_of` as it is stored in a `u32` slot.
pub open spec fn id_slot(o: Option<nat>) -> u32 {
    match o {
        Some(i) => i as u32,
        None => NONE_ID,
    }
}

pub proof fn lemma_id_of(tokens: Seq<Seq<u8>>, t: Seq<u8>)
    ensures
        id_of(tokens, t) matches Some(i) ==> i < tokens.len() && tokens[i as int] == t,
        id_of(tokens, t) is None ==> forall|i: int| 0 <= i < tokens.len() ==> tokens[i] != t,
        id_of(tokens, t) matches Some(i) ==> forall|j: int| i < j < tokens.len() ==> tokens[j] != t,
    decreases tokens.len(),
{
    if tokens.len() > 0 && tokens.last() != t {
        let d = tokens.drop_last();
        lemma_id_of(d, t);
        assert forall|i: int| 0 <= i < d.len() implies tokens[i] == d[i] by {}
        if id_of(tokens, t) is None {
            assert forall|i: int| 0 <= i < tokens.len() implies tokens[i] != t by {
                if i < d.len() {
                    assert(tokens[i] == d[i]);
                }
            }
        }
        if let Some(k) = id_of(tokens, t) {
            assert forall|j: int| k < j < tokens.len() implies tokens[j] != t by {
                if j < d.len() {
                    assert(tokens[j] == d[j]);
                }
            }
        }
    }
}

pub proof fn lemma_id_of_push(tokens: Seq<Seq<u8>>, x: Seq<u8>, t: Seq<u8>)
    ensures
        id_of(tokens.push(x), t) == (if t == x {
            Some(tokens.len())
        } else {
            id_of(tokens, t)
        }),
{
    assert(tokens.push(x).drop_last() =~= tokens);
}

/// One slot of the double-array trie.  `lp` holds the bit pattern of the
/// slot's token log-probability.
#[derive(Clone, Copy)]
pub struct DartsEntry {
    /// Child of this slot via byte `c` is at `base + c`.
    pub base: u32,
    /// Position of the parent slot; `u32::MAX` for the root and for free slots.
    pub check: u32,
    /// Token id if this slot ends a token; `u32::MAX` otherwise.
    pub token: u32,
    /// Log-probability bits of `token` (0 when there is no token).
    pub lp: u32,
}

/// A slot that belongs to no trie node.
pub open spec fn empty_entry() -> DartsEntry {
    DartsEntry { base: 0, check: NONE_ID, token: NONE_ID, lp: 0 }
}

/// The position that the double array `d` reaches from position `q` via
/// `byte`: `base + byte` when the slot there points back to `q`, `u32::MAX`
/// otherwise.
pub open spec fn darts_step(d: Seq<DartsEntry>, q: int, byte: u8) -> u32 {
    let t = d[q].base + byte;
    if t < d.len() && d[t].check == q {
        t as u32
    } else {
        NONE_ID
    }
}

/// Some token of `tokens` holds the byte `b`.
pub open spec fn token_holds(tokens: Seq<Seq<u8>>, b: u8) -> bool {
    exists|k: int, j: int| 0 <= k < tokens.len() && 0 <= j < tokens[k].len() && #[trigger] tokens[k][j] == b
}

/// The tokens of a vocabulary and their log-probability bits, by id.
pub struct VocabView {
    pub tokens: Seq<Seq<u8>>,
    pub lps: Seq<u32>,
}

/// Compact trie with a build-time layout, a Compressed Sparse Row layout and a
/// double-array (DARTS) layout for hot-path O(1) child lookup.
pub struct VocabTrie {
    child_start: Vec<u32>,
    children_bytes: Vec<u8>,
    children_ids: Vec<u32>,
    token_ids: Vec<u32>,
    /// Flat array of DARTS slots; the root is at position 0.
    darts: Vec<DartsEntry>,
    build_children: Vec<Vec<(u8, u32)>>,
    build_token_ids: Vec<u32>,
    num_nodes: usize,
    /// Log-probability bits of each token, by token id.
    log_probs: Vec<u32>,
    /// Bytes of each token, by token id.
    token_bytes: Vec<Vec<u8>>,
    vocab_size: usize,
    /// For each byte value, whether some token holds that byte.
    byte_seen: Vec<bool>,
    finalized: bool,
    /// The byte string spelled by the path to each node.
    paths: Ghost<Seq<Seq<u8>>>,
    /// The trie node that each DARTS position stands for.
    slots: Ghost<Map<int, int>>,
}

impl View for VocabTrie {
    type V = VocabView;

    open spec fn view(&self) -> VocabView {
        VocabView { tokens: self.tokens(), lps: self.lps() }
    }
}

impl VocabTrie {
    /// The byte strings of all tokens, by token id.
    pub closed spec fn tokens(&self) -> Seq<Seq<u8>> {
        self.token_bytes@.map_values(|v: Vec<u8>| v@)
    }

    /// Log-probability bits of all tokens, by token id.
    pub closed spec fn lps(&self) -> Seq<u32> {
        self.log_probs@
    }

    /// Number of tokens.
    pub closed spec fn size(&self) -> nat {
        self.vocab_size as nat
    }

    /// The token id that `get` reports for `t`.
    pub open spec fn lookup(&self, t: Seq<u8>) -> Option<nat> {
        id_of(self.tokens(), t)
    }

    pub closed spec fn is_finalized(&self) -> bool {
        self.finalized
    }

    pub closed spec fn node_count(&self) -> nat {
        self.num_nodes as nat
    }

    /// The byte string leading from the root to node `v`.
    pub closed spec fn node_path(&self, v: int) -> Seq<u8> {
        self.paths@[v]
    }

    /// Some node spells `p`.
    pub closed spec fn is_path(&self, p: Seq<u8>) -> bool {
        exists|v: int| 0 <= v < self.paths@.len() && self.paths@[v] == p
    }

    /// The children of node `v` as `(byte, child)` pairs, in the current layout.
    closed spec fn children(&self, v: int) -> Seq<(u8, u32)> {
        if self.finalized {
            let s = self.child_start@[v] as int;
            let e = self.child_start@[v + 1] as int;
            Seq::new(
                (e - s) as nat,
                |i: int| (self.children_bytes@[s + i], self.children_ids@[s + i]),
            )
        } else {
            self.build_children@[v]@
        }
    }

    /// The token slot of node `v`, in the current layout.
    closed spec fn node_token(&self, v: int) -> u32 {
        if self.finalized {
            self.token_ids@[v]
        } else {
            self.build_token_ids@[v]
        }
    }

    closed spec fn children_ok(&self, v: int) -> bool {
        let ch = self.children(v);
        let n = self.num_nodes as int;
        &&& forall|i: int, j: int| 0 <= i < j < ch.len() ==> ch[i].0 < ch[j].0
        &&& forall|i: int|
            0 <= i < ch.len() ==> 0 < ch[i].1 < n && self.paths@[ch[i].1 as int]
                == self.paths@[v].push(ch[i].0)
        &&& forall|w: int|
            0 < w < n && #[trigger] self.paths@[w].drop_last() == self.paths@[v]
                ==> exists|i: int| 0 <= i < ch.len() && ch[i].1 == w
    }

    closed spec fn layout_ok(&self) -> bool {
        let n = self.num_nodes as int;
        if self.finalized {
            &&& self.child_start@.len() == n + 1
            &&& self.child_start@[0] == 0
            &&& forall|v: int, w: int|
                0 <= v <= w <= n ==> #[trigger] self.child_start@[v] <= #[trigger] self.child_start@[w]
            &&& self.child_start@[n] == self.children_bytes@.len()
            &&& self.children_ids@.len() == self.children_bytes@.len()
            &&& self.token_ids@.len() == n
        } else {
            &&& self.build_children@.len() == n
            &&& self.build_token_ids@.len() == n
        }
    }

    pub closed spec fn wf(&self) -> bool {
        &&& self.core_ok()
        &&& self.seen_ok()
        &&& self.finalized ==> self.darts_ok()
    }

    /// `byte_seen` tells, for each byte value, whether some token holds it.
    closed spec fn seen_ok(&self) -> bool {
        &&& self.byte_seen@.len() == 256
        &&& forall|b: u8| #[trigger] self.byte_seen@[b as int] == token_holds(self.tokens(), b)
    }

    /// Whether some token holds the byte `b`.
    pub fn has_byte(&self, b: u8) -> (r: bool)
        requires
            self.wf(),
        ensures
            r == token_holds(self.tokens(), b),
    {
        self.byte_seen[b as usize]
    }

    /// The token data, the node paths and the build-time or CSR layout agree.
    closed spec fn core_ok(&self) -> bool {
        let n = self.num_nodes as int;
        let paths = self.paths@;
        &&& self.token_bytes@.len() == self.vocab_size
        &&& self.log_probs@.len() == self.vocab_size
        &&& self.vocab_size < NONE_ID
        &&& 1 <= n <= MAX_NODES
        &&& paths.len() == n
        &&& paths[0] == Seq::<u8>::empty()
        &&& forall|v: int, w: int| 0 <= v < n && 0 <= w < n && v != w ==> paths[v] != paths[w]
        &&& forall|v: int| 0 < v < n ==> #[trigger] paths[v].len() > 0
        &&& forall|v: int| 0 < v < n ==> #[trigger] self.is_path(paths[v].drop_last())
        &&& forall|i: int| 0 <= i < self.vocab_size ==> #[trigger] self.is_path(self.tokens()[i])
        &&& self.layout_ok()
        &&& forall|v: int| 0 <= v < n ==> #[trigger] self.children_ok(v)
        &&& forall|v: int| 0 <= v < n ==> #[trigger] self.node_token(v) == id_slot(id_of(self.tokens(), paths[v]))
    }

    /// There is one byte string and one log-probability per token id.
    pub proof fn lemma_tokens_len(&self)
        requires
            self.wf(),
        ensures
            self.tokens().len() == self.size(),
            self.lps().len() == self.size(),
            self.size() < NONE_ID,
            1 <= self.node_count() <= MAX_NODES,
    {
    }

    /// Every prefix of a node path is a node path.
    pub proof fn lemma_prefix_is_path(&self, p: Seq<u8>, k: int)
        requires
            self.wf(),
            self.is_path(p),
            0 <= k <= p.len(),
        ensures
            self.is_path(p.subrange(0, k)),
        decreases p.len() - k,
    {
        if k == p.len() {
            assert(p.subrange(0, k) =~= p);
        } else {
            let v = choose|v: int| 0 <= v < self.paths@.len() && self.paths@[v] == p;
            assert(v != 0);
            assert(self.is_path(p.drop_last()));
            self.lemma_prefix_is_path(p.drop_last(), k);
            assert(p.drop_last().subrange(0, k) =~= p.subrange(0, k));
        }
    }

    /// Every node path is empty or a prefix of some token.
    pub open spec fn prefix_paths(&self) -> bool {
        forall|p: Seq<u8>|
            #[trigger] self.is_path(p) ==> p.len() == 0 || exists|i: int, k: int|
                0 <= i < self.tokens().len() && 0 <= k <= self.tokens()[i].len() && p
                    == self.tokens()[i].subrange(0, k)
    }

    /// The node paths are exactly the empty string and the prefixes of the
    /// tokens; in particular a byte string that starts no token has no node.
    pub proof fn lemma_paths_are_prefixes(&self, p: Seq<u8>)
        requires
            self.wf(),
            self.prefix_paths(),
        ensures
            self.is_path(p) <==> (p.len() == 0 || exists|i: int, k: int|
                0 <= i < self.tokens().len() && 0 <= k <= self.tokens()[i].len() && p
                    == self.tokens()[i].subrange(0, k)),
    {
        if p.len() == 0 {
            assert(self.paths@[0] == p);
        } else if exists|i: int, k: int|
            0 <= i < self.tokens().len() && 0 <= k <= self.tokens()[i].len() && p == self.tokens()[i].subrange(0, k) {
            let (i, k) = choose|i: int, k: int|
                0 <= i < self.tokens().len() && 0 <= k <= self.tokens()[i].len() && p
                    == self.tokens()[i].subrange(0, k);
            assert(self.is_path(self.tokens()[i]));
            self.lemma_prefix_is_path(self.tokens()[i], k);
        }
    }

    /// A one-byte string is a node path exactly when some token starts with
    /// that byte.
    pub proof fn lemma_first_byte_path(&self, b: u8)
        requires
            self.wf(),
            self.prefix_paths(),
        ensures
            self.is_path(seq![b]) <==> exists|k: int|
                0 <= k < self.tokens().len() && self.tokens()[k].len() > 0 && self.tokens()[k][0] == b,
    {
        self.lemma_paths_are_prefixes(seq![b]);
        if exists|k: int| 0 <= k < self.tokens().len() && self.tokens()[k].len() > 0 && self.tokens()[k][0] == b {
            let k = choose|k: int|
                0 <= k < self.tokens().len() && self.tokens()[k].len() > 0 && self.tokens()[k][0] == b;
            assert(self.tokens()[k].subrange(0, 1) =~= seq![b]);
        }
        if self.is_path(seq![b]) {
            let (i, k) = choose|i: int, k: int|
                0 <= i < self.tokens().len() && 0 <= k <= self.tokens()[i].len() && seq![b]
                    == self.tokens()[i].subrange(0, k);
            assert(self.tokens()[i].subrange(0, k).len() == 1);
            assert(self.tokens()[i].subrange(0, k)[0] == self.tokens()[i][0]);
        }
    }

    /// A string that is no node path is no token.
    pub proof fn lemma_non_path_not_token(&self, t: Seq<u8>)
        requires
            self.wf(),
            !self.is_path(t),
        ensures
            self.lookup(t) is None,
    {
        lemma_id_of(self.tokens(), t);
        if let Some(i) = self.lookup(t) {
            assert(self.is_path(self.tokens()[i as int]));
        }
    }

    pub fn new() -> (r: Self)
        ensures
            r.wf(),
            !r.is_finalized(),
            r.tokens() == Seq::<Seq<u8>>::empty(),
            r.lps() == Seq::<u32>::empty(),
            r.size() == 0,
            r.node_count() == 1,
            r.prefix_paths(),
    {
        let mut build_children: Vec<Vec<(u8, u32)>> = Vec::new();
        build_children.push(Vec::new());
        let mut build_token_ids: Vec<u32> = Vec::new();
        build_token_ids.push(NONE_ID);
        let ghost paths0: Seq<Seq<u8>> = seq![Seq::<u8>::empty()];
        let ghost slots0: Map<int, int> = Map::empty();
        let mut byte_seen: Vec<bool> = Vec::new();
        let mut c: usize = 0;
        while c < 256
            invariant
                0 <= c <= 256,
                byte_seen@.len() == c,
                forall|x: int| 0 <= x < c ==> !#[trigger] byte_seen@[x],
            decreases 256 - c,
        {
            byte_seen.push(false);
            c = c + 1;
        }
        let r = VocabTrie {
            child_start: Vec::new(),
            children_bytes: Vec::new(),
            children_ids: Vec::new(),
            token_ids: Vec::new(),
            darts: Vec::new(),
            build_children,
            build_token_ids,
            num_nodes: 1,
            log_probs: Vec::new(),
            token_bytes: Vec::new(),
            vocab_size: 0,
            byte_seen,
            finalized: false,
            paths: Ghost(paths0),
            slots: Ghost(slots0),
        };
        proof {
            assert(r.tokens() =~= Seq::<Seq<u8>>::empty());
            assert(r.children_ok(0)) by {
                assert(r.children(0) =~= Seq::<(u8, u32)>::empty());
            }
            assert(r.node_token(0) == id_slot(id_of(r.tokens(), r.paths@[0])));
        }
        r
    }

    /// Adds node `num_nodes` as the child of `node` via `byte`, entering it in
    /// `node`'s child list at `ins`.
    fn add_child(&mut self, node: usize, byte: u8, ins: usize) -> (child: usize)
        requires
            old(self).wf(),
            !old(self).is_finalized(),
            node < old(self).num_nodes,
            old(self).num_nodes < MAX_NODES,
            ins <= old(self).build_children@[node as int]@.len(),
            forall|i: int| 0 <= i < ins ==> old(self).build_children@[node as int]@[i].0 < byte,
            forall|i: int|
                ins <= i < old(self).build_children@[node as int]@.len()
                    ==> old(self).build_children@[node as int]@[i].0 > byte,
        ensures
            final(self).wf(),
            !final(self).is_finalized(),
            child == old(self).num_nodes,
            final(self).num_nodes == old(self).num_nodes + 1,
            final(self).paths@ == old(self).paths@.push(old(self).paths@[node as int].push(byte)),
            final(self).tokens() == old(self).tokens(),
            final(self).log_probs == old(self).log_probs,
            final(self).token_bytes == old(self).token_bytes,
            final(self).vocab_size == old(self).vocab_size,
    {
        let ghost pre = *self;
        let ghost newpath = pre.paths@[node as int].push(byte);
        let new_id = self.num_nodes;
        proof {
            let ch = pre.children(node as int);
            assert(ch == pre.build_children@[node as int]@);
            // the new path is not a path yet
            assert forall|w: int| 0 <= w < pre.num_nodes implies pre.paths@[w] != newpath by {
                if w != 0 && pre.paths@[w] == newpath {
                    assert(pre.paths@[w].drop_last() =~= pre.paths@[node as int]);
                    assert(pre.children_ok(node as int));
                    let i = choose|i: int| 0 <= i < ch.len() && ch[i].1 == w;
                    assert(pre.paths@[ch[i].1 as int] == pre.paths@[node as int].push(ch[i].0));
                    assert(newpath.last() == byte);
                    assert(pre.paths@[w].last() == ch[i].0);
                    if i < ins {
                    } else {
                    }
                }
            }
            assert(!pre.is_path(newpath));
            pre.lemma_non_path_not_token(newpath);
        }
        self.num_nodes = self.num_nodes + 1;
        self.build_children.push(Vec::new());
        self.build_token_ids.push(NONE_ID);
        let mut ch: Vec<(u8, u32)> = Vec::new();
        self.build_children.set_and_swap(node, &mut ch);
        ch.insert(ins, (byte, new_id as u32));
        self.build_children.set_and_swap(node, &mut ch);
        self.paths = Ghost(pre.paths@.push(newpath));
        proof {
            let n = self.num_nodes as int;
            let paths = self.paths@;
            let old_ch = pre.build_children@[node as int]@;
            let new_ch = self.build_children@[node as int]@;
            assert(new_ch == old_ch.insert(ins as int, (byte, new_id as u32)));
            assert(self.tokens() == pre.tokens());
            assert forall|v: int| 0 <= v < pre.num_nodes implies paths[v] == pre.paths@[v] by {}
            assert forall|q: Seq<u8>| pre.is_path(q) implies self.is_path(q) by {
                let v = choose|v: int| 0 <= v < pre.paths@.len() && pre.paths@[v] == q;
                assert(paths[v] == q);
            }
            assert(self.is_path(paths[node as int]));
            assert(paths[new_id as int].drop_last() =~= paths[node as int]);
            assert forall|v: int, w: int| 0 <= v < n && 0 <= w < n && v != w implies paths[v] != paths[w] by {
                if v < pre.num_nodes && w < pre.num_nodes {
                } else if v == new_id {
                    assert(paths[v] == newpath);
                } else {
                    assert(paths[w] == newpath);
                }
            }
            assert forall|v: int| 0 < v < n implies #[trigger] paths[v].len() > 0 by {
                if v < pre.num_nodes {
                    assert(pre.paths@[v].len() > 0);
                }
            }
            assert forall|v: int| 0 < v < n implies #[trigger] self.is_path(paths[v].drop_last()) by {
                if v < pre.num_nodes {
                    assert(pre.is_path(pre.paths@[v].drop_last()));
                }
            }
            assert forall|i: int| 0 <= i < self.vocab_size implies #[trigger] self.is_path(self.tokens()[i]) by {
                assert(pre.is_path(pre.tokens()[i]));
            }
            assert forall|v: int| 0 <= v < n implies #[trigger] self.children_ok(v) by {
                let chv = self.children(v);
                if v == new_id {
                    assert(chv =~= Seq::<(u8, u32)>::empty());
                    assert forall|w: int| 0 < w < n && #[trigger] paths[w].drop_last() == paths[v]
                        implies exists|i: int| 0 <= i < chv.len() && chv[i].1 == w by {
                        if w < pre.num_nodes {
                            assert(pre.is_path(pre.paths@[w].drop_last()));
                            assert(pre.is_path(newpath));
                        } else {
                            assert(paths[w].drop_last().len() < paths[w].len());
                        }
                    }
                } else if v == node {
                    assert(pre.children_ok(v));
                    assert(chv == new_ch);
                    assert forall|i: int, j: int| 0 <= i < j < chv.len() implies chv[i].0 < chv[j].0 by {
                        if j < ins {
                            assert(chv[i] == old_ch[i] && chv[j] == old_ch[j]);
                        } else if j == ins {
                            assert(chv[i] == old_ch[i]);
                        } else if i < ins {
                            assert(chv[i] == old_ch[i] && chv[j] == old_ch[j - 1]);
                        } else if i == ins {
                            assert(chv[j] == old_ch[j - 1]);
                        } else {
                            assert(chv[i] == old_ch[i - 1] && chv[j] == old_ch[j - 1]);
                        }
                    }
                    assert forall|i: int| 0 <= i < chv.len() implies 0 < chv[i].1 < n && paths[chv[i].1 as int] == paths[v].push(chv[i].0) by {
                        if i < ins {
                            assert(chv[i] == old_ch[i]);
                        } else if i > ins {
                            assert(chv[i] == old_ch[i - 1]);
                        }
                    }
                    assert forall|w: int| 0 < w < n && #[trigger] paths[w].drop_last() == paths[v]
                        implies exists|i: int| 0 <= i < chv.len() && chv[i].1 == w by {
                        if w == new_id {
                            assert(chv[ins as int].1 == w);
                        } else {
                            assert(pre.paths@[w].drop_last() == pre.paths@[v]);
                            let i = choose|i: int| 0 <= i < old_ch.len() && old_ch[i].1 == w;
                            if i < ins {
                                assert(chv[i] == old_ch[i]);
                            } else {
                                assert(chv[i + 1] == old_ch[i]);
                            }
                        }
                    }
                } else {
                    assert(pre.children_ok(v));
                    assert(chv == pre.children(v));
                    assert forall|w: int| 0 < w < n && #[trigger] paths[w].drop_last() == paths[v]
                        implies exists|i: int| 0 <= i < chv.len() && chv[i].1 == w by {
                        if w == new_id {
                            assert(paths[w].drop_last() == paths[node as int]);
                        } else {
                            assert(pre.paths@[w].drop_last() == pre.paths@[v]);
                        }
                    }
                }
            }
            assert forall|v: int| 0 <= v < n implies #[trigger] self.node_token(v) == id_slot(id_of(self.tokens(), paths[v])) by {
                if v < pre.num_nodes {
                    assert(pre.node_token(v) == id_slot(id_of(pre.tokens(), pre.paths@[v])));
                }
            }
            assert(self.layout_ok());
            assert(paths[0] == Seq::<u8>::empty());
            assert(self.token_bytes@.len() == self.vocab_size);
            assert(1 <= n <= MAX_NODES);
            assert(self.wf());
        }
        new_id
    }

    /// Adds `token` with log-probability bits `log_prob` and returns its id.
    /// Inserting a byte string again gives it a new id, which `get` then
    /// reports; the earlier id keeps its bytes.
    pub fn insert(&mut self, token: &[u8], log_prob: u32) -> (id: u32)
        requires
            old(self).wf(),
            !old(self).is_finalized(),
            old(self).size() + 1 < NONE_ID,
            old(self).node_count() + token@.len() <= MAX_NODES,
        ensures
            final(self).wf(),
            !final(self).is_finalized(),
            id == old(self).size(),
            final(self).tokens() == old(self).tokens().push(token@),
            final(self).lps() == old(self).lps().push(log_prob),
            final(self).size() == old(self).size() + 1,
            final(self).node_count() <= old(self).node_count() + token@.len(),
            old(self).prefix_paths() ==> final(self).prefix_paths(),
    {
        let ghost pre = *self;
        let mut node: usize = 0;
        let mut k: usize = 0;
        while k < token.len()
            invariant
                self.wf(),
                !self.is_finalized(),
                0 <= k <= token@.len(),
                node < self.num_nodes,
                self.paths@[node as int] == token@.subrange(0, k as int),
                self.num_nodes <= pre.num_nodes + k,
                pre.num_nodes + token@.len() <= MAX_NODES,
                self.tokens() == pre.tokens(),
                self.log_probs == pre.log_probs,
                self.token_bytes == pre.token_bytes,
                self.vocab_size == pre.vocab_size,
                forall|q: Seq<u8>|
                    #[trigger] self.is_path(q) ==> pre.is_path(q) || exists|j: int|
                        0 <= j <= k && q == token@.subrange(0, j),
            decreases token@.len() - k,
        {
            let byte = token[k];
            proof {
                assert(self.children_ok(node as int));
            }
            match search_pairs(&self.build_children[node], byte) {
                Ok(idx) => {
                    proof {
                        assert(self.children(node as int) == self.build_children@[node as int]@);
                    }
                    node = self.build_children[node][idx].1 as usize;
                },
                Err(ins) => {
                    let ghost before = *self;
                    node = self.add_child(node, byte, ins);
                    proof {
                        assert forall|q: Seq<u8>| #[trigger] self.is_path(q) implies pre.is_path(q) || exists|j: int|
                            0 <= j <= k + 1 && q == token@.subrange(0, j) by {
                            let v = choose|v: int| 0 <= v < self.paths@.len() && self.paths@[v] == q;
                            if v < before.paths@.len() {
                                assert(before.paths@[v] == q);
                                assert(before.is_path(q));
                            } else {
                                assert(q == token@.subrange(0, k as int).push(byte));
                                assert(token@.subrange(0, k + 1) =~= token@.subrange(0, k as int).push(byte));
                            }
                        }
                    }
                },
            }
            k = k + 1;
            proof {
                assert(token@.subrange(0, k as int) =~= token@.subrange(0, k - 1).push(byte));
            }
        }
        proof {
            assert(token@.subrange(0, k as int) =~= token@);
        }
        let ghost mid = *self;
        let id = self.vocab_size as u32;
        self.log_probs.push(log_prob);
        self.token_bytes.push(slice_to_vec(token));
        self.vocab_size = self.vocab_size + 1;
        self.build_token_ids.set(node, id);
        let mut seen: Vec<bool> = Vec::new();
        std::mem::swap(&mut seen, &mut self.byte_seen);
        let mut j: usize = 0;
        while j < token.len()
            invariant
                seen@.len() == 256,
                0 <= j <= token@.len(),
                forall|b: u8|
                    #[trigger] seen@[b as int] == (token_holds(old(self).tokens(), b) || exists|j2: int|
                        0 <= j2 < j && token@[j2] == b),
            decreases token@.len() - j,
        {
            let b = token[j];
            seen.set(b as usize, true);
            j = j + 1;
        }
        self.byte_seen = seen;
        proof {
            assert(self.tokens() =~= old(self).tokens().push(token@));
            if old(self).prefix_paths() {
                assert forall|q: Seq<u8>| #[trigger] self.is_path(q) implies q.len() == 0 || exists|i: int, k: int|
                    0 <= i < self.tokens().len() && 0 <= k <= self.tokens()[i].len() && q
                        == self.tokens()[i].subrange(0, k) by {
                    let v = choose|v: int| 0 <= v < self.paths@.len() && self.paths@[v] == q;
                    assert(mid.paths@[v] == q);
                    assert(mid.is_path(q));
                    if pre.is_path(q) {
                        if q.len() != 0 {
                            let (i, k) = choose|i: int, k: int|
                                0 <= i < pre.tokens().len() && 0 <= k <= pre.tokens()[i].len() && q
                                    == pre.tokens()[i].subrange(0, k);
                            assert(self.tokens()[i] == pre.tokens()[i]);
                        }
                    } else {
                        let j = choose|j: int| 0 <= j <= token@.len() && q == token@.subrange(0, j);
                        assert(self.tokens()[pre.tokens().len() as int] == token@);
                    }
                }
            }
            assert forall|q: Seq<u8>| mid.is_path(q) implies self.is_path(q) by {
                let v = choose|v: int| 0 <= v < mid.paths@.len() && mid.paths@[v] == q;
                assert(self.paths@[v] == q);
            }
            let n = self.num_nodes as int;
            assert forall|t: Seq<u8>| true implies id_of(self.tokens(), t) == (if t == token@ {
                Some(old(self).vocab_size as nat)
            } else {
                id_of(old(self).tokens(), t)
            }) by {
                lemma_id_of_push(old(self).tokens(), token@, t);
            }
            assert(self.is_path(token@)) by {
                assert(self.paths@[node as int] == token@);
            }
            assert forall|i: int| 0 <= i < self.vocab_size implies #[trigger] self.is_path(self.tokens()[i]) by {
                if i < old(self).vocab_size {
                    assert(self.tokens()[i] == mid.tokens()[i]);
                    assert(mid.is_path(mid.tokens()[i]));
                }
            }
            assert forall|v: int| 0 <= v < n implies #[trigger] self.children_ok(v) by {
                assert(mid.children_ok(v));
                assert(self.children(v) == mid.children(v));
            }
            assert forall|v: int| 0 <= v < n implies #[trigger] self.node_token(v) == id_slot(id_of(self.tokens(), self.paths@[v])) by {
                if v != node {
                    assert(self.paths@[v] != token@);
                    assert(mid.node_token(v) == id_slot(id_of(mid.tokens(), mid.paths@[v])));
                    assert(self.node_token(v) == mid.node_token(v));
                }
            }
            assert(self.layout_ok());
            assert forall|v: int| 0 < v < n implies #[trigger] self.is_path(self.paths@[v].drop_last()) by {
                assert(mid.is_path(mid.paths@[v].drop_last()));
            }
        }
        proof {
            let ts = self.tokens();
            let k0 = old(self).tokens().len() as int;
            assert(ts[k0] == token@);
            assert forall|b: u8| #[trigger] self.byte_seen@[b as int] == token_holds(ts, b) by {
                if token_holds(old(self).tokens(), b) {
                    let (k, j2) = choose|k: int, j2: int|
                        0 <= k < old(self).tokens().len() && 0 <= j2 < old(self).tokens()[k].len()
                            && old(self).tokens()[k][j2] == b;
                    assert(ts[k] == old(self).tokens()[k]);
                    assert(ts[k][j2] == b);
                }
                if exists|j2: int| 0 <= j2 < token@.len() && token@[j2] == b {
                    let j2 = choose|j2: int| 0 <= j2 < token@.len() && token@[j2] == b;
                    assert(ts[k0][j2] == b);
                }
                if token_holds(ts, b) {
                    let (k, j2) = choose|k: int, j2: int| 0 <= k < ts.len() && 0 <= j2 < ts[k].len() && ts[k][j2] == b;
                    if k < k0 {
                        assert(old(self).tokens()[k][j2] == b);
                    }
                }
            }
        }
        id
    }

    /// Slot `q` of the layout `d` hangs below its `check` slot via the byte
    /// `q - base`.
    closed spec fn slot_linked(&self, d: Seq<DartsEntry>, slots: Map<int, int>, q: int) -> bool {
        let p = d[q].check as int;
        &&& slots.contains_key(p)
        &&& d[p].base <= q < d[p].base + 256
        &&& self.paths@[slots[q]] == self.paths@[slots[p]].push((q - d[p].base) as u8)
    }

    /// The `k`-th child of the node at slot `p` of the layout `d` sits at
    /// `base + byte`.
    closed spec fn child_placed(&self, d: Seq<DartsEntry>, slots: Map<int, int>, p: int, k: int) -> bool {
        let ch = self.children(slots[p]);
        let q = d[p].base + ch[k].0;
        &&& q < d.len()
        &&& slots.contains_key(q)
        &&& slots[q] == ch[k].1
    }

    /// `d` is a double-array layout of this trie, `slots` giving the node that
    /// each used position stands for.
    closed spec fn layout_of(&self, d: Seq<DartsEntry>, slots: Map<int, int>) -> bool {
        let n = self.num_nodes as int;
        &&& 1 <= d.len() <= DARTS_MAX
        &&& slots.contains_key(0)
        &&& slots[0] == 0
        &&& d[0].check == NONE_ID
        &&& forall|q: int| 0 <= q < d.len() ==> #[trigger] d[q].base <= DARTS_MAX
        &&& forall|q: int| #[trigger] slots.contains_key(q) ==> 0 <= q < d.len() && 0 <= slots[q] < n
        &&& forall|q1: int, q2: int|
            #[trigger] slots.contains_key(q1) && #[trigger] slots.contains_key(q2) && q1 != q2
                ==> slots[q1] != slots[q2]
        &&& forall|q: int|
            0 <= q < d.len() && !#[trigger] slots.contains_key(q) ==> d[q].check == NONE_ID
                && d[q].token == NONE_ID
        &&& forall|q: int|
            #[trigger] slots.contains_key(q) ==> d[q].token == self.token_ids@[slots[q]] && (
            d[q].token != NONE_ID ==> d[q].lp == self.log_probs@[d[q].token as int])
        &&& forall|q: int| #[trigger] slots.contains_key(q) && q != 0 ==> self.slot_linked(d, slots, q)
        &&& forall|p: int, k: int|
            #[trigger] slots.contains_key(p) && 0 <= k < self.children(slots[p]).len()
                ==> #[trigger] self.child_placed(d, slots, p, k)
    }

    closed spec fn darts_ok(&self) -> bool {
        self.layout_of(self.darts@, self.slots@)
    }

    /// Number of DARTS slots.
    pub closed spec fn darts_len(&self) -> nat {
        self.darts@.len()
    }

    /// The DARTS slots (empty before `finalize`).
    pub closed spec fn darts_entries(&self) -> Seq<DartsEntry> {
        self.darts@
    }

    /// The byte string spelled by DARTS position `q`, if `q` belongs to a node.
    pub closed spec fn darts_path(&self, q: int) -> Option<Seq<u8>> {
        if self.slots@.contains_key(q) {
            Some(self.paths@[self.slots@[q]])
        } else {
            None
        }
    }

    /// Position 0 of the double array is the root: it spells the empty
    /// string and has no parent.
    pub proof fn lemma_darts_root(&self)
        requires
            self.wf(),
            self.is_finalized(),
        ensures
            self.darts_len() >= 1,
            self.darts_path(0) == Some(Seq::<u8>::empty()),
            self.darts_entries()[0].check == NONE_ID,
    {
    }

    /// One step in the double array: from position `q`, `byte` leads to the
    /// position of the node that spells `darts_path(q) + [byte]`, and to
    /// `u32::MAX` when no node spells it.
    pub proof fn lemma_darts_step(&self, q: int, byte: u8)
        requires
            self.wf(),
            self.is_finalized(),
            0 <= q < self.darts_len(),
        ensures
            self.darts_len() == self.darts_entries().len(),
            darts_step(self.darts_entries(), q, byte) != NONE_ID <==> (self.darts_path(q) matches Some(
                p,
            ) && self.is_path(p.push(byte))),
            darts_step(self.darts_entries(), q, byte) != NONE_ID ==> darts_step(
                self.darts_entries(),
                q,
                byte,
            ) < self.darts_len() && self.darts_path(darts_step(self.darts_entries(), q, byte) as int)
                == Some(self.darts_path(q)->0.push(byte)),
    {
        let d = self.darts@;
        let slots = self.slots@;
        let len = d.len();
        let t = d[q].base + byte;
        if slots.contains_key(q) {
            let v = slots[q];
            let pv = self.paths@[v];
            if self.is_path(pv.push(byte)) {
                let w = choose|w: int| 0 <= w < self.paths@.len() && self.paths@[w] == pv.push(byte);
                assert(self.paths@[w].len() > 0);
                assert(w != 0);
                assert(self.paths@[w].drop_last() =~= pv);
                assert(self.children_ok(v));
                let ch = self.children(v);
                let k = choose|k: int| 0 <= k < ch.len() && ch[k].1 == w;
                assert(self.paths@[ch[k].1 as int] == pv.push(ch[k].0));
                assert(ch[k].0 == byte) by {
                    assert(self.paths@[w].last() == ch[k].0);
                }
                assert(self.child_placed(d, slots, q, k));
                assert(slots.contains_key(t));
                assert(t != 0);
                assert(self.slot_linked(d, slots, t));
                let p2 = d[t].check as int;
                assert(self.paths@[slots[p2]] == pv) by {
                    assert(self.paths@[slots[t]] == self.paths@[slots[p2]].push((t - d[p2].base) as u8));
                    assert(self.paths@[slots[t]].drop_last() =~= self.paths@[slots[p2]]);
                }
                assert(slots[p2] == v);
                assert(p2 == q);
            } else {
                if t < len && d[t].check == q {
                    assert(slots.contains_key(t));
                    assert(t != 0);
                    assert(self.slot_linked(d, slots, t));
                    assert(self.paths@[slots[t]] == pv.push(byte));
                }
            }
        } else {
            if t < len && d[t].check == q {
                assert(slots.contains_key(t));
                assert(t != 0);
                assert(self.slot_linked(d, slots, t));
            }
        }
    }

    /// The token slot of DARTS position `q`: the id and log-probability bits
    /// of the token that `darts_path(q)` spells, or `u32::MAX` when it spells
    /// none.
    pub proof fn lemma_darts_token(&self, q: int)
        requires
            self.wf(),
            self.is_finalized(),
            0 <= q < self.darts_len(),
        ensures
            self.darts_entries()[q].token == (match self.darts_path(q) {
                Some(p) => match self.lookup(p) {
                    Some(i) => i as u32,
                    None => NONE_ID,
                },
                None => NONE_ID,
            }),
            self.darts_entries()[q].token != NONE_ID ==> self.darts_entries()[q].lp
                == self.lps()[self.darts_entries()[q].token as int],
    {
        if self.slots@.contains_key(q) {
            let v = self.slots@[q];
            assert(self.node_token(v) == id_slot(id_of(self.tokens(), self.paths@[v])));
            lemma_id_of(self.tokens(), self.paths@[v]);
        }
    }

    /// DARTS child lookup: the position of the child of position `node` via
    /// `byte`, or `u32::MAX` when there is none.
    #[inline(always)]
    pub fn darts_next(&self, node: u32, byte: u8) -> (r: u32)
        requires
            self.wf(),
            self.is_finalized(),
            node < self.darts_len(),
        ensures
            r == darts_step(self.darts_entries(), node as int, byte),
            r != NONE_ID <==> (self.darts_path(node as int) matches Some(p) && self.is_path(
                p.push(byte),
            )),
            r != NONE_ID ==> r < self.darts_len() && self.darts_path(r as int) == Some(
                self.darts_path(node as int)->0.push(byte),
            ),
    {
        proof {
            self.lemma_darts_step(node as int, byte);
        }
        let entry = self.darts[node as usize];
        let t: u32 = entry.base + byte as u32;
        let len = self.darts.len() as u32;
        if t < len {
            let child = self.darts[t as usize];
            if child.check == node {
                t
            } else {
                NONE_ID
            }
        } else {
            NONE_ID
        }
    }

    /// The `(token id, log-probability bits)` of the token ending at DARTS
    /// position `t`, if any.
    #[inline(always)]
    pub fn darts_token_lp(&self, t: u32) -> (r: Option<(u32, u32)>)
        requires
            self.wf(),
            self.is_finalized(),
            t < self.darts_len(),
        ensures
            r == (match self.darts_path(t as int) {
                None => None,
                Some(p) => match self.lookup(p) {
                    Some(i) => Some((i as u32, self.lps()[i as int])),
                    None => None,
                },
            }),
    {
        let e = self.darts[t as usize];
        proof {
            self.lemma_darts_token(t as int);
            if let Some(p) = self.darts_path(t as int) {
                lemma_id_of(self.tokens(), p);
            }
        }
        if e.token != NONE_ID {
            Some((e.token, e.lp))
        } else {
            None
        }
    }

    /// A copy of a trie that is not finalized yet, with its own storage.
    pub fn copy_unfinalized(&self) -> (r: Self)
        requires
            self.wf(),
            !self.is_finalized(),
        ensures
            r.wf(),
            !r.is_finalized(),
            r.tokens() == self.tokens(),
            r.lps() == self.lps(),
            r.size() == self.size(),
            r.node_count() == self.node_count(),
            forall|p: Seq<u8>| r.is_path(p) == self.is_path(p),
            self.prefix_paths() ==> r.prefix_paths(),
    {
        let n = self.build_children.len();
        let mut build_children: Vec<Vec<(u8, u32)>> = Vec::new();
        let mut v: usize = 0;
        while v < n
            invariant
                n == self.build_children@.len(),
                0 <= v <= n,
                build_children@.len() == v,
                forall|w: int| 0 <= w < v ==> (#[trigger] build_children@[w])@ == self.build_children@[w]@,
            decreases n - v,
        {
            let src = &self.build_children[v];
            let mut ch: Vec<(u8, u32)> = Vec::new();
            let mut k: usize = 0;
            while k < src.len()
                invariant
                    0 <= k <= src@.len(),
                    ch@ == src@.subrange(0, k as int),
                decreases src@.len() - k,
            {
                ch.push(src[k]);
                k = k + 1;
                proof {
                    assert(ch@ =~= src@.subrange(0, k as int));
                }
            }
            proof {
                assert(ch@ =~= src@);
            }
            build_children.push(ch);
            v = v + 1;
        }
        let m = self.token_bytes.len();
        let mut token_bytes: Vec<Vec<u8>> = Vec::new();
        let mut i: usize = 0;
        while i < m
            invariant
                m == self.token_bytes@.len(),
                0 <= i <= m,
                token_bytes@.len() == i,
                forall|w: int| 0 <= w < i ==> (#[trigger] token_bytes@[w])@ == self.token_bytes@[w]@,
            decreases m - i,
        {
            token_bytes.push(slice_to_vec(self.token_bytes[i].as_slice()));
            i = i + 1;
        }
        let r = VocabTrie {
            child_start: Vec::new(),
            children_bytes: Vec::new(),
            children_ids: Vec::new(),
            token_ids: Vec::new(),
            darts: Vec::new(),
            build_children,
            build_token_ids: slice_to_vec(self.build_token_ids.as_slice()),
            num_nodes: self.num_nodes,
            log_probs: slice_to_vec(self.log_probs.as_slice()),
            token_bytes,
            vocab_size: self.vocab_size,
            byte_seen: slice_to_vec(self.byte_seen.as_slice()),
            finalized: false,
            paths: Ghost(self.paths@),
            slots: Ghost(Map::empty()),
        };
        proof {
            assert(r.tokens() =~= self.tokens());
            assert forall|w: int| 0 <= w < self.num_nodes implies #[trigger] r.children(w) == self.children(w)
                && r.node_token(w) == self.node_token(w) by {}
            assert(r.layout_ok());
            lemma_core_same(*self, r);
            assert forall|p: Seq<u8>| r.is_path(p) == self.is_path(p) by {
                if r.is_path(p) {
                    let w = choose|w: int| 0 <= w < r.paths@.len() && r.paths@[w] == p;
                    assert(self.paths@[w] == p);
                }
                if self.is_path(p) {
                    let w = choose|w: int| 0 <= w < self.paths@.len() && self.paths@[w] == p;
                    assert(r.paths@[w] == p);
                }
            }
        }
        r
    }

    /// Number of tokens.
    pub fn vocab_size(&self) -> (r: usize)
        ensures
            r == self.size(),
    {
        self.vocab_size
    }

    /// Number of trie nodes.
    pub fn num_nodes(&self) -> (r: usize)
        ensures
            r == self.node_count(),
    {
        self.num_nodes
    }

    /// Whether `finalize` has run.
    pub fn finalized(&self) -> (r: bool)
        ensures
            r == self.is_finalized(),
    {
        self.finalized
    }

    /// Bytes of each token, by id.
    pub fn token_bytes(&self) -> (r: &Vec<Vec<u8>>)
        ensures
            r@.map_values(|v: Vec<u8>| v@) == self.tokens(),
    {
        &self.token_bytes
    }

    /// Log-probability bits of each token, by id.
    pub fn log_probs(&self) -> (r: &Vec<u32>)
        ensures
            r@ == self.lps(),
    {
        &self.log_probs
    }

    /// The DARTS slots (empty before `finalize`); `lemma_darts_step` and
    /// `lemma_darts_token` say what they hold.
    pub fn darts(&self) -> (r: &Vec<DartsEntry>)
        ensures
            r@ == self.darts_entries(),
            r@.len() == self.darts_len(),
    {
        &self.darts
    }

    /// A lookup cursor: a DARTS position of a node once the trie is
    /// finalized, a node id before.
    pub closed spec fn is_cursor(&self, c: u32) -> bool {
        if self.finalized {
            self.slots@.contains_key(c as int)
        } else {
            c < self.num_nodes
        }
    }

    /// The byte string that cursor `c` has read.
    pub closed spec fn cursor_path(&self, c: u32) -> Seq<u8> {
        if self.finalized {
            self.paths@[self.slots@[c as int]]
        } else {
            self.paths@[c as int]
        }
    }

    /// Cursor 0 stands at the root in either layout.
    pub proof fn lemma_root_cursor(&self)
        requires
            self.wf(),
        ensures
            self.is_cursor(0),
            self.cursor_path(0) == Seq::<u8>::empty(),
    {
    }

    /// Moves cursor `c` on by `byte`: DARTS lookup once finalized, the child
    /// lists before.  `u32::MAX` when no token continues that way.
    pub fn step(&self, c: u32, byte: u8) -> (r: u32)
        requires
            self.wf(),
            self.is_cursor(c),
        ensures
            r != NONE_ID <==> self.is_path(self.cursor_path(c).push(byte)),
            r != NONE_ID ==> self.is_cursor(r) && self.cursor_path(r) == self.cursor_path(c).push(
                byte,
            ),
    {
        if self.finalized {
            self.darts_next(c, byte)
        } else {
            let r = self.child(c, byte);
            if r == 0 {
                NONE_ID
            } else {
                r
            }
        }
    }

    /// The `(token id, log-probability bits)` of the token that cursor `c`
    /// has read, if that byte string is a token.
    pub fn terminal(&self, c: u32) -> (r: Option<(u32, u32)>)
        requires
            self.wf(),
            self.is_cursor(c),
        ensures
            r == (match self.lookup(self.cursor_path(c)) {
                Some(i) => Some((i as u32, self.lps()[i as int])),
                None => None,
            }),
    {
        if self.finalized {
            self.darts_token_lp(c)
        } else {
            match self.token_id_at(c) {
                Some(id) => {
                    proof {
                        lemma_id_of(self.tokens(), self.paths@[c as int]);
                    }
                    Some((id, self.log_probs[id as usize]))
                },
                None => None,
            }
        }
    }

    /// Compacts the build-time lists into the CSR layout, then builds the
    /// DARTS layout.  Calling it again does nothing.
    pub fn finalize(&mut self)
        requires
            old(self).wf(),
        ensures
            final(self).wf(),
            final(self).is_finalized(),
            final(self).tokens() == old(self).tokens(),
            final(self).lps() == old(self).lps(),
            final(self).size() == old(self).size(),
            final(self).node_count() == old(self).node_count(),
            final(self).darts_len() >= 1,
            final(self).darts_path(0) == Some(Seq::<u8>::empty()),
            final(self).darts_entries()[0].check == NONE_ID,
            old(self).prefix_paths() ==> final(self).prefix_paths(),
            forall|v: int|
                0 <= v < old(self).node_count() ==> final(self).node_path(v) == old(self).node_path(v),
    {
        if self.finalized {
            return;
        }
        let n = self.num_nodes;
        let mut child_start: Vec<u32> = Vec::new();
        let mut children_bytes: Vec<u8> = Vec::new();
        let mut children_ids: Vec<u32> = Vec::new();
        let mut token_ids: Vec<u32> = Vec::new();
        child_start.push(0);
        let mut offset: u32 = 0;
        let mut i: usize = 0;
        while i < n
            invariant
                self.core_ok(),
                !self.finalized,
                n == self.num_nodes,
                0 <= i <= n,
                child_start@.len() == i + 1,
                child_start@[i as int] == offset,
                children_bytes@.len() == offset,
                children_ids@.len() == offset,
                token_ids@.len() == i,
                offset <= 256 * i,
                child_start@[0] == 0,
                forall|v: int, w: int|
                    0 <= v <= w <= i ==> #[trigger] child_start@[v] <= #[trigger] child_start@[w],
                forall|v: int|
                    0 <= v < i ==> child_start@[v + 1] - child_start@[v]
                        == #[trigger] self.build_children@[v]@.len(),
                forall|v: int, k: int|
                    0 <= v < i && 0 <= k < self.build_children@[v]@.len() ==> children_bytes@[child_start@[v]
                        + k] == #[trigger] self.build_children@[v]@[k].0 && children_ids@[child_start@[v]
                        + k] == self.build_children@[v]@[k].1,
                forall|v: int| 0 <= v < i ==> token_ids@[v] == #[trigger] self.build_token_ids@[v],
            decreases n - i,
        {
            token_ids.push(self.build_token_ids[i]);
            let ghost ch = self.build_children@[i as int]@;
            proof {
                assert(self.children_ok(i as int));
                assert(self.children(i as int) == ch);
                lemma_sorted_pairs_len(ch);
            }
            let mut k: usize = 0;
            let ghost start = offset;
            let ghost cb0 = children_bytes@;
            let ghost ci0 = children_ids@;
            while k < self.build_children[i].len()
                invariant
                    self.core_ok(),
                    !self.finalized,
                    n == self.num_nodes,
                    0 <= i < n,
                    ch == self.build_children@[i as int]@,
                    ch.len() <= 256,
                    0 <= k <= ch.len(),
                    offset == start + k,
                    start <= 256 * i,
                    children_bytes@.len() == offset,
                    children_ids@.len() == offset,
                    cb0.len() == start,
                    ci0.len() == start,
                    forall|j: int| 0 <= j < start ==> children_bytes@[j] == cb0[j] && children_ids@[j] == ci0[j],
                    forall|k2: int|
                        0 <= k2 < k ==> children_bytes@[start + k2] == ch[k2].0 && children_ids@[start
                            + k2] == ch[k2].1,
                decreases ch.len() - k,
            {
                let (b, c) = self.build_children[i][k];
                children_bytes.push(b);
                children_ids.push(c);
                offset = offset + 1;
                k = k + 1;
            }
            let ghost cs_prev = child_start@;
            child_start.push(offset);
            i = i + 1;
            proof {
                assert forall|v: int, w: int|
                    0 <= v <= w <= i implies #[trigger] child_start@[v] <= #[trigger] child_start@[w] by {
                    if w == i {
                        if v < i {
                            assert(cs_prev[v] <= cs_prev[i - 1]);
                        }
                    }
                }
                assert forall|v: int, k2: int|
                    0 <= v < i && 0 <= k2 < self.build_children@[v]@.len() implies children_bytes@[child_start@[v]
                        + k2] == #[trigger] self.build_children@[v]@[k2].0 && children_ids@[child_start@[v]
                        + k2] == self.build_children@[v]@[k2].1 by {
                    if v < i - 1 {
                        assert(cs_prev[v + 1] - cs_prev[v] == self.build_children@[v]@.len());
                        assert(cs_prev[v + 1] <= cs_prev[i - 1]);
                        assert(child_start@[v] + k2 < start);
                        assert(cb0[cs_prev[v] + k2] == self.build_children@[v]@[k2].0);
                        assert(ci0[cs_prev[v] + k2] == self.build_children@[v]@[k2].1);
                    } else {
                        assert(child_start@[v] == start);
                        assert(children_bytes@[start + k2] == ch[k2].0);
                        assert(children_ids@[start + k2] == ch[k2].1);
                    }
                }
            }
        }
        let ghost pre = *self;
        self.child_start = child_start;
        self.children_bytes = children_bytes;
        self.children_ids = children_ids;
        self.token_ids = token_ids;
        self.build_children = Vec::new();
        self.build_token_ids = Vec::new();
        self.finalized = true;
        proof {
            assert forall|v: int| 0 <= v < n implies #[trigger] self.children(v) == pre.children(v) by {
                let bc = pre.build_children@[v]@;
                assert(self.child_start@[v + 1] - self.child_start@[v] == bc.len());
                assert forall|k: int| 0 <= k < bc.len() implies self.children(v)[k] == bc[k] by {
                    assert(self.children_bytes@[self.child_start@[v] + k] == bc[k].0);
                }
                assert(self.children(v) =~= bc);
            }
            assert forall|v: int| 0 <= v < n implies #[trigger] self.children_ok(v) by {
                assert(pre.children_ok(v));
                assert(self.children(v) == pre.children(v));
            }
            assert forall|v: int| 0 <= v < n implies #[trigger] self.node_token(v) == id_slot(id_of(self.tokens(), self.paths@[v])) by {
                assert(pre.node_token(v) == id_slot(id_of(pre.tokens(), pre.paths@[v])));
            }
            assert(self.layout_ok());
            lemma_core_same(pre, *self);
        }
        self.build_darts();
        proof {
            if old(self).prefix_paths() {
                assert forall|q: Seq<u8>| #[trigger] self.is_path(q) implies q.len() == 0 || exists|i: int, k: int|
                    0 <= i < self.tokens().len() && 0 <= k <= self.tokens()[i].len() && q
                        == self.tokens()[i].subrange(0, k) by {
                    let v = choose|v: int| 0 <= v < self.paths@.len() && self.paths@[v] == q;
                    assert(self.node_path(v) == old(self).node_path(v));
                    assert(old(self).is_path(q));
                }
            }
        }
    }

    /// Builds the DARTS layout from the finalized CSR.
    ///
    /// Breadth-first, each node gets a unique DARTS position (the root gets 0).
    /// For a node at position `p` with children `{(c, t), ...}`, the smallest
    /// base `b >= 1` whose positions `b + c` are all free becomes
    /// `darts[p].base`, and each child goes to `b + c` with `check = p`.
    fn build_darts(&mut self)
        requires
            old(self).core_ok(),
            old(self).seen_ok(),
            old(self).finalized,
        ensures
            final(self).wf(),
            final(self).finalized,
            final(self).tokens() == old(self).tokens(),
            final(self).lps() == old(self).lps(),
            final(self).vocab_size == old(self).vocab_size,
            final(self).num_nodes == old(self).num_nodes,
            final(self).paths == old(self).paths,
    {
        let mut builder = DartsBuilder::new(self);
        while builder.head < builder.queue.len()
            invariant
                self.core_ok(),
                self.finalized,
                builder.inv(self, None),
            decreases self.num_nodes - builder.head,
        {
            proof {
                builder.lemma_head_bound(self);
            }
            let ghost h = builder.head;
            let (pos, cs, ce, b) = builder.start_node(self);
            let mut k = cs;
            while k < ce
                invariant
                    self.core_ok(),
                    self.finalized,
                    builder.head == h + 1,
                    h < self.num_nodes,
                    cs <= k <= ce,
                    builder.inv(self, Some((pos as int, k - cs))),
                    builder.cur_bounds(self, pos as int, cs as int, ce as int, b as int),
                decreases ce - k,
            {
                builder.place_child(self, pos, cs, ce, b, k);
                k = k + 1;
            }
            proof {
                builder.lemma_node_complete(self, pos as int, (ce - cs) as int);
            }
        }
        let (entries, slots) = builder.finish(self);
        let ghost pre = *self;
        self.darts = entries;
        self.slots = slots;
        proof {
            assert(self.layout_ok());
            lemma_core_same(pre, *self);
            lemma_layout_same(pre, *self, entries@, slots@);
        }
    }

    /// The child of `node` via `byte`, or 0 (the root, never a child) if none.
    pub fn child(&self, node: u32, byte: u8) -> (r: u32)
        requires
            self.wf(),
            node < self.node_count(),
        ensures
            r == 0 ==> !self.is_path(self.node_path(node as int).push(byte)),
            r != 0 ==> r < self.node_count() && self.node_path(r as int) == self.node_path(
                node as int,
            ).push(byte),
    {
        let ghost p = self.paths@[node as int].push(byte);
        proof {
            assert(self.children_ok(node as int));
        }
        if self.finalized {
            let start = self.child_start[node as usize] as usize;
            let end = self.child_start[node as usize + 1] as usize;
            proof {
                assert(self.child_start@[node as int] <= self.child_start@[node + 1]);
                assert(self.child_start@[node + 1] <= self.child_start@[self.num_nodes as int]);
                let ch = self.children(node as int);
                assert forall|i: int, j: int| start <= i < j < end implies self.children_bytes@[i] < self.children_bytes@[j] by {
                    assert(ch[i - start].0 == self.children_bytes@[i]);
                    assert(ch[j - start].0 == self.children_bytes@[j]);
                }
            }
            match search_bytes(&self.children_bytes, start, end, byte) {
                Some(idx) => {
                    proof {
                        let ch = self.children(node as int);
                        assert(ch[idx - start].0 == byte);
                    }
                    self.children_ids[idx]
                },
                None => {
                    proof {
                        let ch = self.children(node as int);
                        assert forall|i: int| 0 <= i < ch.len() implies ch[i].0 != byte by {
                            assert(ch[i].0 == self.children_bytes@[start + i]);
                        }
                        self.lemma_no_child(node as int, byte);
                    }
                    0
                },
            }
        } else {
            proof {
                assert(self.children(node as int) == self.build_children@[node as int]@);
            }
            match search_pairs(&self.build_children[node as usize], byte) {
                Ok(idx) => self.build_children[node as usize][idx].1,
                Err(_) => {
                    proof {
                        self.lemma_no_child(node as int, byte);
                    }
                    0
                },
            }
        }
    }

    proof fn lemma_no_child(&self, v: int, byte: u8)
        requires
            self.wf(),
            0 <= v < self.num_nodes,
            forall|i: int| 0 <= i < self.children(v).len() ==> self.children(v)[i].0 != byte,
        ensures
            !self.is_path(self.paths@[v].push(byte)),
    {
        let p = self.paths@[v].push(byte);
        if self.is_path(p) {
            let w = choose|w: int| 0 <= w < self.paths@.len() && self.paths@[w] == p;
            assert(self.paths@[w].drop_last() =~= self.paths@[v]);
            assert(w != 0);
            assert(self.children_ok(v));
            let ch = self.children(v);
            let i = choose|i: int| 0 <= i < ch.len() && ch[i].1 == w;
            assert(self.paths@[w].last() == ch[i].0);
        }
    }

    /// The id of the token ending at `node`, if any.
    pub fn token_id_at(&self, node: u32) -> (r: Option<u32>)
        requires
            self.wf(),
            node < self.node_count(),
        ensures
            r == opt_u32(self.lookup(self.node_path(node as int))),
    {
        let id = if self.finalized {
            self.token_ids[node as usize]
        } else {
            self.build_token_ids[node as usize]
        };
        proof {
            assert(self.node_token(node as int) == id);
            lemma_id_of(self.tokens(), self.paths@[node as int]);
        }
        if id == NONE_ID {
            None
        } else {
            Some(id)
        }
    }

    /// The id of `token`, if it was inserted.
    pub fn get(&self, token: &[u8]) -> (r: Option<u32>)
        requires
            self.wf(),
        ensures
            r == opt_u32(self.lookup(token@)),
    {
        let mut node: u32 = 0;
        let mut k: usize = 0;
        while k < token.len()
            invariant
                self.wf(),
                0 <= k <= token@.len(),
                node < self.node_count(),
                self.node_path(node as int) == token@.subrange(0, k as int),
            decreases token@.len() - k,
        {
            let next = self.child(node, token[k]);
            proof {
                assert(token@.subrange(0, k + 1) =~= token@.subrange(0, k as int).push(token@[k as int]));
            }
            if next == 0 {
                proof {
                    if self.is_path(token@) {
                        self.lemma_prefix_is_path(token@, k + 1);
                    }
                    self.lemma_non_path_not_token(token@);
                }
                return None;
            }
            node = next;
            k = k + 1;
        }
        proof {
            assert(token@.subrange(0, k as int) =~= token@);
        }
        self.token_id_at(node)
    }
}

/// Two tries that agree on their tokens, node paths and child lists agree on
/// the trie invariant.
proof fn lemma_core_same(a: VocabTrie, b: VocabTrie)
    requires
        a.core_ok(),
        b.paths == a.paths,
        b.token_bytes@.len() == a.token_bytes@.len(),
        b.tokens() == a.tokens(),
        b.log_probs@ == a.log_probs@,
        b.vocab_size == a.vocab_size,
        b.num_nodes == a.num_nodes,
        b.layout_ok(),
        forall|v: int|
            0 <= v < a.num_nodes ==> #[trigger] b.children(v) == a.children(v) && b.node_token(v)
                == a.node_token(v),
    ensures
        b.core_ok(),
{
    let n = a.num_nodes as int;
    assert(b.tokens() == a.tokens());
    assert forall|p: Seq<u8>| a.is_path(p) implies b.is_path(p) by {
        let v = choose|v: int| 0 <= v < a.paths@.len() && a.paths@[v] == p;
        assert(b.paths@[v] == p);
    }
    assert forall|v: int| 0 < v < n implies #[trigger] b.is_path(b.paths@[v].drop_last()) by {
        assert(a.is_path(a.paths@[v].drop_last()));
    }
    assert forall|i: int| 0 <= i < b.vocab_size implies #[trigger] b.is_path(b.tokens()[i]) by {
        assert(a.is_path(a.tokens()[i]));
    }
    assert forall|v: int| 0 <= v < n implies #[trigger] b.children_ok(v) by {
        assert(a.children_ok(v));
        assert(b.children(v) == a.children(v));
    }
    assert forall|v: int| 0 <= v < n implies #[trigger] b.node_token(v) == id_slot(id_of(b.tokens(), b.paths@[v])) by {
        assert(a.node_token(v) == id_slot(id_of(a.tokens(), a.paths@[v])));
        assert(b.children(v) == a.children(v));
    }
}

/// A layout of one trie is a layout of any trie with the same nodes, child
/// lists and tokens.
proof fn lemma_layout_same(a: VocabTrie, b: VocabTrie, d: Seq<DartsEntry>, slots: Map<int, int>)
    requires
        a.layout_of(d, slots),
        b.paths == a.paths,
        b.log_probs == a.log_probs,
        b.num_nodes == a.num_nodes,
        b.token_ids == a.token_ids,
        forall|v: int| 0 <= v < a.num_nodes ==> #[trigger] b.children(v) == a.children(v),
    ensures
        b.layout_of(d, slots),
{
    assert forall|q: int| #[trigger] slots.contains_key(q) && q != 0 implies b.slot_linked(d, slots, q) by {
        assert(a.slot_linked(d, slots, q));
    }
    assert forall|p: int, k: int|
        #[trigger] slots.contains_key(p) && 0 <= k < b.children(slots[p]).len() implies #[trigger] b.child_placed(d, slots, p, k) by {
        assert(b.children(slots[p]) == a.children(slots[p]));
        assert(a.child_placed(d, slots, p, k));
    }
}

/// Slot `b + c` is taken for some byte `c` of `bytes`.
pub open spec fn base_conflicts(used: Seq<bool>, bytes: Seq<u8>, b: int) -> bool {
    exists|k: int| 0 <= k < bytes.len() && b + bytes[k] < used.len() && used[b + bytes[k]]
}

/// Find the smallest base offset `b >= 1` where every position `b + c` is free.
fn find_darts_base(used: &[bool], bytes: &[u8]) -> (b: usize)
    requires
        used@.len() <= DARTS_CAP_MAX,
    ensures
        1 <= b <= used@.len() + 1,
        !base_conflicts(used@, bytes@, b as int),
        forall|b2: int| 1 <= b2 < b ==> base_conflicts(used@, bytes@, b2),
{
    let mut b: usize = 1;
    loop
        invariant
            used@.len() <= DARTS_CAP_MAX,
            1 <= b <= used@.len() + 1,
            forall|b2: int| 1 <= b2 < b ==> base_conflicts(used@, bytes@, b2),
        decreases used@.len() + 1 - b,
    {
        let mut k: usize = 0;
        let mut free = true;
        while k < bytes.len() && free
            invariant
                0 <= k <= bytes@.len(),
                1 <= b <= used@.len() + 1,
                used@.len() <= DARTS_CAP_MAX,
                free ==> forall|k2: int| 0 <= k2 < k ==> !(b + bytes@[k2] < used@.len() && used@[b + bytes@[k2]]),
                !free ==> base_conflicts(used@, bytes@, b as int),
            decreases bytes@.len() - k + (if free { 1int } else { 0int }),
        {
            let pos = b + bytes[k] as usize;
            if pos < used.len() && used[pos] {
                free = false;
            } else {
                k = k + 1;
            }
        }
        if free {
            return b;
        }
        b = b + 1;
    }
}

/// A strictly sorted list of `(byte, _)` pairs has at most 256 entries.
proof fn lemma_sorted_pairs_len(ch: Seq<(u8, u32)>)
    requires
        forall|i: int, j: int| 0 <= i < j < ch.len() ==> ch[i].0 < ch[j].0,
    ensures
        ch.len() <= 256,
{
    assert forall|i: int| 0 <= i < ch.len() implies ch[i].0 >= i by {
        lemma_sorted_pairs_rank(ch, i);
    }
    if ch.len() > 256 {
        assert(ch[256].0 >= 256);
    }
}

proof fn lemma_sorted_pairs_rank(ch: Seq<(u8, u32)>, i: int)
    requires
        forall|a: int, b: int| 0 <= a < b < ch.len() ==> ch[a].0 < ch[b].0,
        0 <= i < ch.len(),
    ensures
        ch[i].0 >= i,
    decreases i,
{
    if i > 0 {
        lemma_sorted_pairs_rank(ch, i - 1);
        assert(ch[i - 1].0 < ch[i].0);
    }
}

/// While building the DARTS layout: the `k`-th of the children `ch` of the
/// node at position `p` sits at `base + byte`.
spec fn child_at_base(
    entries: Seq<DartsEntry>,
    slots: Map<int, int>,
    cap: int,
    ch: Seq<(u8, u32)>,
    p: int,
    k: int,
) -> bool {
    let q = entries[p].base + ch[k].0;
    &&& q < cap
    &&& slots.contains_key(q)
    &&& slots[q] == ch[k].1
}

/// `e` with its base set to `b`.
spec fn based(e: DartsEntry, b: u32) -> DartsEntry {
    DartsEntry { base: b, check: e.check, token: e.token, lp: e.lp }
}

/// Scratch state while the DARTS layout is built breadth-first.
struct DartsBuilder {
    entries: Vec<DartsEntry>,
    used: Vec<bool>,
    queue: Vec<(usize, usize)>,
    head: usize,
    cap: usize,
    /// Position -> trie node.
    slots: Ghost<Map<int, int>>,
    /// Positions whose node has been (or is being) given its children.
    done: Ghost<Set<int>>,
    /// Nodes that have a position.
    placed: Ghost<Set<int>>,
    /// No position above this one is taken.
    maxpos: Ghost<int>,
}

/// Position `q` hangs below the done position `check` via byte `q - base`.
spec fn built_link(
    d: Seq<DartsEntry>,
    sl: Map<int, int>,
    done: Set<int>,
    paths: Seq<Seq<u8>>,
    q: int,
) -> bool {
    let p = d[q].check as int;
    &&& done.contains(p)
    &&& sl.contains_key(p)
    &&& d[p].base <= q < d[p].base + 256
    &&& paths[sl[q]] == paths[sl[p]].push((q - d[p].base) as u8)
}

impl DartsBuilder {
    closed spec fn inv(&self, t: &VocabTrie, cur: Option<(int, int)>) -> bool {
        let d = self.entries@;
        let u = self.used@;
        let sl = self.slots@;
        let done = self.done@;
        let placed = self.placed@;
        let q = self.queue@;
        let n = t.num_nodes as int;
        let maxpos = self.maxpos@;
        &&& t.core_ok()
        &&& t.finalized
        &&& d.len() == self.cap
        &&& u.len() == self.cap
        &&& 512 <= self.cap <= DARTS_CAP_MAX
        &&& self.head <= q.len()
        &&& q.len() == placed.len()
        &&& placed.finite()
        &&& forall|x: int| #[trigger] placed.contains(x) ==> 0 <= x < n
        &&& forall|j: int|
            0 <= j < q.len() ==> sl.contains_key(#[trigger] q[j].1 as int) && sl[q[j].1 as int]
                == q[j].0 && q[j].0 < n
        &&& forall|j1: int, j2: int| 0 <= j1 < j2 < q.len() ==> #[trigger] q[j1].1 != #[trigger] q[j2].1
        &&& forall|x: int| #[trigger] sl.contains_key(x) ==> exists|j: int| 0 <= j < q.len() && q[j].1 == x
        &&& forall|j: int| 0 <= j < self.head ==> done.contains(#[trigger] q[j].1 as int)
        &&& forall|j: int| self.head <= j < q.len() ==> !done.contains(#[trigger] q[j].1 as int)
        &&& forall|x: int| #[trigger] done.contains(x) ==> sl.contains_key(x)
        &&& forall|x: int|
            #[trigger] sl.contains_key(x) ==> 0 <= x <= maxpos && x < self.cap && u[x] && 0 <= sl[x] < n
                && placed.contains(sl[x])
        &&& forall|x: int| 0 <= x < self.cap && #[trigger] u[x] ==> sl.contains_key(x)
        &&& forall|x: int| 0 <= x < self.cap && !#[trigger] sl.contains_key(x) ==> d[x] == empty_entry()
        &&& forall|x: int|
            #[trigger] sl.contains_key(x) ==> d[x].token == t.token_ids@[sl[x]] && (d[x].token != NONE_ID
                ==> d[x].lp == t.log_probs@[d[x].token as int])
        &&& forall|x: int| #[trigger] sl.contains_key(x) && x != 0 ==> built_link(d, sl, done, t.paths@, x)
        &&& sl.contains_key(0)
        &&& sl[0] == 0
        &&& d[0].check == NONE_ID
        &&& forall|x: int| #[trigger] sl.contains_key(x) && !done.contains(x) ==> d[x].base == 0
        &&& forall|p: int, k: int|
            done.contains(p) && 0 <= k < t.children(sl[p]).len() && !(cur matches Some((cp, ck)) && p == cp
                && k >= ck) ==> #[trigger] child_at_base(d, sl, self.cap as int, t.children(sl[p]), p, k)
        &&& forall|x: int| 0 <= x < self.cap ==> #[trigger] d[x].base <= maxpos + 1
        &&& forall|x1: int, x2: int|
            #[trigger] sl.contains_key(x1) && #[trigger] sl.contains_key(x2) && x1 != x2 ==> sl[x1] != sl[x2]
        &&& forall|x: int| #[trigger] placed.contains(x) ==> exists|y: int| sl.contains_key(y) && sl[y] == x
        &&& 0 <= maxpos <= 256 * self.head
        &&& maxpos < DARTS_MAX
        &&& cur matches Some((cp, ck)) ==> {
            let ch = t.children(sl[cp]);
            &&& done.contains(cp)
            &&& 0 <= ck <= ch.len()
            &&& forall|k: int|
                ck <= k < ch.len() ==> #[trigger] child_free(d, u, sl, placed, self.cap as int, ch, cp, k)
            &&& forall|k: int| 0 <= k < ch.len() ==> d[cp].base + #[trigger] ch[k].0 <= maxpos
        }
    }

    /// The numbers handed back by `start_node` describe the node in progress.
    closed spec fn cur_bounds(&self, t: &VocabTrie, pos: int, cs: int, ce: int, b: int) -> bool {
        let sl = self.slots@;
        &&& sl.contains_key(pos)
        &&& 0 <= sl[pos] < t.num_nodes
        &&& 0 <= pos < self.cap
        &&& cs == t.child_start@[sl[pos]]
        &&& ce == t.child_start@[sl[pos] + 1]
        &&& 0 <= cs <= ce <= t.children_bytes@.len()
        &&& ce - cs == t.children(sl[pos]).len()
        &&& b == self.entries@[pos].base
        &&& b <= self.maxpos@ + 1
    }

    fn new(t: &VocabTrie) -> (r: Self)
        requires
            t.core_ok(),
            t.finalized,
        ensures
            r.inv(t, None),
            r.head == 0,
    {
        let n = t.num_nodes;
        let four_n = n * 4;
        let cap: usize = (if four_n > 512 { four_n } else { 512 }) + 512;
        let mut entries: Vec<DartsEntry> = Vec::new();
        let mut used: Vec<bool> = Vec::new();
        let mut z: usize = 0;
        while z < cap
            invariant
                z <= cap,
                entries@.len() == z,
                used@.len() == z,
                forall|x: int| 0 <= x < z ==> entries@[x] == empty_entry() && !used@[x],
            decreases cap - z,
        {
            entries.push(DartsEntry { base: 0, check: NONE_ID, token: NONE_ID, lp: 0 });
            used.push(false);
            z = z + 1;
        }
        let root_tid = t.token_ids[0];
        let root_lp = if root_tid != NONE_ID {
            proof {
                assert(t.node_token(0) == id_slot(id_of(t.tokens(), t.paths@[0])));
                lemma_id_of(t.tokens(), t.paths@[0]);
            }
            t.log_probs[root_tid as usize]
        } else {
            0
        };
        entries.set(0, DartsEntry { base: 0, check: NONE_ID, token: root_tid, lp: root_lp });
        used.set(0, true);
        let mut queue: Vec<(usize, usize)> = Vec::new();
        queue.push((0, 0));
        let ghost slots: Map<int, int> = Map::empty().insert(0, 0);
        let ghost done: Set<int> = Set::empty();
        let ghost placed: Set<int> = Set::empty().insert(0);
        let ghost maxpos: int = 0;
        let r = DartsBuilder {
            entries,
            used,
            queue,
            head: 0,
            cap,
            slots: Ghost(slots),
            done: Ghost(done),
            placed: Ghost(placed),
            maxpos: Ghost(maxpos),
        };
        proof {
            assert(placed.len() == 1);
            assert forall|x: int| #[trigger] slots.contains_key(x) implies exists|j: int|
                0 <= j < r.queue@.len() && r.queue@[j].1 == x by {
                assert(r.queue@[0].1 == 0);
            }
            assert forall|x: int| #[trigger] placed.contains(x) implies exists|y: int|
                slots.contains_key(y) && slots[y] == x by {
                assert(x == 0);
                assert(slots.contains_key(0) && slots[0] == x);
            }
            assert forall|x: int| 0 <= x < r.cap && #[trigger] r.used@[x] implies slots.contains_key(x) by {
                if x != 0 {
                    assert(!r.used@[x]);
                }
            }
        }
        r
    }

    /// The queue never holds more entries than the trie has nodes.
    proof fn lemma_head_bound(&self, t: &VocabTrie)
        requires
            self.inv(t, None),
        ensures
            self.queue@.len() <= t.num_nodes,
    {
        let r = vstd::set_lib::set_int_range(0, t.num_nodes as int);
        vstd::set_lib::lemma_int_range(0, t.num_nodes as int);
        assert(self.placed@.subset_of(r));
        vstd::set_lib::lemma_len_subset(self.placed@, r);
    }

    /// The children of a node whose position is not done yet have no position.
    proof fn lemma_children_unplaced(&self, t: &VocabTrie, p: int, k: int)
        requires
            self.inv(t, None),
            self.slots@.contains_key(p),
            !self.done@.contains(p),
            0 <= k < t.children(self.slots@[p]).len(),
        ensures
            !self.placed@.contains(t.children(self.slots@[p])[k].1 as int),
    {
        let sl = self.slots@;
        let v = sl[p];
        let ch = t.children(v);
        let x = ch[k].1 as int;
        assert(t.children_ok(v));
        if self.placed@.contains(x) {
            let y = choose|y: int| sl.contains_key(y) && sl[y] == x;
            assert(y != 0);
            assert(built_link(self.entries@, sl, self.done@, t.paths@, y));
            let p2 = self.entries@[y].check as int;
            let v2 = sl[p2];
            assert(t.paths@[x].drop_last() =~= t.paths@[v2]);
            assert(t.paths@[x].drop_last() =~= t.paths@[v]);
            assert(v2 == v);
            assert(p2 == p);
        }
    }

    /// Widens the scratch arrays to at least `needed` positions.
    fn grow(&mut self, t: &VocabTrie, needed: usize)
        requires
            old(self).inv(t, None),
            old(self).cap < needed <= DARTS_MAX + 1,
        ensures
            final(self).inv(t, None),
            needed <= final(self).cap,
            forall|x: int| 0 <= x < old(self).cap ==> final(self).entries@[x] == old(self).entries@[x]
                && final(self).used@[x] == old(self).used@[x],
            forall|x: int| old(self).cap <= x < final(self).cap ==> !final(self).used@[x],
            final(self).queue@ == old(self).queue@,
            final(self).head == old(self).head,
            final(self).slots == old(self).slots,
            final(self).done == old(self).done,
            final(self).placed == old(self).placed,
            final(self).maxpos == old(self).maxpos,
    {
        let ghost pre = *self;
        let dbl = if self.cap <= DARTS_CAP_MAX / 2 {
            self.cap * 2
        } else {
            DARTS_CAP_MAX
        };
        let new_cap = if needed + 512 > dbl { needed + 512 } else { dbl };
        self.entries.resize(new_cap, DartsEntry { base: 0, check: NONE_ID, token: NONE_ID, lp: 0 });
        self.used.resize(new_cap, false);
        self.cap = new_cap;
        proof {
            let d = self.entries@;
            let u = self.used@;
            assert forall|x: int| 0 <= x < pre.cap implies d[x] == pre.entries@[x] && u[x] == pre.used@[x] by {
                assert(d.subrange(0, pre.cap as int)[x] == d[x]);
                assert(u.subrange(0, pre.cap as int)[x] == u[x]);
            }
            assert forall|x: int| pre.cap <= x < new_cap implies d[x] == empty_entry() && !u[x] by {
                assert(cloned::<DartsEntry>(DartsEntry { base: 0, check: NONE_ID, token: NONE_ID, lp: 0 }, d[x]));
                assert(cloned::<bool>(false, u[x]));
            }
            assert forall|x: int| 0 <= x < self.cap && #[trigger] u[x] implies self.slots@.contains_key(x) by {
                if x < pre.cap {
                    assert(pre.used@[x]);
                }
            }
            assert forall|x: int| 0 <= x < self.cap && !#[trigger] self.slots@.contains_key(x) implies d[x] == empty_entry() by {
            }
            assert forall|x: int| 0 <= x < self.cap implies #[trigger] d[x].base <= self.maxpos@ + 1 by {
                if x < pre.cap {
                    assert(pre.entries@[x].base <= pre.maxpos@ + 1);
                }
            }
            assert forall|x: int| #[trigger] self.slots@.contains_key(x) && x != 0 implies built_link(d, self.slots@, self.done@, t.paths@, x) by {
                assert(built_link(pre.entries@, pre.slots@, pre.done@, t.paths@, x));
            }
            assert forall|p: int, k: int|
                self.done@.contains(p) && 0 <= k < t.children(self.slots@[p]).len() implies #[trigger] child_at_base(d, self.slots@, self.cap as int, t.children(self.slots@[p]), p, k) by {
                assert(child_at_base(pre.entries@, pre.slots@, pre.cap as int, t.children(pre.slots@[p]), p, k));
            }
        }
    }

    /// Takes the next queued position and gives its node a base: the smallest
    /// `b >= 1` at which all of the node's children find free positions.
    /// Returns the position, the node's child range in the CSR arrays and `b`
    /// (0 for a leaf, whose base is never used).
    fn start_node(&mut self, t: &VocabTrie) -> (r: (usize, usize, usize, usize))
        requires
            old(self).inv(t, None),
            old(self).head < old(self).queue@.len(),
            old(self).queue@.len() <= t.num_nodes,
        ensures
            final(self).inv(t, Some((r.0 as int, 0))),
            final(self).cur_bounds(t, r.0 as int, r.1 as int, r.2 as int, r.3 as int),
            final(self).head == old(self).head + 1,
    {
        let (csr, pos) = self.queue[self.head];
        let ghost v = csr as int;
        let ghost ch = t.children(v);
        proof {
            assert(self.slots@.contains_key(self.queue@[self.head as int].1 as int));
            assert(!self.done@.contains(pos as int));
            assert(t.children_ok(v));
            assert(t.child_start@[v] <= t.child_start@[v + 1]);
            assert(t.child_start@[v + 1] <= t.child_start@[t.num_nodes as int]);
            lemma_sorted_pairs_len(ch);
            assert forall|k: int| 0 <= k < ch.len() implies !self.placed@.contains(#[trigger] ch[k].1 as int) by {
                self.lemma_children_unplaced(t, pos as int, k);
            }
        }
        let cs = t.child_start[csr] as usize;
        let ce = t.child_start[csr + 1] as usize;
        if cs == ce {
            let ghost pre = *self;
            self.head = self.head + 1;
            self.done = Ghost(pre.done@.insert(pos as int));
            proof {
                assert(pre.entries@.update(pos as int, based(pre.entries@[pos as int], 0)) =~= pre.entries@);
                self.lemma_based(t, pre, pos as int, cs as int, ce as int, 0, 0);
            }
            return (pos, cs, ce, 0);
        }
        let node_bytes = &t.children_bytes.as_slice()[cs..ce];
        let max_byte = node_bytes[node_bytes.len() - 1] as usize;
        let b = find_darts_base(self.used.as_slice(), node_bytes);
        proof {
            assert forall|k: int| 0 <= k < ch.len() implies #[trigger] ch[k].0 == node_bytes@[k] && ch[k].0 <= max_byte by {
                if k < ch.len() - 1 {
                    assert(ch[k].0 < ch[ch.len() - 1].0);
                }
            }
            let m = self.maxpos@ + 1;
            if b > m {
                assert(base_conflicts(self.used@, node_bytes@, m));
                let kk = choose|kk: int|
                    0 <= kk < node_bytes@.len() && m + node_bytes@[kk] < self.used@.len() && self.used@[m + node_bytes@[kk]];
                assert(self.slots@.contains_key(m + node_bytes@[kk]));
            }
            assert(self.maxpos@ <= 256 * self.head);
            assert(self.head < t.num_nodes);
        }
        let ghost used0 = self.used@;
        let ghost cap0 = self.cap;
        let needed = b + max_byte + 1;
        if needed > self.cap {
            self.grow(t, needed);
        }
        proof {
            assert forall|k: int| 0 <= k < ch.len() implies b + #[trigger] ch[k].0 < self.cap && !self.used@[b + ch[k].0] by {
                if b + ch[k].0 < cap0 {
                    assert(!(b + node_bytes@[k] < used0.len() && used0[b + node_bytes@[k]]));
                }
            }
        }
        let ghost pre = *self;
        let e = self.entries[pos];
        self.entries.set(pos, DartsEntry { base: b as u32, check: e.check, token: e.token, lp: e.lp });
        self.head = self.head + 1;
        self.done = Ghost(pre.done@.insert(pos as int));
        self.maxpos = Ghost(if b + max_byte > pre.maxpos@ { (b + max_byte) as int } else { pre.maxpos@ });
        proof {
            self.lemma_based(t, pre, pos as int, cs as int, ce as int, b as int, max_byte as int);
        }
        (pos, cs, ce, b)
    }

    /// After the queue head `pos` got base `b` (its children's bytes reaching
    /// up to `max_byte`), the invariant holds with none of its children placed.
    proof fn lemma_based(
        &self,
        t: &VocabTrie,
        pre: DartsBuilder,
        pos: int,
        cs: int,
        ce: int,
        b: int,
        max_byte: int,
    )
        requires
            pre.inv(t, None),
            pre.head < pre.queue@.len() <= t.num_nodes,
            pos == pre.queue@[pre.head as int].1,
            cs == t.child_start@[pre.slots@[pos]],
            ce == t.child_start@[pre.slots@[pos] + 1],
            0 <= cs <= ce <= t.children_bytes@.len(),
            ce - cs == t.children(pre.slots@[pos]).len(),
            0 <= b <= pre.maxpos@ + 1,
            0 <= max_byte <= 255,
            t.children(pre.slots@[pos]).len() == 0 ==> b == 0 && max_byte == 0,
            forall|k: int|
                0 <= k < t.children(pre.slots@[pos]).len() ==> #[trigger] t.children(pre.slots@[pos])[k].0
                    <= max_byte && b + t.children(pre.slots@[pos])[k].0 < pre.cap && !pre.used@[b
                    + t.children(pre.slots@[pos])[k].0] && !pre.placed@.contains(
                    t.children(pre.slots@[pos])[k].1 as int,
                ),
            self.entries@ == pre.entries@.update(pos, based(pre.entries@[pos], b as u32)),
            self.used@ == pre.used@,
            self.cap == pre.cap,
            self.queue@ == pre.queue@,
            self.head == pre.head + 1,
            self.slots == pre.slots,
            self.placed == pre.placed,
            self.done@ == pre.done@.insert(pos),
            self.maxpos@ == (if b + max_byte > pre.maxpos@ {
                b + max_byte
            } else {
                pre.maxpos@
            }),
        ensures
            self.inv(t, Some((pos, 0))),
            self.cur_bounds(t, pos, cs, ce, b),
    {
        let d = self.entries@;
        let d0 = pre.entries@;
        let sl = self.slots@;
        let q = self.queue@;
        let ch = t.children(sl[pos]);
        assert(sl.contains_key(pos));
        assert(!pre.done@.contains(pos));
        assert forall|x: int| 0 <= x < self.cap && x != pos implies d[x] == d0[x] by {}
        assert forall|j: int| self.head <= j < q.len() implies !self.done@.contains(#[trigger] q[j].1 as int) by {
            assert(q[j].1 != q[pre.head as int].1);
        }
        assert forall|j: int| 0 <= j < self.head implies self.done@.contains(#[trigger] q[j].1 as int) by {
            if j < pre.head {
                assert(pre.done@.contains(q[j].1 as int));
            }
        }
        assert forall|x: int| #[trigger] sl.contains_key(x) && x != 0 implies built_link(d, sl, self.done@, t.paths@, x) by {
            assert(built_link(d0, sl, pre.done@, t.paths@, x));
            let p = d0[x].check as int;
            assert(p != pos);
        }
        assert forall|x: int| #[trigger] sl.contains_key(x) && !self.done@.contains(x) implies d[x].base == 0 by {}
        assert forall|p: int, k: int|
            self.done@.contains(p) && 0 <= k < t.children(sl[p]).len() && !(p == pos && k >= 0) implies #[trigger] child_at_base(d, sl, self.cap as int, t.children(sl[p]), p, k) by {
            assert(pre.done@.contains(p));
            assert(child_at_base(d0, sl, pre.cap as int, t.children(sl[p]), p, k));
        }
        assert forall|x: int| 0 <= x < self.cap implies #[trigger] d[x].base <= self.maxpos@ + 1 by {
            if x != pos {
                assert(d0[x].base <= pre.maxpos@ + 1);
            }
        }
        assert forall|k: int| 0 <= k < ch.len() implies #[trigger] child_free(d, self.used@, sl, self.placed@, self.cap as int, ch, pos, k) by {
            let x = d[pos].base + ch[k].0;
            assert(ch[k].0 <= max_byte);
            if sl.contains_key(x) {
                assert(pre.used@[x]);
            }
        }
        assert forall|k: int| 0 <= k < ch.len() implies d[pos].base + #[trigger] ch[k].0 <= self.maxpos@ by {
            assert(ch[k].0 <= max_byte);
        }
        assert(self.maxpos@ <= 256 * self.head);
    }

    /// Places the child at CSR index `k` of the node at position `pos`, whose
    /// base is `b`, and queues it.
    fn place_child(&mut self, t: &VocabTrie, pos: usize, cs: usize, ce: usize, b: usize, k: usize)
        requires
            old(self).inv(t, Some((pos as int, k - cs))),
            old(self).cur_bounds(t, pos as int, cs as int, ce as int, b as int),
            cs <= k < ce,
        ensures
            final(self).inv(t, Some((pos as int, k - cs + 1))),
            final(self).cur_bounds(t, pos as int, cs as int, ce as int, b as int),
            final(self).head == old(self).head,
    {
        let ghost pre = *self;
        let ghost v = pre.slots@[pos as int];
        let ghost ch = t.children(v);
        let ghost kk = k - cs;
        proof {
            assert(t.children_ok(v));
            assert(ch[kk] == (t.children_bytes@[k as int], t.children_ids@[k as int]));
            assert(child_free(pre.entries@, pre.used@, pre.slots@, pre.placed@, pre.cap as int, ch, pos as int, kk));
        }
        let c = t.children_bytes[k];
        let child_pos = b + c as usize;
        let csr_child = t.children_ids[k] as usize;
        let tid = t.token_ids[csr_child];
        let lp = if tid != NONE_ID {
            proof {
                assert(t.node_token(csr_child as int) == id_slot(id_of(t.tokens(), t.paths@[csr_child as int])));
                lemma_id_of(t.tokens(), t.paths@[csr_child as int]);
            }
            t.log_probs[tid as usize]
        } else {
            0
        };
        self.used.set(child_pos, true);
        self.entries.set(child_pos, DartsEntry { base: 0, check: pos as u32, token: tid, lp });
        self.queue.push((csr_child, child_pos));
        self.slots = Ghost(pre.slots@.insert(child_pos as int, csr_child as int));
        self.placed = Ghost(pre.placed@.insert(csr_child as int));
        proof {
            self.lemma_placed(t, pre, pos as int, cs as int, ce as int, kk);
        }
    }

    /// After the `kk`-th child of the node at position `pos` got its
    /// position, the invariant holds with one more child placed.
    proof fn lemma_placed(&self, t: &VocabTrie, pre: DartsBuilder, pos: int, cs: int, ce: int, kk: int)
        requires
            pre.inv(t, Some((pos, kk))),
            pre.cur_bounds(t, pos, cs, ce, pre.entries@[pos].base as int),
            0 <= kk < t.children(pre.slots@[pos]).len(),
            ({
                let ch = t.children(pre.slots@[pos]);
                let x = pre.entries@[pos].base + ch[kk].0;
                let c = ch[kk].1 as int;
                let tid = t.token_ids@[c];
                &&& self.used@ == pre.used@.update(x, true)
                &&& self.entries@ == pre.entries@.update(
                    x,
                    DartsEntry {
                        base: 0,
                        check: pos as u32,
                        token: tid,
                        lp: if tid != NONE_ID { t.log_probs@[tid as int] } else { 0 },
                    },
                )
                &&& self.queue@ == pre.queue@.push((c as usize, x as usize))
                &&& self.slots@ == pre.slots@.insert(x, c)
                &&& self.placed@ == pre.placed@.insert(c)
            }),
            self.cap == pre.cap,
            self.head == pre.head,
            self.done == pre.done,
            self.maxpos == pre.maxpos,
        ensures
            self.inv(t, Some((pos, kk + 1))),
            self.cur_bounds(t, pos, cs, ce, pre.entries@[pos].base as int),
    {
        let d = self.entries@;
        let d0 = pre.entries@;
        let sl0 = pre.slots@;
        let sl = self.slots@;
        let q = self.queue@;
        let q0 = pre.queue@;
        let v = sl0[pos];
        let ch = t.children(v);
        let b = d0[pos].base as int;
        let x = b + ch[kk].0;
        let c = ch[kk].1 as int;
        let n = t.num_nodes as int;
        assert(t.children_ok(v));
        assert(child_free(d0, pre.used@, sl0, pre.placed@, pre.cap as int, ch, pos, kk));
        assert(x <= pre.maxpos@);
        assert(x != pos);
        assert(d[pos] == d0[pos]);
        assert(sl[pos] == v);
        assert forall|x2: int| x2 != x implies #[trigger] sl.contains_key(x2) == sl0.contains_key(x2) by {}
        assert forall|x2: int| #[trigger] sl0.contains_key(x2) implies sl.contains_key(x2) && sl[x2] == sl0[x2] && d[x2] == d0[x2] by {}
        assert(self.placed@.len() == pre.placed@.len() + 1);
        assert forall|j: int| 0 <= j < q.len() implies sl.contains_key(#[trigger] q[j].1 as int) && sl[q[j].1 as int]
            == q[j].0 && q[j].0 < n by {
            if j < q0.len() {
                assert(q[j] == q0[j]);
                assert(sl0.contains_key(q0[j].1 as int));
            }
        }
        assert forall|j1: int, j2: int| 0 <= j1 < j2 < q.len() implies #[trigger] q[j1].1 != #[trigger] q[j2].1 by {
            assert(q[j1] == q0[j1]);
            assert(sl0.contains_key(q0[j1].1 as int));
            if j2 < q0.len() {
                assert(q[j2] == q0[j2]);
            }
        }
        assert forall|x2: int| #[trigger] sl.contains_key(x2) implies exists|j: int| 0 <= j < q.len() && q[j].1 == x2 by {
            if x2 == x {
                assert(q[q0.len() as int].1 == x2);
            } else {
                let j = choose|j: int| 0 <= j < q0.len() && q0[j].1 == x2;
                assert(q[j] == q0[j]);
            }
        }
        assert forall|j: int| 0 <= j < self.head implies self.done@.contains(#[trigger] q[j].1 as int) by {
            assert(q[j] == q0[j]);
        }
        assert forall|j: int| self.head <= j < q.len() implies !self.done@.contains(#[trigger] q[j].1 as int) by {
            if j < q0.len() {
                assert(q[j] == q0[j]);
            }
        }
        assert forall|x2: int| 0 <= x2 < self.cap && #[trigger] self.used@[x2] implies sl.contains_key(x2) by {
            if x2 != x {
                assert(pre.used@[x2]);
            }
        }
        assert forall|x2: int| 0 <= x2 < self.cap && !#[trigger] sl.contains_key(x2) implies d[x2] == empty_entry() by {
            assert(!sl0.contains_key(x2));
        }
        assert(t.paths@[c] == t.paths@[v].push(ch[kk].0));
        assert(built_link(d, sl, self.done@, t.paths@, x));
        assert forall|x2: int| #[trigger] sl.contains_key(x2) && x2 != 0 implies built_link(d, sl, self.done@, t.paths@, x2) by {
            if x2 != x {
                assert(built_link(d0, sl0, pre.done@, t.paths@, x2));
                let p2 = d0[x2].check as int;
                assert(sl0.contains_key(p2));
            }
        }
        assert forall|p: int, k: int|
            self.done@.contains(p) && 0 <= k < t.children(sl[p]).len() && !(p == pos && k >= kk + 1) implies #[trigger] child_at_base(d, sl, self.cap as int, t.children(sl[p]), p, k) by {
            assert(sl0.contains_key(p));
            if !(p == pos && k == kk) {
                assert(child_at_base(d0, sl0, pre.cap as int, t.children(sl0[p]), p, k));
                let q2 = d0[p].base + t.children(sl0[p])[k].0;
                assert(sl0.contains_key(q2));
            }
        }
        assert forall|x2: int| 0 <= x2 < self.cap implies #[trigger] d[x2].base <= self.maxpos@ + 1 by {
            if x2 != x {
                assert(d0[x2].base <= pre.maxpos@ + 1);
            }
        }
        assert forall|x1: int, x2: int|
            #[trigger] sl.contains_key(x1) && #[trigger] sl.contains_key(x2) && x1 != x2 implies sl[x1] != sl[x2] by {
            if x1 == x {
                assert(pre.placed@.contains(sl0[x2]));
            } else if x2 == x {
                assert(pre.placed@.contains(sl0[x1]));
            }
        }
        assert forall|y: int| #[trigger] self.placed@.contains(y) implies exists|z: int| sl.contains_key(z) && sl[z] == y by {
            if y != c {
                let z = choose|z: int| sl0.contains_key(z) && sl0[z] == y;
                assert(sl.contains_key(z) && sl[z] == y);
            } else {
                assert(sl.contains_key(x) && sl[x] == y);
            }
        }
        assert forall|k: int| kk + 1 <= k < ch.len() implies #[trigger] child_free(d, self.used@, sl, self.placed@, self.cap as int, ch, pos, k) by {
            assert(child_free(d0, pre.used@, sl0, pre.placed@, pre.cap as int, ch, pos, k));
            assert(ch[kk].0 < ch[k].0);
            assert(t.paths@[ch[k].1 as int] == t.paths@[v].push(ch[k].0));
            if ch[k].1 as int == c {
                assert(t.paths@[c].last() == ch[k].0);
            }
        }
        assert forall|k: int| 0 <= k < ch.len() implies d[pos].base + #[trigger] ch[k].0 <= self.maxpos@ by {}
    }

    /// Once all children of the node at `pos` are placed, the invariant holds
    /// with no node in progress.
    proof fn lemma_node_complete(&self, t: &VocabTrie, pos: int, len: int)
        requires
            self.inv(t, Some((pos, len))),
            self.slots@.contains_key(pos),
            len == t.children(self.slots@[pos]).len(),
        ensures
            self.inv(t, None),
    {
        let sl = self.slots@;
        assert forall|p: int, k: int|
            self.done@.contains(p) && 0 <= k < t.children(sl[p]).len() implies #[trigger] child_at_base(self.entries@, sl, self.cap as int, t.children(sl[p]), p, k) by {
        }
    }

    /// Cuts off the unused tail and hands back the layout with its slot map.
    fn finish(self, t: &VocabTrie) -> (r: (Vec<DartsEntry>, Ghost<Map<int, int>>))
        requires
            self.inv(t, None),
            self.head == self.queue@.len(),
        ensures
            t.layout_of(r.0@, r.1@),
    {
        let mut used_len: usize = self.cap;
        while used_len > 1 && !self.used[used_len - 1]
            invariant
                self.inv(t, None),
                1 <= used_len <= self.cap,
                forall|x: int| used_len <= x < self.cap ==> !self.used@[x],
            decreases used_len,
        {
            used_len = used_len - 1;
        }
        let mut entries = self.entries;
        entries.truncate(used_len);
        let slots = self.slots;
        proof {
            let d = entries@;
            let sl = slots@;
            let d0 = self.entries@;
            let q = self.queue@;
            assert(self.used@[0]);
            assert(sl.contains_key(used_len - 1));
            assert forall|x: int| #[trigger] sl.contains_key(x) implies x < used_len by {
                assert(self.used@[x]);
            }
            assert forall|x: int| 0 <= x < d.len() implies d[x] == d0[x] by {}
            assert forall|x: int| #[trigger] sl.contains_key(x) implies self.done@.contains(x) by {
                let j = choose|j: int| 0 <= j < q.len() && q[j].1 == x;
                assert(self.done@.contains(q[j].1 as int));
            }
            assert forall|x: int| 0 <= x < d.len() implies #[trigger] d[x].base <= DARTS_MAX by {
                assert(d0[x].base <= self.maxpos@ + 1);
            }
            assert forall|x: int| #[trigger] sl.contains_key(x) && x != 0 implies t.slot_linked(d, sl, x) by {
                assert(built_link(d0, sl, self.done@, t.paths@, x));
            }
            assert forall|p: int, k: int|
                #[trigger] sl.contains_key(p) && 0 <= k < t.children(sl[p]).len() implies #[trigger] t.child_placed(d, sl, p, k) by {
                assert(child_at_base(d0, sl, self.cap as int, t.children(sl[p]), p, k));
            }
        }
        (entries, slots)
    }
}

/// While building the DARTS layout: the `k`-th child of the node at position
/// `p` still has a free position and no position of its own.
spec fn child_free(
    d: Seq<DartsEntry>,
    u: Seq<bool>,
    sl: Map<int, int>,
    placed: Set<int>,
    cap: int,
    ch: Seq<(u8, u32)>,
    p: int,
    k: int,
) -> bool {
    let x = d[p].base + ch[k].0;
    &&& x < cap
    &&& !u[x]
    &&& !sl.contains_key(x)
    &&& !placed.contains(ch[k].1 as int)
}

/// A token id as returned by lookups.
pub open spec fn opt_u32(o: Option<nat>) -> Option<u32> {
    match o {
        Some(i) => Some(i as u32),
        None => None,
    }
}

/// Position of `byte` in the strictly sorted range `bytes[lo..hi]`, if present.
fn search_bytes(bytes: &Vec<u8>, lo: usize, hi: usize, byte: u8) -> (r: Option<usize>)
    requires
        lo <= hi <= bytes@.len(),
        forall|i: int, j: int| lo <= i < j < hi ==> bytes@[i] < bytes@[j],
    ensures
        r matches Some(i) ==> lo <= i < hi && bytes@[i as int] == byte,
        r is None ==> forall|i: int| lo <= i < hi ==> bytes@[i] != byte,
{
    let mut a: usize = lo;
    let mut b: usize = hi;
    while a < b
        invariant
            lo <= a <= b <= hi <= bytes@.len(),
            forall|i: int, j: int| lo <= i < j < hi ==> bytes@[i] < bytes@[j],
            forall|i: int| lo <= i < a ==> bytes@[i] < byte,
            forall|i: int| b <= i < hi ==> bytes@[i] > byte,
        decreases b - a,
    {
        let mid = a + (b - a) / 2;
        let m = bytes[mid];
        if m == byte {
            return Some(mid);
        } else if m < byte {
            a = mid + 1;
        } else {
            b = mid;
        }
    }
    None
}

/// Position of `byte` among the strictly sorted pairs `ch`, or the position at
/// which it would be inserted.
fn search_pairs(ch: &Vec<(u8, u32)>, byte: u8) -> (r: Result<usize, usize>)
    requires
        forall|i: int, j: int| 0 <= i < j < ch@.len() ==> ch@[i].0 < ch@[j].0,
    ensures
        r matches Ok(i) ==> i < ch@.len() && ch@[i as int].0 == byte,
        r matches Err(k) ==> k <= ch@.len() && (forall|i: int| 0 <= i < k ==> ch@[i].0 < byte) && (
        forall|i: int| k <= i < ch@.len() ==> ch@[i].0 > byte),
{
    let mut lo: usize = 0;
    let mut hi: usize = ch.len();
    while lo < hi
        invariant
            lo <= hi <= ch@.len(),
            forall|i: int, j: int| 0 <= i < j < ch@.len() ==> ch@[i].0 < ch@[j].0,
            forall|i: int| 0 <= i < lo ==> ch@[i].0 < byte,
            forall|i: int| hi <= i < ch@.len() ==> ch@[i].0 > byte,
        decreases hi - lo,
    {
        let mid = lo + (hi - lo) / 2;
        let b = ch[mid].0;
        if b == byte {
            return Ok(mid);
        } else if b < byte {
            lo = mid + 1;
        } else {
            hi = mid;
        }
    }
    Err(lo)
}

impl Default for VocabTrie {
    fn default() -> (r: Self)
        ensures
            r.wf(),
            !r.is_finalized(),
            r.tokens() == Seq::<Seq<u8>>::empty(),
            r.lps() == Seq::<u32>::empty(),
            r.size() == 0,
            r.node_count() == 1,
            r.prefix_paths(),
    {
        Self::new()
    }
}

} // verus!
