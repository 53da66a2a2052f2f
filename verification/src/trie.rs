//! The prefix trie: nodes in an arena, edges labelled by token keys.

use crate::edges::{edges, edges_get, edges_insert, edges_new};
use crate::keys::{path_of, TokenKey};
use crate::vocabulary::{has_prefix, no_keywords, Keywords, Path};
use fxhash::FxHashMap;
use vstd::prelude::*;
use vstd::set_lib::{lemma_int_range, lemma_len_subset, set_int_range};

verus! {

/// One trie position.
struct Node {
    /// The replacement text of the keyword that ends here, if one does.
    clean_word: Option<String>,
    /// The edges to the children, by token key.
    children: FxHashMap<String, usize>,
}

/// A rooted tree of [`Node`]s, stored in a vector with the root at index 0.
///
/// The tree shape is an invariant: every node but the root hangs on exactly
/// one edge, and the keys along the way from the root to a node are that
/// node's path. A trie without keywords may do without nodes: the root comes
/// with the first keyword.
pub(crate) struct Trie {
    nodes: Vec<Node>,
    /// The number of nodes that carry a replacement text.
    len: usize,
    /// The path of each node.
    paths: Ghost<Seq<Path>>,
    /// The node of each path.
    index: Ghost<Map<Path, int>>,
    /// The vocabulary that the nodes spell.
    keywords: Ghost<Keywords>,
}

/// The indices of the nodes that end a keyword.
spec fn terminals(nodes: Seq<Node>) -> Set<int> {
    Set::new(|i: int| 0 < i < nodes.len() && nodes[i].clean_word is Some)
}

impl View for Trie {
    type V = Keywords;

    closed spec fn view(&self) -> Keywords {
        self.keywords@
    }
}

impl Trie {
    /// The number of nodes, the root included.
    pub(crate) closed spec fn node_count(&self) -> nat {
        self.nodes@.len()
    }

    /// The keys on the way from the root to node `i`. The way to the root is
    /// empty, whether the root is there yet or not.
    pub(crate) closed spec fn path(&self, i: int) -> Path {
        if 0 <= i < self.paths@.len() {
            self.paths@[i]
        } else {
            Seq::empty()
        }
    }

    /// Node `c` hangs on an edge of the node whose path is one key shorter,
    /// and that edge carries the last key of its path.
    spec fn hangs(&self, c: int) -> bool {
        &&& self.paths@[c].len() > 0
        &&& self.index@.dom().contains(self.paths@[c].drop_last())
        &&& edges(self.nodes@[self.index@[self.paths@[c].drop_last()]].children).contains_key(
            self.paths@[c].last(),
        )
    }

    /// The tree is well formed, except that the nodes along `pending` need
    /// not lead to a keyword yet.
    spec fn wf_toward(&self, pending: Path) -> bool {
        let n = self.nodes@.len();
        &&& self.paths@.len() == n
        &&& n >= 1 ==> self.paths@[0] == Seq::<Seq<char>>::empty()
        &&& n >= 1 ==> self.nodes@[0].clean_word is None
        &&& forall|i: int|
            0 <= i < n ==> self.index@.dom().contains(#[trigger] self.paths@[i])
                && self.index@[self.paths@[i]] == i
        &&& forall|p: Path| #[trigger]
            self.index@.dom().contains(p) ==> 0 <= self.index@[p] < n && self.paths@[self.index@[p]]
                == p
        &&& forall|i: int, k: Seq<char>|
            0 <= i < n && #[trigger] edges(self.nodes@[i].children).contains_key(k) ==> {
                &&& self.index@.dom().contains(self.paths@[i].push(k))
                &&& edges(self.nodes@[i].children)[k] == self.index@[self.paths@[i].push(k)]
            }
        &&& forall|c: int| 0 < c < n ==> #[trigger] self.hangs(c)
        &&& forall|i: int|
            0 <= i < n && (#[trigger] self.nodes@[i]).clean_word is Some ==> {
                &&& self.keywords@.dom().contains(self.paths@[i])
                &&& self.keywords@[self.paths@[i]] == self.nodes@[i].clean_word->0@
            }
        &&& forall|p: Path| #[trigger]
            self.keywords@.dom().contains(p) ==> self.index@.dom().contains(p)
                && self.nodes@[self.index@[p]].clean_word is Some
        &&& forall|c: int|
            0 < c < n ==> has_prefix(self.keywords@, #[trigger] self.paths@[c])
                || self.paths@[c].is_prefix_of(pending)
        &&& self.keywords@.dom().finite()
        &&& self.len == self.keywords@.dom().len()
        &&& self.len == terminals(self.nodes@).len()
    }

    /// The tree is well formed: its nodes are exactly the non-empty prefixes
    /// of the registered keywords, besides the root.
    pub(crate) closed spec fn wf(&self) -> bool {
        self.wf_toward(Seq::empty())
    }

    /// A trie without keywords. It holds no node and takes no memory.
    pub(crate) fn new() -> (trie: Trie)
        ensures
            trie.wf(),
            trie@ == no_keywords(),
    {
        let trie = Trie {
            nodes: Vec::new(),
            len: 0,
            paths: Ghost(Seq::empty()),
            index: Ghost(Map::empty()),
            keywords: Ghost(Map::empty()),
        };
        proof {
            assert(terminals(trie.nodes@) =~= Set::<int>::empty());
        }
        trie
    }

    /// Gives a trie without nodes its root.
    fn plant(&mut self)
        requires
            old(self).wf(),
            old(self).node_count() == 0,
        ensures
            final(self).wf(),
            final(self).node_count() == 1,
            final(self)@ == old(self)@,
    {
        let ghost before = *self;
        self.nodes.push(Node { clean_word: None, children: edges_new() });
        self.paths = Ghost(self.paths@.push(Seq::empty()));
        self.index = Ghost(self.index@.insert(Seq::empty(), 0));
        proof {
            assert(terminals(self.nodes@) =~= terminals(before.nodes@));
            assert forall|p: Path| #[trigger] self.keywords@.dom().contains(p) implies {
                &&& self.index@.dom().contains(p)
                &&& self.nodes@[self.index@[p]].clean_word is Some
            } by {
                assert(before.index@.dom().contains(p));
            }
        }
    }

    /// Every prefix of a node's path is the path of a node.
    proof fn lemma_prefix_is_node(&self, pending: Path, p: Path, m: int)
        requires
            self.wf_toward(pending),
            self.index@.dom().contains(p),
            0 <= m <= p.len(),
        ensures
            self.index@.dom().contains(p.take(m)),
        decreases p.len() - m,
    {
        if m == p.len() {
            assert(p.take(m) =~= p);
        } else {
            let c = self.index@[p];
            assert(self.paths@[c] == p);
            assert(c != 0);
            assert(self.hangs(c));
            assert(p.drop_last().take(m) =~= p.take(m));
            self.lemma_prefix_is_node(pending, p.drop_last(), m);
        }
    }

    /// The path of the root is empty, and the paths of the other nodes are not.
    pub(crate) proof fn lemma_root(&self)
        requires
            self.wf(),
        ensures
            self.path(0) == Seq::<Seq<char>>::empty(),
            forall|c: int| 0 < c < self.node_count() ==> (#[trigger] self.path(c)).len() > 0,
    {
        assert forall|c: int| 0 < c < self.node_count() implies (#[trigger] self.path(c)).len()
            > 0 by {
            assert(self.hangs(c));
        }
    }

    /// Follows the edge labelled `key` out of `node`. The root is node 0.
    ///
    /// The child, if there is one, has the path of `node` extended by `key`,
    /// and some keyword starts with that path. If there is none, no keyword
    /// does.
    pub(crate) fn child(&self, node: usize, key: &str) -> (child: Option<usize>)
        requires
            self.wf(),
            node == 0 || node < self.node_count(),
        ensures
            match child {
                Some(c) => {
                    &&& 0 < c < self.node_count()
                    &&& self.path(c as int) == self.path(node as int).push(key@)
                    &&& has_prefix(self@, self.path(c as int))
                },
                None => !has_prefix(self@, self.path(node as int).push(key@)),
            },
    {
        if node >= self.nodes.len() {
            proof {
                let ext = self.path(node as int).push(key@);
                if has_prefix(self@, ext) {
                    let k = choose|k: Path| #[trigger]
                        self.keywords@.dom().contains(k) && ext.is_prefix_of(k);
                    assert(self.index@.dom().contains(k));
                }
            }
            return None;
        }
        let child = edges_get(&self.nodes[node].children, key);
        proof {
            let ext = self.paths@[node as int].push(key@);
            match child {
                Some(c) => {
                    assert(edges(self.nodes@[node as int].children).contains_key(key@));
                    assert(self.index@.dom().contains(ext));
                    assert(c != 0) by {
                        assert(self.paths@[c as int] == ext);
                        assert(ext.len() > 0);
                    }
                },
                None => {
                    if has_prefix(self@, ext) {
                        let k = choose|k: Path| #[trigger]
                            self.keywords@.dom().contains(k) && ext.is_prefix_of(k);
                        assert(self.index@.dom().contains(k));
                        self.lemma_prefix_is_node(Seq::empty(), k, ext.len() as int);
                        assert(k.take(ext.len() as int) =~= ext);
                        let c = self.index@[ext];
                        assert(self.paths@[c] == ext);
                        assert(c != 0);
                        assert(self.hangs(c));
                        assert(ext.drop_last() =~= self.paths@[node as int]);
                        assert(ext.last() == key@);
                        assert(false);
                    }
                },
            }
        }
        child
    }

    /// The replacement text of the keyword that ends at `node`, if one does.
    pub(crate) fn clean_word(&self, node: usize) -> (word: Option<&str>)
        requires
            self.wf(),
            node < self.node_count(),
        ensures
            match word {
                Some(w) => self@.dom().contains(self.path(node as int)) && self@[self.path(
                    node as int,
                )] == w@,
                None => !self@.dom().contains(self.path(node as int)),
            },
    {
        match &self.nodes[node].clean_word {
            Some(w) => Some(w.as_str()),
            None => None,
        }
    }

    /// Hangs a new node under `node`, on the edge `key`, which `node` does not
    /// have yet. Returns the index of the new node.
    fn grow(&mut self, node: usize, key: String, Ghost(pending): Ghost<Path>) -> (child: usize)
        requires
            exists|earlier: Path|
                old(self).wf_toward(earlier) && #[trigger] earlier.is_prefix_of(pending),
            node < old(self).node_count(),
            !edges(old(self).nodes@[node as int].children).contains_key(key@),
            old(self).path(node as int).push(key@).is_prefix_of(pending),
        ensures
            final(self).wf_toward(pending),
            final(self)@ == old(self)@,
            child == old(self).node_count(),
            final(self).node_count() == old(self).node_count() + 1,
            final(self).path(child as int) == old(self).path(node as int).push(key@),
    {
        let ghost earlier = choose|earlier: Path|
            old(self).wf_toward(earlier) && #[trigger] earlier.is_prefix_of(pending);
        let ghost before = *self;
        let ghost ext = self.paths@[node as int].push(key@);
        let child = self.nodes.len();
        proof {
            if self.index@.dom().contains(ext) {
                let c = self.index@[ext];
                assert(self.paths@[c] == ext);
                assert(c != 0);
                assert(self.hangs(c));
                assert(ext.drop_last() =~= self.paths@[node as int]);
                assert(ext.last() == key@);
                assert(false);
            }
        }
        self.nodes.push(Node { clean_word: None, children: edges_new() });
        edges_insert(&mut self.nodes[node].children, key, child);
        self.paths = Ghost(self.paths@.push(ext));
        self.index = Ghost(self.index@.insert(ext, child as int));
        proof {
            let n = self.nodes@.len();
            assert(terminals(self.nodes@) =~= terminals(before.nodes@));
            assert forall|i: int| 0 <= i < n implies self.index@.dom().contains(
                #[trigger] self.paths@[i],
            ) && self.index@[self.paths@[i]] == i by {
                if i < n - 1 {
                    assert(self.paths@[i] == before.paths@[i]);
                }
            }
            assert forall|i: int, k: Seq<char>|
                0 <= i < n && #[trigger] edges(self.nodes@[i].children).contains_key(k) implies {
                &&& self.index@.dom().contains(self.paths@[i].push(k))
                &&& edges(self.nodes@[i].children)[k] == self.index@[self.paths@[i].push(k)]
            } by {
                if i == node && k == key@ {
                } else {
                    assert(i < n - 1);
                    assert(edges(before.nodes@[i].children).contains_key(k));
                    assert(self.paths@[i] == before.paths@[i]);
                }
            }
            assert forall|c: int| 0 < c < n implies #[trigger] self.hangs(c) by {
                if c == n - 1 {
                    assert(ext.drop_last() =~= before.paths@[node as int]);
                } else {
                    assert(before.hangs(c));
                    assert(self.paths@[c] == before.paths@[c]);
                    let parent = before.index@[before.paths@[c].drop_last()];
                    assert(edges(before.nodes@[parent].children).contains_key(
                        before.paths@[c].last(),
                    ));
                }
            }
            assert forall|i: int|
                0 <= i < n && (#[trigger] self.nodes@[i]).clean_word is Some implies {
                &&& self.keywords@.dom().contains(self.paths@[i])
                &&& self.keywords@[self.paths@[i]] == self.nodes@[i].clean_word->0@
            } by {
                assert(before.nodes@[i].clean_word is Some);
                assert(self.paths@[i] == before.paths@[i]);
            }
            assert forall|p: Path| #[trigger] self.keywords@.dom().contains(p) implies {
                &&& self.index@.dom().contains(p)
                &&& self.nodes@[self.index@[p]].clean_word is Some
            } by {
                assert(before.index@.dom().contains(p));
                assert(before.nodes@[before.index@[p]].clean_word is Some);
            }
            assert forall|c: int| 0 < c < n implies has_prefix(
                self.keywords@,
                #[trigger] self.paths@[c],
            ) || self.paths@[c].is_prefix_of(pending) by {
                if c < n - 1 {
                    assert(self.paths@[c] == before.paths@[c]);
                    if before.paths@[c].is_prefix_of(earlier) {
                        assert(before.paths@[c].is_prefix_of(pending));
                    }
                }
            }
        }
        child
    }

    /// Registers the path of `node` as a keyword with the replacement
    /// `clean_word`, or replaces the text that it had.
    fn mark(&mut self, node: usize, clean_word: String, Ghost(pending): Ghost<Path>)
        requires
            old(self).wf_toward(pending),
            0 < node < old(self).node_count(),
            old(self).path(node as int) == pending,
        ensures
            final(self).wf(),
            final(self)@ == old(self)@.insert(pending, clean_word@),
    {
        let ghost before = *self;
        let n = self.nodes.len();
        let fresh = self.nodes[node].clean_word.is_none();
        proof {
            lemma_int_range(1, n as int);
            if fresh {
                let ends = terminals(self.nodes@);
                lemma_len_subset(ends, set_int_range(1, n as int));
                assert(!ends.contains(node as int));
                assert(ends.insert(node as int).subset_of(set_int_range(1, n as int)));
                lemma_len_subset(ends.insert(node as int), set_int_range(1, n as int));
                assert(ends.insert(node as int).len() == ends.len() + 1);
                assert(self.len + 1 <= n - 1);
                if self.keywords@.dom().contains(pending) {
                    assert(self.index@[pending] == node);
                }
            }
        }
        self.keywords = Ghost(self.keywords@.insert(pending, clean_word@));
        self.nodes[node].clean_word = Some(clean_word);
        if fresh {
            self.len = self.len + 1;
        }
        proof {
            assert(self.paths@ == before.paths@);
            assert(self.index@ == before.index@);
            if fresh {
                assert(terminals(self.nodes@) =~= terminals(before.nodes@).insert(node as int));
            } else {
                assert(terminals(self.nodes@) =~= terminals(before.nodes@));
                assert(before.keywords@.dom().contains(pending));
                assert(self.keywords@.dom() =~= before.keywords@.dom());
            }
            assert forall|i: int, k: Seq<char>|
                0 <= i < n && #[trigger] edges(self.nodes@[i].children).contains_key(k) implies {
                &&& self.index@.dom().contains(self.paths@[i].push(k))
                &&& edges(self.nodes@[i].children)[k] == self.index@[self.paths@[i].push(k)]
            } by {
                assert(edges(before.nodes@[i].children).contains_key(k));
            }
            assert forall|c: int| 0 < c < n implies #[trigger] self.hangs(c) by {
                assert(before.hangs(c));
                let parent = before.index@[before.paths@[c].drop_last()];
                assert(edges(before.nodes@[parent].children).contains_key(
                    before.paths@[c].last(),
                ));
            }
            assert forall|i: int|
                0 <= i < n && (#[trigger] self.nodes@[i]).clean_word is Some implies {
                &&& self.keywords@.dom().contains(self.paths@[i])
                &&& self.keywords@[self.paths@[i]] == self.nodes@[i].clean_word->0@
            } by {
                if i != node {
                    assert(before.nodes@[i].clean_word is Some);
                    assert(self.paths@[i] != pending);
                }
            }
            assert forall|p: Path| #[trigger] self.keywords@.dom().contains(p) implies {
                &&& self.index@.dom().contains(p)
                &&& self.nodes@[self.index@[p]].clean_word is Some
            } by {
                if p != pending {
                    assert(before.keywords@.dom().contains(p));
                    assert(before.nodes@[before.index@[p]].clean_word is Some);
                }
            }
            assert forall|c: int| 0 < c < n implies has_prefix(
                self.keywords@,
                #[trigger] self.paths@[c],
            ) by {
                if has_prefix(before.keywords@, before.paths@[c]) {
                    let k = choose|k: Path| #[trigger]
                        before.keywords@.dom().contains(k) && before.paths@[c].is_prefix_of(k);
                    assert(self.keywords@.dom().contains(k));
                } else {
                    assert(self.keywords@.dom().contains(pending));
                }
            }
        }
    }

    /// Registers the keyword spelled by `keys` with the replacement
    /// `clean_word`. A keyword that was there keeps its place and gets the
    /// new replacement.
    pub(crate) fn insert(&mut self, keys: &Vec<TokenKey>, clean_word: String)
        requires
            old(self).wf(),
            keys@.len() > 0,
        ensures
            final(self).wf(),
            final(self)@ == old(self)@.insert(path_of(keys@), clean_word@),
    {
        let ghost target = path_of(keys@);
        if self.nodes.len() == 0 {
            self.plant();
        }
        let mut node: usize = 0;
        let mut i: usize = 0;
        proof {
            assert(target.take(0) =~= Seq::<Seq<char>>::empty());
        }
        while i < keys.len()
            invariant
                i <= keys.len(),
                target == path_of(keys@),
                self.wf_toward(target.take(i as int)),
                node < self.nodes@.len(),
                self.paths@[node as int] == target.take(i as int),
                self@ == old(self)@,
            decreases keys.len() - i,
        {
            let key = &keys[i];
            let ghost step = target.take(i as int + 1);
            proof {
                assert(target.take(i as int).push(key@) =~= step);
                assert(target.take(i as int).is_prefix_of(step));
            }
            let found = edges_get(&self.nodes[node].children, key.as_str());
            node =
            match found {
                Some(c) => {
                    proof {
                        self.lemma_weaken(target.take(i as int), step);
                    }
                    c
                },
                None => self.grow(node, key.as_str().to_owned(), Ghost(step)),
            };
            i = i + 1;
        }
        proof {
            assert(target.take(i as int) =~= target);
            assert(node != 0);
        }
        self.mark(node, clean_word, Ghost(target));
    }

    /// What holds with fewer pending nodes holds with more.
    proof fn lemma_weaken(&self, earlier: Path, pending: Path)
        requires
            self.wf_toward(earlier),
            earlier.is_prefix_of(pending),
        ensures
            self.wf_toward(pending),
    {
        assert forall|c: int| 0 < c < self.nodes@.len() implies has_prefix(
            self.keywords@,
            #[trigger] self.paths@[c],
        ) || self.paths@[c].is_prefix_of(pending) by {
            if self.paths@[c].is_prefix_of(earlier) {
                assert(self.paths@[c].is_prefix_of(pending));
            }
        }
    }

    /// The number of registered keywords.
    pub(crate) fn len(&self) -> (len: usize)
        requires
            self.wf(),
        ensures
            len == self@.dom().len(),
            self@.dom().finite(),
    {
        self.len
    }
}

} // verus!
