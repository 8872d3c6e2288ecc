//! The transition graph: the word interner, the per-word edge tables, the
//! starter-word set, and training on raw text.

use crate::node::{edge_weight, Node, NodeModel};
use crate::outside::{
    random_below, starter_set_contains, starter_set_get_index, starter_set_insert, starter_set_len,
    starter_set_new, starter_seq, word_set_get_index, word_set_index_of, word_set_insert_full,
    word_set_len, word_set_new, word_seq,
};
use crate::iter::ChainIterator;
use crate::spec_is_sentence_end;
use crate::text::{spec_tokens, tokenize, views_of};
use indexmap::IndexSet;
use vstd::prelude::*;
use vstd::seq_lib::*;

verus! {

/// Mathematical model of a [`Chain`]: the interned words in assignment order,
/// one node model per word, and the starter indices in first-observation
/// order.
pub struct ChainModel {
    pub words: Seq<Seq<char>>,
    pub nodes: Seq<NodeModel>,
    pub starters: Seq<usize>,
}

/// The index the interner assigned to `w` (meaningful only when `words`
/// contains `w`; unique because interned words are distinct).
pub open spec fn word_index(words: Seq<Seq<char>>, w: Seq<char>) -> usize {
    choose|i: usize| 0 <= i < words.len() && words[i as int] == w
}

/// Total observed transition count over all nodes.
pub open spec fn mass(nodes: Seq<NodeModel>) -> int
    decreases nodes.len(),
{
    if nodes.len() == 0 {
        0
    } else {
        nodes[0].total + mass(nodes.drop_first())
    }
}

impl ChainModel {
    /// The model of a freshly created chain: no words, no nodes, no starters.
    pub open spec fn empty() -> ChainModel {
        ChainModel { words: Seq::empty(), nodes: Seq::empty(), starters: Seq::empty() }
    }

    /// Well-formedness: words are distinct and indexed in parallel with the
    /// nodes, every node is well-formed with targets inside the table, and
    /// starter indices are distinct valid indices.
    pub open spec fn wf(self) -> bool {
        &&& self.words.len() <= usize::MAX
        &&& self.nodes.len() == self.words.len()
        &&& forall|i: int, j: int|
            0 <= i < j < self.words.len() ==> self.words[i] != self.words[j]
        &&& forall|i: int| 0 <= i < self.nodes.len() ==> (#[trigger] self.nodes[i]).wf()
        &&& forall|i: int|
            0 <= i < self.nodes.len() ==> (#[trigger] self.nodes[i]).targets_below(
                self.words.len() as int,
            )
        &&& forall|k: int, l: int|
            0 <= k < l < self.starters.len() ==> self.starters[k] != self.starters[l]
        &&& forall|k: int|
            0 <= k < self.starters.len() ==> (#[trigger] self.starters[k]) < self.words.len()
    }
}

/// Resolve `w` to its index, interning it (with a fresh empty node) when it is
/// new.
pub open spec fn intern(m: ChainModel, w: Seq<char>) -> (ChainModel, usize) {
    if m.words.contains(w) {
        (m, word_index(m.words, w))
    } else {
        (
            ChainModel {
                words: m.words.push(w),
                nodes: m.nodes.push(NodeModel::empty()),
                starters: m.starters,
            },
            m.words.len() as usize,
        )
    }
}

/// Add `idx` to the starter set unless it is already there.
pub open spec fn add_starter(m: ChainModel, idx: usize) -> ChainModel {
    if m.starters.contains(idx) {
        m
    } else {
        ChainModel { words: m.words, nodes: m.nodes, starters: m.starters.push(idx) }
    }
}

/// Raise the terminator flag of the node at `idx`.
pub open spec fn set_end(m: ChainModel, idx: usize) -> ChainModel {
    ChainModel {
        words: m.words,
        nodes: m.nodes.update(idx as int, m.nodes[idx as int].with_end()),
        starters: m.starters,
    }
}

/// Count one more observed transition from `cur` to `nxt`.
pub open spec fn bump_edge(m: ChainModel, cur: usize, nxt: usize) -> ChainModel {
    ChainModel {
        words: m.words,
        nodes: m.nodes.update(cur as int, m.nodes[cur as int].bumped(nxt, 1)),
        starters: m.starters,
    }
}

/// Train on one adjacent pair `(cur, nxt)`: intern `nxt` (recording it as a
/// starter when `cur` ends a sentence), intern `cur` (raising its terminator
/// flag when it ends a sentence), and count the transition.
pub open spec fn feed_step(m: ChainModel, cur: Seq<char>, nxt: Seq<char>) -> ChainModel {
    let is_end = spec_is_sentence_end(cur);
    let (m1, nxt_idx) = intern(m, nxt);
    let m2 = if is_end {
        add_starter(m1, nxt_idx)
    } else {
        m1
    };
    let (m3, cur_idx) = intern(m2, cur);
    let m4 = if is_end {
        set_end(m3, cur_idx)
    } else {
        m3
    };
    bump_edge(m4, cur_idx, nxt_idx)
}

/// Train on every adjacent pair of `toks`, left to right; fewer than two
/// tokens change nothing.
pub open spec fn feed_model(m: ChainModel, toks: Seq<Seq<char>>) -> ChainModel
    decreases toks.len(),
{
    if toks.len() < 2 {
        m
    } else {
        feed_model(feed_step(m, toks[0], toks[1]), toks.drop_first())
    }
}

/// The index of `w`, or `None` when `w` was never observed.
pub open spec fn spec_index_of(m: ChainModel, w: Seq<char>) -> Option<usize> {
    if m.words.contains(w) {
        Some(word_index(m.words, w))
    } else {
        None
    }
}

/// The weight of the edge from `a` to `b`: `None` when either word was never
/// observed or no transition between them was ever counted.
pub open spec fn spec_weight_between(m: ChainModel, a: Seq<char>, b: Seq<char>) -> Option<usize> {
    if m.words.contains(a) && m.words.contains(b) {
        edge_weight(
            m.nodes[word_index(m.words, a) as int].edges,
            word_index(m.words, b),
        )
    } else {
        None
    }
}

/// Whether `w` is eligible to start a generated sentence.
pub open spec fn spec_is_starter_word(m: ChainModel, w: Seq<char>) -> bool {
    m.words.contains(w) && m.starters.contains(word_index(m.words, w))
}

/// The weighted transition graph: interned words, one [`Node`] per word, and
/// the set of word indices that may start a sentence.
#[derive(Debug)]
pub struct Chain {
    words: IndexSet<String>,
    nodes: Vec<Node>,
    starter_words: IndexSet<usize>,
}

impl View for Chain {
    type V = ChainModel;

    closed spec fn view(&self) -> ChainModel {
        ChainModel {
            words: word_seq(self.words),
            nodes: self.nodes@.map_values(|n: Node| n@),
            starters: starter_seq(self.starter_words),
        }
    }
}

impl Default for Chain {
    /// An empty chain: no words, no edges, no starters.
    fn default() -> (r: Chain)
        ensures
            r@ == ChainModel::empty(),
            r.wf(),
    {
        let r = Chain { words: word_set_new(), nodes: Vec::new(), starter_words: starter_set_new() };
        proof {
            assert(r@.nodes =~= Seq::<NodeModel>::empty());
            assert(r@ == ChainModel::empty());
        }
        r
    }
}

impl Chain {
    /// Well-formedness of the underlying model.
    pub open spec fn wf(self) -> bool {
        self@.wf()
    }

    /// How many distinct words have been interned.
    pub fn word_count(&self) -> (r: usize)
        ensures
            r == self@.words.len(),
    {
        word_set_len(&self.words)
    }

    /// How many distinct words are eligible sentence starters.
    pub fn starter_count(&self) -> (r: usize)
        ensures
            r == self@.starters.len(),
    {
        starter_set_len(&self.starter_words)
    }

    /// The starter index at position `k` of the starter list, if any.
    pub fn starter_at(&self, k: usize) -> (r: Option<usize>)
        ensures
            match r {
                Some(v) => k < self@.starters.len() && v == self@.starters[k as int],
                None => k >= self@.starters.len(),
            },
    {
        starter_set_get_index(&self.starter_words, k)
    }

    /// The word interned at `idx`, if any.
    pub fn word_at(&self, idx: usize) -> (r: Option<String>)
        ensures
            match r {
                Some(w) => idx < self@.words.len() && w@ == self@.words[idx as int],
                None => idx >= self@.words.len(),
            },
    {
        word_set_get_index(&self.words, idx)
    }

    /// The node of the word interned at `idx`, if any.
    pub fn node_at(&self, idx: usize) -> (r: Option<&Node>)
        requires
            self.wf(),
        ensures
            match r {
                Some(n) => idx < self@.nodes.len() && n@ == self@.nodes[idx as int],
                None => idx >= self@.nodes.len(),
            },
    {
        if idx < self.nodes.len() {
            let n = &self.nodes[idx];
            proof {
                assert(self@.nodes[idx as int] == self.nodes@.map_values(|n: Node| n@)[idx as int]);
            }
            Some(n)
        } else {
            None
        }
    }

    /// The stable index assigned to `word`, or `None` when it was never
    /// observed.
    pub fn index_of(&self, word: &str) -> (r: Option<usize>)
        requires
            self.wf(),
        ensures
            r == spec_index_of(self@, word@),
            r matches Some(i) ==> i < self@.words.len(),
    {
        let r = word_set_index_of(&self.words, word);
        proof {
            if let Some(i) = r {
                lemma_word_index_unique(self@, word@, i);
            }
        }
        r
    }

    /// Whether the word interned at `idx` has been observed to follow a
    /// terminator.
    pub fn is_starter_index(&self, idx: usize) -> (r: bool)
        ensures
            r == self@.starters.contains(idx),
    {
        starter_set_contains(&self.starter_words, idx)
    }

    /// Whether `word` is eligible to start a generated sentence.
    pub fn is_starter_word(&self, word: &str) -> (r: bool)
        requires
            self.wf(),
        ensures
            r == spec_is_starter_word(self@, word@),
    {
        match self.index_of(word) {
            Some(i) => self.is_starter_index(i),
            None => false,
        }
    }

    /// The observed transition count from `first` to `second`, or `None` when
    /// either word is unknown or no such transition was observed.
    pub fn weight_between(&self, first: &str, second: &str) -> (r: Option<usize>)
        requires
            self.wf(),
        ensures
            r == spec_weight_between(self@, first@, second@),
    {
        let fi = self.index_of(first);
        let si = self.index_of(second);
        match (fi, si) {
            (Some(a), Some(b)) => {
                proof {
                    assert(self@.nodes[a as int] == self.nodes@.map_values(|n: Node| n@)[a as int]);
                }
                self.nodes[a].weight_of(b)
            },
            _ => None,
        }
    }

    /// Resolve `word` to its index, interning it (with a fresh empty node)
    /// when it is new.
    fn get_or_insert(&mut self, word: &String) -> (r: usize)
        requires
            old(self).wf(),
        ensures
            final(self).wf(),
            final(self)@ == intern(old(self)@, word@).0,
            r == intern(old(self)@, word@).1,
            r < final(self)@.words.len(),
    {
        match word_set_index_of(&self.words, word.as_str()) {
            Some(i) => {
                proof {
                    lemma_word_index_unique(self@, word@, i);
                }
                i
            },
            None => {
                let (idx, fresh) = word_set_insert_full(&mut self.words, word.clone());
                self.nodes.push(Node::default());
                proof {
                    let m0 = old(self)@;
                    assert(!m0.words.contains(word@));
                    assert(fresh);
                    assert(self@.nodes =~= m0.nodes.push(NodeModel::empty()));
                    assert(self@ == intern(m0, word@).0);
                    lemma_intern_wf(m0, word@);
                }
                idx
            },
        }
    }

    /// Record the word at `idx` as a sentence starter.
    fn add_starter_index(&mut self, idx: usize)
        requires
            old(self).wf(),
            idx < old(self)@.words.len(),
        ensures
            final(self).wf(),
            final(self)@ == add_starter(old(self)@, idx),
    {
        let fresh = starter_set_insert(&mut self.starter_words, idx);
        proof {
            let m0 = old(self)@;
            assert(self@.words == m0.words);
            assert(self@.nodes == m0.nodes);
            if fresh {
                let s1 = self@.starters;
                assert(s1 == m0.starters.push(idx));
                assert forall|k: int, l: int| 0 <= k < l < s1.len() implies s1[k] != s1[l] by {
                    if l == s1.len() - 1 {
                        if m0.starters[k] == idx {
                            assert(m0.starters.contains(idx)) by {
                                assert(0 <= k < m0.starters.len() && m0.starters[k] == idx);
                            }
                        }
                    }
                }
            }
        }
    }

    /// Raise the terminator flag of the node at `idx`.
    fn mark_end_index(&mut self, idx: usize)
        requires
            old(self).wf(),
            idx < old(self)@.nodes.len(),
        ensures
            final(self).wf(),
            final(self)@ == set_end(old(self)@, idx),
    {
        proof {
            assert(old(self)@.nodes[idx as int] == old(self).nodes@.map_values(|n: Node| n@)[
                idx as int
            ]);
        }
        let node = &mut self.nodes[idx];
        node.mark_sentence_end();
        proof {
            let m0 = old(self)@;
            assert(self@.nodes =~= m0.nodes.update(idx as int, m0.nodes[idx as int].with_end()));
            assert(self@ == set_end(m0, idx));
            assert forall|i: int| 0 <= i < self@.nodes.len() implies (#[trigger] self@.nodes[i]).wf()
                && self@.nodes[i].targets_below(self@.words.len() as int) by {
                assert(m0.nodes[i].wf());
                assert(m0.nodes[i].targets_below(m0.words.len() as int));
            }
        }
    }

    /// Count one more observed transition from `cur` to `nxt`.
    fn add_edge_index(&mut self, cur: usize, nxt: usize)
        requires
            old(self).wf(),
            cur < old(self)@.nodes.len(),
            nxt < old(self)@.words.len(),
            old(self)@.nodes[cur as int].total < usize::MAX,
        ensures
            final(self).wf(),
            final(self)@ == bump_edge(old(self)@, cur, nxt),
    {
        proof {
            assert(old(self)@.nodes[cur as int] == old(self).nodes@.map_values(|n: Node| n@)[
                cur as int
            ]);
        }
        let node = &mut self.nodes[cur];
        node.add(nxt);
        proof {
            let m0 = old(self)@;
            assert(self@.nodes =~= m0.nodes.update(cur as int, m0.nodes[cur as int].bumped(nxt, 1)));
            assert(self@ == bump_edge(m0, cur, nxt));
            lemma_bumped_targets(m0.nodes[cur as int], nxt, m0.words.len() as int);
            assert forall|i: int| 0 <= i < self@.nodes.len() implies (#[trigger] self@.nodes[i]).wf()
                && self@.nodes[i].targets_below(self@.words.len() as int) by {
                assert(m0.nodes[i].wf());
                assert(m0.nodes[i].targets_below(m0.words.len() as int));
            }
        }
    }

    /// Train on `text`: split it on whitespace and count every adjacent pair
    /// of words, interning new words, recording words that follow a
    /// terminator as starters, and raising terminator flags. Only ever adds:
    /// words, edge weight, starters.
    pub fn feed(&mut self, text: &str)
        requires
            old(self).wf(),
            mass(old(self)@.nodes) + spec_tokens(text@).len() <= usize::MAX,
        ensures
            final(self).wf(),
            final(self)@ == feed_model(old(self)@, spec_tokens(text@)),
    {
        let toks = tokenize(text);
        let ghost tseq = spec_tokens(text@);
        let n = toks.len();
        if n < 2 {
            return ;
        }
        let mut i: usize = 0;
        proof {
            assert(tseq.skip(0) =~= tseq);
        }
        while i < n - 1
            invariant
                self.wf(),
                2 <= n == toks.len(),
                views_of(toks@) == tseq,
                i <= n - 1,
                feed_model(old(self)@, tseq) == feed_model(self@, tseq.skip(i as int)),
                mass(self@.nodes) <= mass(old(self)@.nodes) + i,
                mass(old(self)@.nodes) + tseq.len() <= usize::MAX,
            decreases n - i,
        {
            let ghost m_before = self@;
            let ghost cur_s = tseq[i as int];
            let ghost nxt_s = tseq[i + 1];
            proof {
                assert(cur_s == toks@[i as int]@);
                assert(nxt_s == toks@[i + 1]@);
            }
            let is_end = crate::is_sentence_end(toks[i].as_str());
            let nxt_idx = self.get_or_insert(&toks[i + 1]);
            let ghost m1 = self@;
            if is_end {
                self.add_starter_index(nxt_idx);
            }
            let ghost m2 = self@;
            let cur_idx = self.get_or_insert(&toks[i]);
            let ghost m3 = self@;
            if is_end {
                self.mark_end_index(cur_idx);
            }
            proof {
                lemma_mass_intern(m_before, nxt_s);
                lemma_mass_intern(m2, cur_s);
                lemma_mass_set_end(m3, cur_idx);
                lemma_node_le_mass(self@.nodes, cur_idx as int);
            }
            self.add_edge_index(cur_idx, nxt_idx);
            proof {
                lemma_mass_bump(
                    if is_end {
                        set_end(m3, cur_idx)
                    } else {
                        m3
                    },
                    cur_idx,
                    nxt_idx,
                );
                assert(self@ == feed_step(m_before, cur_s, nxt_s));
                assert(tseq.skip(i as int)[0] == cur_s);
                assert(tseq.skip(i as int)[1] == nxt_s);
                assert(tseq.skip(i as int).drop_first() =~= tseq.skip(i + 1));
            }
            i = i + 1;
        }
        proof {
            assert(tseq.skip(n - 1 as int).len() == 1);
        }
    }
}

/// An index sequence the walk can produce: every step follows an existing
/// edge and only the last word may be a terminator.
pub open spec fn is_walk(m: ChainModel, ws: Seq<usize>) -> bool {
    &&& ws.len() >= 1
    &&& forall|k: int| 0 <= k < ws.len() ==> (#[trigger] ws[k]) < m.words.len()
    &&& forall|k: int|
        0 <= k < ws.len() - 1 ==> edge_weight((#[trigger] m.nodes[ws[k] as int]).edges, ws[k + 1])
            is Some
    &&& forall|k: int|
        0 <= k < ws.len() - 1 ==> !spec_is_sentence_end(m.words[(#[trigger] ws[k]) as int])
}

/// Why a walk stopped: its last word is a terminator, or a dead end (no
/// outgoing edge), or the length cap was hit.
pub open spec fn walk_complete(m: ChainModel, ws: Seq<usize>) -> bool {
    let last = ws[ws.len() - 1];
    ||| spec_is_sentence_end(m.words[last as int])
    ||| m.nodes[last as int].total == 0
    ||| ws.len() >= MAX_GENERATED_WORDS
}

/// The words at a sequence of indices.
pub open spec fn words_at(m: ChainModel, ws: Seq<usize>) -> Seq<Seq<char>> {
    ws.map_values(|k: usize| m.words[k as int])
}

/// The words joined with single spaces.
pub open spec fn join_words(ws: Seq<Seq<char>>) -> Seq<char>
    decreases ws.len(),
{
    if ws.len() == 0 {
        Seq::empty()
    } else if ws.len() == 1 {
        ws[0]
    } else {
        ws[0] + seq![' '] + join_words(ws.drop_first())
    }
}

/// Joining one more word appends a space and the word.
proof fn lemma_join_push(ws: Seq<Seq<char>>, w: Seq<char>)
    ensures
        ws.len() == 0 ==> join_words(ws.push(w)) == w,
        ws.len() > 0 ==> join_words(ws.push(w)) == join_words(ws) + seq![' '] + w,
    decreases ws.len(),
{
    if ws.len() == 0 {
        assert(ws.push(w)[0] == w);
    } else if ws.len() == 1 {
        assert(ws.push(w).drop_first() =~= seq![w]);
        assert(join_words(seq![w]) == w);
        assert(ws.push(w)[0] == ws[0]);
    } else {
        lemma_join_push(ws.drop_first(), w);
        assert(ws.push(w).drop_first() =~= ws.drop_first().push(w));
        assert((ws[0] + seq![' ']) + (join_words(ws.drop_first()) + seq![' '] + w) =~= ((ws[0]
            + seq![' ']) + join_words(ws.drop_first())) + seq![' '] + w);
    }
}

/// The most words one generated sentence may hold; the walk is cut off there
/// so that generation always terminates even on a cyclic graph with no
/// terminator in reach.
pub const MAX_GENERATED_WORDS: usize = 10000;

/// Generation cannot start: no starting word resolved and nothing has ever
/// been observed to start a sentence.
#[derive(Debug, PartialEq, Eq, Structural)]
pub enum GenerateError {
    NoStarters,
}

impl Chain {
    /// Join words with single spaces.
    fn join_with_spaces(words: &Vec<String>) -> (r: String)
        ensures
            r@ == join_words(views_of(words@)),
    {
        let mut r = String::new();
        let mut k: usize = 0;
        proof {
            assert(views_of(words@).take(0) =~= Seq::<Seq<char>>::empty());
        }
        while k < words.len()
            invariant
                k <= words.len(),
                r@ == join_words(views_of(words@).take(k as int)),
            decreases words.len() - k,
        {
            if k > 0 {
                r.append(" ");
            }
            r.append(words[k].as_str());
            proof {
                reveal_strlit(" ");
                assert(" "@ =~= seq![' ']);
                let vs = views_of(words@);
                lemma_join_push(vs.take(k as int), vs[k as int]);
                assert(vs.take(k + 1) =~= vs.take(k as int).push(vs[k as int]));
            }
            k = k + 1;
        }
        proof {
            assert(views_of(words@).take(words@.len() as int) =~= views_of(words@));
        }
        r
    }

    /// A uniformly random starter index.
    fn get_random_starter_word(&self) -> (r: usize)
        requires
            self.wf(),
            self@.starters.len() > 0,
        ensures
            self@.starters.contains(r),
            r < self@.words.len(),
    {
        let n = starter_set_len(&self.starter_words);
        let k = random_below(n);
        match starter_set_get_index(&self.starter_words, k) {
            Some(v) => {
                proof {
                    assert(self@.starters.contains(v)) by {
                        assert(0 <= k < self@.starters.len() && self@.starters[k as int] == v);
                    }
                    assert(self@.starters[k as int] < self@.words.len());
                }
                v
            },
            None => {
                proof {
                    assert(false);
                }
                0
            },
        }
    }

    /// A fresh walk positioned at `word`'s index (nowhere when `word` is
    /// unknown).
    pub fn generate_iter(&self, word: &str) -> (it: ChainIterator)
        requires
            self.wf(),
        ensures
            it.spec_idx() == spec_index_of(self@, word@),
            !it.spec_ended(),
    {
        ChainIterator::new(self.index_of(word))
    }

    /// Run a walk from `start` to completion, collecting the yielded words;
    /// cut off at [`MAX_GENERATED_WORDS`] so that generation terminates.
    fn collect_walk(&self, start: usize) -> (r: Vec<String>)
        requires
            self.wf(),
            start < self@.words.len(),
        ensures
            exists|ws: Seq<usize>|
                {
                    &&& #[trigger] is_walk(self@, ws)
                    &&& walk_complete(self@, ws)
                    &&& ws[0] == start
                    &&& views_of(r@) == words_at(self@, ws)
                },
    {
        let m = Ghost(self@);
        let mut it = ChainIterator::new(Some(start));
        let mut out: Vec<String> = Vec::new();
        let ghost mut ws: Seq<usize> = Seq::empty();
        loop
            invariant
                start < m@.words.len(),
                ws.len() > 0 ==> ws[0] == start,
                self.wf(),
                m@ == self@,
                ws.len() == out@.len(),
                ws.len() <= MAX_GENERATED_WORDS,
                views_of(out@) == words_at(m@, ws),
                forall|k: int| 0 <= k < ws.len() ==> (#[trigger] ws[k]) < m@.words.len(),
                forall|k: int|
                    0 <= k < ws.len() - 1 ==> edge_weight(
                        (#[trigger] m@.nodes[ws[k] as int]).edges,
                        ws[k + 1],
                    ) is Some,
                forall|k: int|
                    0 <= k < ws.len() - 1 ==> !spec_is_sentence_end(
                        m@.words[(#[trigger] ws[k]) as int],
                    ),
                ws.len() == 0 ==> it.spec_idx() == Some(start) && !it.spec_ended(),
                ws.len() > 0 && it.spec_ended() ==> spec_is_sentence_end(
                    m@.words[ws[ws.len() - 1] as int],
                ) && it.spec_idx() == Some(ws[ws.len() - 1]),
                ws.len() > 0 && !it.spec_ended() ==> (match it.spec_idx() {
                    None => m@.nodes[ws[ws.len() - 1] as int].total == 0,
                    Some(j) => j < m@.words.len() && edge_weight(
                        m@.nodes[ws[ws.len() - 1] as int].edges,
                        j,
                    ) is Some && !spec_is_sentence_end(m@.words[ws[ws.len() - 1] as int]),
                }),
            ensures
                is_walk(m@, ws),
                walk_complete(m@, ws),
                ws[0] == start,
                views_of(out@) == words_at(m@, ws),
            decreases MAX_GENERATED_WORDS - out.len(),
        {
            if out.len() >= MAX_GENERATED_WORDS {
                break ;
            }
            let ghost prev_idx = it.spec_idx();
            let ghost out0 = out@;
            let ghost ws0 = ws;
            match it.next(self) {
                Some(w) => {
                    let ghost wv = w@;
                    let ghost i = prev_idx->Some_0;
                    out.push(w);
                    proof {
                        ws = ws.push(i);
                        assert(wv == m@.words[i as int]);
                        assert(views_of(out@) =~= words_at(m@, ws)) by {
                            assert(forall|k: int|
                                0 <= k < out0.len() ==> views_of(out@)[k] == views_of(out0)[k]);
                            assert(views_of(out@)[out@.len() - 1] == wv);
                            assert(forall|k: int|
                                0 <= k < ws0.len() ==> words_at(m@, ws)[k] == words_at(m@, ws0)[k]);
                        }
                    }
                },
                None => {
                    proof {
                        if ws.len() == 0 {
                            assert(false);
                        } else {
                            let last = ws[ws.len() - 1];
                            if it.spec_ended() {
                                assert(spec_is_sentence_end(m@.words[last as int]));
                            } else {
                                match it.spec_idx() {
                                    None => {
                                        assert(m@.nodes[last as int].total == 0);
                                    },
                                    Some(j) => {
                                        assert(false);
                                    },
                                }
                            }
                        }
                    }
                    break ;
                },
            }
        }
        out
    }

    /// Generate one sentence: start at `starting_word` when it is known, else
    /// at a uniformly random starter; walk random transitions until a
    /// terminator word, a dead end, or the length cap; join the words with
    /// spaces. Fails exactly when no start can be resolved and no starter was
    /// ever observed.
    pub fn generate_sentence(&self, starting_word: Option<&str>) -> (r: Result<
        String,
        GenerateError,
    >)
        requires
            self.wf(),
        ensures
            r is Err <==> (match starting_word {
                Some(w) => !self@.words.contains(w@),
                None => true,
            } && self@.starters.len() == 0),
            r matches Ok(s) ==> exists|ws: Seq<usize>|
                {
                    &&& #[trigger] is_walk(self@, ws)
                    &&& walk_complete(self@, ws)
                    &&& (match starting_word {
                        Some(w) => self@.words.contains(w@) ==> ws[0] == word_index(
                            self@.words,
                            w@,
                        ),
                        None => true,
                    })
                    &&& (match starting_word {
                        Some(w) => self@.words.contains(w@),
                        None => false,
                    }) || self@.starters.contains(ws[0])
                    &&& s@ == join_words(words_at(self@, ws))
                },
    {
        let resolved: Option<usize> = match starting_word {
            Some(w) => self.index_of(w),
            None => None,
        };
        let start = match resolved {
            Some(i) => i,
            None => {
                if self.starter_count() == 0 {
                    return Err(GenerateError::NoStarters);
                }
                self.get_random_starter_word()
            },
        };
        let words = self.collect_walk(start);
        Ok(Self::join_with_spaces(&words))
    }
}

/// What a chain rebuilt from plain parts looks like: words in order, one node
/// per word with the weight sum as its total, starters in order.
pub open spec fn parts_model(
    ws: Seq<Seq<char>>,
    ns: Seq<(bool, Vec<(usize, usize)>)>,
    ss: Seq<usize>,
) -> ChainModel {
    ChainModel {
        words: ws,
        nodes: ns.map_values(
            |p: (bool, Vec<(usize, usize)>)|
                NodeModel {
                    edges: p.1@,
                    total: crate::node::sum_weights(p.1@) as usize,
                    is_end: p.0,
                },
        ),
        starters: ss,
    }
}

/// When plain parts assemble into a well-formed chain: distinct words, per
/// node distinct targets inside the table with positive weights and a
/// representable sum, and distinct valid starter indices.
pub open spec fn parts_ok(
    ws: Seq<Seq<char>>,
    ns: Seq<(bool, Vec<(usize, usize)>)>,
    ss: Seq<usize>,
) -> bool {
    &&& forall|i: int, j: int| 0 <= i < j < ws.len() ==> ws[i] != ws[j]
    &&& forall|i: int, a: int, b: int|
        0 <= i < ns.len() && 0 <= a < b < ns[i].1@.len() ==> (#[trigger] ns[i].1@[a]).0 != (
        #[trigger] ns[i].1@[b]).0
    &&& forall|i: int, a: int|
        0 <= i < ns.len() && 0 <= a < ns[i].1@.len() ==> (#[trigger] ns[i].1@[a]).1 >= 1
            && ns[i].1@[a].0 < ws.len()
    &&& forall|i: int|
        0 <= i < ns.len() ==> crate::node::sum_weights((#[trigger] ns[i]).1@) <= usize::MAX
    &&& forall|k: int, l: int| 0 <= k < l < ss.len() ==> ss[k] != ss[l]
    &&& forall|k: int| 0 <= k < ss.len() ==> (#[trigger] ss[k]) < ws.len()
}

impl Chain {
    /// Rebuild a chain from plain parts: `Some` exactly when the parts
    /// assemble into a well-formed chain, which then models them exactly.
    pub(crate) fn from_parts(
        words: &Vec<String>,
        nodes_raw: &Vec<(bool, Vec<(usize, usize)>)>,
        starters: &Vec<usize>,
    ) -> (r: Option<Chain>)
        requires
            words@.len() == nodes_raw@.len(),
        ensures
            r is Some <==> parts_ok(views_of(words@), nodes_raw@, starters@),
            r matches Some(c) ==> c.wf() && c@ == parts_model(
                views_of(words@),
                nodes_raw@,
                starters@,
            ),
    {
        let n = words.len();
        let mut ws = word_set_new();
        let mut i: usize = 0;
        proof {
            assert(word_seq(ws) =~= views_of(words@.take(0)));
        }
        while i < n
            invariant
                n == words@.len(),
                i <= n,
                word_seq(ws) == views_of(words@.take(i as int)),
                forall|a: int, b: int|
                    0 <= a < b < i ==> views_of(words@)[a] != views_of(words@)[b],
            decreases n - i,
        {
            match word_set_index_of(&ws, words[i].as_str()) {
                Some(k) => {
                    proof {
                        assert(views_of(words@.take(i as int))[k as int] == views_of(words@)[
                            k as int
                        ]);
                        assert(views_of(words@)[k as int] == views_of(words@)[i as int]);
                    }
                    return None;
                },
                None => {},
            }
            let (_, _fresh) = word_set_insert_full(&mut ws, words[i].clone());
            proof {
                assert(word_seq(ws) =~= views_of(words@.take(i + 1))) by {
                    assert(views_of(words@.take(i + 1)) =~= views_of(words@.take(i as int)).push(
                        words@[i as int]@,
                    ));
                }
                assert forall|a: int, b: int| 0 <= a < b < i + 1 implies views_of(words@)[a]
                    != views_of(words@)[b] by {
                    if b == i {
                        assert(views_of(words@.take(i as int))[a] == views_of(words@)[a]);
                    }
                }
            }
            i = i + 1;
        }
        proof {
            assert(words@.take(n as int) =~= words@);
        }
        let mut nodes: Vec<Node> = Vec::new();
        let mut i: usize = 0;
        while i < n
            invariant
                n == words@.len() == nodes_raw@.len(),
                i <= n,
                nodes@.len() == i,
                forall|j: int|
                    0 <= j < i ==> (#[trigger] nodes@[j])@ == parts_model(
                        views_of(words@),
                        nodes_raw@,
                        starters@,
                    ).nodes[j],
                forall|j: int| 0 <= j < i ==> (#[trigger] nodes@[j]).wf(),
                forall|j: int|
                    0 <= j < i ==> (#[trigger] nodes@[j])@.targets_below(words@.len() as int),
                forall|j: int, a: int, b: int|
                    0 <= j < i && 0 <= a < b < nodes_raw@[j].1@.len() ==> (
                    #[trigger] nodes_raw@[j].1@[a]).0 != (#[trigger] nodes_raw@[j].1@[b]).0,
                forall|j: int, a: int|
                    0 <= j < i && 0 <= a < nodes_raw@[j].1@.len() ==> (
                    #[trigger] nodes_raw@[j].1@[a]).1 >= 1 && nodes_raw@[j].1@[a].0
                        < words@.len(),
                forall|j: int|
                    0 <= j < i ==> crate::node::sum_weights((#[trigger] nodes_raw@[j]).1@)
                        <= usize::MAX,
            decreases n - i,
        {
            let flag = nodes_raw[i].0;
            let mut t: usize = 0;
            let m = nodes_raw[i].1.len();
            while t < m
                invariant
                    n == words@.len() == nodes_raw@.len(),
                    i < n,
                    m == nodes_raw@[i as int].1@.len(),
                    t <= m,
                    forall|a: int|
                        0 <= a < t ==> ((#[trigger] nodes_raw@[i as int].1@[a]).0 < words@.len()),
                decreases m - t,
            {
                if nodes_raw[i].1[t].0 >= n {
                    return None;
                }
                t = t + 1;
            }
            match Node::from_parts(&nodes_raw[i].1, flag) {
                Some(nd) => {
                    nodes.push(nd);
                    proof {
                        assert(parts_model(views_of(words@), nodes_raw@, starters@).nodes[
                            i as int
                        ] == NodeModel {
                            edges: nodes_raw@[i as int].1@,
                            total: crate::node::sum_weights(nodes_raw@[i as int].1@) as usize,
                            is_end: nodes_raw@[i as int].0,
                        });
                    }
                },
                None => {
                    return None;
                },
            }
            i = i + 1;
        }
        let mut st = starter_set_new();
        let mut k: usize = 0;
        proof {
            assert(starter_seq(st) =~= starters@.take(0));
        }
        while k < starters.len()
            invariant
                n == words@.len(),
                k <= starters@.len(),
                starter_seq(st) == starters@.take(k as int),
                forall|a: int, b: int| 0 <= a < b < k ==> starters@[a] != starters@[b],
                forall|a: int| 0 <= a < k ==> (#[trigger] starters@[a]) < n,
            decreases starters@.len() - k,
        {
            let v = starters[k];
            if v >= n {
                return None;
            }
            if starter_set_contains(&st, v) {
                proof {
                    let a = choose|a: int|
                        0 <= a < starters@.take(k as int).len() && starters@.take(k as int)[a]
                            == v;
                    assert(starters@[a] == starters@[k as int]);
                }
                return None;
            }
            let _fresh = starter_set_insert(&mut st, v);
            proof {
                assert(starter_seq(st) =~= starters@.take(k + 1)) by {
                    assert(starters@.take(k + 1) =~= starters@.take(k as int).push(starters@[
                        k as int
                    ]));
                }
                assert forall|a: int, b: int| 0 <= a < b < k + 1 implies starters@[a]
                    != starters@[b] by {
                    if b == k {
                        if starters@[a] == starters@[k as int] {
                            assert(starters@.take(k as int)[a] == starters@[a]);
                            assert(starter_seq(st) == starters@.take(k + 1));
                        }
                    }
                }
            }
            k = k + 1;
        }
        proof {
            assert(starters@.take(starters@.len() as int) =~= starters@);
        }
        let c = Chain { words: ws, nodes, starter_words: st };
        proof {
            assert(c@.nodes =~= parts_model(views_of(words@), nodes_raw@, starters@).nodes) by {
                assert(c@.nodes.len() == n);
                assert(parts_model(views_of(words@), nodes_raw@, starters@).nodes.len() == n);
            }
            assert(c@ == parts_model(views_of(words@), nodes_raw@, starters@));
            assert(views_of(words@).len() == words@.len());
        }
        Some(c)
    }
}

/// Distinct starter indices below the word count are at most as many as the
/// words.
pub proof fn lemma_starters_card(m: ChainModel)
    requires
        m.wf(),
    ensures
        m.starters.len() <= m.words.len(),
{
    let si = m.starters.map_values(|v: usize| v as int);
    assert(si.no_duplicates());
    si.unique_seq_to_set();
    assert forall|x: int| si.to_set().contains(x) implies vstd::set_lib::set_int_range(
        0,
        m.words.len() as int,
    ).contains(x) by {
        let k = choose|k: int| 0 <= k < si.len() && si[k] == x;
        assert(m.starters[k] < m.words.len());
    }
    vstd::set_lib::lemma_int_range(0, m.words.len() as int);
    vstd::set_lib::lemma_len_subset(
        si.to_set(),
        vstd::set_lib::set_int_range(0, m.words.len() as int),
    );
}

/// The unique index of a word the interner holds.
pub proof fn lemma_word_index_unique(m: ChainModel, w: Seq<char>, i: usize)
    requires
        m.wf(),
        i < m.words.len(),
        m.words[i as int] == w,
    ensures
        m.words.contains(w),
        word_index(m.words, w) == i,
{
    assert(m.words.contains(w)) by {
        assert(m.words[i as int] == w);
    }
    let j = word_index(m.words, w);
    assert(0 <= j < m.words.len() && m.words[j as int] == w) by {
        assert(0 <= i < m.words.len() && m.words[i as int] == w);
    }
    if i != j {
        if i < j {
            assert(m.words[i as int] != m.words[j as int]);
        } else {
            assert(m.words[j as int] != m.words[i as int]);
        }
    }
}

/// Interning preserves well-formedness.
pub proof fn lemma_intern_wf(m: ChainModel, w: Seq<char>)
    requires
        m.wf(),
        m.words.len() < usize::MAX,
    ensures
        intern(m, w).0.wf(),
        intern(m, w).1 < intern(m, w).0.words.len(),
        mass(intern(m, w).0.nodes) == mass(m.nodes),
{
    lemma_mass_intern(m, w);
    if !m.words.contains(w) {
        let m1 = intern(m, w).0;
        assert forall|i: int| 0 <= i < m1.nodes.len() implies (#[trigger] m1.nodes[i]).wf()
            && m1.nodes[i].targets_below(m1.words.len() as int) by {
            if i < m.nodes.len() {
                assert(m.nodes[i].wf());
                assert(m.nodes[i].targets_below(m.words.len() as int));
                assert(m1.nodes[i] == m.nodes[i]);
            }
        }
        assert forall|i: int, j: int| 0 <= i < j < m1.words.len() implies m1.words[i]
            != m1.words[j] by {
            if j == m.words.len() as int {
                assert(m1.words[i] == m.words[i]);
                assert(m1.words[j] == w);
                if m.words[i] == w {
                    assert(m.words.contains(w)) by {
                        assert(0 <= i < m.words.len() && m.words[i] == w);
                    }
                }
            }
        }
        assert forall|k: int| 0 <= k < m1.starters.len() implies (#[trigger] m1.starters[k])
            < m1.words.len() by {
            assert(m.starters[k] < m.words.len());
        }
    }
}

/// Interning does not change the total mass.
pub proof fn lemma_mass_intern(m: ChainModel, w: Seq<char>)
    requires
        m.wf(),
    ensures
        mass(intern(m, w).0.nodes) == mass(m.nodes),
{
    if !m.words.contains(w) {
        lemma_mass_push(m.nodes, NodeModel::empty());
    }
}

/// Pushing a node adds its total to the mass.
pub proof fn lemma_mass_push(nodes: Seq<NodeModel>, n: NodeModel)
    ensures
        mass(nodes.push(n)) == mass(nodes) + n.total,
    decreases nodes.len(),
{
    if nodes.len() == 0 {
        assert(nodes.push(n).drop_first() =~= Seq::<NodeModel>::empty());
        assert(nodes =~= Seq::<NodeModel>::empty());
    } else {
        lemma_mass_push(nodes.drop_first(), n);
        assert(nodes.push(n).drop_first() =~= nodes.drop_first().push(n));
    }
}

/// Updating one node shifts the mass by the difference of its total.
pub proof fn lemma_mass_update(nodes: Seq<NodeModel>, k: int, n: NodeModel)
    requires
        0 <= k < nodes.len(),
    ensures
        mass(nodes.update(k, n)) == mass(nodes) - nodes[k].total + n.total,
    decreases k,
{
    if k == 0 {
        assert(nodes.update(0, n).drop_first() =~= nodes.drop_first());
    } else {
        lemma_mass_update(nodes.drop_first(), k - 1, n);
        assert(nodes.update(k, n).drop_first() =~= nodes.drop_first().update(k - 1, n));
    }
}

/// Raising a terminator flag does not change the mass.
pub proof fn lemma_mass_set_end(m: ChainModel, idx: usize)
    requires
        m.wf(),
        idx < m.nodes.len(),
    ensures
        mass(set_end(m, idx).nodes) == mass(m.nodes),
{
    lemma_mass_update(m.nodes, idx as int, m.nodes[idx as int].with_end());
}

/// Counting one transition adds exactly one to the mass.
pub proof fn lemma_mass_bump(m: ChainModel, cur: usize, nxt: usize)
    requires
        m.wf(),
        cur < m.nodes.len(),
        m.nodes[cur as int].total < usize::MAX,
    ensures
        mass(bump_edge(m, cur, nxt).nodes) == mass(m.nodes) + 1,
{
    lemma_mass_update(m.nodes, cur as int, m.nodes[cur as int].bumped(nxt, 1));
}

/// Every single node's total is bounded by the mass.
pub proof fn lemma_node_le_mass(nodes: Seq<NodeModel>, k: int)
    requires
        0 <= k < nodes.len(),
        forall|i: int| 0 <= i < nodes.len() ==> (#[trigger] nodes[i]).wf(),
    ensures
        nodes[k].total <= mass(nodes),
    decreases k,
{
    lemma_mass_nonneg(nodes.drop_first());
    if k > 0 {
        lemma_node_le_mass(nodes.drop_first(), k - 1);
        crate::node::lemma_sum_nonneg(nodes[0].edges);
    }
}

/// The mass of well-formed nodes is never negative.
pub proof fn lemma_mass_nonneg(nodes: Seq<NodeModel>)
    ensures
        (forall|i: int| 0 <= i < nodes.len() ==> (#[trigger] nodes[i]).wf()) ==> mass(nodes) >= 0,
    decreases nodes.len(),
{
    if nodes.len() > 0 {
        lemma_mass_nonneg(nodes.drop_first());
    }
}

/// A bump toward a valid target keeps targets below the bound.
pub proof fn lemma_bumped_targets(n: NodeModel, t: usize, bound: int)
    requires
        n.wf(),
        n.targets_below(bound),
        t < bound,
        n.total < usize::MAX,
    ensures
        n.bumped(t, 1).targets_below(bound),
{
    let b = n.bumped(t, 1);
    assert forall|i: int| 0 <= i < b.edges.len() implies (#[trigger] b.edges[i]).0 < bound by {
        if edge_weight(n.edges, t) is Some {
            crate::node::lemma_edge_index_of(n.edges, t);
            if i != crate::node::edge_index(n.edges, t) {
                assert(b.edges[i] == n.edges[i]);
            }
        } else {
            if i < n.edges.len() {
                assert(b.edges[i] == n.edges[i]);
            }
        }
    }
}

} // verus!
