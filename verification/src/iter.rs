//! The generation walk: a pull-based producer that follows random transitions
//! until it yields a terminator word or runs out of edges.

use crate::chain::Chain;
use crate::node::edge_weight;
use crate::spec_is_sentence_end;
use vstd::prelude::*;

verus! {

/// A walk over a [`Chain`]: holds the index of the word to yield next (or
/// nothing, after a dead end) and whether a terminator was already yielded.
pub struct ChainIterator {
    idx: Option<usize>,
    ended: bool,
}

impl ChainIterator {
    /// The index of the word the next pull would yield, if any.
    pub closed spec fn spec_idx(&self) -> Option<usize> {
        self.idx
    }

    /// Whether the walk has yielded a terminator and produces nothing more.
    pub closed spec fn spec_ended(&self) -> bool {
        self.ended
    }

    /// A fresh walk positioned at `idx` (nowhere when `idx` is `None`).
    pub(crate) fn new(idx: Option<usize>) -> (it: ChainIterator)
        ensures
            it.spec_idx() == idx,
            !it.spec_ended(),
    {
        ChainIterator { idx, ended: false }
    }

    /// One pull of the walk over `chain`: yields the current word; a
    /// terminator ends the walk, otherwise the position moves to a randomly
    /// sampled successor (or to nowhere at a dead end).
    pub fn next(&mut self, chain: &Chain) -> (r: Option<String>)
        requires
            chain.wf(),
        ensures
            old(self).spec_ended() ==> r is None && *final(self) == *old(self),
            !old(self).spec_ended() ==> (match old(self).spec_idx() {
                None => r is None && *final(self) == *old(self),
                Some(i) => {
                    if i >= chain@.words.len() {
                        r is None && *final(self) == *old(self)
                    } else {
                        &&& r matches Some(w) && w@ == chain@.words[i as int]
                        &&& (spec_is_sentence_end(chain@.words[i as int])
                            ==> final(self).spec_ended()
                            && final(self).spec_idx() == old(self).spec_idx())
                        &&& (!spec_is_sentence_end(chain@.words[i as int]) ==> {
                            &&& !final(self).spec_ended()
                            &&& (final(self).spec_idx() is None ==> chain@.nodes[
                                i as int
                            ].total == 0)
                            &&& (final(self).spec_idx() matches Some(j) ==> chain@.nodes[
                                i as int
                            ].total > 0 && edge_weight(chain@.nodes[i as int].edges, j) is Some
                                && j < chain@.words.len())
                        })
                    }
                },
            }),
    {
        if self.ended {
            return None;
        }
        let i = match self.idx {
            Some(i) => i,
            None => {
                return None;
            },
        };
        let w = match chain.word_at(i) {
            Some(w) => w,
            None => {
                return None;
            },
        };
        if crate::is_sentence_end(w.as_str()) {
            self.ended = true;
            Some(w)
        } else {
            let node = match chain.node_at(i) {
                Some(n) => n,
                None => {
                    proof {
                        assert(false);
                    }
                    return None;
                },
            };
            let nxt = node.get_random();
            proof {
                assert(chain@.nodes[i as int].wf());
                if let Some(j) = nxt {
                    crate::node::lemma_edge_index_of(chain@.nodes[i as int].edges, j);
                    assert(chain@.nodes[i as int].targets_below(chain@.words.len() as int));
                }
            }
            self.idx = nxt;
            Some(w)
        }
    }
}

} // verus!
