//! Laws of training: how feeding text changes pair weights and the starter
//! set, stated over the chain model and proved for every text.

use crate::chain::{
    add_starter, bump_edge, feed_model, feed_step, intern, mass, set_end, spec_is_starter_word,
    spec_weight_between, word_index, ChainModel,
};
use crate::node::{edge_weight, lemma_bumped_weight, lemma_edge_absent, lemma_edge_index_of};
use crate::spec_is_sentence_end;
use vstd::prelude::*;

verus! {

/// The weight of the edge from `a` to `b`, read as a number: 0 when absent.
pub open spec fn weight_value(m: ChainModel, a: Seq<char>, b: Seq<char>) -> int {
    match spec_weight_between(m, a, b) {
        Some(w) => w as int,
        None => 0,
    }
}

/// How often `b` immediately follows `a` in `toks`.
pub open spec fn pair_count(toks: Seq<Seq<char>>, a: Seq<char>, b: Seq<char>) -> int
    decreases toks.len(),
{
    if toks.len() < 2 {
        0
    } else {
        (if toks[0] == a && toks[1] == b {
            1int
        } else {
            0int
        }) + pair_count(toks.drop_first(), a, b)
    }
}

/// The word `word_index` points at is the word looked up.
pub proof fn lemma_word_index_in_range(m: ChainModel, a: Seq<char>)
    requires
        m.wf(),
        m.words.contains(a),
    ensures
        word_index(m.words, a) < m.words.len(),
        m.words[word_index(m.words, a) as int] == a,
{
    let k = choose|k: int| 0 <= k < m.words.len() && m.words[k] == a;
    crate::chain::lemma_word_index_unique(m, a, k as usize);
}

/// Law: `weight_between` is absent whenever either word was never observed,
/// and a weight that exists is never below 1.
pub proof fn lemma_weight_between_basics(m: ChainModel, a: Seq<char>, b: Seq<char>)
    requires
        m.wf(),
    ensures
        !m.words.contains(a) || !m.words.contains(b) ==> spec_weight_between(m, a, b) is None,
        spec_weight_between(m, a, b) matches Some(w) ==> w >= 1,
{
    if m.words.contains(a) && m.words.contains(b) {
        lemma_word_index_in_range(m, a);
        let ia = word_index(m.words, a);
        let ib = word_index(m.words, b);
        if edge_weight(m.nodes[ia as int].edges, ib) is Some {
            assert(m.nodes[ia as int].wf());
            lemma_edge_index_of(m.nodes[ia as int].edges, ib);
        }
    }
}

/// Interning one word never changes a pair weight, a starter word, the index
/// of a word already interned, or the mass.
proof fn lemma_intern_facts(m: ChainModel, w: Seq<char>, a: Seq<char>, b: Seq<char>)
    requires
        m.wf(),
        m.words.len() < usize::MAX,
    ensures
        intern(m, w).0.wf(),
        intern(m, w).0.words.len() <= m.words.len() + 1,
        intern(m, w).0.starters == m.starters,
        mass(intern(m, w).0.nodes) == mass(m.nodes),
        intern(m, w).0.words.contains(w),
        word_index(intern(m, w).0.words, w) == intern(m, w).1,
        intern(m, w).1 < intern(m, w).0.words.len(),
        forall|x: Seq<char>|
            #[trigger] m.words.contains(x) ==> intern(m, w).0.words.contains(x) && word_index(
                intern(m, w).0.words,
                x,
            ) == word_index(m.words, x),
        forall|x: Seq<char>|
            #[trigger] intern(m, w).0.words.contains(x) ==> m.words.contains(x) || x == w,
        weight_value(intern(m, w).0, a, b) == weight_value(m, a, b),
        forall|x: Seq<char>|
            (#[trigger] spec_is_starter_word(intern(m, w).0, x)) == spec_is_starter_word(m, x),
    {
    crate::chain::lemma_intern_wf(m, w);
    let m1 = intern(m, w).0;
    let idx = intern(m, w).1;
    if m.words.contains(w) {
        lemma_word_index_in_range(m, w);
    } else {
        crate::chain::lemma_word_index_unique(m1, w, idx);
        assert forall|x: Seq<char>| #[trigger] m.words.contains(x) implies m1.words.contains(x)
            && word_index(m1.words, x) == word_index(m.words, x) by {
            lemma_word_index_in_range(m, x);
            let k = word_index(m.words, x);
            assert(m1.words[k as int] == x);
            crate::chain::lemma_word_index_unique(m1, x, k);
        }
        assert forall|x: Seq<char>| #[trigger] m1.words.contains(x) implies m.words.contains(x)
            || x == w by {
            let k = choose|k: int| 0 <= k < m1.words.len() && m1.words[k] == x;
            if k < m.words.len() {
                assert(m.words[k] == x);
            }
        }
        // pair weights are untouched: existing nodes keep their edges, the new
        // node has none, and no existing edge points at the new index
        if m1.words.contains(a) && m1.words.contains(b) {
            let ia = word_index(m1.words, a);
            let ib = word_index(m1.words, b);
            lemma_word_index_in_range(m1, a);
            lemma_word_index_in_range(m1, b);
            if a == w && !m.words.contains(a) {
                assert(m1.nodes[ia as int] == crate::node::NodeModel::empty());
                assert(edge_weight(m1.nodes[ia as int].edges, ib) is None);
            } else {
                assert(m.words.contains(a));
                assert(ia == word_index(m.words, a));
                lemma_word_index_in_range(m, a);
                assert(m1.nodes[ia as int] == m.nodes[ia as int]);
                if b == w && !m.words.contains(b) {
                    assert(ib == m.words.len());
                    assert(m.nodes[ia as int].targets_below(m.words.len() as int));
                    lemma_edge_absent(m.nodes[ia as int].edges, ib);
                }
            }
        }
        // starter words are untouched: every starter index is an old index
        assert forall|x: Seq<char>| spec_is_starter_word(m1, x) == spec_is_starter_word(
            m,
            x,
        ) by {
            if spec_is_starter_word(m1, x) {
                let ix = word_index(m1.words, x);
                let k = choose|k: int| 0 <= k < m1.starters.len() && m1.starters[k] == ix;
                assert(m1.starters[k] < m.words.len());
                if x == w && !m.words.contains(x) {
                    crate::chain::lemma_word_index_unique(m1, w, idx);
                    assert(ix == idx);
                    assert(false);
                }
            }
            if spec_is_starter_word(m, x) {
                lemma_word_index_in_range(m, x);
            }
        }
    }
}

/// Recording a starter never changes words, nodes, or pair weights; a word
/// becomes a starter exactly when it sits at the recorded index.
proof fn lemma_add_starter_facts(m: ChainModel, idx: usize, a: Seq<char>, b: Seq<char>)
    requires
        m.wf(),
        idx < m.words.len(),
    ensures
        add_starter(m, idx).wf(),
        add_starter(m, idx).words == m.words,
        add_starter(m, idx).nodes == m.nodes,
        weight_value(add_starter(m, idx), a, b) == weight_value(m, a, b),
        forall|x: Seq<char>|
            (#[trigger] spec_is_starter_word(add_starter(m, idx), x)) == (spec_is_starter_word(
                m,
                x,
            ) || x == m.words[idx as int]),
{
    let m2 = add_starter(m, idx);
    if !m.starters.contains(idx) {
        assert forall|k: int, l: int| 0 <= k < l < m2.starters.len() implies m2.starters[k]
            != m2.starters[l] by {
            if l == m2.starters.len() - 1 {
                if m.starters[k] == idx {
                    assert(m.starters.contains(idx)) by {
                        assert(0 <= k < m.starters.len() && m.starters[k] == idx);
                    }
                }
            }
        }
    }
    assert forall|x: Seq<char>| spec_is_starter_word(m2, x) == (spec_is_starter_word(m, x) || x
        == m.words[idx as int]) by {
        if m.words.contains(x) {
            let ix = word_index(m.words, x);
            lemma_word_index_in_range(m, x);
            assert(m2.starters.contains(ix) == (m.starters.contains(ix) || ix == idx)) by {
                if m2.starters.contains(ix) {
                    let k = choose|k: int| 0 <= k < m2.starters.len() && m2.starters[k] == ix;
                    if k < m.starters.len() {
                        assert(m.starters[k] == ix);
                    }
                }
                if m.starters.contains(ix) {
                    let k = choose|k: int| 0 <= k < m.starters.len() && m.starters[k] == ix;
                    assert(m2.starters[k] == ix);
                }
                if ix == idx && !m.starters.contains(idx) {
                    assert(m2.starters[m2.starters.len() - 1] == idx);
                }
            }
            if ix == idx {
                assert(x == m.words[idx as int]);
            }
            if x == m.words[idx as int] {
                crate::chain::lemma_word_index_unique(m, x, idx);
            }
        } else {
            if x == m.words[idx as int] {
                assert(m.words.contains(x)) by {
                    assert(0 <= idx < m.words.len() && m.words[idx as int] == x);
                }
            }
        }
    }
}

/// Raising a terminator flag never changes words, starters, or pair weights.
proof fn lemma_set_end_facts(m: ChainModel, idx: usize, a: Seq<char>, b: Seq<char>)
    requires
        m.wf(),
        idx < m.nodes.len(),
    ensures
        set_end(m, idx).wf(),
        set_end(m, idx).words == m.words,
        set_end(m, idx).starters == m.starters,
        mass(set_end(m, idx).nodes) == mass(m.nodes),
        weight_value(set_end(m, idx), a, b) == weight_value(m, a, b),
        forall|x: Seq<char>|
            (#[trigger] spec_is_starter_word(set_end(m, idx), x)) == spec_is_starter_word(m, x),
{
    let m2 = set_end(m, idx);
    crate::chain::lemma_mass_set_end(m, idx);
    assert forall|i: int| 0 <= i < m2.nodes.len() implies (#[trigger] m2.nodes[i]).wf()
        && m2.nodes[i].targets_below(m2.words.len() as int) by {
        assert(m.nodes[i].wf());
        assert(m.nodes[i].targets_below(m.words.len() as int));
    }
    if m.words.contains(a) && m.words.contains(b) {
        lemma_word_index_in_range(m, a);
        assert(m2.nodes[word_index(m.words, a) as int].edges == m.nodes[word_index(
            m.words,
            a,
        ) as int].edges);
    }
}

/// How one counted transition changes pair weights: the pair at `(cur, nxt)`
/// gains exactly one, every other pair keeps its weight; words and starters
/// stay as they were.
proof fn lemma_bump_facts(m: ChainModel, ci: usize, ni: usize, a: Seq<char>, b: Seq<char>)
    requires
        m.wf(),
        ci < m.nodes.len(),
        ni < m.words.len(),
        m.nodes[ci as int].total < usize::MAX,
    ensures
        bump_edge(m, ci, ni).wf(),
        bump_edge(m, ci, ni).words == m.words,
        bump_edge(m, ci, ni).starters == m.starters,
        mass(bump_edge(m, ci, ni).nodes) == mass(m.nodes) + 1,
        weight_value(bump_edge(m, ci, ni), a, b) == weight_value(m, a, b) + (if a == m.words[
            ci as int
        ] && b == m.words[ni as int] {
            1int
        } else {
            0int
        }),
        forall|x: Seq<char>|
            (#[trigger] spec_is_starter_word(bump_edge(m, ci, ni), x)) == spec_is_starter_word(
                m,
                x,
            ),
{
    let m2 = bump_edge(m, ci, ni);
    crate::chain::lemma_mass_bump(m, ci, ni);
    crate::node::lemma_bumped_wf(m.nodes[ci as int], ni, 1);
    crate::chain::lemma_bumped_targets(m.nodes[ci as int], ni, m.words.len() as int);
    assert forall|i: int| 0 <= i < m2.nodes.len() implies (#[trigger] m2.nodes[i]).wf()
        && m2.nodes[i].targets_below(m2.words.len() as int) by {
        assert(m.nodes[i].wf());
        assert(m.nodes[i].targets_below(m.words.len() as int));
        if i != ci {
            assert(m2.nodes[i] == m.nodes[i]);
        }
    }
    if m.words.contains(a) && m.words.contains(b) {
        let ia = word_index(m.words, a);
        let ib = word_index(m.words, b);
        lemma_word_index_in_range(m, a);
        lemma_word_index_in_range(m, b);
        if ia == ci {
            if edge_weight(m.nodes[ci as int].edges, ni) is Some {
                lemma_edge_index_of(m.nodes[ci as int].edges, ni);
                crate::node::lemma_weight_le_total_pub(
                    m.nodes[ci as int],
                    crate::node::edge_index(m.nodes[ci as int].edges, ni),
                );
            }
            lemma_bumped_weight(m.nodes[ci as int], ni, ib);
            if a == m.words[ci as int] && b == m.words[ni as int] {
                crate::chain::lemma_word_index_unique(m, b, ni);
            }
            if ib == ni {
                assert(a == m.words[ci as int] && b == m.words[ni as int]);
            }
        } else {
            assert(m2.nodes[ia as int] == m.nodes[ia as int]);
            if a == m.words[ci as int] {
                crate::chain::lemma_word_index_unique(m, a, ci);
            }
        }
    } else {
        if a == m.words[ci as int] {
            assert(m.words.contains(a)) by {
                assert(0 <= ci < m.words.len() && m.words[ci as int] == a);
            }
        }
        if b == m.words[ni as int] {
            assert(m.words.contains(b)) by {
                assert(0 <= ni < m.words.len() && m.words[ni as int] == b);
            }
        }
    }
}

/// One training pair adds one to its own weight and nothing else; a word
/// becomes a starter exactly when it follows a terminator.
proof fn lemma_feed_step_facts(m: ChainModel, cur: Seq<char>, nxt: Seq<char>, a: Seq<char>, b: Seq<
    char,
>)
    requires
        m.wf(),
        m.words.len() + 2 <= usize::MAX,
        mass(m.nodes) + 1 <= usize::MAX,
    ensures
        feed_step(m, cur, nxt).wf(),
        feed_step(m, cur, nxt).words.len() <= m.words.len() + 2,
        mass(feed_step(m, cur, nxt).nodes) == mass(m.nodes) + 1,
        weight_value(feed_step(m, cur, nxt), a, b) == weight_value(m, a, b) + (if cur == a && nxt
            == b {
            1int
        } else {
            0int
        }),
        forall|x: Seq<char>|
            (#[trigger] spec_is_starter_word(feed_step(m, cur, nxt), x)) == (spec_is_starter_word(
                m,
                x,
            ) || (spec_is_sentence_end(cur) && x == nxt)),
{
    let is_end = spec_is_sentence_end(cur);
    let m1 = intern(m, nxt).0;
    let ni = intern(m, nxt).1;
    lemma_intern_facts(m, nxt, a, b);
    let m2 = if is_end {
        add_starter(m1, ni)
    } else {
        m1
    };
    if is_end {
        lemma_add_starter_facts(m1, ni, a, b);
        assert(m1.words[ni as int] == nxt) by {
            lemma_word_index_in_range(m1, nxt);
        }
    }
    let m3 = intern(m2, cur).0;
    let ci = intern(m2, cur).1;
    lemma_intern_facts(m2, cur, a, b);
    let m4 = if is_end {
        set_end(m3, ci)
    } else {
        m3
    };
    if is_end {
        lemma_set_end_facts(m3, ci, a, b);
    }
    crate::chain::lemma_node_le_mass(m4.nodes, ci as int);
    lemma_bump_facts(m4, ci, ni, a, b);
    assert(m4.words[ci as int] == cur) by {
        lemma_word_index_in_range(m3, cur);
    }
    assert(m4.words[ni as int] == nxt) by {
        lemma_word_index_in_range(m1, nxt);
        assert(m1.words[ni as int] == nxt);
        assert(m2.words == m1.words);
        assert(m2.words.contains(nxt));
        assert(m3.words.contains(nxt) && word_index(m3.words, nxt) == word_index(m2.words, nxt));
        assert(word_index(m2.words, nxt) == word_index(m1.words, nxt));
        assert(word_index(m1.words, nxt) == ni) by {
            crate::chain::lemma_word_index_unique(m1, nxt, ni);
        }
        lemma_word_index_in_range(m3, nxt);
    }
    if a == m4.words[ci as int] && b == m4.words[ni as int] {
        assert(cur == a && nxt == b);
    }
    assert forall|x: Seq<char>| spec_is_starter_word(feed_step(m, cur, nxt), x) == (
    spec_is_starter_word(m, x) || (is_end && x == nxt)) by {
        assert(spec_is_starter_word(feed_step(m, cur, nxt), x) == spec_is_starter_word(m4, x));
        assert(spec_is_starter_word(m4, x) == spec_is_starter_word(m3, x));
        assert(spec_is_starter_word(m3, x) == spec_is_starter_word(m2, x));
        if is_end {
            assert(spec_is_starter_word(add_starter(m1, ni), x) == (spec_is_starter_word(m1, x)
                || x == m1.words[ni as int]));
            assert(m1.words[ni as int] == nxt) by {
                lemma_word_index_in_range(m1, nxt);
            }
            assert(spec_is_starter_word(m2, x) == (spec_is_starter_word(m1, x) || x == nxt));
        }
        assert(spec_is_starter_word(m1, x) == spec_is_starter_word(m, x));
    }
}

/// Law: feeding a text adds to each pair weight exactly the number of times
/// the pair occurs adjacently in the text, and a word is a starter afterwards
/// exactly when it was one before or follows a terminator in the text.
pub proof fn lemma_feed_facts(m: ChainModel, toks: Seq<Seq<char>>, a: Seq<char>, b: Seq<char>)
    requires
        m.wf(),
        m.words.len() + 2 * toks.len() <= usize::MAX,
        mass(m.nodes) + toks.len() <= usize::MAX,
    ensures
        feed_model(m, toks).wf(),
        feed_model(m, toks).words.len() <= m.words.len() + 2 * toks.len(),
        mass(feed_model(m, toks).nodes) <= mass(m.nodes) + toks.len(),
        weight_value(feed_model(m, toks), a, b) == weight_value(m, a, b) + pair_count(toks, a, b),
        forall|x: Seq<char>|
            spec_is_starter_word(feed_model(m, toks), x) == (spec_is_starter_word(m, x) || exists|
                k: int,
            |
                0 <= k < toks.len() - 1 && spec_is_sentence_end(#[trigger] toks[k]) && toks[k + 1]
                    == x),
    decreases toks.len(),
{
    if toks.len() < 2 {
        assert forall|x: Seq<char>| spec_is_starter_word(feed_model(m, toks), x) == (
        spec_is_starter_word(m, x) || exists|k: int|
            0 <= k < toks.len() - 1 && spec_is_sentence_end(#[trigger] toks[k]) && toks[k + 1]
                == x) by {
            if exists|k: int|
                0 <= k < toks.len() - 1 && spec_is_sentence_end(#[trigger] toks[k]) && toks[k + 1]
                    == x {
                assert(false);
            }
        }
    } else {
        let ms = feed_step(m, toks[0], toks[1]);
        lemma_feed_step_facts(m, toks[0], toks[1], a, b);
        lemma_feed_facts(ms, toks.drop_first(), a, b);
        let rest = toks.drop_first();
        assert forall|x: Seq<char>| spec_is_starter_word(feed_model(m, toks), x) == (
        spec_is_starter_word(m, x) || exists|k: int|
            0 <= k < toks.len() - 1 && spec_is_sentence_end(#[trigger] toks[k]) && toks[k + 1]
                == x) by {
            let after = spec_is_starter_word(feed_model(m, toks), x);
            assert(spec_is_starter_word(ms, x) == (spec_is_starter_word(m, x) || (
            spec_is_sentence_end(toks[0]) && x == toks[1])));
            assert(after == (spec_is_starter_word(ms, x) || exists|k: int|
                0 <= k < rest.len() - 1 && spec_is_sentence_end(#[trigger] rest[k]) && rest[k + 1]
                    == x));
            if exists|k: int|
                0 <= k < rest.len() - 1 && spec_is_sentence_end(#[trigger] rest[k]) && rest[k + 1]
                    == x {
                let k = choose|k: int|
                    0 <= k < rest.len() - 1 && spec_is_sentence_end(#[trigger] rest[k]) && rest[k
                        + 1] == x;
                assert(toks[k + 1] == rest[k] && toks[k + 2] == rest[k + 1]);
                assert(0 <= k + 1 < toks.len() - 1 && spec_is_sentence_end(toks[k + 1]) && toks[k
                    + 2] == x);
            }
            if spec_is_sentence_end(toks[0]) && toks[1] == x {
                assert(0 <= 0 < toks.len() - 1 && spec_is_sentence_end(toks[0]) && toks[0int + 1]
                    == x);
            }
            if exists|k: int|
                0 <= k < toks.len() - 1 && spec_is_sentence_end(#[trigger] toks[k]) && toks[k + 1]
                    == x {
                let k = choose|k: int|
                    0 <= k < toks.len() - 1 && spec_is_sentence_end(#[trigger] toks[k]) && toks[k
                        + 1] == x;
                if k == 0 {
                } else {
                    assert(rest[k - 1] == toks[k] && rest[k] == toks[k + 1]);
                    assert(0 <= k - 1 < rest.len() - 1 && spec_is_sentence_end(rest[k - 1])
                        && rest[k - 1 + 1] == x);
                }
            }
        }
    }
}

/// Law: feeding the same text twice adds twice the pair count of feeding it
/// once.
pub proof fn lemma_feed_twice(m: ChainModel, toks: Seq<Seq<char>>, a: Seq<char>, b: Seq<char>)
    requires
        m.wf(),
        m.words.len() + 4 * toks.len() <= usize::MAX,
        mass(m.nodes) + 2 * toks.len() <= usize::MAX,
    ensures
        weight_value(feed_model(feed_model(m, toks), toks), a, b) == weight_value(m, a, b) + 2
            * pair_count(toks, a, b),
{
    lemma_feed_facts(m, toks, a, b);
    lemma_feed_facts(feed_model(m, toks), toks, a, b);
}

} // verus!
