//! Snapshot codec: the whole chain as an opaque sequence of bytes, with a
//! proved round trip. The format is a flat list of 64-bit little-endian
//! cells: the word count, each word (character count, then one scalar per
//! cell), each word's node (terminator flag, edge count, then target/weight
//! cell pairs), and the starter list (count, then one index per cell).

use crate::chain::ChainModel;
use crate::node::{sum_weights, NodeModel};
use vstd::prelude::*;
use vstd::utf8::{char_is_scalar, char_u32_cast, is_scalar};

verus! {

/// The eight little-endian bytes of a cell.
pub open spec fn u64_bytes(v: u64) -> Seq<u8> {
    seq![
        (v & 0xff) as u8,
        ((v >> 8) & 0xff) as u8,
        ((v >> 16) & 0xff) as u8,
        ((v >> 24) & 0xff) as u8,
        ((v >> 32) & 0xff) as u8,
        ((v >> 40) & 0xff) as u8,
        ((v >> 48) & 0xff) as u8,
        ((v >> 56) & 0xff) as u8,
    ]
}

/// The cell eight little-endian bytes stand for.
pub open spec fn u64_of_bytes(b: Seq<u8>) -> u64
    recommends
        b.len() == 8,
{
    ((b[0] as u64) | ((b[1] as u64) << 8) | ((b[2] as u64) << 16) | ((b[3] as u64) << 24) | ((
    b[4] as u64) << 32) | ((b[5] as u64) << 40) | ((b[6] as u64) << 48) | ((b[7] as u64) << 56))
}

/// Eight little-endian bytes reassemble to the cell they came from.
pub proof fn lemma_u64_round_trip(v: u64)
    ensures
        u64_of_bytes(u64_bytes(v)) == v,
{
    assert((((v & 0xff) as u8) as u64) | ((((v >> 8) & 0xff) as u8) as u64) << 8 | ((((v >> 16)
        & 0xff) as u8) as u64) << 16 | ((((v >> 24) & 0xff) as u8) as u64) << 24 | ((((v >> 32)
        & 0xff) as u8) as u64) << 32 | ((((v >> 40) & 0xff) as u8) as u64) << 40 | ((((v >> 48)
        & 0xff) as u8) as u64) << 48 | ((((v >> 56) & 0xff) as u8) as u64) << 56 == v)
        by (bit_vector);
}

/// All cells as bytes, in order.
pub open spec fn cells_bytes(cs: Seq<u64>) -> Seq<u8>
    decreases cs.len(),
{
    if cs.len() == 0 {
        Seq::empty()
    } else {
        u64_bytes(cs[0]) + cells_bytes(cs.drop_first())
    }
}

/// Bytes split back into cells; `None` unless the length is a multiple of 8.
pub open spec fn bytes_cells(b: Seq<u8>) -> Option<Seq<u64>>
    decreases b.len(),
{
    if b.len() == 0 {
        Some(Seq::empty())
    } else if b.len() < 8 {
        None
    } else {
        match bytes_cells(b.skip(8)) {
            Some(rest) => Some(seq![u64_of_bytes(b.take(8))] + rest),
            None => None,
        }
    }
}

/// Cells written as bytes split back into the same cells.
pub proof fn lemma_cells_round_trip(cs: Seq<u64>)
    ensures
        bytes_cells(cells_bytes(cs)) == Some(cs),
    decreases cs.len(),
{
    if cs.len() == 0 {
        assert(cells_bytes(cs) =~= Seq::<u8>::empty());
    } else {
        lemma_cells_round_trip(cs.drop_first());
        lemma_u64_round_trip(cs[0]);
        let b = cells_bytes(cs);
        assert(b.take(8) =~= u64_bytes(cs[0]));
        assert(b.skip(8) =~= cells_bytes(cs.drop_first()));
        assert(seq![u64_of_bytes(b.take(8))] + cs.drop_first() =~= cs);
    }
}

/// A word's characters, one scalar value per cell.
pub open spec fn chars_cells(w: Seq<char>) -> Seq<u64> {
    w.map_values(|c: char| c as u64)
}

/// One word: its character count, then its characters.
pub open spec fn e_word(w: Seq<char>) -> Seq<u64> {
    seq![w.len() as u64] + chars_cells(w)
}

/// All words, in interner order.
pub open spec fn e_words(ws: Seq<Seq<char>>) -> Seq<u64>
    decreases ws.len(),
{
    if ws.len() == 0 {
        Seq::empty()
    } else {
        e_word(ws[0]) + e_words(ws.drop_first())
    }
}

/// One node's edges, a target cell then a weight cell each.
pub open spec fn pairs_cells(edges: Seq<(usize, usize)>) -> Seq<u64>
    decreases edges.len(),
{
    if edges.len() == 0 {
        Seq::empty()
    } else {
        seq![edges[0].0 as u64, edges[0].1 as u64] + pairs_cells(edges.drop_first())
    }
}

/// One node: terminator flag, edge count, then the edges.
pub open spec fn e_node(n: NodeModel) -> Seq<u64> {
    seq![
        if n.is_end {
            1u64
        } else {
            0u64
        },
        n.edges.len() as u64,
    ] + pairs_cells(n.edges)
}

/// All nodes, in index order.
pub open spec fn e_nodes(ns: Seq<NodeModel>) -> Seq<u64>
    decreases ns.len(),
{
    if ns.len() == 0 {
        Seq::empty()
    } else {
        e_node(ns[0]) + e_nodes(ns.drop_first())
    }
}

/// The starter indices, one cell each.
pub open spec fn idx_cells(s: Seq<usize>) -> Seq<u64> {
    s.map_values(|v: usize| v as u64)
}

/// The whole chain as cells.
pub open spec fn e_chain(m: ChainModel) -> Seq<u64> {
    seq![m.words.len() as u64] + e_words(m.words) + e_nodes(m.nodes) + seq![
        m.starters.len() as u64,
    ] + idx_cells(m.starters)
}

/// The whole chain as bytes.
pub open spec fn encode_chain(m: ChainModel) -> Seq<u8> {
    cells_bytes(e_chain(m))
}

/// Parse `n` characters; each cell must hold a Unicode scalar value.
pub open spec fn d_chars(n: nat, cs: Seq<u64>) -> Option<(Seq<char>, Seq<u64>)>
    decreases n,
{
    if n == 0 {
        Some((Seq::empty(), cs))
    } else if cs.len() == 0 {
        None
    } else if cs[0] > 0x10FFFF || !is_scalar(cs[0] as u32) {
        None
    } else {
        match d_chars((n - 1) as nat, cs.drop_first()) {
            Some((w, rest)) => Some((seq![(cs[0] as u32) as char] + w, rest)),
            None => None,
        }
    }
}

/// Parse one word.
pub open spec fn d_word(cs: Seq<u64>) -> Option<(Seq<char>, Seq<u64>)> {
    if cs.len() == 0 {
        None
    } else if cs[0] > usize::MAX as u64 {
        None
    } else {
        d_chars(cs[0] as nat, cs.drop_first())
    }
}

/// Parse `n` words.
pub open spec fn d_words(n: nat, cs: Seq<u64>) -> Option<(Seq<Seq<char>>, Seq<u64>)>
    decreases n,
{
    if n == 0 {
        Some((Seq::empty(), cs))
    } else {
        match d_word(cs) {
            Some((w, rest)) => match d_words((n - 1) as nat, rest) {
                Some((ws, rest2)) => Some((seq![w] + ws, rest2)),
                None => None,
            },
            None => None,
        }
    }
}

/// Parse `n` edges; targets and weights must fit a `usize`.
pub open spec fn d_pairs(n: nat, cs: Seq<u64>) -> Option<(Seq<(usize, usize)>, Seq<u64>)>
    decreases n,
{
    if n == 0 {
        Some((Seq::empty(), cs))
    } else if cs.len() < 2 {
        None
    } else if cs[0] > usize::MAX as u64 || cs[1] > usize::MAX as u64 {
        None
    } else {
        match d_pairs((n - 1) as nat, cs.skip(2)) {
            Some((es, rest)) => Some((seq![(cs[0] as usize, cs[1] as usize)] + es, rest)),
            None => None,
        }
    }
}

/// Parse one node; the cached total is the recomputed weight sum, which must
/// fit a `usize`.
pub open spec fn d_node(cs: Seq<u64>) -> Option<(NodeModel, Seq<u64>)> {
    if cs.len() < 2 {
        None
    } else if cs[0] > 1 {
        None
    } else if cs[1] > usize::MAX as u64 {
        None
    } else {
        match d_pairs(cs[1] as nat, cs.skip(2)) {
            Some((es, rest)) => {
                if sum_weights(es) > usize::MAX {
                    None
                } else {
                    Some(
                        (
                            NodeModel {
                                edges: es,
                                total: sum_weights(es) as usize,
                                is_end: cs[0] == 1,
                            },
                            rest,
                        ),
                    )
                }
            },
            None => None,
        }
    }
}

/// Parse `n` nodes.
pub open spec fn d_nodes(n: nat, cs: Seq<u64>) -> Option<(Seq<NodeModel>, Seq<u64>)>
    decreases n,
{
    if n == 0 {
        Some((Seq::empty(), cs))
    } else {
        match d_node(cs) {
            Some((nd, rest)) => match d_nodes((n - 1) as nat, rest) {
                Some((ns, rest2)) => Some((seq![nd] + ns, rest2)),
                None => None,
            },
            None => None,
        }
    }
}

/// Parse `n` starter indices.
pub open spec fn d_idxs(n: nat, cs: Seq<u64>) -> Option<(Seq<usize>, Seq<u64>)>
    decreases n,
{
    if n == 0 {
        Some((Seq::empty(), cs))
    } else if cs.len() == 0 || cs[0] > usize::MAX as u64 {
        None
    } else {
        match d_idxs((n - 1) as nat, cs.drop_first()) {
            Some((vs, rest)) => Some((seq![cs[0] as usize] + vs, rest)),
            None => None,
        }
    }
}

/// Parse a whole chain from cells: counts and parts in order, nothing left
/// over, and the result must be a well-formed model.
pub open spec fn d_chain(cs: Seq<u64>) -> Option<ChainModel> {
    if cs.len() == 0 || cs[0] > usize::MAX as u64 {
        None
    } else {
        match d_words(cs[0] as nat, cs.drop_first()) {
            Some((ws, r1)) => match d_nodes(cs[0] as nat, r1) {
                Some((ns, r2)) => {
                    if r2.len() == 0 || r2[0] > usize::MAX as u64 {
                        None
                    } else {
                        match d_idxs(r2[0] as nat, r2.drop_first()) {
                            Some((ss, r3)) => {
                                let m = ChainModel { words: ws, nodes: ns, starters: ss };
                                if r3.len() == 0 && m.wf() {
                                    Some(m)
                                } else {
                                    None
                                }
                            },
                            None => None,
                        }
                    }
                },
                None => None,
            },
            None => None,
        }
    }
}

/// The whole decoder: bytes to cells to model.
pub open spec fn decode_chain(b: Seq<u8>) -> Option<ChainModel> {
    match bytes_cells(b) {
        Some(cs) => d_chain(cs),
        None => None,
    }
}

/// A model whose counts fit the machine: every word's length and every edge
/// list's length is representable. Any chain that exists in memory satisfies
/// this.
pub open spec fn encodable(m: ChainModel) -> bool {
    &&& forall|i: int| 0 <= i < m.words.len() ==> (#[trigger] m.words[i]).len() <= usize::MAX
    &&& forall|i: int|
        0 <= i < m.nodes.len() ==> (#[trigger] m.nodes[i]).edges.len() <= usize::MAX
}

proof fn lemma_d_chars_round(w: Seq<char>, rest: Seq<u64>)
    requires
        w.len() <= usize::MAX,
    ensures
        d_chars(w.len() as nat, chars_cells(w) + rest) == Some((w, rest)),
    decreases w.len(),
{
    if w.len() == 0 {
        assert(chars_cells(w) =~= Seq::<u64>::empty());
        assert(chars_cells(w) + rest =~= rest);
    } else {
        lemma_d_chars_round(w.drop_first(), rest);
        let cs = chars_cells(w) + rest;
        char_is_scalar(w[0]);
        char_u32_cast(w[0], w[0] as u32);
        assert(cs[0] == w[0] as u64);
        assert(w[0] as u64 <= 0x10FFFF);
        assert((cs[0] as u32) == w[0] as u32);
        assert(is_scalar(cs[0] as u32));
        assert(cs.drop_first() =~= chars_cells(w.drop_first()) + rest);
        assert(seq![(cs[0] as u32) as char] + w.drop_first() =~= w);
    }
}

proof fn lemma_d_word_round(w: Seq<char>, rest: Seq<u64>)
    requires
        w.len() <= usize::MAX,
    ensures
        d_word(e_word(w) + rest) == Some((w, rest)),
{
    let cs = e_word(w) + rest;
    assert(cs[0] == w.len() as u64);
    assert(cs.drop_first() =~= chars_cells(w) + rest);
    lemma_d_chars_round(w, rest);
}

proof fn lemma_d_words_round(ws: Seq<Seq<char>>, rest: Seq<u64>)
    requires
        forall|i: int| 0 <= i < ws.len() ==> (#[trigger] ws[i]).len() <= usize::MAX,
        ws.len() <= usize::MAX,
    ensures
        d_words(ws.len() as nat, e_words(ws) + rest) == Some((ws, rest)),
    decreases ws.len(),
{
    if ws.len() == 0 {
        assert(e_words(ws) + rest =~= rest);
    } else {
        lemma_d_words_round(ws.drop_first(), rest);
        let cs = e_words(ws) + rest;
        assert(cs =~= e_word(ws[0]) + (e_words(ws.drop_first()) + rest));
        lemma_d_word_round(ws[0], e_words(ws.drop_first()) + rest);
        assert(seq![ws[0]] + ws.drop_first() =~= ws);
    }
}

proof fn lemma_d_pairs_round(es: Seq<(usize, usize)>, rest: Seq<u64>)
    requires
        es.len() <= usize::MAX,
    ensures
        d_pairs(es.len() as nat, pairs_cells(es) + rest) == Some((es, rest)),
    decreases es.len(),
{
    if es.len() == 0 {
        assert(pairs_cells(es) + rest =~= rest);
    } else {
        lemma_d_pairs_round(es.drop_first(), rest);
        let cs = pairs_cells(es) + rest;
        assert(cs[0] == es[0].0 as u64);
        assert(cs[1] == es[0].1 as u64);
        assert(cs.skip(2) =~= pairs_cells(es.drop_first()) + rest);
        assert(seq![(cs[0] as usize, cs[1] as usize)] + es.drop_first() =~= es);
    }
}

proof fn lemma_d_node_round(n: NodeModel, rest: Seq<u64>)
    requires
        n.wf(),
        n.edges.len() <= usize::MAX,
    ensures
        d_node(e_node(n) + rest) == Some((n, rest)),
{
    let cs = e_node(n) + rest;
    assert(cs[0] == if n.is_end {
        1u64
    } else {
        0u64
    });
    assert(cs[1] == n.edges.len() as u64);
    assert(cs.skip(2) =~= pairs_cells(n.edges) + rest);
    lemma_d_pairs_round(n.edges, rest);
    crate::node::lemma_sum_nonneg(n.edges);
}

proof fn lemma_d_nodes_round(ns: Seq<NodeModel>, rest: Seq<u64>)
    requires
        forall|i: int| 0 <= i < ns.len() ==> (#[trigger] ns[i]).wf(),
        forall|i: int| 0 <= i < ns.len() ==> (#[trigger] ns[i]).edges.len() <= usize::MAX,
        ns.len() <= usize::MAX,
    ensures
        d_nodes(ns.len() as nat, e_nodes(ns) + rest) == Some((ns, rest)),
    decreases ns.len(),
{
    if ns.len() == 0 {
        assert(e_nodes(ns) + rest =~= rest);
    } else {
        lemma_d_nodes_round(ns.drop_first(), rest);
        let cs = e_nodes(ns) + rest;
        assert(cs =~= e_node(ns[0]) + (e_nodes(ns.drop_first()) + rest));
        lemma_d_node_round(ns[0], e_nodes(ns.drop_first()) + rest);
        assert(seq![ns[0]] + ns.drop_first() =~= ns);
    }
}

proof fn lemma_d_idxs_round(ss: Seq<usize>, rest: Seq<u64>)
    requires
        ss.len() <= usize::MAX,
    ensures
        d_idxs(ss.len() as nat, idx_cells(ss) + rest) == Some((ss, rest)),
    decreases ss.len(),
{
    if ss.len() == 0 {
        assert(idx_cells(ss) + rest =~= rest);
    } else {
        lemma_d_idxs_round(ss.drop_first(), rest);
        let cs = idx_cells(ss) + rest;
        assert(cs[0] == ss[0] as u64);
        assert(cs.drop_first() =~= idx_cells(ss.drop_first()) + rest);
        assert(seq![cs[0] as usize] + ss.drop_first() =~= ss);
    }
}

/// Law (round trip): decoding an encoded well-formed chain yields that chain
/// back, with identical words, indices, edge weights, totals, terminator
/// flags, and starter set.
pub proof fn lemma_snapshot_round_trip(m: ChainModel)
    requires
        m.wf(),
        encodable(m),
    ensures
        decode_chain(encode_chain(m)) == Some(m),
{
    lemma_cells_round_trip(e_chain(m));
    let cs = e_chain(m);
    assert(cs[0] == m.words.len() as u64);
    assert(m.starters.len() <= usize::MAX) by {
        if m.starters.len() > m.words.len() {
            crate::chain::lemma_starters_card(m);
        }
    }
    let tail = e_nodes(m.nodes) + seq![m.starters.len() as u64] + idx_cells(m.starters);
    assert(cs.drop_first() =~= e_words(m.words) + tail);
    lemma_d_words_round(m.words, tail);
    let tail2 = seq![m.starters.len() as u64] + idx_cells(m.starters);
    assert(tail =~= e_nodes(m.nodes) + tail2);
    lemma_d_nodes_round(m.nodes, tail2);
    assert(tail2[0] == m.starters.len() as u64);
    assert(tail2.drop_first() =~= idx_cells(m.starters) + Seq::<u64>::empty());
    lemma_d_idxs_round(m.starters, Seq::<u64>::empty());
}

/// Appending one word appends its cells.
proof fn lemma_e_words_snoc(ws: Seq<Seq<char>>, w: Seq<char>)
    ensures
        e_words(ws.push(w)) == e_words(ws) + e_word(w),
    decreases ws.len(),
{
    if ws.len() == 0 {
        assert(ws =~= Seq::<Seq<char>>::empty());
        assert(ws.push(w).drop_first() =~= ws);
        assert(ws.push(w)[0] == w);
        assert(e_words(ws) =~= Seq::<u64>::empty());
        assert(e_word(w) + Seq::<u64>::empty() =~= e_word(w));
        assert(e_words(ws) + e_word(w) =~= e_word(w));
    } else {
        lemma_e_words_snoc(ws.drop_first(), w);
        assert(ws.push(w).drop_first() =~= ws.drop_first().push(w));
        assert(ws.push(w)[0] == ws[0]);
        assert(e_word(ws[0]) + (e_words(ws.drop_first()) + e_word(w)) =~= (e_word(ws[0]) + e_words(
            ws.drop_first(),
        )) + e_word(w));
    }
}

/// Appending one node appends its cells.
proof fn lemma_e_nodes_snoc(ns: Seq<NodeModel>, n: NodeModel)
    ensures
        e_nodes(ns.push(n)) == e_nodes(ns) + e_node(n),
    decreases ns.len(),
{
    if ns.len() == 0 {
        assert(ns =~= Seq::<NodeModel>::empty());
        assert(ns.push(n).drop_first() =~= ns);
        assert(ns.push(n)[0] == n);
        assert(e_nodes(ns) =~= Seq::<u64>::empty());
        assert(e_nodes(ns) + e_node(n) =~= e_node(n));
        assert(e_node(n) + Seq::<u64>::empty() =~= e_node(n));
    } else {
        lemma_e_nodes_snoc(ns.drop_first(), n);
        assert(ns.push(n).drop_first() =~= ns.drop_first().push(n));
        assert(ns.push(n)[0] == ns[0]);
        assert(e_node(ns[0]) + (e_nodes(ns.drop_first()) + e_node(n)) =~= (e_node(ns[0]) + e_nodes(
            ns.drop_first(),
        )) + e_node(n));
    }
}

/// Appending one edge appends its two cells.
proof fn lemma_pairs_snoc(es: Seq<(usize, usize)>, e: (usize, usize))
    ensures
        pairs_cells(es.push(e)) == pairs_cells(es) + seq![e.0 as u64, e.1 as u64],
    decreases es.len(),
{
    let two = seq![e.0 as u64, e.1 as u64];
    if es.len() == 0 {
        assert(es =~= Seq::<(usize, usize)>::empty());
        assert(es.push(e).drop_first() =~= es);
        assert(es.push(e)[0] == e);
        assert(pairs_cells(es) =~= Seq::<u64>::empty());
        assert(pairs_cells(es) + two =~= two);
        assert(two + Seq::<u64>::empty() =~= two);
    } else {
        lemma_pairs_snoc(es.drop_first(), e);
        assert(es.push(e).drop_first() =~= es.drop_first().push(e));
        assert(es.push(e)[0] == es[0]);
        let h = seq![es[0].0 as u64, es[0].1 as u64];
        assert(h + (pairs_cells(es.drop_first()) + two) =~= (h + pairs_cells(es.drop_first()))
            + two);
    }
}

/// Appending one cell appends its eight bytes.
proof fn lemma_cells_bytes_snoc(cs: Seq<u64>, v: u64)
    ensures
        cells_bytes(cs.push(v)) == cells_bytes(cs) + u64_bytes(v),
    decreases cs.len(),
{
    if cs.len() == 0 {
        assert(cs =~= Seq::<u64>::empty());
        assert(cs.push(v).drop_first() =~= cs);
        assert(cs.push(v)[0] == v);
        assert(cells_bytes(cs) =~= Seq::<u8>::empty());
        assert(cells_bytes(cs) + u64_bytes(v) =~= u64_bytes(v));
        assert(u64_bytes(v) + Seq::<u8>::empty() =~= u64_bytes(v));
    } else {
        lemma_cells_bytes_snoc(cs.drop_first(), v);
        assert(cs.push(v).drop_first() =~= cs.drop_first().push(v));
        assert(cs.push(v)[0] == cs[0]);
        assert(u64_bytes(cs[0]) + (cells_bytes(cs.drop_first()) + u64_bytes(v)) =~= (u64_bytes(
            cs[0],
        ) + cells_bytes(cs.drop_first())) + u64_bytes(v));
    }
}

/// A snapshot that cannot be decoded: the bytes were not produced by a
/// matching encode.
#[derive(Debug, PartialEq, Eq, Structural)]
pub enum DecodeError {
    Malformed,
}

/// Push one word's cells: its character count, then its characters.
fn push_word_cells(cells: &mut Vec<u64>, w: &String)
    ensures
        final(cells)@ == old(cells)@ + e_word(w@),
{
    let len = w.as_str().unicode_len();
    cells.push(len as u64);
    let mut j: usize = 0;
    proof {
        assert(chars_cells(w@.take(0)) =~= Seq::<u64>::empty());
        assert(cells@ =~= old(cells)@ + seq![w@.len() as u64] + chars_cells(w@.take(0)));
    }
    while j < len
        invariant
            j <= len,
            len == w@.len(),
            cells@ == old(cells)@ + seq![w@.len() as u64] + chars_cells(w@.take(j as int)),
        decreases len - j,
    {
        let c = w.as_str().get_char(j);
        cells.push(c as u64);
        proof {
            assert(chars_cells(w@.take(j + 1)) =~= chars_cells(w@.take(j as int)).push(
                w@[j as int] as u64,
            ));
            assert(cells@ =~= old(cells)@ + seq![w@.len() as u64] + chars_cells(w@.take(j + 1)));
        }
        j = j + 1;
    }
    proof {
        assert(w@.take(len as int) =~= w@);
        assert(old(cells)@ + seq![w@.len() as u64] + chars_cells(w@) =~= old(cells)@ + e_word(w@));
    }
}

impl crate::chain::Chain {
    /// Serialize the whole chain into an opaque byte snapshot.
    pub fn to_bytes(&self) -> (r: Vec<u8>)
        requires
            self.wf(),
        ensures
            r@ == encode_chain(self@),
    {
        let n = self.word_count();
        let mut cells: Vec<u64> = Vec::new();
        cells.push(n as u64);
        let ghost head = seq![self@.words.len() as u64];
        let mut i: usize = 0;
        proof {
            assert(e_words(self@.words.take(0)) =~= Seq::<u64>::empty());
            assert(cells@ =~= head + e_words(self@.words.take(0)));
        }
        while i < n
            invariant
                self.wf(),
                n == self@.words.len(),
                i <= n,
                head == seq![self@.words.len() as u64],
                cells@ == head + e_words(self@.words.take(i as int)),
            decreases n - i,
        {
            let w = match self.word_at(i) {
                Some(w) => w,
                None => {
                    proof {
                        assert(false);
                    }
                    String::new()
                },
            };
            push_word_cells(&mut cells, &w);
            proof {
                lemma_e_words_snoc(self@.words.take(i as int), self@.words[i as int]);
                assert(self@.words.take(i + 1) =~= self@.words.take(i as int).push(self@.words[
                    i as int
                ]));
                assert((head + e_words(self@.words.take(i as int))) + e_word(self@.words[i as int])
                    =~= head + e_words(self@.words.take(i + 1)));
            }
            i = i + 1;
        }
        proof {
            assert(self@.words.take(n as int) =~= self@.words);
        }
        let ghost part1 = head + e_words(self@.words);
        let mut i: usize = 0;
        proof {
            assert(e_nodes(self@.nodes.take(0)) =~= Seq::<u64>::empty());
            assert(cells@ =~= part1 + e_nodes(self@.nodes.take(0)));
        }
        while i < n
            invariant
                self.wf(),
                n == self@.words.len(),
                i <= n,
                part1 == head + e_words(self@.words),
                head == seq![self@.words.len() as u64],
                cells@ == part1 + e_nodes(self@.nodes.take(i as int)),
            decreases n - i,
        {
            let node = match self.node_at(i) {
                Some(nd) => nd,
                None => {
                    proof {
                        assert(false);
                    }
                    continue ;
                },
            };
            let flag: u64 = if node.terminator_flag() {
                1
            } else {
                0
            };
            cells.push(flag);
            let pairs = node.edge_pairs();
            cells.push(pairs.len() as u64);
            let ghost nhead = part1 + e_nodes(self@.nodes.take(i as int)) + seq![
                flag,
                self@.nodes[i as int].edges.len() as u64,
            ];
            let mut t: usize = 0;
            proof {
                assert(pairs_cells(pairs@.take(0)) =~= Seq::<u64>::empty());
                assert(cells@ =~= nhead + pairs_cells(pairs@.take(0)));
            }
            while t < pairs.len()
                invariant
                    t <= pairs@.len(),
                    cells@ == nhead + pairs_cells(pairs@.take(t as int)),
                decreases pairs@.len() - t,
            {
                let (a, b) = pairs[t];
                cells.push(a as u64);
                cells.push(b as u64);
                proof {
                    lemma_pairs_snoc(pairs@.take(t as int), pairs@[t as int]);
                    assert(pairs@.take(t + 1) =~= pairs@.take(t as int).push(pairs@[t as int]));
                    assert((nhead + pairs_cells(pairs@.take(t as int))) + seq![
                        pairs@[t as int].0 as u64,
                        pairs@[t as int].1 as u64,
                    ] =~= nhead + pairs_cells(pairs@.take(t + 1)));
                }
                t = t + 1;
            }
            proof {
                assert(pairs@.take(pairs@.len() as int) =~= pairs@);
                lemma_e_nodes_snoc(self@.nodes.take(i as int), self@.nodes[i as int]);
                assert(self@.nodes.take(i + 1) =~= self@.nodes.take(i as int).push(self@.nodes[
                    i as int
                ]));
                assert(nhead + pairs_cells(self@.nodes[i as int].edges) =~= part1 + e_nodes(
                    self@.nodes.take(i as int),
                ) + e_node(self@.nodes[i as int]));
                assert(part1 + e_nodes(self@.nodes.take(i as int)) + e_node(self@.nodes[i as int])
                    =~= part1 + e_nodes(self@.nodes.take(i + 1)));
            }
            i = i + 1;
        }
        proof {
            assert(self@.nodes.take(n as int) =~= self@.nodes);
        }
        let ghost part2 = part1 + e_nodes(self@.nodes);
        let sc = self.starter_count();
        cells.push(sc as u64);
        let ghost part3 = part2 + seq![self@.starters.len() as u64];
        let mut k: usize = 0;
        proof {
            assert(idx_cells(self@.starters.take(0)) =~= Seq::<u64>::empty());
            assert(cells@ =~= part3 + idx_cells(self@.starters.take(0)));
        }
        while k < sc
            invariant
                self.wf(),
                sc == self@.starters.len(),
                k <= sc,
                part3 == part2 + seq![self@.starters.len() as u64],
                part2 == part1 + e_nodes(self@.nodes),
                part1 == head + e_words(self@.words),
                head == seq![self@.words.len() as u64],
                cells@ == part3 + idx_cells(self@.starters.take(k as int)),
            decreases sc - k,
        {
            let v = match self.starter_at(k) {
                Some(v) => v,
                None => {
                    proof {
                        assert(false);
                    }
                    0
                },
            };
            cells.push(v as u64);
            proof {
                assert(idx_cells(self@.starters.take(k + 1)) =~= idx_cells(self@.starters.take(
                    k as int,
                )).push(self@.starters[k as int] as u64));
                assert(cells@ =~= part3 + idx_cells(self@.starters.take(k + 1)));
            }
            k = k + 1;
        }
        proof {
            assert(self@.starters.take(sc as int) =~= self@.starters);
            assert(cells@ =~= e_chain(self@));
        }
        let mut out: Vec<u8> = Vec::new();
        let mut ci: usize = 0;
        proof {
            assert(cells_bytes(cells@.take(0)) =~= Seq::<u8>::empty());
        }
        while ci < cells.len()
            invariant
                ci <= cells@.len(),
                cells@ == e_chain(self@),
                out@ == cells_bytes(cells@.take(ci as int)),
            decreases cells@.len() - ci,
        {
            let v = cells[ci];
            out.push((v & 0xff) as u8);
            out.push(((v >> 8) & 0xff) as u8);
            out.push(((v >> 16) & 0xff) as u8);
            out.push(((v >> 24) & 0xff) as u8);
            out.push(((v >> 32) & 0xff) as u8);
            out.push(((v >> 40) & 0xff) as u8);
            out.push(((v >> 48) & 0xff) as u8);
            out.push(((v >> 56) & 0xff) as u8);
            proof {
                lemma_cells_bytes_snoc(cells@.take(ci as int), v);
                assert(cells@.take(ci + 1) =~= cells@.take(ci as int).push(v));
                assert(out@ =~= cells_bytes(cells@.take(ci as int)) + u64_bytes(v));
            }
            ci = ci + 1;
        }
        proof {
            assert(cells@.take(cells@.len() as int) =~= cells@);
        }
        out
    }
}

/// Bytes whose length is not a multiple of eight hold no cell list.
proof fn lemma_bytes_cells_none(b: Seq<u8>)
    requires
        b.len() % 8 != 0,
    ensures
        bytes_cells(b) is None,
    decreases b.len(),
{
    if b.len() >= 8 {
        lemma_bytes_cells_none(b.skip(8));
    }
}

fn read_chars(cells: &Vec<u64>, pos: usize, n: u64) -> (r: Option<(String, usize)>)
    requires
        pos <= cells@.len(),
    ensures
        match r {
            Some((s, p2)) => pos <= p2 <= cells@.len() && d_chars(
                n as nat,
                cells@.skip(pos as int),
            ) == Some((s@, cells@.skip(p2 as int))),
            None => d_chars(n as nat, cells@.skip(pos as int)) is None,
        },
    decreases n,
{
    if n == 0 {
        let s = String::new();
        proof {
            assert(s@ =~= Seq::<char>::empty());
        }
        Some((s, pos))
    } else if pos == cells.len() {
        proof {
            assert(cells@.skip(pos as int) =~= Seq::<u64>::empty());
        }
        None
    } else {
        let c = cells[pos];
        proof {
            assert(cells@.skip(pos as int)[0] == c);
        }
        if c > 0x10FFFF {
            return None;
        }
        match char::from_u32(c as u32) {
            None => None,
            Some(ch) => {
                match read_chars(cells, pos + 1, n - 1) {
                    Some((tail, p2)) => {
                        let mut s = String::new();
                        s.push(ch);
                        s.append(tail.as_str());
                        proof {
                            char_u32_cast(ch, c as u32);
                            assert(cells@.skip(pos as int).drop_first() =~= cells@.skip(pos + 1));
                            assert(s@ =~= seq![(c as u32) as char] + tail@);
                        }
                        Some((s, p2))
                    },
                    None => {
                        proof {
                            assert(cells@.skip(pos as int).drop_first() =~= cells@.skip(pos + 1));
                        }
                        None
                    },
                }
            },
        }
    }
}

fn read_word(cells: &Vec<u64>, pos: usize) -> (r: Option<(String, usize)>)
    requires
        pos <= cells@.len(),
    ensures
        match r {
            Some((s, p2)) => pos <= p2 <= cells@.len() && d_word(cells@.skip(pos as int)) == Some(
                (s@, cells@.skip(p2 as int)),
            ),
            None => d_word(cells@.skip(pos as int)) is None,
        },
{
    if pos == cells.len() {
        proof {
            assert(cells@.skip(pos as int) =~= Seq::<u64>::empty());
        }
        return None;
    }
    let c = cells[pos];
    proof {
        assert(cells@.skip(pos as int)[0] == c);
    }
    if c > usize::MAX as u64 {
        return None;
    }
    let r = read_chars(cells, pos + 1, c);
    proof {
        assert(cells@.skip(pos as int).drop_first() =~= cells@.skip(pos + 1));
    }
    r
}

fn read_words(cells: &Vec<u64>, pos: usize, n: u64) -> (r: Option<(Vec<String>, usize)>)
    requires
        pos <= cells@.len(),
    ensures
        match r {
            Some((ws, p2)) => pos <= p2 <= cells@.len() && ws@.len() == n && d_words(
                n as nat,
                cells@.skip(pos as int),
            ) == Some((crate::text::views_of(ws@), cells@.skip(p2 as int))),
            None => d_words(n as nat, cells@.skip(pos as int)) is None,
        },
    decreases n,
{
    if n == 0 {
        let ws: Vec<String> = Vec::new();
        proof {
            assert(crate::text::views_of(ws@) =~= Seq::<Seq<char>>::empty());
        }
        Some((ws, pos))
    } else {
        match read_word(cells, pos) {
            Some((w, p1)) => {
                match read_words(cells, p1, n - 1) {
                    Some((mut ws, p2)) => {
                        let ghost tailviews = crate::text::views_of(ws@);
                        ws.insert(0, w);
                        proof {
                            assert(crate::text::views_of(ws@) =~= seq![w@] + tailviews);
                        }
                        Some((ws, p2))
                    },
                    None => None,
                }
            },
            None => None,
        }
    }
}

fn read_pairs(cells: &Vec<u64>, pos: usize, n: u64) -> (r: Option<(Vec<(usize, usize)>, usize)>)
    requires
        pos <= cells@.len(),
    ensures
        match r {
            Some((es, p2)) => pos <= p2 <= cells@.len() && es@.len() == n && d_pairs(
                n as nat,
                cells@.skip(pos as int),
            ) == Some((es@, cells@.skip(p2 as int))),
            None => d_pairs(n as nat, cells@.skip(pos as int)) is None,
        },
    decreases n,
{
    if n == 0 {
        let es: Vec<(usize, usize)> = Vec::new();
        proof {
            assert(es@ =~= Seq::<(usize, usize)>::empty());
        }
        Some((es, pos))
    } else if cells.len() - pos < 2 {
        None
    } else {
        let a = cells[pos];
        let b = cells[pos + 1];
        proof {
            assert(cells@.skip(pos as int)[0] == a);
            assert(cells@.skip(pos as int)[1] == b);
        }
        if a > usize::MAX as u64 || b > usize::MAX as u64 {
            return None;
        }
        match read_pairs(cells, pos + 2, n - 1) {
            Some((mut es, p2)) => {
                let ghost tail = es@;
                es.insert(0, (a as usize, b as usize));
                proof {
                    assert(cells@.skip(pos as int).skip(2) =~= cells@.skip(pos + 2));
                    assert(es@ =~= seq![(a as usize, b as usize)] + tail);
                }
                Some((es, p2))
            },
            None => {
                proof {
                    assert(cells@.skip(pos as int).skip(2) =~= cells@.skip(pos + 2));
                }
                None
            },
        }
    }
}

fn read_node(cells: &Vec<u64>, pos: usize) -> (r: Option<((bool, Vec<(usize, usize)>), usize)>)
    requires
        pos <= cells@.len(),
    ensures
        match r {
            Some((p, p2)) => pos <= p2 <= cells@.len() && sum_weights(p.1@) <= usize::MAX
                && d_node(cells@.skip(pos as int)) == Some(
                (
                    NodeModel { edges: p.1@, total: sum_weights(p.1@) as usize, is_end: p.0 },
                    cells@.skip(p2 as int),
                ),
            ),
            None => d_node(cells@.skip(pos as int)) is None,
        },
{
    if cells.len() - pos < 2 {
        return None;
    }
    let f = cells[pos];
    let cnt = cells[pos + 1];
    proof {
        assert(cells@.skip(pos as int)[0] == f);
        assert(cells@.skip(pos as int)[1] == cnt);
    }
    if f > 1 {
        return None;
    }
    if cnt > usize::MAX as u64 {
        return None;
    }
    match read_pairs(cells, pos + 2, cnt) {
        Some((es, p2)) => {
            proof {
                assert(cells@.skip(pos as int).skip(2) =~= cells@.skip(pos + 2));
            }
            let mut acc: usize = 0;
            let mut i: usize = 0;
            let m = es.len();
            proof {
                assert(es@.take(0) =~= Seq::<(usize, usize)>::empty());
            }
            while i < m
                invariant
                    m == es@.len(),
                    i <= m,
                    acc == sum_weights(es@.take(i as int)),
                    pos <= cells@.len(),
                    cells@.skip(pos as int).len() >= 2,
                    cells@.skip(pos as int)[0] == f,
                    f <= 1,
                    cells@.skip(pos as int)[1] == cnt,
                    cnt <= usize::MAX as u64,
                    d_pairs(cnt as nat, cells@.skip(pos as int).skip(2)) == Some(
                        (es@, cells@.skip(p2 as int)),
                    ),
                decreases m - i,
            {
                let w = es[i].1;
                proof {
                    crate::node::lemma_sum_take_step_pub(es@, i as int);
                }
                if w > usize::MAX - acc {
                    proof {
                        crate::node::lemma_sum_grows(es@, i + 1);
                    }
                    return None;
                }
                acc = acc + w;
                i = i + 1;
            }
            proof {
                assert(es@.take(m as int) =~= es@);
            }
            Some(((f == 1, es), p2))
        },
        None => {
            proof {
                assert(cells@.skip(pos as int).skip(2) =~= cells@.skip(pos + 2));
            }
            None
        },
    }
}

fn read_nodes(cells: &Vec<u64>, pos: usize, n: u64) -> (r: Option<
    (Vec<(bool, Vec<(usize, usize)>)>, usize),
>)
    requires
        pos <= cells@.len(),
    ensures
        match r {
            Some((ns, p2)) => pos <= p2 <= cells@.len() && ns@.len() == n && (forall|j: int|
                0 <= j < ns@.len() ==> sum_weights((#[trigger] ns@[j]).1@) <= usize::MAX)
                && d_nodes(
                n as nat,
                cells@.skip(pos as int),
            ) == Some(
                (
                    ns@.map_values(
                        |p: (bool, Vec<(usize, usize)>)|
                            NodeModel {
                                edges: p.1@,
                                total: sum_weights(p.1@) as usize,
                                is_end: p.0,
                            },
                    ),
                    cells@.skip(p2 as int),
                ),
            ),
            None => d_nodes(n as nat, cells@.skip(pos as int)) is None,
        },
    decreases n,
{
    if n == 0 {
        let ns: Vec<(bool, Vec<(usize, usize)>)> = Vec::new();
        proof {
            assert(ns@.map_values(
                |p: (bool, Vec<(usize, usize)>)|
                    NodeModel { edges: p.1@, total: sum_weights(p.1@) as usize, is_end: p.0 },
            ) =~= Seq::<NodeModel>::empty());
        }
        Some((ns, pos))
    } else {
        match read_node(cells, pos) {
            Some((nd, p1)) => {
                match read_nodes(cells, p1, n - 1) {
                    Some((mut ns, p2)) => {
                        let ghost tail = ns@.map_values(
                            |p: (bool, Vec<(usize, usize)>)|
                                NodeModel {
                                    edges: p.1@,
                                    total: sum_weights(p.1@) as usize,
                                    is_end: p.0,
                                },
                        );
                        let ghost ndm = NodeModel {
                            edges: nd.1@,
                            total: sum_weights(nd.1@) as usize,
                            is_end: nd.0,
                        };
                        let ghost oldns = ns@;
                        ns.insert(0, nd);
                        proof {
                            assert(ns@.map_values(
                                |p: (bool, Vec<(usize, usize)>)|
                                    NodeModel {
                                        edges: p.1@,
                                        total: sum_weights(p.1@) as usize,
                                        is_end: p.0,
                                    },
                            ) =~= seq![ndm] + tail);
                            assert forall|j: int| 0 <= j < ns@.len() implies sum_weights(
                                (#[trigger] ns@[j]).1@,
                            ) <= usize::MAX by {
                                if j > 0 {
                                    assert(ns@[j] == oldns[j - 1]);
                                }
                            }
                        }
                        Some((ns, p2))
                    },
                    None => None,
                }
            },
            None => None,
        }
    }
}

fn read_idxs(cells: &Vec<u64>, pos: usize, n: u64) -> (r: Option<(Vec<usize>, usize)>)
    requires
        pos <= cells@.len(),
    ensures
        match r {
            Some((ss, p2)) => pos <= p2 <= cells@.len() && ss@.len() == n && d_idxs(
                n as nat,
                cells@.skip(pos as int),
            ) == Some((ss@, cells@.skip(p2 as int))),
            None => d_idxs(n as nat, cells@.skip(pos as int)) is None,
        },
    decreases n,
{
    if n == 0 {
        let ss: Vec<usize> = Vec::new();
        proof {
            assert(ss@ =~= Seq::<usize>::empty());
        }
        Some((ss, pos))
    } else if pos == cells.len() {
        proof {
            assert(cells@.skip(pos as int) =~= Seq::<u64>::empty());
        }
        None
    } else {
        let c = cells[pos];
        proof {
            assert(cells@.skip(pos as int)[0] == c);
        }
        if c > usize::MAX as u64 {
            return None;
        }
        match read_idxs(cells, pos + 1, n - 1) {
            Some((mut ss, p2)) => {
                let ghost tail = ss@;
                ss.insert(0, c as usize);
                proof {
                    assert(cells@.skip(pos as int).drop_first() =~= cells@.skip(pos + 1));
                    assert(ss@ =~= seq![c as usize] + tail);
                }
                Some((ss, p2))
            },
            None => {
                proof {
                    assert(cells@.skip(pos as int).drop_first() =~= cells@.skip(pos + 1));
                }
                None
            },
        }
    }
}

impl crate::chain::Chain {
    /// Deserialize a snapshot: all-or-nothing, `Err` exactly on bytes that no
    /// well-formed chain encodes to.
    #[verifier::rlimit(80)]
    pub fn from_bytes(bytes: &[u8]) -> (r: Result<crate::chain::Chain, DecodeError>)
        ensures
            r matches Ok(c) ==> c.wf() && decode_chain(bytes@) == Some(c@),
            r is Err <==> decode_chain(bytes@) is None,
    {
        let blen = bytes.len();
        if blen % 8 != 0 {
            proof {
                lemma_bytes_cells_none(bytes@);
            }
            return Err(DecodeError::Malformed);
        }
        let mut cells: Vec<u64> = Vec::new();
        let mut i: usize = 0;
        proof {
            assert(bytes@.skip(0) =~= bytes@);
            assert(cells@ =~= Seq::<u64>::empty());
            if bytes_cells(bytes@) is Some {
                let rest = bytes_cells(bytes@)->Some_0;
                assert(cells@ + rest =~= rest);
            }
        }
        while i < blen
            invariant
                blen == bytes@.len(),
                i <= blen,
                i % 8 == 0,
                blen % 8 == 0,
                bytes_cells(bytes@) == (match bytes_cells(bytes@.skip(i as int)) {
                    Some(rest) => Some(cells@ + rest),
                    None => None::<Seq<u64>>,
                }),
            decreases blen - i,
        {
            let v: u64 = (bytes[i] as u64) | ((bytes[i + 1] as u64) << 8) | ((bytes[i + 2] as u64)
                << 16) | ((bytes[i + 3] as u64) << 24) | ((bytes[i + 4] as u64) << 32) | ((bytes[i
                + 5] as u64) << 40) | ((bytes[i + 6] as u64) << 48) | ((bytes[i + 7] as u64) << 56);
            let ghost suf = bytes@.skip(i as int);
            proof {
                assert(suf.len() >= 8);
                assert forall|k: int| 0 <= k < 8 implies suf[k] == bytes@[i + k] by {}
                assert(v == u64_of_bytes(suf.take(8)));
                assert(suf.skip(8) =~= bytes@.skip(i + 8));
            }
            cells.push(v);
            proof {
                if bytes_cells(bytes@.skip(i + 8)) is Some {
                    let rest = bytes_cells(bytes@.skip(i + 8))->Some_0;
                    assert(cells@ + rest =~= cells@.drop_last() + (seq![v] + rest));
                }
            }
            i = i + 8;
        }
        proof {
            assert(bytes@.skip(blen as int) =~= Seq::<u8>::empty());
            assert(bytes_cells(bytes@) == Some(cells@)) by {
                assert(cells@ + Seq::<u64>::empty() =~= cells@);
            }
        }
        let clen = cells.len();
        if clen == 0 {
            proof {
                assert(cells@.skip(0) =~= cells@);
            }
            return Err(DecodeError::Malformed);
        }
        let n = cells[0];
        proof {
            assert(cells@.skip(0) =~= cells@);
            assert(cells@[0] == n);
        }
        if n > usize::MAX as u64 {
            return Err(DecodeError::Malformed);
        }
        let ghost cs = cells@;
        proof {
            assert(cs.skip(0).drop_first() =~= cs.skip(1));
        }
        let (words, p1) = match read_words(&cells, 1, n) {
            Some(x) => x,
            None => {
                return Err(DecodeError::Malformed);
            },
        };
        let (nodes_raw, p2) = match read_nodes(&cells, p1, n) {
            Some(x) => x,
            None => {
                return Err(DecodeError::Malformed);
            },
        };
        if p2 == clen {
            proof {
                assert(cs.skip(p2 as int) =~= Seq::<u64>::empty());
            }
            return Err(DecodeError::Malformed);
        }
        let sc = cells[p2];
        proof {
            assert(cs.skip(p2 as int)[0] == sc);
        }
        if sc > usize::MAX as u64 {
            return Err(DecodeError::Malformed);
        }
        proof {
            assert(cs.skip(p2 as int).drop_first() =~= cs.skip(p2 + 1));
        }
        let (starters, p3) = match read_idxs(&cells, p2 + 1, sc) {
            Some(x) => x,
            None => {
                return Err(DecodeError::Malformed);
            },
        };
        let ghost dm = ChainModel {
            words: crate::text::views_of(words@),
            nodes: nodes_raw@.map_values(
                |p: (bool, Vec<(usize, usize)>)|
                    NodeModel { edges: p.1@, total: sum_weights(p.1@) as usize, is_end: p.0 },
            ),
            starters: starters@,
        };
        if p3 != clen {
            proof {
                assert(cs.skip(p3 as int).len() > 0);
            }
            return Err(DecodeError::Malformed);
        }
        proof {
            assert(cs.skip(p3 as int) =~= Seq::<u64>::empty());
            assert(d_chain(cs) == (if dm.wf() {
                Some(dm)
            } else {
                None::<ChainModel>
            }));
        }
        match crate::chain::Chain::from_parts(&words, &nodes_raw, &starters) {
            Some(c) => {
                proof {
                    lemma_parts_ok_is_wf(words@, nodes_raw@, starters@);
                }
                Ok(c)
            },
            None => {
                proof {
                    lemma_parts_ok_is_wf(words@, nodes_raw@, starters@);
                }
                Err(DecodeError::Malformed)
            },
        }
    }
}

/// Parts assemble exactly when their model is well-formed, given that every
/// node's weight sum is representable.
proof fn lemma_parts_ok_is_wf(
    words: Seq<String>,
    ns: Seq<(bool, Vec<(usize, usize)>)>,
    ss: Seq<usize>,
)
    requires
        words.len() == ns.len(),
        words.len() <= usize::MAX,
        forall|i: int| 0 <= i < ns.len() ==> sum_weights((#[trigger] ns[i]).1@) <= usize::MAX,
    ensures
        crate::chain::parts_ok(crate::text::views_of(words), ns, ss) == crate::chain::parts_model(
            crate::text::views_of(words),
            ns,
            ss,
        ).wf(),
{
    let ws = crate::text::views_of(words);
    let m = crate::chain::parts_model(ws, ns, ss);
    assert(m.nodes.len() == ns.len());
    assert(m.words == ws);
    assert(m.starters == ss);
    assert(ws.len() == words.len());
    if crate::chain::parts_ok(ws, ns, ss) {
        assert forall|i: int| 0 <= i < m.nodes.len() implies (#[trigger] m.nodes[i]).wf()
            && m.nodes[i].targets_below(m.words.len() as int) by {
            assert(m.nodes[i].edges == ns[i].1@);
            crate::node::lemma_sum_nonneg(ns[i].1@);
        }
        assert(m.wf());
    }
    if m.wf() {
        assert forall|i: int, a: int, b: int|
            0 <= i < ns.len() && 0 <= a < b < ns[i].1@.len() implies (#[trigger] ns[i].1@[a]).0
            != (#[trigger] ns[i].1@[b]).0 by {
            assert(m.nodes[i].wf());
            assert(m.nodes[i].edges == ns[i].1@);
        }
        assert forall|i: int, a: int|
            0 <= i < ns.len() && 0 <= a < ns[i].1@.len() implies (#[trigger] ns[i].1@[a]).1 >= 1
            && ns[i].1@[a].0 < ws.len() by {
            assert(m.nodes[i].wf());
            assert(m.nodes[i].targets_below(m.words.len() as int));
            assert(m.nodes[i].edges == ns[i].1@);
        }
        assert(crate::chain::parts_ok(ws, ns, ss));
    }
}

} // verus!
