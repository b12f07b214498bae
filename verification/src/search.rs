//! Breadth-first search over boards and solution-path reconstruction.
//!
//! The search runs round by round, as many rounds as the budget allows:
//! every board of the current round is checked and expanded before any
//! board of the next round, so the first solved board found lies at the
//! smallest possible number of moves from the start.  Each discovered
//! board remembers its predecessor; the path is rebuilt by walking the
//! predecessor chain and reversing it.
use std::collections::HashSet;
use vstd::prelude::*;

use crate::board::{
    consistent, lemma_move_preserves_wf, lemma_one_move_consistent, one_move, spec_is_solved, wf,
    Board,
};

verus! {

broadcast use vstd::std_specs::hash::group_hash_axioms;

/// The search gives up on boards this many moves or more from the start.
pub const ROUND_LIMIT: usize = 120;

/// One discovered board: the board itself, the index of the board it was
/// reached from, and its distance in moves from the start.
#[derive(Clone, Copy)]
struct Node {
    board: Board,
    parent: usize,
    depth: usize,
}

/// The discovery list is well formed: the first node is the root, and
/// every later node extends an earlier node by one legal move.
spec fn nodes_ok(ns: Seq<Node>) -> bool {
    &&& ns.len() >= 1
    &&& ns[0].depth == 0
    &&& forall|j: int|
        1 <= j < ns.len() ==> {
            &&& (#[trigger] ns[j]).parent < j
            &&& one_move(ns[ns[j].parent as int].board, ns[j].board)
            &&& ns[j].depth == ns[ns[j].parent as int].depth + 1
        }
}

/// `path` starts at `start` and every consecutive pair of boards is one
/// legal slide apart.
pub open spec fn valid_path(path: Seq<Board>, start: Board) -> bool {
    &&& path.len() >= 1
    &&& path[0] == start
    &&& forall|i: int| 0 <= i < path.len() - 1 ==> one_move(path[i], #[trigger] path[i + 1])
}

/// Along a valid path from a well-formed board, every board is well
/// formed: each slide preserves the construction invariants.
pub proof fn lemma_path_preserves_wf(path: Seq<Board>, start: Board)
    requires
        valid_path(path, start),
        wf(start),
    ensures
        forall|i: int| 0 <= i < path.len() ==> wf(#[trigger] path[i]),
    decreases path.len(),
{
    if path.len() > 1 {
        let prefix = path.drop_last();
        assert(prefix.len() == path.len() - 1);
        assert(forall|i: int| 0 <= i < prefix.len() ==> prefix[i] == path[i]);
        lemma_path_preserves_wf(prefix, start);
        let i: int = path.len() - 2;
        assert(wf(path[i]));
        assert(one_move(path[i], path[i + 1]));
        lemma_move_preserves_wf(path[i], path[i + 1]);
    }
}

/// The four anchor masks packed into disjoint 32-bit ranges of one word.
/// Boards are compared by their anchors; the occupancy mask is derived,
/// so on consistent boards the key determines the board.
spec fn key_of(b: Board) -> u128 {
    (b.p_2x2 as u128) | ((b.p_2x1 as u128) << 32) | ((b.p_1x2 as u128) << 64) | ((b.p_1x1 as u128)
        << 96)
}

/// Pack the four anchor masks into one word for the visited set.
fn board_key(b: Board) -> (k: u128)
    ensures
        k == key_of(b),
{
    (b.p_2x2 as u128) | ((b.p_2x1 as u128) << 32) | ((b.p_1x2 as u128) << 64) | ((b.p_1x1 as u128)
        << 96)
}

/// The key is injective on consistent boards: the four 32-bit anchor
/// fields occupy disjoint ranges of the word, and the occupancy mask is
/// a function of the anchors.
proof fn lemma_key_injective(a: Board, b: Board)
    requires
        key_of(a) == key_of(b),
        consistent(a),
        consistent(b),
    ensures
        a == b,
{
    let a22: u32 = a.p_2x2;
    let a21: u32 = a.p_2x1;
    let a12: u32 = a.p_1x2;
    let a11: u32 = a.p_1x1;
    let b22: u32 = b.p_2x2;
    let b21: u32 = b.p_2x1;
    let b12: u32 = b.p_1x2;
    let b11: u32 = b.p_1x1;
    assert(((a22 as u128) | ((a21 as u128) << 32) | ((a12 as u128) << 64) | ((a11 as u128) << 96))
        == ((b22 as u128) | ((b21 as u128) << 32) | ((b12 as u128) << 64) | ((b11 as u128) << 96))
        ==> (a22 == b22 && a21 == b21 && a12 == b12 && a11 == b11)) by (bit_vector);
}

/// Some node holds board `b` at depth at most `d`.
spec fn found_within(ns: Seq<Node>, b: Board, d: int) -> bool {
    exists|j: int| 0 <= j < ns.len() && (#[trigger] ns[j]).board == b && ns[j].depth <= d
}

/// Some node holds a consistent board whose key is `k`.
spec fn key_in_nodes(ns: Seq<Node>, k: u128) -> bool {
    exists|j: int|
        0 <= j < ns.len() && consistent((#[trigger] ns[j]).board) && key_of(ns[j].board) == k
}

/// The discovery store is sound: the list is a well-formed forest rooted
/// at `start`, every board after the root is consistent, depths stay
/// within `maxd`, the visited set holds exactly the keys of the stored
/// consistent boards, and no board is stored twice.
#[verifier::opaque]
spec fn store_ok(ns: Seq<Node>, seen: Set<u128>, start: Board, maxd: int) -> bool {
    &&& nodes_ok(ns)
    &&& ns[0].board == start
    &&& forall|j: int| 1 <= j < ns.len() ==> consistent((#[trigger] ns[j]).board)
    &&& forall|j: int| 0 <= j < ns.len() ==> (#[trigger] ns[j]).depth <= maxd
    &&& forall|j: int|
        0 <= j < ns.len() && consistent((#[trigger] ns[j]).board) ==> seen.contains(
            key_of(ns[j].board),
        )
    &&& forall|k: u128| seen.contains(k) ==> key_in_nodes(ns, k)
    &&& forall|j1: int, j2: int|
        0 <= j1 < j2 < ns.len() ==> (#[trigger] ns[j1]).board != (#[trigger] ns[j2]).board
}

/// The conjuncts of a sound store, spelled out for its clients.
proof fn lemma_store_parts(ns: Seq<Node>, seen: Set<u128>, start: Board, maxd: int)
    requires
        store_ok(ns, seen, start, maxd),
    ensures
        nodes_ok(ns),
        ns[0].board == start,
        forall|j: int| 0 <= j < ns.len() ==> (#[trigger] ns[j]).depth <= maxd,
        forall|j1: int, j2: int|
            0 <= j1 < j2 < ns.len() ==> (#[trigger] ns[j1]).board != (#[trigger] ns[j2]).board,
{
    reveal(store_ok);
}

/// The depth bound of a sound store can be relaxed.
proof fn lemma_store_relax(ns: Seq<Node>, seen: Set<u128>, start: Board, d1: int, d2: int)
    requires
        store_ok(ns, seen, start, d1),
        d1 <= d2,
    ensures
        store_ok(ns, seen, start, d2),
{
    reveal(store_ok);
}

/// If every node closer than `cut` moves has all its successors recorded,
/// then the `i`-th board of any valid path from the root is recorded at
/// depth at most `i`.
proof fn lemma_prefix_found(ns: Seq<Node>, start: Board, q: Seq<Board>, i: int, cut: int)
    requires
        ns.len() >= 1,
        ns[0].board == start,
        ns[0].depth == 0,
        forall|j: int, b: Board|
            0 <= j < ns.len() && ns[j].depth < cut && #[trigger] one_move(ns[j].board, b)
                ==> found_within(ns, b, ns[j].depth + 1),
        valid_path(q, start),
        0 <= i < q.len(),
        i <= cut,
    ensures
        found_within(ns, q[i], i),
    decreases i,
{
    if i == 0 {
        assert(ns[0].board == q[0] && ns[0].depth <= 0);
    } else {
        lemma_prefix_found(ns, start, q, i - 1, cut);
        let j = choose|j: int| 0 <= j < ns.len() && ns[j].board == q[i - 1] && ns[j].depth <= i - 1;
        let ii: int = i - 1;
        assert(one_move(q[ii], q[ii + 1]));
        assert(one_move(ns[j].board, q[i]));
        assert(found_within(ns, q[i], ns[j].depth + 1));
        let j2 = choose|j2: int|
            0 <= j2 < ns.len() && ns[j2].board == q[i] && ns[j2].depth <= ns[j].depth + 1;
        assert(ns[j2].depth <= i);
    }
}

/// If every node closer than `bound` moves is expanded and unsolved,
/// then no valid path of at most `bound` boards ends solved.
proof fn lemma_no_short_solution(ns: Seq<Node>, start: Board, bound: int)
    requires
        ns.len() >= 1,
        ns[0].board == start,
        ns[0].depth == 0,
        forall|j: int, b: Board|
            0 <= j < ns.len() && ns[j].depth < bound && #[trigger] one_move(ns[j].board, b)
                ==> found_within(ns, b, ns[j].depth + 1),
        forall|j: int|
            0 <= j < ns.len() && (#[trigger] ns[j]).depth < bound ==> !spec_is_solved(ns[j].board),
    ensures
        forall|q: Seq<Board>|
            valid_path(q, start) && q.len() <= bound ==> !spec_is_solved(q[q.len() - 1]),
{
    assert forall|q: Seq<Board>| valid_path(q, start) && q.len() <= bound implies !spec_is_solved(
        q[q.len() - 1],
    ) by {
        if spec_is_solved(q[q.len() - 1]) {
            lemma_prefix_found(ns, start, q, q.len() - 1, bound);
            let j = choose|j: int|
                0 <= j < ns.len() && ns[j].board == q[q.len() - 1] && ns[j].depth <= q.len() - 1;
            assert(!spec_is_solved(ns[j].board));
        }
    }
}

/// A node whose successor list is fully recorded has every one-move
/// successor recorded.
proof fn lemma_expansion_done(ns: Seq<Node>, nb: Board, succ: Seq<Board>, bound: int)
    requires
        forall|b: Board| #[trigger] one_move(nb, b) ==> succ.contains(b),
        forall|si: int| 0 <= si < succ.len() ==> found_within(ns, #[trigger] succ[si], bound),
    ensures
        forall|b: Board| #[trigger] one_move(nb, b) ==> found_within(ns, b, bound),
{
    assert forall|b: Board| #[trigger] one_move(nb, b) implies found_within(ns, b, bound) by {
        assert(succ.contains(b));
        let si = choose|si: int| 0 <= si < succ.len() && succ[si] == b;
        assert(found_within(ns, succ[si], bound));
    }
}

/// Rebuild the board sequence from the root to `nodes[idx]` by walking
/// the predecessor chain backwards, then reversing it.
fn build_path(nodes: &Vec<Node>, idx: usize) -> (path: Vec<Board>)
    requires
        nodes_ok(nodes@),
        idx < nodes@.len(),
        forall|j1: int, j2: int|
            0 <= j1 < j2 < nodes@.len() ==> (#[trigger] nodes@[j1]).board != (#[trigger] nodes@[j2]).board,
    ensures
        path@.len() == nodes@[idx as int].depth + 1,
        path@[0] == nodes@[0].board,
        path@[path@.len() - 1] == nodes@[idx as int].board,
        forall|i: int| 0 <= i < path@.len() - 1 ==> one_move(path@[i], #[trigger] path@[i + 1]),
        forall|i1: int, i2: int| 0 <= i1 < i2 < path@.len() ==> path@[i1] != path@[i2],
{
    let mut rev: Vec<Board> = Vec::new();
    let mut cur: usize = idx;
    rev.push(nodes[cur].board);
    let ghost mut idxs: Seq<int> = seq![idx as int];
    while cur != 0
        invariant
            nodes_ok(nodes@),
            idx < nodes@.len(),
            cur < nodes@.len(),
            rev@.len() >= 1,
            rev@.len() + nodes@[cur as int].depth == nodes@[idx as int].depth + 1,
            rev@[0] == nodes@[idx as int].board,
            rev@[rev@.len() - 1] == nodes@[cur as int].board,
            forall|i: int| 0 <= i < rev@.len() - 1 ==> one_move(rev@[i + 1], #[trigger] rev@[i]),
            idxs.len() == rev@.len(),
            forall|k: int|
                0 <= k < idxs.len() ==> 0 <= #[trigger] idxs[k] < nodes@.len() && rev@[k]
                    == nodes@[idxs[k]].board,
            forall|k1: int, k2: int| 0 <= k1 < k2 < idxs.len() ==> idxs[k1] > idxs[k2],
            idxs[idxs.len() - 1] == cur,
        decreases nodes@[cur as int].depth,
    {
        cur = nodes[cur].parent;
        rev.push(nodes[cur].board);
        proof {
            idxs = idxs.push(cur as int);
        }
    }
    let n: usize = rev.len();
    let mut path: Vec<Board> = Vec::new();
    let mut t: usize = 0;
    while t < n
        invariant
            n == rev@.len(),
            t <= n,
            path@.len() == t,
            forall|q: int| 0 <= q < t ==> #[trigger] path@[q] == rev@[n - 1 - q],
        decreases n - t,
    {
        path.push(rev[n - 1 - t]);
        t = t + 1;
    }
    proof {
        assert forall|i1: int, i2: int| 0 <= i1 < i2 < path@.len() implies path@[i1]
            != path@[i2] by {
            assert(path@[i1] == rev@[n - 1 - i1] && rev@[n - 1 - i1] == nodes@[idxs[n - 1
                - i1]].board);
            assert(path@[i2] == rev@[n - 1 - i2] && rev@[n - 1 - i2] == nodes@[idxs[n - 1
                - i2]].board);
            assert(idxs[n - 1 - i2] > idxs[n - 1 - i1]);
        }
    }
    path
}

/// Record every one-move successor of `nodes[cur]` that has not been
/// seen yet, at depth `round + 1`, and list each new node in `next`.
fn expand_node(
    nodes: &mut Vec<Node>,
    seen: &mut HashSet<u128>,
    next: &mut Vec<usize>,
    cur: usize,
    round: usize,
    Ghost(start): Ghost<Board>,
)
    requires
        store_ok(old(nodes)@, old(seen)@, start, round + 1),
        round < ROUND_LIMIT,
        cur < old(nodes)@.len(),
        old(nodes)@[cur as int].depth == round,
        forall|ni: int|
            0 <= ni < old(next)@.len() ==> #[trigger] old(next)@[ni] < old(nodes)@.len() && old(
                nodes,
            )@[old(next)@[ni] as int].depth == round + 1,
        forall|j: int|
            0 <= j < old(nodes)@.len() && (#[trigger] old(nodes)@[j]).depth == round + 1
                ==> exists|ni: int| 0 <= ni < old(next)@.len() && old(next)@[ni] == j,
    ensures
        store_ok(final(nodes)@, final(seen)@, start, round + 1),
        old(nodes)@.len() <= final(nodes)@.len(),
        forall|j: int| 0 <= j < old(nodes)@.len() ==> #[trigger] final(nodes)@[j] == old(nodes)@[j],
        forall|j: int|
            old(nodes)@.len() <= j < final(nodes)@.len() ==> (#[trigger] final(nodes)@[j]).depth
                == round + 1,
        forall|ni: int|
            0 <= ni < final(next)@.len() ==> #[trigger] final(next)@[ni] < final(nodes)@.len()
                && final(nodes)@[final(next)@[ni] as int].depth == round + 1,
        forall|j: int|
            0 <= j < final(nodes)@.len() && (#[trigger] final(nodes)@[j]).depth == round + 1
                ==> exists|ni: int| 0 <= ni < final(next)@.len() && final(next)@[ni] == j,
        forall|b: Board|
            #[trigger] one_move(old(nodes)@[cur as int].board, b) ==> found_within(
                final(nodes)@,
                b,
                round + 1,
            ),
        forall|b: Board, d: int|
            #[trigger] found_within(old(nodes)@, b, d) ==> found_within(final(nodes)@, b, d),
{
    proof {
        reveal(store_ok);
    }
    let ghost ns_in = nodes@;
    let node: Node = nodes[cur];
    let succ: Vec<Board> = node.board.follow();
    let mut k: usize = 0;
    while k < succ.len()
        invariant
            nodes_ok(nodes@),
            round < ROUND_LIMIT,
            k <= succ@.len(),
            cur < ns_in.len(),
            ns_in[cur as int] == node,
            node.depth == round,
            ns_in.len() <= nodes@.len(),
            forall|j: int| 0 <= j < ns_in.len() ==> #[trigger] nodes@[j] == ns_in[j],
            forall|j: int|
                ns_in.len() <= j < nodes@.len() ==> (#[trigger] nodes@[j]).depth == round + 1
                    && consistent(nodes@[j].board),
            forall|j: int| 1 <= j < nodes@.len() ==> consistent((#[trigger] nodes@[j]).board),
            forall|j: int| 0 <= j < nodes@.len() ==> (#[trigger] nodes@[j]).depth <= round + 1,
            forall|j: int|
                0 <= j < nodes@.len() && consistent((#[trigger] nodes@[j]).board)
                    ==> seen@.contains(key_of(nodes@[j].board)),
            forall|k2: u128| seen@.contains(k2) ==> key_in_nodes(nodes@, k2),
            forall|j1: int, j2: int|
                0 <= j1 < j2 < nodes@.len() ==> (#[trigger] nodes@[j1]).board
                    != (#[trigger] nodes@[j2]).board,
            forall|ni: int|
                0 <= ni < next@.len() ==> #[trigger] next@[ni] < nodes@.len()
                    && nodes@[next@[ni] as int].depth == round + 1,
            forall|j: int|
                0 <= j < nodes@.len() && (#[trigger] nodes@[j]).depth == round + 1 ==> exists|
                    ni: int,
                |
                    0 <= ni < next@.len() && next@[ni] == j,
            forall|j: int| 0 <= j < succ@.len() ==> one_move(node.board, #[trigger] succ@[j]),
            forall|si: int|
                0 <= si < k ==> found_within(nodes@, #[trigger] succ@[si], round + 1),
            forall|b: Board, d: int|
                #[trigger] found_within(ns_in, b, d) ==> found_within(nodes@, b, d),
        decreases succ@.len() - k,
    {
        let s: Board = succ[k];
        proof {
            lemma_one_move_consistent(node.board, s);
        }
        let ghost ns0 = nodes@;
        if seen.insert(board_key(s)) {
            nodes.push(Node { board: s, parent: cur, depth: round + 1 });
            let ghost nx0 = next@;
            next.push(nodes.len() - 1);
            proof {
                assert forall|j: int|
                    0 <= j < nodes@.len() && (#[trigger] nodes@[j]).depth == round
                        + 1 implies exists|ni: int| 0 <= ni < next@.len() && next@[ni] == j by {
                    if j == nodes@.len() - 1 {
                        assert(next@[next@.len() - 1] == j);
                    } else {
                        let ni = choose|ni: int| 0 <= ni < nx0.len() && nx0[ni] == j;
                        assert(next@[ni] == nx0[ni]);
                    }
                }
                assert forall|b2: Board, d: int| #[trigger] found_within(
                    ns0,
                    b2,
                    d,
                ) implies found_within(nodes@, b2, d) by {
                    let j = choose|j: int|
                        0 <= j < ns0.len() && ns0[j].board == b2 && ns0[j].depth <= d;
                    assert(nodes@[j] == ns0[j]);
                }
                assert forall|k2: u128| key_in_nodes(ns0, k2) implies key_in_nodes(
                    nodes@,
                    k2,
                ) by {
                    let j = choose|j: int|
                        0 <= j < ns0.len() && consistent(ns0[j].board) && key_of(ns0[j].board)
                            == k2;
                    assert(nodes@[j] == ns0[j]);
                }
                let ghost nj = nodes@.len() - 1;
                assert(nodes@[nj].board == s && nodes@[nj].depth <= round + 1);
                assert(found_within(nodes@, s, round + 1));
                assert(key_in_nodes(nodes@, key_of(s)));
                assert forall|j1: int, j2: int| 0 <= j1 < j2 < nodes@.len() implies nodes@[j1].board
                    != nodes@[j2].board by {
                    if j2 == nj && nodes@[j1].board == s {
                        if j1 == 0 && !consistent(ns0[0].board) {
                            assert(consistent(s));
                        } else {
                            assert(seen@.contains(key_of(s)));
                        }
                    }
                }
            }
        } else {
            proof {
                assert(seen@.contains(key_of(s)));
                let j = choose|j: int|
                    0 <= j < nodes@.len() && consistent(nodes@[j].board) && key_of(nodes@[j].board)
                        == key_of(s);
                lemma_key_injective(nodes@[j].board, s);
                assert(nodes@[j].board == s && nodes@[j].depth <= round + 1);
                assert(found_within(nodes@, s, round + 1));
            }
        }
        k = k + 1;
    }
    proof {
        lemma_expansion_done(nodes@, node.board, succ@, round + 1);
        reveal(store_ok);
    }
}

/// Breadth-first search from `start`.  `Some(path)` is a shortest
/// sequence of pairwise distinct boards from `start` to a solved board,
/// each consecutive pair one legal slide apart, of at most `ROUND_LIMIT`
/// boards: no valid path from `start` to a solved board is shorter.
/// `None` is returned exactly when no valid path of at most `ROUND_LIMIT`
/// boards reaches a solved board.
#[verifier::rlimit(100)]
#[verifier::spinoff_prover]
pub fn search(start: Board) -> (r: Option<Vec<Board>>)
    ensures
        match r {
            Some(path) => {
                &&& valid_path(path@, start)
                &&& spec_is_solved(path@[path@.len() - 1])
                &&& path@.len() <= ROUND_LIMIT
                &&& forall|q: Seq<Board>|
                    valid_path(q, start) && spec_is_solved(q[q.len() - 1]) ==> path@.len()
                        <= q.len()
                &&& forall|i1: int, i2: int| 0 <= i1 < i2 < path@.len() ==> path@[i1] != path@[i2]
            },
            None => forall|q: Seq<Board>|
                valid_path(q, start) && q.len() <= ROUND_LIMIT ==> !spec_is_solved(
                    q[q.len() - 1],
                ),
        },
        spec_is_solved(start) ==> r is Some,
{
    let mut nodes: Vec<Node> = Vec::new();
    nodes.push(Node { board: start, parent: 0, depth: 0 });
    let mut seen: HashSet<u128> = HashSet::new();
    let probe: Board = Board::new(start.p_2x2, start.p_2x1, start.p_1x2, start.p_1x1);
    if probe.mask == start.mask {
        proof {
            assert(consistent(start));
        }
        seen.insert(board_key(start));
        proof {
            assert(nodes@[0].board == start);
            assert(key_in_nodes(nodes@, key_of(start)));
        }
    }
    let mut frontier: Vec<usize> = Vec::new();
    frontier.push(0);
    proof {
        assert(frontier@[0] == 0 && nodes@[0].depth == 0);
        reveal(store_ok);
        assert(store_ok(nodes@, seen@, start, 0));
    }
    let mut round: usize = 0;
    while round < ROUND_LIMIT
        invariant
            store_ok(nodes@, seen@, start, round as int),
            round <= ROUND_LIMIT,
            forall|fi: int|
                0 <= fi < frontier@.len() ==> #[trigger] frontier@[fi] < nodes@.len()
                    && nodes@[frontier@[fi] as int].depth == round,
            forall|j: int|
                0 <= j < nodes@.len() && (#[trigger] nodes@[j]).depth == round ==> exists|fi: int|
                    0 <= fi < frontier@.len() && frontier@[fi] == j,
            forall|j: int, b: Board|
                0 <= j < nodes@.len() && nodes@[j].depth < round && #[trigger] one_move(
                    nodes@[j].board,
                    b,
                ) ==> found_within(nodes@, b, nodes@[j].depth + 1),
            forall|j: int|
                0 <= j < nodes@.len() && (#[trigger] nodes@[j]).depth < round ==> !spec_is_solved(
                    nodes@[j].board,
                ),
        decreases ROUND_LIMIT - round,
    {
        let mut next: Vec<usize> = Vec::new();
        let mut fi: usize = 0;
        let mut found: Option<usize> = None;
        proof {
            lemma_store_parts(nodes@, seen@, start, round as int);
            lemma_store_relax(nodes@, seen@, start, round as int, round + 1);
        }
        while fi < frontier.len() && found.is_none()
            invariant
                found matches Some(fx) ==> fx < nodes@.len() && nodes@[fx as int].depth == round
                    && spec_is_solved(nodes@[fx as int].board),
                store_ok(nodes@, seen@, start, round + 1),
                round < ROUND_LIMIT,
                fi <= frontier@.len(),
                forall|fj: int|
                    0 <= fj < frontier@.len() ==> #[trigger] frontier@[fj] < nodes@.len()
                        && nodes@[frontier@[fj] as int].depth == round,
                forall|j: int|
                    0 <= j < nodes@.len() && (#[trigger] nodes@[j]).depth == round ==> exists|
                        fj: int,
                    |
                        0 <= fj < frontier@.len() && frontier@[fj] == j,
                forall|j: int, b: Board|
                    0 <= j < nodes@.len() && nodes@[j].depth < round && #[trigger] one_move(
                        nodes@[j].board,
                        b,
                    ) ==> found_within(nodes@, b, nodes@[j].depth + 1),
                forall|fj: int, b: Board|
                    0 <= fj < fi && #[trigger] one_move(
                        nodes@[frontier@[fj] as int].board,
                        b,
                    ) ==> found_within(nodes@, b, round + 1),
                forall|j: int|
                    0 <= j < nodes@.len() && (#[trigger] nodes@[j]).depth < round
                        ==> !spec_is_solved(nodes@[j].board),
                forall|fj: int|
                    0 <= fj < fi ==> !spec_is_solved(nodes@[#[trigger] frontier@[fj] as int].board),
                forall|ni: int|
                    0 <= ni < next@.len() ==> #[trigger] next@[ni] < nodes@.len()
                        && nodes@[next@[ni] as int].depth == round + 1,
                forall|j: int|
                    0 <= j < nodes@.len() && (#[trigger] nodes@[j]).depth == round + 1 ==> exists|
                        ni: int,
                    |
                        0 <= ni < next@.len() && next@[ni] == j,
            decreases 2 * (frontier@.len() - fi) + (if found is None { 1int } else { 0int }),
        {
            let cur: usize = frontier[fi];
            if nodes[cur].board.is_solved() {
                found = Some(cur);
            } else {
                expand_node(&mut nodes, &mut seen, &mut next, cur, round, Ghost(start));
                fi = fi + 1;
            }
        }
        if let Some(fx) = found {
            proof {
                lemma_store_parts(nodes@, seen@, start, round + 1);
            }
            let path: Vec<Board> = build_path(&nodes, fx);
            proof {
                lemma_no_short_solution(nodes@, start, round as int);
                assert(path@.len() == round + 1);
                assert forall|q: Seq<Board>|
                    valid_path(q, start) && spec_is_solved(
                        q[q.len() - 1],
                    ) implies path@.len() <= q.len() by {
                    if q.len() <= round as int {
                        assert(!spec_is_solved(q[q.len() - 1]));
                    }
                }
            }
            return Some(path);
        }
        proof {
            assert forall|j: int, b: Board|
                0 <= j < nodes@.len() && nodes@[j].depth < round + 1 && #[trigger] one_move(
                    nodes@[j].board,
                    b,
                ) implies found_within(nodes@, b, nodes@[j].depth + 1) by {
                if nodes@[j].depth == round {
                    let fj = choose|fj: int| 0 <= fj < frontier@.len() && frontier@[fj] == j;
                    assert(one_move(nodes@[frontier@[fj] as int].board, b));
                }
            }
            assert forall|j: int|
                0 <= j < nodes@.len() && (#[trigger] nodes@[j]).depth < round
                    + 1 implies !spec_is_solved(nodes@[j].board) by {
                if nodes@[j].depth == round {
                    let fj = choose|fj: int| 0 <= fj < frontier@.len() && frontier@[fj] == j;
                }
            }
        }
        frontier = next;
        round = round + 1;
    }
    proof {
        lemma_store_parts(nodes@, seen@, start, ROUND_LIMIT as int);
        lemma_no_short_solution(nodes@, start, ROUND_LIMIT as int);
        assert(!spec_is_solved(nodes@[0].board));
    }
    None
}

} // verus!
