//! Shortest-hop search over the directed graph whose nodes are format
//! identities and whose edges are the registered conversions.

use crate::converters::audio::AudioFileType;
use crate::converters::image::ImageFileType;
use crate::format::FileType;
use vstd::prelude::*;

verus! {

/// `p` is a walk through `edges` that starts at `from` and ends at `to`:
/// every two neighbouring nodes are joined by an edge.
pub open spec fn is_path(
    edges: Set<(FileType, FileType)>,
    p: Seq<FileType>,
    from: FileType,
    to: FileType,
) -> bool {
    &&& p.len() >= 1
    &&& p[0] == from
    &&& p[p.len() - 1] == to
    &&& forall|i: int| 0 <= i < p.len() - 1 ==> #[trigger] edges.contains((p[i], p[i + 1]))
}

/// Some chain of edges leads from `from` to `to`.
pub open spec fn reachable(edges: Set<(FileType, FileType)>, from: FileType, to: FileType) -> bool {
    exists|q: Seq<FileType>| is_path(edges, q, from, to)
}

/// `p` is a path from `from` to `to`, and no path between them has fewer
/// hops.
pub open spec fn is_shortest_path(
    edges: Set<(FileType, FileType)>,
    p: Seq<FileType>,
    from: FileType,
    to: FileType,
) -> bool {
    &&& is_path(edges, p, from, to)
    &&& forall|q: Seq<FileType>| #[trigger] is_path(edges, q, from, to) ==> q.len() >= p.len()
}

/// A format reaches itself in no hops: the only shortest path from a format
/// to itself is that one format, whatever the edges are.
pub proof fn lemma_identity_path(
    edges: Set<(FileType, FileType)>,
    p: Seq<FileType>,
    x: FileType,
)
    requires
        is_shortest_path(edges, p, x, x),
    ensures
        p == seq![x],
{
    assert(is_path(edges, seq![x], x, x));
    assert(p =~= seq![x]);
}

/// Where an edge joins two different formats, the only shortest path from
/// the first to the second is that edge.
pub proof fn lemma_direct_edge_path(
    edges: Set<(FileType, FileType)>,
    p: Seq<FileType>,
    a: FileType,
    b: FileType,
)
    requires
        edges.contains((a, b)),
        a != b,
        is_shortest_path(edges, p, a, b),
    ensures
        p == seq![a, b],
{
    assert(is_path(edges, seq![a, b], a, b));
    assert(p =~= seq![a, b]);
}

/// Where edges join `a` to `b` and `b` to `c`, but none joins `a` to `c`
/// and the two differ, every shortest path from `a` to `c` has exactly two
/// hops, however many longer chains exist. Its middle is `b` where `b` is
/// the only format that both edges can meet in.
pub proof fn lemma_two_hop_path(
    edges: Set<(FileType, FileType)>,
    p: Seq<FileType>,
    a: FileType,
    b: FileType,
    c: FileType,
)
    requires
        edges.contains((a, b)),
        edges.contains((b, c)),
        !edges.contains((a, c)),
        a != c,
        is_shortest_path(edges, p, a, c),
    ensures
        p.len() == 3,
        p[0] == a,
        p[2] == c,
        edges.contains((a, p[1])),
        edges.contains((p[1], c)),
        (forall|m: FileType| edges.contains((a, m)) && edges.contains((m, c)) ==> m == b) ==> p
            == seq![a, b, c],
{
    let q = seq![a, b, c];
    assert(is_path(edges, q, a, c));
    assert(p.len() <= 3);
    if p.len() == 2 {
        assert(edges.contains((p[0], p[0int + 1])));
    }
    assert(p.len() == 3);
    assert(edges.contains((p[0], p[0int + 1])));
    assert(edges.contains((p[1], p[1int + 1])));
    if forall|m: FileType| edges.contains((a, m)) && edges.contains((m, c)) ==> m == b {
        assert(p =~= seq![a, b, c]);
    }
}

/// Number of format identities.
const NODES: usize = 5;

spec fn node_of(i: int) -> FileType {
    if i == 0 {
        FileType::Unknown
    } else if i == 1 {
        FileType::Image(ImageFileType::PNG)
    } else if i == 2 {
        FileType::Image(ImageFileType::JPEG)
    } else if i == 3 {
        FileType::Audio(AudioFileType::MP3)
    } else {
        FileType::Audio(AudioFileType::WAV)
    }
}

spec fn index_of(t: FileType) -> int {
    match t {
        FileType::Unknown => 0,
        FileType::Image(ImageFileType::PNG) => 1,
        FileType::Image(ImageFileType::JPEG) => 2,
        FileType::Audio(AudioFileType::MP3) => 3,
        FileType::Audio(AudioFileType::WAV) => 4,
    }
}

fn node_index(t: FileType) -> (i: usize)
    ensures
        i < NODES,
        i == index_of(t),
        node_of(i as int) == t,
{
    match t {
        FileType::Unknown => 0,
        FileType::Image(ImageFileType::PNG) => 1,
        FileType::Image(ImageFileType::JPEG) => 2,
        FileType::Audio(AudioFileType::MP3) => 3,
        FileType::Audio(AudioFileType::WAV) => 4,
    }
}

/// Some path from `from` to `v` has exactly `n` nodes.
spec fn has_len(edges: Set<(FileType, FileType)>, from: FileType, v: FileType, n: int) -> bool {
    exists|q: Seq<FileType>| #[trigger] is_path(edges, q, from, v) && q.len() == n
}

/// Every path from `from` to `v` has at least `n` nodes.
spec fn min_len(edges: Set<(FileType, FileType)>, from: FileType, v: FileType, n: int) -> bool {
    forall|q: Seq<FileType>| #[trigger] is_path(edges, q, from, v) ==> q.len() >= n
}

/// What the search knows of node `i` while the edges before position `done`
/// have been relaxed in the round that assigns level `depth + 1`.
spec fn node_ok(
    es: Seq<(FileType, FileType)>,
    from: FileType,
    level: Seq<Option<usize>>,
    parent: Seq<FileType>,
    depth: int,
    done: int,
    i: int,
) -> bool {
    match level[i] {
        Some(d) => {
            &&& d <= depth + 1
            &&& has_len(es.to_set(), from, node_of(i), d + 1)
            &&& min_len(es.to_set(), from, node_of(i), d + 1)
            &&& d > 0 ==> level[index_of(parent[i])] == Some((d - 1) as usize)
                && es.to_set().contains((parent[i], node_of(i)))
        },
        None => {
            &&& min_len(es.to_set(), from, node_of(i), depth + 2)
            &&& forall|j: int|
                0 <= j < done ==> !((#[trigger] es[j]).1 == node_of(i) && level[index_of(es[j].0)]
                    == Some(depth as usize))
        },
    }
}

spec fn state_ok(
    es: Seq<(FileType, FileType)>,
    from: FileType,
    level: Seq<Option<usize>>,
    parent: Seq<FileType>,
    depth: int,
    done: int,
) -> bool {
    &&& level.len() == NODES
    &&& parent.len() == NODES
    &&& 0 <= depth < NODES
    &&& forall|i: int| 0 <= i < NODES ==> #[trigger] node_ok(es, from, level, parent, depth, done, i)
}

/// No node has been given level `depth`.
spec fn level_empty(level: Seq<Option<usize>>, depth: int) -> bool {
    forall|i: int| 0 <= i < level.len() ==> #[trigger] level[i] != Some(depth as usize)
}

spec fn unseen_one(o: Option<usize>) -> int {
    if o is None {
        1
    } else {
        0
    }
}

/// How many of the five nodes have no level yet.
spec fn unseen(level: Seq<Option<usize>>) -> int {
    unseen_one(level[0]) + unseen_one(level[1]) + unseen_one(level[2]) + unseen_one(level[3])
        + unseen_one(level[4])
}

proof fn lemma_extend(
    edges: Set<(FileType, FileType)>,
    q: Seq<FileType>,
    from: FileType,
    u: FileType,
    v: FileType,
)
    requires
        is_path(edges, q, from, u),
        edges.contains((u, v)),
    ensures
        is_path(edges, q.push(v), from, v),
        q.push(v).len() == q.len() + 1,
{
    let r = q.push(v);
    assert forall|i: int| 0 <= i < r.len() - 1 implies #[trigger] edges.contains(
        (r[i], r[i + 1]),
    ) by {
        if i < q.len() - 1 {
            assert(edges.contains((q[i], q[i + 1])));
        }
    }
}

proof fn lemma_shrink(
    edges: Set<(FileType, FileType)>,
    q: Seq<FileType>,
    from: FileType,
    v: FileType,
)
    requires
        is_path(edges, q, from, v),
        q.len() >= 2,
    ensures
        is_path(edges, q.drop_last(), from, q[q.len() - 2]),
        edges.contains((q[q.len() - 2], v)),
{
    let r = q.drop_last();
    assert forall|i: int| 0 <= i < r.len() - 1 implies #[trigger] edges.contains(
        (r[i], r[i + 1]),
    ) by {
        assert(edges.contains((q[i], q[i + 1])));
    }
    assert(edges.contains((q[q.len() - 2], q[q.len() - 2 + 1])));
}

/// The only path of one node from `from` ends at `from`.
proof fn lemma_start(es: Seq<(FileType, FileType)>, from: FileType)
    ensures
        has_len(es.to_set(), from, from, 1),
        forall|v: FileType| min_len(es.to_set(), from, v, 1),
        forall|v: FileType| v != from ==> min_len(es.to_set(), from, v, 2),
{
    assert(is_path(es.to_set(), seq![from], from, from));
}

/// Once every edge has been relaxed, the round is complete: the nodes still
/// without a level are more than `depth + 1` hops away.
proof fn lemma_round_done(
    es: Seq<(FileType, FileType)>,
    from: FileType,
    level: Seq<Option<usize>>,
    parent: Seq<FileType>,
    depth: int,
)
    requires
        state_ok(es, from, level, parent, depth, es.len() as int),
        depth + 1 < NODES,
    ensures
        state_ok(es, from, level, parent, depth + 1, 0),
        level_empty(level, depth + 2),
{
    assert forall|i: int| 0 <= i < level.len() implies #[trigger] level[i] != Some(
        (depth + 2) as usize,
    ) by {
        assert(node_ok(es, from, level, parent, depth, es.len() as int, i));
    }
    let edges = es.to_set();
    assert forall|i: int| 0 <= i < NODES implies #[trigger] node_ok(
        es,
        from,
        level,
        parent,
        depth + 1,
        0,
        i,
    ) by {
        assert(node_ok(es, from, level, parent, depth, es.len() as int, i));
        if level[i] is None {
            let v = node_of(i);
            assert forall|q: Seq<FileType>| #[trigger] is_path(edges, q, from, v) implies q.len()
                >= depth + 3 by {
                lemma_far_node(es, from, level, parent, depth, i, q);
            }
        }
    }
}

/// Every path to a node without a level after a full round has at least
/// `depth + 3` nodes.
proof fn lemma_far_node(
    es: Seq<(FileType, FileType)>,
    from: FileType,
    level: Seq<Option<usize>>,
    parent: Seq<FileType>,
    depth: int,
    i: int,
    q: Seq<FileType>,
)
    requires
        state_ok(es, from, level, parent, depth, es.len() as int),
        0 <= i < NODES,
        level[i] is None,
        is_path(es.to_set(), q, from, node_of(i)),
    ensures
        q.len() >= depth + 3,
{
    let edges = es.to_set();
    let v = node_of(i);
    assert(node_ok(es, from, level, parent, depth, es.len() as int, i));
    if q.len() >= depth + 3 {
        return ;
    }
    assert(q.len() == depth + 2);
    lemma_shrink(edges, q, from, v);
    let u = q[q.len() - 2];
    let iu = index_of(u);
    assert(node_of(iu) == u);
    assert(node_ok(es, from, level, parent, depth, es.len() as int, iu));
    assert(is_path(edges, q.drop_last(), from, u));
    match level[iu] {
        None => {
            assert(q.drop_last().len() >= depth + 2);
        },
        Some(d) => {
            assert(q.drop_last().len() >= d + 1);
            let w = choose|w: Seq<FileType>| #[trigger]
                is_path(edges, w, from, u) && w.len() == d + 1;
            lemma_extend(edges, w, from, u, v);
            assert(w.push(v).len() >= depth + 2);
            assert(d == depth);
            assert(es.contains((u, v)));
            let j = choose|j: int| 0 <= j < es.len() && es[j] == (u, v);
            assert(es[j].1 == v);
        },
    }
}

/// When a full round gives no node a new level, the nodes without a level
/// cannot be reached at all.
proof fn lemma_stuck(
    es: Seq<(FileType, FileType)>,
    from: FileType,
    level: Seq<Option<usize>>,
    parent: Seq<FileType>,
    depth: int,
    n: nat,
)
    requires
        state_ok(es, from, level, parent, depth, es.len() as int),
        level_empty(level, depth + 1),
    ensures
        forall|i: int|
            0 <= i < NODES && (#[trigger] level[i]) is None ==> min_len(
                es.to_set(),
                from,
                node_of(i),
                n as int,
            ),
    decreases n,
{
    let edges = es.to_set();
    if n > 0 {
        lemma_stuck(es, from, level, parent, depth, (n - 1) as nat);
    }
    assert forall|i: int| 0 <= i < NODES && (#[trigger] level[i]) is None implies min_len(
        edges,
        from,
        node_of(i),
        n as int,
    ) by {
        let v = node_of(i);
        assert(node_ok(es, from, level, parent, depth, es.len() as int, i));
        assert forall|q: Seq<FileType>| #[trigger] is_path(edges, q, from, v) implies q.len()
            >= n by {
            if q.len() < n {
                assert(q.len() >= depth + 2);
                assert(q.len() == n - 1);
                lemma_far_node(es, from, level, parent, depth, i, q);
                lemma_shrink(edges, q, from, v);
                let u = q[q.len() - 2];
                let iu = index_of(u);
                assert(node_of(iu) == u);
                assert(node_ok(es, from, level, parent, depth, es.len() as int, iu));
                match level[iu] {
                    None => {
                        assert(min_len(edges, from, node_of(iu), n - 1));
                        assert(q.drop_last().len() >= n - 1);
                    },
                    Some(d) => {
                        assert(level[iu] != Some((depth + 1) as usize));
                        assert(d <= depth);
                        let w = choose|w: Seq<FileType>| #[trigger]
                            is_path(edges, w, from, u) && w.len() == d + 1;
                        lemma_extend(edges, w, from, u, v);
                        lemma_far_node(es, from, level, parent, depth, i, w.push(v));
                    },
                }
            }
        }
    }
}

/// Relaxing edge `j` gives its target the next level.
proof fn lemma_relax_set(
    es: Seq<(FileType, FileType)>,
    from: FileType,
    level: Seq<Option<usize>>,
    parent: Seq<FileType>,
    depth: int,
    j: int,
)
    requires
        state_ok(es, from, level, parent, depth, j),
        0 <= j < es.len(),
        depth + 1 < NODES,
        level[index_of(es[j].0)] == Some(depth as usize),
        level[index_of(es[j].1)] is None,
    ensures
        state_ok(
            es,
            from,
            level.update(index_of(es[j].1), Some((depth + 1) as usize)),
            parent.update(index_of(es[j].1), es[j].0),
            depth,
            j + 1,
        ),
{
    let edges = es.to_set();
    let (a, b) = es[j];
    let ai = index_of(a);
    let bi = index_of(b);
    let level2 = level.update(bi, Some((depth + 1) as usize));
    let parent2 = parent.update(bi, a);
    assert(node_of(ai) == a && node_of(bi) == b);
    assert(node_ok(es, from, level, parent, depth, j, ai));
    assert(node_ok(es, from, level, parent, depth, j, bi));
    let w = choose|w: Seq<FileType>| #[trigger] is_path(edges, w, from, a) && w.len() == depth + 1;
    assert(es.contains((a, b)));
    lemma_extend(edges, w, from, a, b);
    assert forall|i: int| 0 <= i < NODES implies #[trigger] node_ok(
        es,
        from,
        level2,
        parent2,
        depth,
        j + 1,
        i,
    ) by {
        assert(node_ok(es, from, level, parent, depth, j, i));
        if i == bi {
            assert(has_len(edges, from, b, depth + 2));
        } else {
            assert(node_of(i) != b);
            match level[i] {
                Some(d) => {
                    if d > 0 {
                        assert(level[index_of(parent[i])] is Some);
                        assert(index_of(parent[i]) != bi);
                    }
                },
                None => {
                    assert forall|k: int| 0 <= k < j + 1 implies !((#[trigger] es[k]).1 == node_of(
                        i,
                    ) && level2[index_of(es[k].0)] == Some(depth as usize)) by {
                        if k < j {
                            assert(!(es[k].1 == node_of(i) && level[index_of(es[k].0)] == Some(
                                depth as usize,
                            )));
                        }
                    }
                },
            }
        }
    }
}

/// Edge `j` does not leave the current level, or its target has a level
/// already: nothing changes.
proof fn lemma_relax_skip(
    es: Seq<(FileType, FileType)>,
    from: FileType,
    level: Seq<Option<usize>>,
    parent: Seq<FileType>,
    depth: int,
    j: int,
)
    requires
        state_ok(es, from, level, parent, depth, j),
        0 <= j < es.len(),
        !(level[index_of(es[j].0)] == Some(depth as usize) && level[index_of(es[j].1)] is None),
    ensures
        state_ok(es, from, level, parent, depth, j + 1),
{
    let bi = index_of(es[j].1);
    assert(node_of(bi) == es[j].1);
    assert forall|i: int| 0 <= i < NODES implies #[trigger] node_ok(
        es,
        from,
        level,
        parent,
        depth,
        j + 1,
        i,
    ) by {
        assert(node_ok(es, from, level, parent, depth, j, i));
        if level[i] is None {
            assert forall|k: int| 0 <= k < j + 1 implies !((#[trigger] es[k]).1 == node_of(i)
                && level[index_of(es[k].0)] == Some(depth as usize)) by {
                if k == j && es[j].1 == node_of(i) {
                    assert(i == bi);
                }
            }
        }
    }
}

/// One round of the search: every edge that leaves a node of level `depth`
/// for a node without a level gives that node level `depth + 1`. Tells
/// whether any node got a level.
fn relax_round(
    edges: &Vec<(FileType, FileType)>,
    from: FileType,
    level: &mut Vec<Option<usize>>,
    parent: &mut Vec<FileType>,
    depth: usize,
) -> (changed: bool)
    requires
        state_ok(edges@, from, old(level)@, old(parent)@, depth as int, 0),
        level_empty(old(level)@, depth + 1),
        depth + unseen(old(level)@) <= 4,
    ensures
        state_ok(edges@, from, final(level)@, final(parent)@, depth as int, edges@.len() as int),
        changed ==> unseen(final(level)@) < unseen(old(level)@),
        !changed ==> final(level)@ == old(level)@,
{
    let ghost es = edges@;
    let ghost before = level@;
    let mut changed = false;
    let mut j: usize = 0;
    while j < edges.len()
        invariant
            0 <= j <= edges.len(),
            es == edges@,
            state_ok(es, from, level@, parent@, depth as int, j as int),
            depth + unseen(before) <= 4,
            changed ==> unseen(level@) < unseen(before),
            !changed ==> level@ == before,
            level_empty(before, depth + 1),
            unseen(level@) <= unseen(before),
        decreases edges.len() - j,
    {
        let (a, b) = edges[j];
        let ai = node_index(a);
        let bi = node_index(b);
        let at_depth = match level[ai] {
            Some(d) => d == depth,
            None => false,
        };
        if at_depth && level[bi].is_none() {
            proof {
                lemma_relax_set(es, from, level@, parent@, depth as int, j as int);
            }
            level.set(bi, Some(depth + 1));
            parent.set(bi, a);
            changed = true;
        } else {
            proof {
                lemma_relax_skip(es, from, level@, parent@, depth as int, j as int);
            }
        }
        j += 1;
    }
    changed
}

/// Follows the recorded predecessors from `to` back to `from`.
fn trace_back(
    edges: Ghost<Seq<(FileType, FileType)>>,
    from: FileType,
    to: FileType,
    level: &Vec<Option<usize>>,
    parent: &Vec<FileType>,
    depth: Ghost<int>,
    d: usize,
) -> (path: Vec<FileType>)
    requires
        state_ok(edges@, from, level@, parent@, depth@, 0),
        level@[index_of(to)] == Some(d),
        d <= depth@,
    ensures
        is_shortest_path(edges@.to_set(), path@, from, to),
        path@.len() == d + 1,
{
    let ghost es = edges@;
    proof {
        assert(node_of(index_of(to)) == to);
        assert(node_ok(es, from, level@, parent@, depth@, 0, index_of(to)));
    }
    let mut path: Vec<FileType> = Vec::new();
    let mut k: usize = 0;
    while k <= d
        invariant
            k <= d + 1,
            d < NODES,
            path@.len() == k,
            forall|m: int| 0 <= m < k ==> path@[m] == to,
        decreases d + 1 - k,
    {
        path.push(to);
        k += 1;
    }
    let mut i: usize = d;
    while i > 0
        invariant
            i <= d,
            d < NODES,
            path@.len() == d + 1,
            path@[d as int] == to,
            state_ok(es, from, level@, parent@, depth@, 0),
            forall|m: int|
                i <= m <= d ==> level@[index_of(#[trigger] path@[m])] == Some(m as usize),
            forall|m: int|
                i <= m < d ==> #[trigger] es.to_set().contains((path@[m], path@[m + 1])),
        decreases i,
    {
        let cur = path[i];
        let ci = node_index(cur);
        let p = parent[ci];
        proof {
            assert(node_ok(es, from, level@, parent@, depth@, 0, ci as int));
        }
        path.set(i - 1, p);
        i -= 1;
    }
    proof {
        let first = path@[0];
        assert(node_of(index_of(first)) == first);
        assert(level@[index_of(first)] == Some(0usize));
        assert(node_ok(es, from, level@, parent@, depth@, 0, index_of(first)));
        let w = choose|w: Seq<FileType>| #[trigger]
            is_path(es.to_set(), w, from, first) && w.len() == 1;
        assert(first == from);
        assert(is_path(es.to_set(), path@, from, to));
    }
    path
}

/// Searches `edges` breadth first for a path from `from` to `to`.
///
/// The result is a path with the fewest hops that any path between the two
/// has, or `None` exactly when `to` cannot be reached from `from`. Which of
/// several shortest paths is returned is left open. A node is always
/// reached from itself, by the path of that one node.
pub fn shortest_path(edges: &Vec<(FileType, FileType)>, from: FileType, to: FileType) -> (r:
    Option<Vec<FileType>>)
    ensures
        match r {
            Some(p) => is_shortest_path(edges@.to_set(), p@, from, to),
            None => !reachable(edges@.to_set(), from, to),
        },
        from == to ==> r is Some && r->0@ == seq![from],
{
    let ghost es = edges@;
    if from == to {
        let path = vec![from];
        proof {
            assert(path@ =~= seq![from]);
            assert(is_path(es.to_set(), path@, from, to));
        }
        return Some(path);
    }
    let fi = node_index(from);
    let ti = node_index(to);
    let mut level: Vec<Option<usize>> = vec![None, None, None, None, None];
    let mut parent: Vec<FileType> = vec![from, from, from, from, from];
    level.set(fi, Some(0));
    let mut depth: usize = 0;
    proof {
        lemma_start(es, from);
        assert forall|i: int| 0 <= i < NODES implies #[trigger] node_ok(
            es,
            from,
            level@,
            parent@,
            0,
            0,
            i,
        ) by {
            if i != fi {
                assert(node_of(i) != from);
            }
        }
    }
    loop
        invariant
            es == edges@,
            from != to,
            fi == index_of(from),
            ti == index_of(to),
            state_ok(es, from, level@, parent@, depth as int, 0),
            level_empty(level@, depth + 1),
            depth + unseen(level@) <= 4,
        decreases unseen(level@),
    {
        match level[ti] {
            Some(d) => {
                proof {
                    assert(node_ok(es, from, level@, parent@, depth as int, 0, ti as int));
                }
                let path = trace_back(Ghost(es), from, to, &level, &parent, Ghost(depth as int), d);
                return Some(path);
            },
            None => {},
        }
        let changed = relax_round(edges, from, &mut level, &mut parent, depth);
        if !changed {
            proof {
                assert(level@[ti as int] is None);
                assert forall|q: Seq<FileType>| !is_path(es.to_set(), q, from, to) by {
                    lemma_stuck(es, from, level@, parent@, depth as int, q.len() + 1);
                    assert(min_len(es.to_set(), from, node_of(ti as int), (q.len() + 1) as int));
                }
            }
            return None;
        }
        proof {
            lemma_round_done(es, from, level@, parent@, depth as int);
        }
        depth += 1;
    }
}

} // verus!
