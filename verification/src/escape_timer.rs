//! The escape: the graph of rooms and doors, the shortest way through it, and
//! the route as it is shown to the player.

use std::collections::HashMap;
use vstd::prelude::*;

verus! {

/// The position of a vertex in a graph.
pub type VertexId = usize;

/// The frames of game time that a way takes.
pub type Cost = usize;

/// What a vertex stands for: a room and one of its doors.
pub type VertexKey = (usize, usize);

/// The graph of rooms and doors: for each vertex its key and the vertices
/// that can be reached from it, each with the cost of going there; and the
/// three vertices at which an escape begins or ends.
pub struct RoomDoorGraph {
    pub vertices: Vec<VertexKey>,
    pub successors: Vec<Vec<(VertexId, Cost)>>,
    pub mother_brain_vertex_id: VertexId,
    pub ship_vertex_id: VertexId,
    pub animals_vertex_id: VertexId,
}

/// No way leads from the one vertex to the other.
#[derive(Clone, Copy, Debug, PartialEq, Eq, Structural)]
pub struct NoEscapePath;

/// The costs of `edges` together.
pub open spec fn edges_cost(edges: Seq<(usize, usize)>) -> int
    decreases edges.len(),
{
    if edges.len() == 0 {
        0
    } else {
        edges_cost(edges.drop_last()) + edges.last().1
    }
}

/// The costs of all the edges of a graph together.
pub open spec fn total_cost(successors: Seq<Seq<(usize, usize)>>) -> int
    decreases successors.len(),
{
    if successors.len() == 0 {
        0
    } else {
        total_cost(successors.drop_last()) + edges_cost(successors.last())
    }
}

/// Whether every edge of the graph leads to a vertex of the graph.
pub open spec fn edges_closed(successors: Seq<Seq<(usize, usize)>>) -> bool {
    forall|v: int, e: int|
        0 <= v < successors.len() && 0 <= e < successors[v].len() ==> (
        #[trigger] successors[v][e]).0 < successors.len()
}

/// Whether shortest ways can be sought in the graph: every edge leads to a
/// vertex of the graph, and no way costs more than a `usize` can hold.
pub open spec fn routable(successors: Seq<Seq<(usize, usize)>>) -> bool {
    edges_closed(successors) && total_cost(successors) <= usize::MAX
}

/// For every vertex that can be reached from `start`, but for `start` itself,
/// the vertex before it on a shortest way from `start`, and the cost of that
/// way.
pub uninterp spec fn shortest_parents(start: usize, successors: Seq<Seq<(usize, usize)>>) -> Map<
    usize,
    (usize, usize),
>;

/// Calls `pathfinding::directed::dijkstra::dijkstra_all` on the graph, from
/// `start` on. Nothing is proved of it: the contract only gives the map that
/// it returns a name, a function of the start and the edges alone. The call
/// looks up the edges of every vertex it reaches and adds up costs along the
/// ways it tries, so the edges must stay within the graph and the costs
/// within a `usize`.
#[verifier::external_body]
fn dijkstra_parents(start: usize, successors: &Vec<Vec<(usize, usize)>>) -> (parents: HashMap<
    usize,
    (usize, usize),
>)
    requires
        start < successors.len(),
        routable(successors.deep_view()),
    ensures
        parents@ == shortest_parents(start, successors.deep_view()),
{
    pathfinding::directed::dijkstra::dijkstra_all(
        &start,
        |v: &usize| successors[*v].iter().copied(),
    )
}

/// The way from `src` to `v` that `parents` hold, as the vertices behind
/// `src` with the cost of reaching each; none where the parents do not lead
/// from `v` back to `src` within `limit` steps.
pub open spec fn way_back(
    parents: Map<usize, (usize, usize)>,
    src: usize,
    v: usize,
    limit: nat,
) -> Option<Seq<(usize, usize)>>
    decreases limit,
{
    if v == src {
        Some(Seq::empty())
    } else if limit == 0 || !parents.contains_key(v) {
        None
    } else {
        match way_back(parents, src, parents[v].0, (limit - 1) as nat) {
            Some(way) => Some(way.push((v, parents[v].1))),
            None => None,
        }
    }
}

/// The way so far, which was walked backwards, behind the way that is left.
pub open spec fn joined(left: Option<Seq<(usize, usize)>>, walked: Seq<(usize, usize)>) -> Option<
    Seq<(usize, usize)>,
> {
    match left {
        Some(way) => Some(way + walked.reverse()),
        None => None,
    }
}

/// Follows `parents` from `dst` back to `src`, for no more than `limit`
/// steps, and returns the way in its forward order.
pub fn path_from_parents(
    parents: &HashMap<usize, (usize, usize)>,
    src: usize,
    dst: usize,
    limit: usize,
) -> (r: Result<Vec<(usize, usize)>, NoEscapePath>)
    ensures
        match r {
            Ok(path) => way_back(parents@, src, dst, limit as nat) == Some(path@),
            Err(_) => way_back(parents@, src, dst, limit as nat) is None,
        },
{
    broadcast use vstd::std_specs::hash::group_hash_axioms;

    let mut path: Vec<(usize, usize)> = Vec::new();
    let mut v: usize = dst;
    let mut steps: usize = 0;
    assert(path@.reverse() =~= Seq::empty());
    assert(joined(way_back(parents@, src, v, limit as nat), path@) == way_back(
        parents@,
        src,
        dst,
        limit as nat,
    )) by {
        if let Some(way) = way_back(parents@, src, v, limit as nat) {
            assert(way + path@.reverse() =~= way);
        }
    }
    while v != src
        invariant
            steps <= limit,
            joined(way_back(parents@, src, v, (limit - steps) as nat), path@) == way_back(
                parents@,
                src,
                dst,
                limit as nat,
            ),
        decreases limit - steps,
    {
        if steps >= limit {
            return Err(NoEscapePath);
        }
        let (new_v, cost) = match parents.get(&v) {
            Some(found) => *found,
            None => {
                return Err(NoEscapePath);
            },
        };
        proof {
            let left = way_back(parents@, src, new_v, (limit - steps - 1) as nat);
            if let Some(way) = left {
                assert(way.push((v, cost)) + path@.reverse() =~= way + path@.push(
                    (v, cost),
                ).reverse());
            }
        }
        path.push((v, cost));
        v = new_v;
        steps += 1;
    }
    let ghost walked = path@;
    let n: usize = path.len();
    let mut out: Vec<(usize, usize)> = Vec::new();
    let mut i: usize = 0;
    while i < n
        invariant
            i <= n,
            n == path@.len(),
            path@ == walked,
            out@ == walked.reverse().take(i as int),
        decreases n - i,
    {
        out.push(path[n - 1 - i]);
        i += 1;
        assert(out@ =~= walked.reverse().take(i as int));
    }
    assert(out@ =~= Seq::<(usize, usize)>::empty() + walked.reverse());
    Ok(out)
}

impl RoomDoorGraph {
    /// Whether shortest ways can be sought in the graph.
    pub fn is_routable(&self) -> (ok: bool)
        ensures
            ok == routable(self.successors.deep_view()),
    {
        let n: usize = self.successors.len();
        let ghost graph = self.successors.deep_view();
        let mut total: usize = 0;
        let mut v: usize = 0;
        while v < n
            invariant
                v <= n,
                n == self.successors@.len(),
                graph == self.successors.deep_view(),
                n == graph.len(),
                forall|a: int, e: int|
                    0 <= a < v && 0 <= e < graph[a].len() ==> (#[trigger] graph[a][e]).0 < n,
                total == total_cost(graph.take(v as int)),
            decreases n - v,
        {
            let edges: &Vec<(usize, usize)> = &self.successors[v];
            assert(graph[v as int] =~= edges@) by {
                assert(graph[v as int] == self.successors@[v as int].deep_view());
                assert(edges.deep_view() =~= edges@);
            }
            let mut e: usize = 0;
            let mut cost: usize = 0;
            while e < edges.len()
                invariant
                    e <= edges@.len(),
                    v < n,
                    n == graph.len(),
                    graph == self.successors.deep_view(),
                    graph[v as int] == edges@,
                    forall|k: int| 0 <= k < e ==> (#[trigger] edges@[k]).0 < n,
                    cost == edges_cost(edges@.take(e as int)),
                decreases edges@.len() - e,
            {
                let (to, step): (usize, usize) = edges[e];
                assert(edges@.take(e + 1).drop_last() =~= edges@.take(e as int));
                if to >= n {
                    assert(graph[v as int][e as int].0 >= n);
                    return false;
                }
                cost = match cost.checked_add(step) {
                    Some(sum) => sum,
                    None => {
                        proof {
                            assert(edges@.take(e + 1).last() == edges@[e as int]);
                            assert(edges_cost(edges@.take(e + 1)) == cost + step);
                            lemma_too_costly(graph, v as int, edges@, e + 1);
                        }
                        return false;
                    },
                };
                e += 1;
            }
            assert(edges@.take(e as int) =~= edges@);
            assert(graph.take(v + 1).drop_last() =~= graph.take(v as int));
            total = match total.checked_add(cost) {
                Some(sum) => sum,
                None => {
                    proof {
                        assert(graph.take(v + 1).last() == edges@);
                        assert(total_cost(graph.take(v + 1)) == total + cost);
                        lemma_total_cost_grows(graph, v + 1);
                    }
                    return false;
                },
            };
            v += 1;
        }
        assert(graph.take(v as int) =~= graph);
        true
    }
}

/// The costs of some first edges are no more than those of all.
pub proof fn lemma_edges_cost_grows(edges: Seq<(usize, usize)>, n: int)
    requires
        0 <= n <= edges.len(),
    ensures
        0 <= edges_cost(edges.take(n)) <= edges_cost(edges),
    decreases edges.len() - n,
{
    if n < edges.len() {
        lemma_edges_cost_grows(edges, n + 1);
        assert(edges.take(n + 1).drop_last() =~= edges.take(n));
        lemma_edges_cost_positive(edges.take(n));
    } else {
        assert(edges.take(n) =~= edges);
        lemma_edges_cost_positive(edges);
    }
}

/// Costs do not go below zero.
pub proof fn lemma_edges_cost_positive(edges: Seq<(usize, usize)>)
    ensures
        0 <= edges_cost(edges),
    decreases edges.len(),
{
    if edges.len() > 0 {
        lemma_edges_cost_positive(edges.drop_last());
    }
}

/// The costs of the edges of some first vertices are no more than those of
/// all.
pub proof fn lemma_total_cost_grows(successors: Seq<Seq<(usize, usize)>>, n: int)
    requires
        0 <= n <= successors.len(),
    ensures
        0 <= total_cost(successors.take(n)) <= total_cost(successors),
    decreases successors.len() - n,
{
    if n < successors.len() {
        lemma_total_cost_grows(successors, n + 1);
        assert(successors.take(n + 1).drop_last() =~= successors.take(n));
        lemma_edges_cost_positive(successors[n]);
        lemma_total_cost_positive(successors.take(n));
    } else {
        assert(successors.take(n) =~= successors);
        lemma_total_cost_positive(successors);
    }
}

/// Costs do not go below zero.
pub proof fn lemma_total_cost_positive(successors: Seq<Seq<(usize, usize)>>)
    ensures
        0 <= total_cost(successors),
    decreases successors.len(),
{
    if successors.len() > 0 {
        lemma_total_cost_positive(successors.drop_last());
        lemma_edges_cost_positive(successors.last());
    }
}

/// Where some first edges of one vertex cost too much, the graph does.
pub proof fn lemma_too_costly(
    successors: Seq<Seq<(usize, usize)>>,
    v: int,
    edges: Seq<(usize, usize)>,
    n: int,
)
    requires
        0 <= v < successors.len(),
        successors[v] == edges,
        0 <= n <= edges.len(),
    ensures
        edges_cost(edges.take(n)) <= total_cost(successors),
{
    lemma_edges_cost_grows(edges, n);
    lemma_total_cost_grows(successors, v + 1);
    assert(successors.take(v + 1).drop_last() =~= successors.take(v));
    lemma_total_cost_positive(successors.take(v));
}

/// The shortest way from `src` to `dst`: the vertices behind `src`, each with
/// the cost of reaching it from `src`.
pub fn get_shortest_path(src: VertexId, dst: VertexId, room_door_graph: &RoomDoorGraph) -> (r:
    Result<Vec<(VertexId, Cost)>, NoEscapePath>)
    requires
        src < room_door_graph.successors@.len(),
        routable(room_door_graph.successors.deep_view()),
    ensures
        ({
            let parents = shortest_parents(src, room_door_graph.successors.deep_view());
            let limit = room_door_graph.successors@.len();
            match r {
                Ok(path) => way_back(parents, src, dst, limit) == Some(path@),
                Err(_) => way_back(parents, src, dst, limit) is None,
            }
        }),
{
    let parents = dijkstra_parents(src, &room_door_graph.successors);
    path_from_parents(&parents, src, dst, room_door_graph.successors.len())
}

/// One end of a step of the route: a door of a room, and where it lies on the
/// map.
pub struct SpoilerEscapeRouteNode {
    pub room: String,
    pub node: String,
    pub x: usize,
    pub y: usize,
}

/// One step of the route, and the frames of game time that have passed when
/// it is done.
pub struct SpoilerEscapeRouteEntry {
    pub from: SpoilerEscapeRouteNode,
    pub to: SpoilerEscapeRouteNode,
    pub base_igt_frames: usize,
}

/// The steps of a path that the route shows. A path is a list of vertices,
/// each with the cost of reaching it. A step from one vertex to the next is
/// shown where the cost changes: it is given as the two vertices and the cost
/// of reaching the second.
pub open spec fn shown_steps(path: Seq<(usize, usize)>) -> Seq<(usize, usize, usize)>
    decreases path.len(),
{
    if path.len() < 2 {
        Seq::empty()
    } else {
        let before = shown_steps(path.drop_last());
        let from = path[path.len() - 2];
        let to = path.last();
        if from.1 == to.1 {
            before
        } else {
            before.push((from.0, to.0, to.1))
        }
    }
}

/// The steps of `path` that the route shows.
pub fn escape_route_steps(path: &[(usize, usize)]) -> (steps: Vec<(usize, usize, usize)>)
    ensures
        steps@ == shown_steps(path@),
{
    let mut out: Vec<(usize, usize, usize)> = Vec::new();
    if path.len() < 2 {
        return out;
    }
    let mut i: usize = 1;
    assert(shown_steps(path@.take(1)) =~= Seq::empty());
    while i < path.len()
        invariant
            1 <= i <= path@.len(),
            out@ == shown_steps(path@.take(i as int)),
        decreases path@.len() - i,
    {
        let (src_vertex_id, src_cost) = path[i - 1];
        let (dst_vertex_id, dst_cost) = path[i];
        assert(path@.take(i + 1).drop_last() =~= path@.take(i as int));
        if src_cost != dst_cost {
            out.push((src_vertex_id, dst_vertex_id, dst_cost));
        }
        i += 1;
    }
    assert(path@.take(i as int) =~= path@);
    out
}

} // verus!
