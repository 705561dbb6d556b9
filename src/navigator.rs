//! Route computation over the current graph: graph lifecycle and queries.
use vstd::prelude::*;
use crate::graph::AdjacencyArray;
use crate::dijkstra::{Dijkstra, route_result};

verus! {

/// Why no route was returned.
#[derive(Debug, Clone, Copy, PartialEq, Eq, Structural)]
pub enum RouteError {
    /// No graph has been built yet.
    GraphUnavailable,
    /// A node id outside the current graph.
    InvalidInput,
    /// No path from the start to the end node.
    UnreachableDestination,
}

/// Outcome of a route request from `s` to `t` on `g`.
pub open spec fn route_outcome(g: AdjacencyArray, s: u32, t: u32, r: Result<(Vec<u32>, u32), RouteError>) -> bool {
    match r {
        Ok(found) => route_result(g, s, t, Some(found)),
        Err(e) => e == RouteError::UnreachableDestination && route_result(g, s, t, None),
    }
}

/// The current graph and its search engine, if one has been built.
pub struct InMemoryGraph {
    dijkstra: Option<Dijkstra>,
}

impl InMemoryGraph {
    pub closed spec fn engine(&self) -> Option<Dijkstra> {
        self.dijkstra
    }

    pub open spec fn has_graph(&self) -> bool {
        self.engine() is Some
    }

    /// The current graph.
    pub open spec fn graph(&self) -> AdjacencyArray {
        self.engine()->Some_0.graph()
    }

    pub open spec fn wf(&self) -> bool {
        self.has_graph() ==> self.engine()->Some_0.inv() && self.graph().node_count() >= 1
    }

    /// No graph yet.
    pub fn new() -> (r: InMemoryGraph)
        ensures
            r.wf(),
            !r.has_graph(),
    {
        InMemoryGraph { dijkstra: None }
    }

    /// Replaces the graph wholesale; the search state of the previous graph
    /// is dropped. An empty graph leaves no graph available.
    pub fn build_graph(&mut self, graph: AdjacencyArray)
        requires
            graph.wf(),
        ensures
            final(self).wf(),
            final(self).has_graph() == (graph.node_count() > 0),
            final(self).has_graph() ==> final(self).graph() == graph,
    {
        let n = graph.get_nodes_count();
        if n == 0 {
            self.dijkstra = None;
        } else {
            self.dijkstra = Some(Dijkstra::new(graph, n - 1));
        }
    }

    /// Node count of the current graph, 0 without one.
    pub fn get_number_nodes(&self) -> (r: u32)
        requires
            self.wf(),
        ensures
            self.has_graph() ==> r == self.graph().node_count(),
            !self.has_graph() ==> r == 0,
    {
        match &self.dijkstra {
            Some(d) => d.get_nodes_count(),
            None => 0,
        }
    }

    /// Shortest route from `start_node` to `end_node` on the current graph.
    pub fn calculate_route(&mut self, start_node: u32, end_node: u32) -> (r: Result<(Vec<u32>, u32), RouteError>)
        requires
            old(self).wf(),
        ensures
            final(self).wf(),
            final(self).has_graph() == old(self).has_graph(),
            old(self).has_graph() ==> final(self).graph() == old(self).graph(),
            !old(self).has_graph() ==> r == Err::<(Vec<u32>, u32), RouteError>(RouteError::GraphUnavailable),
            old(self).has_graph() && (start_node >= old(self).graph().node_count() || end_node >= old(self).graph().node_count())
                ==> r == Err::<(Vec<u32>, u32), RouteError>(RouteError::InvalidInput),
            old(self).has_graph() && start_node < old(self).graph().node_count() && end_node < old(self).graph().node_count()
                ==> route_outcome(old(self).graph(), start_node, end_node, r),
            old(self).has_graph() && start_node < old(self).graph().node_count() && end_node < old(self).graph().node_count()
                ==> final(self).engine()->Some_0.source() == start_node,
    {
        match self.dijkstra.as_mut() {
            None => Err(RouteError::GraphUnavailable),
            Some(dijkstra) => {
                let n = dijkstra.get_nodes_count();
                if start_node >= n || end_node >= n {
                    return Err(RouteError::InvalidInput);
                }
                dijkstra.change_source_node(start_node);
                match dijkstra.find_route(end_node) {
                    Some(found) => Ok(found),
                    None => Err(RouteError::UnreachableDestination),
                }
            },
        }
    }
}

} // verus!
