use super::bfs::Sweep;
use super::forest::filled;
use super::forest::in_tree;
use super::forest::is_chain;
use super::forest::lemma_count_false_bounds;
use super::grid_node::GridNode;
use super::path_result::PathResult;
use super::universe::Universe;
use std::collections::VecDeque;
use vstd::prelude::*;

verus! {

/// For each cell, whether it is marked in `a` or in `b`.
pub open spec fn either(a: Seq<bool>, b: Seq<bool>) -> Seq<bool> {
    Seq::new(a.len(), |i: int| a[i] || b[i])
}

impl Universe {
    /// No cell is marked both in `a` and in `b`.
    pub open spec fn apart(&self, a: Seq<bool>, b: Seq<bool>) -> bool {
        forall|i: int| 0 <= i < self.nodes@.len() ==> !(#[trigger] a[i] && b[i])
    }

    /// Every cell marked in `popped` belongs to one of the two trees, so it
    /// can be reached from one of the two roots.
    pub proof fn lemma_processed_either(&self, processed: Seq<GridNode>, a: Sweep, b: Sweep)
        requires
            self.wf(),
            self.is_forest(a.came_from, a.rank, a.root),
            self.is_forest(b.came_from, b.rank, b.root),
            a.popped.len() == self.nodes@.len(),
            self.processed_ok(processed, either(a.popped, b.popped)),
            forall|i: int|
                0 <= i < self.nodes@.len() && a.popped[i] ==> #[trigger] in_tree(
                    a.came_from,
                    a.root,
                    i,
                ),
            forall|i: int|
                0 <= i < self.nodes@.len() && b.popped[i] ==> #[trigger] in_tree(
                    b.came_from,
                    b.root,
                    i,
                ),
        ensures
            forall|k: int|
                0 <= k < processed.len() ==> {
                    ||| self.reachable(self.nodes@[a.root], #[trigger] processed[k])
                    ||| self.reachable(self.nodes@[b.root], processed[k])
                },
    {
        assert forall|k: int| 0 <= k < processed.len() implies {
            ||| self.reachable(self.nodes@[a.root], #[trigger] processed[k])
            ||| self.reachable(self.nodes@[b.root], processed[k])
        } by {
            let c = processed[k];
            self.lemma_cell_at(c.x as int, c.y as int);
            let i = self.index_of_cell(c);
            assert(either(a.popped, b.popped)[i]);
            if a.popped[i] {
                assert(in_tree(a.came_from, a.root, i));
                self.lemma_tree_reaches(a.came_from, a.rank, a.root, i);
            } else {
                assert(in_tree(b.came_from, b.root, i));
                self.lemma_tree_reaches(b.came_from, b.rank, b.root, i);
            }
        }
    }

    /// One step of one side of a bidirectional breadth-first search, as the
    /// proofs see it: nothing if this side's queue is empty; otherwise the
    /// oldest cell is taken from the queue and listed, and either the sides
    /// meet at it, because it is the other side's root or the other side
    /// has reached it, or it is expanded.  Yields this side's state, the
    /// cells listed and the cell where the sides met, if they did.
    pub open spec fn half_step(&self, mine: Sweep, other: Sweep, listed: Seq<GridNode>) -> (
        Sweep,
        Seq<GridNode>,
        Option<int>,
    ) {
        if mine.frontier.len() == 0 {
            (mine, listed, None)
        } else {
            let current = mine.frontier[0] as int;
            let more = listed.push(self.nodes@[current]);
            if current == other.root || other.came_from[current] is Some {
                (mine.pop(), more, Some(current))
            } else {
                (self.expanded(mine.pop(), current), more, None)
            }
        }
    }

    /// Bidirectional breadth-first search round by round: in every round the
    /// start side takes a step, then the end side, until the sides meet or
    /// both queues are empty.  Yields the states of the two sides, the cells
    /// listed and the cell where the sides met, if they did.
    pub open spec fn both_run(&self, s: Sweep, e: Sweep, listed: Seq<GridNode>) -> (
        Sweep,
        Sweep,
        Seq<GridNode>,
        Option<int>,
    )
        decreases s.work_left() + e.work_left(),
        when self.wf() && self.sweep_ok(s, None) && self.sweep_ok(e, None)
        via Self::both_run_ends
    {
        if s.frontier.len() == 0 && e.frontier.len() == 0 {
            (s, e, listed, None)
        } else {
            let forth = self.half_step(s, e, listed);
            if forth.2 is Some {
                (forth.0, e, forth.1, forth.2)
            } else {
                let back = self.half_step(e, forth.0, forth.1);
                if back.2 is Some {
                    (forth.0, back.0, back.1, back.2)
                } else {
                    self.both_run(forth.0, back.0, back.1)
                }
            }
        }
    }

    /// Every round of a bidirectional breadth-first search leaves less work.
    #[via_fn]
    proof fn both_run_ends(&self, s: Sweep, e: Sweep, listed: Seq<GridNode>) {
        let n = self.nodes@.len() as int;
        if s.frontier.len() > 0 {
            self.lemma_sweep_pop(s);
            self.lemma_sweep_expanded(s.pop(), s.frontier[0] as int);
        }
        if e.frontier.len() > 0 {
            self.lemma_sweep_pop(e);
            self.lemma_sweep_expanded(e.pop(), e.frontier[0] as int);
        }
        let forth = self.half_step(s, e, listed);
        let back = self.half_step(e, forth.0, forth.1);
        lemma_count_false_bounds(forth.0.visited, n);
        lemma_count_false_bounds(back.0.visited, n);
    }

    /// Bidirectional breadth-first search between the cells `start` and
    /// `end`, run until the sides meet or both queues are empty.
    pub open spec fn both_ways(&self, start: int, end: int) -> (
        Sweep,
        Sweep,
        Seq<GridNode>,
        Option<int>,
    ) {
        self.both_run(self.sweep_start(start), self.sweep_start(end), Seq::empty())
    }

    /// `result` is what a search that ended as `outcome` returns:
    /// the cells listed, and the path through the cell where the sides met,
    /// no path if they did not meet.
    pub open spec fn meeting_reports(
        &self,
        outcome: (Sweep, Sweep, Seq<GridNode>, Option<int>),
        result: PathResult,
    ) -> bool {
        &&& result.processed@ == outcome.2
        &&& match outcome.3 {
            Some(m) => self.joins_at(
                outcome.0.came_from,
                outcome.0.root,
                outcome.1.came_from,
                outcome.1.root,
                m,
                result.path@,
            ),
            None => result.path@.len() == 0,
        }
    }

    /// One step of one side of a bidirectional breadth-first search: takes
    /// the oldest cell from this side's queue and records it as processed.
    /// If the cell is the other side's root or the other side has already
    /// reached it, the search is over and the path through that cell is
    /// returned; otherwise the cell is expanded.
    ///
    /// `forward` tells whether this side is the one that started at the
    /// start cell.
    pub(crate) fn sweep_advance(
        &self,
        result: PathResult,
        forward: bool,
        goal: usize,
        frontier: &mut VecDeque<usize>,
        visited: &mut Vec<bool>,
        came_from: &mut Vec<Option<usize>>,
        other_came_from: &Vec<Option<usize>>,
        Ghost(mine): Ghost<Sweep>,
        Ghost(other): Ghost<Sweep>,
        Ghost(level): Ghost<int>,
        Ghost(other_level): Ghost<int>,
    ) -> (out: (PathResult, bool, Ghost<Sweep>))
        requires
            self.wf(),
            self.sweep_ok(mine, None),
            self.sweep_ok(other, None),
            self.levels_ok(mine, level, None),
            self.levels_ok(other, other_level, None),
            mine.frontier.len() > 0,
            old(frontier)@ == mine.frontier,
            old(visited)@ == mine.visited,
            old(came_from)@ == mine.came_from,
            other_came_from@ == other.came_from,
            goal == other.root,
            self.apart(mine.popped, other.popped),
            result.path@.len() == 0,
            self.processed_ok(result.processed@, either(mine.popped, other.popped)),
            mine.root == other.root ==> forward && mine.frontier[0] == mine.root,
        ensures
            out.0.processed@ == result.processed@.push(self.nodes@[mine.frontier[0] as int]),
            out.1 ==> {
                let start = self.nodes@[if forward {
                    mine.root
                } else {
                    other.root
                }];
                let end = self.nodes@[if forward {
                    other.root
                } else {
                    mine.root
                }];
                &&& self.is_open_path(out.0.path@, start, end)
                &&& self.meets(start, end)
                &&& self.reachable(self.nodes@[mine.root], self.nodes@[mine.frontier[0] as int])
                &&& mine.root == other.root ==> out.0.path@ == seq![start]
                &&& other.visited[mine.frontier[0] as int]
                &&& out.0.path@.len() == mine.rank[mine.frontier[0] as int]
                    + other.rank[mine.frontier[0] as int] + 1
                &&& if forward {
                    self.joins_at(
                        mine.came_from,
                        mine.root,
                        other.came_from,
                        other.root,
                        mine.frontier[0] as int,
                        out.0.path@,
                    )
                } else {
                    self.joins_at(
                        other.came_from,
                        other.root,
                        mine.came_from,
                        mine.root,
                        mine.frontier[0] as int,
                        out.0.path@,
                    )
                }
            },
            self.half_step(mine, other, result.processed@) == (
                out.2@,
                out.0.processed@,
                if out.1 {
                    Some(mine.frontier[0] as int)
                } else {
                    None
                },
            ),
            !out.1 ==> {
                let next = out.2@;
                &&& self.sweep_ok(next, None)
                &&& self.levels_ok(next, mine.rank[mine.frontier[0] as int], None)
                &&& final(frontier)@ == next.frontier
                &&& final(visited)@ == next.visited
                &&& final(came_from)@ == next.came_from
                &&& next.root == mine.root
                &&& next.popped == mine.popped.update(mine.frontier[0] as int, true)
                &&& next.work_left() == mine.work_left() - 1
                &&& self.apart(next.popped, other.popped)
                &&& out.0.path@.len() == 0
                &&& self.processed_ok(out.0.processed@, either(next.popped, other.popped))
                &&& mine.frontier[0] != other.root
                &&& !other.visited[mine.frontier[0] as int]
            },
    {
        proof {
            self.lemma_sweep_pop(mine);
            self.lemma_levels_pop(mine, level);
        }
        let current = frontier.pop_front().unwrap();
        let ghost taken = mine.pop();
        let ghost reached = mine.rank[current as int];
        let mut result = result;
        let ghost listed = result.processed@;
        result.processed.push(self.nodes[current]);

        if current == goal || other_came_from[current].is_some() {
            proof {
                assert(in_tree(other.came_from, other.root, current as int));
                assert(in_tree(taken.came_from, taken.root, current as int));
                self.lemma_tree_reaches(taken.came_from, taken.rank, taken.root, current as int);
            }
            let (found, Ghost(back), Ghost(onward)) = self.meet_at(
                result,
                forward,
                current,
                goal,
                came_from,
                other_came_from,
                Ghost(taken.rank),
                Ghost(other.rank),
                Ghost(taken.root),
                Ghost(other.root),
            );
            proof {
                self.lemma_chain_depth(taken, reached, Some(current as int), back, current as int);
                self.lemma_chain_depth(other, other_level, None, onward, current as int);
            }
            return (found, true, Ghost(taken));
        }
        proof {
            assert(!other.visited[current as int]);
            assert(!other.popped[current as int]) by {
                if other.popped[current as int] {
                    assert(other.visited[current as int]);
                }
            }
            self.lemma_processed_push(listed, either(mine.popped, other.popped), current as int);
        }
        let Ghost(next) = self.sweep_expand(
            current,
            frontier,
            visited,
            came_from,
            Ghost(taken),
            Ghost(reached),
        );
        proof {
            assert(either(next.popped, other.popped) =~= either(mine.popped, other.popped).update(
                current as int,
                true,
            ));
        }
        (result, false, Ghost(next))
    }

    /// Bidirectional breadth-first search between `(start_x, start_y)` and
    /// `(end_x, end_y)`.
    ///
    /// Two breadth-first sweeps take turns, one from the start and one from
    /// the end, one cell each per round.  A side that takes a cell the other
    /// side has already reached, or the other side's own root, ends the
    /// search: the path runs through that cell.  No path from the start to
    /// the end has fewer cells.
    pub fn bfs_bidirectional(&self, start_x: i32, start_y: i32, end_x: i32, end_y: i32) -> (result:
        PathResult)
        requires
            self.wf(),
            self.in_bounds(start_x as int, start_y as int),
            self.in_bounds(end_x as int, end_y as int),
        ensures
            self.bidirectional_shortest_result(
                self.cell(start_x as int, start_y as int),
                self.cell(end_x as int, end_y as int),
                result,
            ),
            self.meeting_reports(
                self.both_ways(
                    self.index_of(start_x as int, start_y as int),
                    self.index_of(end_x as int, end_y as int),
                ),
                result,
            ),
    {
        let n = self.nodes.len();
        let mut result = PathResult { path: Vec::new(), processed: Vec::new() };

        let mut frontier_start: VecDeque<usize> = VecDeque::new();
        let mut frontier_end: VecDeque<usize> = VecDeque::new();

        let start = self.get_index(start_x, start_y);
        let end = self.get_index(end_x, end_y);
        let ghost start_node = self.nodes@[start as int];
        let ghost end_node = self.nodes@[end as int];

        let mut came_from_start: Vec<Option<usize>> = filled(n, None);
        let mut came_from_end: Vec<Option<usize>> = filled(n, None);
        let mut visited_start: Vec<bool> = filled(n, false);
        let mut visited_end: Vec<bool> = filled(n, false);

        frontier_start.push_back(start);
        frontier_end.push_back(end);
        visited_start.set(start, true);
        visited_end.set(end, true);

        let ghost mut s = self.sweep_start(start as int);
        let ghost mut e = self.sweep_start(end as int);
        let ghost mut start_level: int = 0;
        let ghost mut end_level: int = 0;
        let ghost outcome = self.both_ways(start as int, end as int);
        proof {
            assert(result.processed@ =~= Seq::<GridNode>::empty());
            self.lemma_sweep_start(start as int);
            self.lemma_sweep_start(end as int);
            self.lemma_levels_start(start as int);
            self.lemma_levels_start(end as int);
            assert(frontier_start@ =~= s.frontier);
            assert(visited_start@ =~= s.visited);
            assert(came_from_start@ =~= s.came_from);
            assert(frontier_end@ =~= e.frontier);
            assert(visited_end@ =~= e.visited);
            assert(came_from_end@ =~= e.came_from);
        }

        while frontier_start.len() > 0 || frontier_end.len() > 0
            invariant
                self.wf(),
                n == self.nodes@.len(),
                start < n,
                end < n,
                start_node == self.nodes@[start as int],
                end_node == self.nodes@[end as int],
                start_node == self.cell(start_x as int, start_y as int),
                end_node == self.cell(end_x as int, end_y as int),
                self.sweep_ok(s, None),
                self.sweep_ok(e, None),
                self.levels_ok(s, start_level, None),
                self.levels_ok(e, end_level, None),
                self.both_run(s, e, result.processed@) == outcome,
                outcome == self.both_ways(
                    self.index_of(start_x as int, start_y as int),
                    self.index_of(end_x as int, end_y as int),
                ),
                s.root == start,
                e.root == end,
                frontier_start@ == s.frontier,
                visited_start@ == s.visited,
                came_from_start@ == s.came_from,
                frontier_end@ == e.frontier,
                visited_end@ == e.visited,
                came_from_end@ == e.came_from,
                self.apart(s.popped, e.popped),
                self.no_crossing(s.popped, e.popped),
                !s.popped[end as int],
                !e.popped[start as int],
                result.path@.len() == 0,
                self.processed_ok(result.processed@, either(s.popped, e.popped)),
                result.processed@.len() > 0 ==> result.processed@[0] == start_node
                    && s.popped[start as int],
                result.processed@.len() == 0 ==> frontier_start@.len() > 0 && frontier_start@[0]
                    == start && forall|y: int| 0 <= y < n ==> !e.popped[y],
                start == end ==> result.processed@.len() == 0,
            decreases s.work_left() + e.work_left(),
        {
            proof {
                lemma_count_false_bounds(s.visited, n as int);
                lemma_count_false_bounds(e.visited, n as int);
            }
            let ghost round = (s, e, result.processed@);
            if frontier_start.len() > 0 {
                let ghost taken = s.frontier[0] as int;
                let (next, done, Ghost(after)) = self.sweep_advance(
                    result,
                    true,
                    end,
                    &mut frontier_start,
                    &mut visited_start,
                    &mut came_from_start,
                    &came_from_end,
                    Ghost(s),
                    Ghost(e),
                    Ghost(start_level),
                    Ghost(end_level),
                );
                if done {
                    proof {
                        self.lemma_bidirectional_found(start_node, end_node, next, result, s, e, s);
                        self.lemma_sweep_pop(s);
                        self.lemma_levels_pop(s, start_level);
                        assert forall|q: Seq<GridNode>| #[trigger]
                            self.is_path(q, start_node, end_node) implies 0 < next.path@.len()
                            <= q.len() by {
                            self.lemma_meeting_is_shortest(
                                s.pop(),
                                s.rank[taken],
                                Some(taken),
                                e,
                                end_level,
                                None,
                                taken,
                                q,
                            );
                        }
                        assert(outcome == (s.pop(), e, next.processed@, Some(taken)));
                    }
                    return next;
                }
                proof {
                    assert(s.visited[taken]);
                    self.lemma_no_crossing_forward(s, e, taken);
                    start_level = s.rank[taken];
                    s = after;
                }
                result = next;
            }
            proof {
                assert(self.half_step(round.0, round.1, round.2) == (s, result.processed@, None::<int>));
            }
            if frontier_end.len() > 0 {
                proof {
                    assert(self.apart(e.popped, s.popped));
                    assert(either(e.popped, s.popped) =~= either(s.popped, e.popped));
                }
                let ghost taken = e.frontier[0] as int;
                let (next, done, Ghost(after)) = self.sweep_advance(
                    result,
                    false,
                    start,
                    &mut frontier_end,
                    &mut visited_end,
                    &mut came_from_end,
                    &came_from_start,
                    Ghost(e),
                    Ghost(s),
                    Ghost(end_level),
                    Ghost(start_level),
                );
                if done {
                    proof {
                        self.lemma_bidirectional_found(start_node, end_node, next, result, s, e, e);
                        self.lemma_sweep_pop(e);
                        self.lemma_levels_pop(e, end_level);
                        assert forall|q: Seq<GridNode>| #[trigger]
                            self.is_path(q, start_node, end_node) implies 0 < next.path@.len()
                            <= q.len() by {
                            self.lemma_meeting_is_shortest(
                                s,
                                start_level,
                                None,
                                e.pop(),
                                e.rank[taken],
                                Some(taken),
                                taken,
                                q,
                            );
                        }
                        assert(outcome == (s, e.pop(), next.processed@, Some(taken)));
                    }
                    return next;
                }
                proof {
                    self.lemma_no_crossing_backward(s, e, taken);
                    end_level = e.rank[taken];
                    e = after;
                    assert(self.apart(s.popped, e.popped));
                    assert(either(e.popped, s.popped) =~= either(s.popped, e.popped));
                }
                result = next;
            }
            proof {
                assert(self.both_run(round.0, round.1, round.2) == self.both_run(
                    s,
                    e,
                    result.processed@,
                ));
            }
        }
        proof {
            assert(outcome == (s, e, result.processed@, None::<int>));
            self.lemma_bidirectional_exhausted(start_node, end_node, result, s, e);
            assert forall|q: Seq<GridNode>| #[trigger]
                self.is_path(q, start_node, end_node) implies 0 < result.path@.len() <= q.len() by {
                self.lemma_node_is_cell(end as int);
                assert(self.is_path(seq![end_node], end_node, end_node));
                assert(self.reachable(start_node, end_node) && self.reachable(end_node, end_node));
                assert(self.meets(start_node, end_node));
            }
        }
        result
    }

    /// The result of a bidirectional search that ended with the two sides meeting.
    pub proof fn lemma_bidirectional_found(
        &self,
        start: GridNode,
        end: GridNode,
        found: PathResult,
        before: PathResult,
        s: Sweep,
        e: Sweep,
        mover: Sweep,
    )
        requires
            self.wf(),
            self.sweep_ok(s, None),
            self.sweep_ok(e, None),
            start == self.nodes@[s.root],
            end == self.nodes@[e.root],
            mover == s || mover == e,
            mover.frontier.len() > 0,
            self.processed_ok(before.processed@, either(s.popped, e.popped)),
            before.processed@.len() > 0 ==> before.processed@[0] == start,
            before.processed@.len() == 0 ==> mover.frontier[0] == s.root,
            found.processed@ == before.processed@.push(self.nodes@[mover.frontier[0] as int]),
            self.is_open_path(found.path@, start, end),
            self.meets(start, end),
            self.reachable(self.nodes@[mover.root], self.nodes@[mover.frontier[0] as int]),
            s.root == e.root ==> found.path@ == seq![start],
        ensures
            self.bidirectional_result(start, end, found),
    {
        self.lemma_processed_either(before.processed@, s, e);
        self.lemma_walk_open(found.path@);
        assert forall|k: int| 0 <= k < found.processed@.len() implies {
            ||| self.reachable(start, #[trigger] found.processed@[k])
            ||| self.reachable(end, found.processed@[k])
        } by {
            if k < before.processed@.len() {
                assert(found.processed@[k] == before.processed@[k]);
            }
        }
        if start == end {
            self.lemma_node_is_cell(s.root);
            self.lemma_node_is_cell(e.root);
        }
    }

    /// The result of a bidirectional search whose two queues ran empty
    /// without the sides meeting.
    pub proof fn lemma_bidirectional_exhausted(
        &self,
        start: GridNode,
        end: GridNode,
        result: PathResult,
        s: Sweep,
        e: Sweep,
    )
        requires
            self.wf(),
            self.sweep_ok(s, None),
            self.sweep_ok(e, None),
            s.frontier.len() == 0,
            e.frontier.len() == 0,
            start == self.nodes@[s.root],
            end == self.nodes@[e.root],
            self.apart(s.popped, e.popped),
            result.path@.len() == 0,
            self.processed_ok(result.processed@, either(s.popped, e.popped)),
            result.processed@.len() > 0 ==> result.processed@[0] == start,
        ensures
            self.bidirectional_result(start, end, result),
    {
        self.lemma_processed_either(result.processed@, s, e);
        assert forall|c: GridNode|
            self.reachable(start, c) || self.reachable(end, c) implies #[trigger] result.processed@.contains(
            c,
        ) by {
            if self.reachable(start, c) {
                let p = choose|p: Seq<GridNode>| self.is_path(p, start, c);
                self.lemma_sweep_exhausted(s, p);
                self.lemma_walk_last_cell(p);
            } else {
                let p = choose|p: Seq<GridNode>| self.is_path(p, end, c);
                self.lemma_sweep_exhausted(e, p);
                self.lemma_walk_last_cell(p);
            }
            self.lemma_cell_at(c.x as int, c.y as int);
            assert(either(s.popped, e.popped)[self.index_of_cell(c)]);
        }
        if self.meets(start, end) {
            let m = choose|m: GridNode| #[trigger] self.reachable(start, m) && self.reachable(end, m);
            let p = choose|p: Seq<GridNode>| self.is_path(p, start, m);
            let q = choose|q: Seq<GridNode>| self.is_path(q, end, m);
            self.lemma_sweep_exhausted(s, p);
            self.lemma_sweep_exhausted(e, q);
            self.lemma_walk_last_cell(p);
            self.lemma_cell_at(m.x as int, m.y as int);
        }
        self.lemma_node_is_cell(s.root);
        self.lemma_node_is_cell(e.root);
        assert(self.is_path(seq![start], start, start));
        assert(self.reachable(start, start));
        if start == end {
            assert(self.meets(start, end));
        }
        assert(result.processed@.contains(start));
    }

    /// Breadth-first search from one end and from both ends agree on the
    /// length: for a passable end, whatever the two return for the same
    /// start and end, both paths are empty or both have the same number of
    /// cells.
    pub proof fn lemma_bfs_and_bidirectional_agree(
        &self,
        start: GridNode,
        end: GridNode,
        from_start: PathResult,
        from_both: PathResult,
    )
        requires
            self.wf(),
            self.is_cell(start),
            self.is_cell(end),
            end.passable,
            self.shortest_result(start, end, from_start),
            self.bidirectional_shortest_result(start, end, from_both),
        ensures
            from_start.path@.len() == from_both.path@.len(),
    {
        self.lemma_meets_is_reachable(start, end);
        if from_start.path@.len() > 0 {
            assert(self.is_path(from_start.path@, start, end));
            assert(self.is_path(from_both.path@, start, end));
        }
    }
}

} // verus!
