use super::bfs_bidirectional::either;
use super::forest::filled;
use super::forest::in_tree;
use super::grid_node::GridNode;
use super::path_result::PathResult;
use super::universe::Universe;
use super::weighted::Wave;
use crate::priority_queue::priority_queue::entry;
use crate::priority_queue::priority_queue::is_max_entry;
use crate::priority_queue::priority_queue::takes_max;
use crate::priority_queue::priority_queue::PriorityQueue;
use crate::priority_queue::priority_queue_item::PriorityQueueItem;
use vstd::multiset::Multiset;
use vstd::prelude::*;

verus! {

/// The state of a bidirectional A*, as the proofs see it.
pub struct Duel {
    /// The search from the start.
    pub start_side: Wave,
    /// The search from the end.
    pub end_side: Wave,
    /// The cells taken from the two queues so far, in that order.
    pub listed: Seq<GridNode>,
    /// The cell where the two sides met, if they did.
    pub met: Option<int>,
}

/// What a side takes from its queue in one round: an entry that no entry
/// outranks, or nothing because the queue is empty.
#[verifier::opaque]
pub open spec fn pick_fits(
    queue: Multiset<PriorityQueueItem<usize>>,
    pick: Option<PriorityQueueItem<usize>>,
) -> bool {
    match pick {
        Some(p) => is_max_entry(queue, p),
        None => queue.len() == 0,
    }
}

/// A side whose queue is empty takes nothing.
pub proof fn lemma_pick_nothing(queue: Multiset<PriorityQueueItem<usize>>)
    requires
        queue.len() == 0,
    ensures
        pick_fits(queue, None),
{
    reveal(pick_fits);
}

/// A side may take any entry of its queue that no entry outranks.
pub proof fn lemma_pick_best(
    queue: Multiset<PriorityQueueItem<usize>>,
    pick: PriorityQueueItem<usize>,
)
    requires
        is_max_entry(queue, pick),
    ensures
        pick_fits(queue, Some(pick)),
{
    reveal(pick_fits);
}

impl Universe {
    /// One step of one side of a bidirectional A*, as the proofs see it:
    /// nothing if the side takes nothing; otherwise the entry `pick` is
    /// taken from this side's queue and its cell listed, and either the
    /// sides meet at the cell, because it is the other side's root or the
    /// other side has found a way to it, or the cell is expanded.  Yields
    /// this side's state, the cells listed and the cell where the sides
    /// met, if they did.
    pub open spec fn wave_half(
        &self,
        mine: Wave,
        other: Wave,
        listed: Seq<GridNode>,
        pick: Option<PriorityQueueItem<usize>>,
    ) -> (Wave, Seq<GridNode>, Option<int>) {
        match pick {
            None => (mine, listed, None),
            Some(p) => {
                let current = p.item as int;
                let taken = mine.take(p.item, p.priority);
                let more = listed.push(self.nodes@[current]);
                if current == other.root || other.came_from[current] is Some {
                    (taken, more, Some(current))
                } else {
                    (self.wave_expanded(taken, current), more, None)
                }
            },
        }
    }

    /// One round of a bidirectional A*: the start side takes a step, then,
    /// unless the sides have met, the end side.
    pub open spec fn duel_round(
        &self,
        d: Duel,
        picks: (Option<PriorityQueueItem<usize>>, Option<PriorityQueueItem<usize>>),
    ) -> Duel {
        let forth = self.wave_half(d.start_side, d.end_side, d.listed, picks.0);
        if forth.2 is Some {
            Duel { start_side: forth.0, end_side: d.end_side, listed: forth.1, met: forth.2 }
        } else {
            let back = self.wave_half(d.end_side, forth.0, forth.1, picks.1);
            Duel { start_side: forth.0, end_side: back.0, listed: back.1, met: back.2 }
        }
    }

    /// The state of a bidirectional A* between `start` and `end` after the
    /// rounds in which the two sides take the entries `rounds`.
    #[verifier::opaque]
    pub open spec fn duel_after(
        &self,
        start: int,
        end: int,
        rounds: Seq<(Option<PriorityQueueItem<usize>>, Option<PriorityQueueItem<usize>>)>,
    ) -> Duel
        decreases rounds.len(),
    {
        if rounds.len() == 0 {
            Duel {
                start_side: self.wave_start(start, Some(end)),
                end_side: self.wave_start(end, Some(start)),
                listed: Seq::empty(),
                met: None,
            }
        } else {
            self.duel_round(self.duel_after(start, end, rounds.drop_last()), rounds.last())
        }
    }

    /// Every round in `rounds` starts before the sides have met and while
    /// an entry waits in one of the queues, and in it each side takes an
    /// entry that none in its queue outranks, or nothing if its queue is
    /// empty; the end side takes nothing once the sides have met.
    #[verifier::opaque]
    pub open spec fn duel_ok(
        &self,
        start: int,
        end: int,
        rounds: Seq<(Option<PriorityQueueItem<usize>>, Option<PriorityQueueItem<usize>>)>,
    ) -> bool
        decreases rounds.len(),
    {
        rounds.len() == 0 || {
            let before = self.duel_after(start, end, rounds.drop_last());
            let picks = rounds.last();
            let forth = self.wave_half(before.start_side, before.end_side, before.listed, picks.0);
            &&& self.duel_ok(start, end, rounds.drop_last())
            &&& before.met is None
            &&& before.start_side.queue.len() > 0 || before.end_side.queue.len() > 0
            &&& pick_fits(before.start_side.queue, picks.0)
            &&& if forth.2 is Some {
                picks.1 is None
            } else {
                pick_fits(before.end_side.queue, picks.1)
            }
        }
    }

    /// `result` is what a bidirectional A* between `start` and `end` returns
    /// when its sides take the entries `rounds`: every step takes an entry
    /// of highest priority, the search runs until the sides meet or both
    /// queues are empty, and the result holds the cells listed and the path
    /// through the cell where the sides met, no path if they did not meet.
    pub open spec fn duel_reports(
        &self,
        start: int,
        end: int,
        rounds: Seq<(Option<PriorityQueueItem<usize>>, Option<PriorityQueueItem<usize>>)>,
        result: PathResult,
    ) -> bool {
        let d = self.duel_after(start, end, rounds);
        &&& self.duel_ok(start, end, rounds)
        &&& d.met is Some || (d.start_side.queue.len() == 0 && d.end_side.queue.len() == 0)
        &&& result.processed@ == d.listed
        &&& match d.met {
            Some(m) => self.joins_at(
                d.start_side.came_from,
                d.start_side.root,
                d.end_side.came_from,
                d.end_side.root,
                m,
                result.path@,
            ),
            None => result.path@.len() == 0,
        }
    }

    /// One more round: if the rounds so far were in order and left the two
    /// sides as `d`, a round in which each side takes a fitting entry is in
    /// order too and leaves the sides as the round says.
    pub proof fn lemma_duel_round(
        &self,
        start: int,
        end: int,
        earlier: Seq<(Option<PriorityQueueItem<usize>>, Option<PriorityQueueItem<usize>>)>,
        d: Duel,
        forth: Option<PriorityQueueItem<usize>>,
        back: Option<PriorityQueueItem<usize>>,
    )
        requires
            self.duel_ok(start, end, earlier),
            self.duel_after(start, end, earlier) == d,
            d.met is None,
            d.start_side.queue.len() > 0 || d.end_side.queue.len() > 0,
            pick_fits(d.start_side.queue, forth),
            if self.wave_half(d.start_side, d.end_side, d.listed, forth).2 is Some {
                back is None
            } else {
                pick_fits(d.end_side.queue, back)
            },
        ensures
            self.duel_ok(start, end, earlier.push((forth, back))),
            self.duel_after(start, end, earlier.push((forth, back))) == self.duel_round(
                d,
                (forth, back),
            ),
    {
        reveal(Universe::duel_after);
        reveal(Universe::duel_ok);
        let rounds = earlier.push((forth, back));
        assert(rounds.drop_last() =~= earlier);
        assert(rounds.last() == (forth, back));
    }

    /// Before the first round nothing is listed, the two sides know only
    /// their roots and have not met.
    pub proof fn lemma_duel_start(&self, start: int, end: int)
        ensures
            self.duel_ok(start, end, Seq::empty()),
            self.duel_after(start, end, Seq::empty()) == (Duel {
                start_side: self.wave_start(start, Some(end)),
                end_side: self.wave_start(end, Some(start)),
                listed: Seq::empty(),
                met: None,
            }),
    {
        reveal(Universe::duel_after);
        reveal(Universe::duel_ok);
    }

    /// Every cell in a list that covers the cells expanded by either of two
    /// searches can be reached from the root of one of them.
    pub proof fn lemma_covered_either(&self, processed: Seq<GridNode>, a: Wave, b: Wave)
        requires
            self.wf(),
            self.wave_ok(a, None),
            self.wave_ok(b, None),
            self.covers(processed, either(a.expanded, b.expanded)),
        ensures
            forall|k: int|
                0 <= k < processed.len() ==> {
                    ||| self.reachable(self.nodes@[a.root], #[trigger] processed[k])
                    ||| self.reachable(self.nodes@[b.root], processed[k])
                },
    {
        assert forall|k: int| 0 <= k < processed.len() implies {
            ||| self.reachable(self.nodes@[a.root], #[trigger] processed[k])
            ||| self.reachable(self.nodes@[b.root], processed[k])
        } by {
            let c = processed[k];
            self.lemma_cell_at(c.x as int, c.y as int);
            let i = self.index_of_cell(c);
            assert(either(a.expanded, b.expanded)[i]);
            if a.expanded[i] {
                assert(self.cost_ok(a, None, i));
                self.lemma_tree_reaches(a.came_from, a.rank(), a.root, i);
            } else {
                assert(self.cost_ok(b, None, i));
                self.lemma_tree_reaches(b.came_from, b.rank(), b.root, i);
            }
        }
    }

    /// One step of one side of a bidirectional A*: takes the entry of
    /// largest priority from this side's queue and records its cell as
    /// processed.  If the cell is the other side's root or the other side
    /// has already found a way to it, the search is over and the path
    /// through that cell is returned; otherwise the cell is expanded, with
    /// the Manhattan distance to the other side's root as the guide.
    ///
    /// `forward` tells whether this side is the one that started at the
    /// start cell.
    pub(crate) fn wave_advance(
        &self,
        result: PathResult,
        forward: bool,
        goal: usize,
        frontier: &mut PriorityQueue<usize>,
        cost: &mut Vec<Option<i32>>,
        came_from: &mut Vec<Option<usize>>,
        other_came_from: &Vec<Option<usize>>,
        Ghost(mine): Ghost<Wave>,
        Ghost(other): Ghost<Wave>,
    ) -> (out: (PathResult, bool, Ghost<Wave>, Ghost<int>, Ghost<i32>))
        requires
            self.wf(),
            self.costs_fit(),
            self.wave_ok(mine, None),
            self.wave_ok(other, None),
            mine.queue.len() > 0,
            old(frontier)@ == mine.queue,
            old(cost)@ == mine.cost,
            old(came_from)@ == mine.came_from,
            other_came_from@ == other.came_from,
            goal == other.root,
            mine.target == Some(goal as int),
            self.apart(mine.expanded, other.expanded),
            result.path@.len() == 0,
            self.covers(result.processed@, either(mine.expanded, other.expanded)),
            mine.root == other.root ==> forward && forall|e: PriorityQueueItem<usize>|
                mine.queue.count(e) > 0 ==> e.item == mine.root,
        ensures
            0 <= out.3@ < self.nodes@.len(),
            pick_fits(mine.queue, Some(entry(out.3@ as usize, out.4@))),
            self.wave_half(
                mine,
                other,
                result.processed@,
                Some(entry(out.3@ as usize, out.4@)),
            ) == (
                out.2@,
                out.0.processed@,
                if out.1 {
                    Some(out.3@)
                } else {
                    None
                },
            ),
            out.1 ==> if forward {
                self.joins_at(
                    mine.came_from,
                    mine.root,
                    other.came_from,
                    other.root,
                    out.3@,
                    out.0.path@,
                )
            } else {
                self.joins_at(
                    other.came_from,
                    other.root,
                    mine.came_from,
                    mine.root,
                    out.3@,
                    out.0.path@,
                )
            },
            (forall|e: PriorityQueueItem<usize>| mine.queue.count(e) > 0 ==> e.item == mine.root)
                ==> out.3@ == mine.root,
            out.0.processed@ == result.processed@.push(self.nodes@[out.3@]),
            self.reachable(self.nodes@[mine.root], self.nodes@[out.3@]),
            out.1 ==> {
                let start = self.nodes@[if forward {
                    mine.root
                } else {
                    other.root
                }];
                let end = self.nodes@[if forward {
                    other.root
                } else {
                    mine.root
                }];
                &&& self.is_open_path(out.0.path@, start, end)
                &&& self.meets(start, end)
                &&& mine.root == other.root ==> out.0.path@ == seq![start]
            },
            !out.1 ==> {
                let next = out.2@;
                &&& self.wave_ok(next, None)
                &&& final(frontier)@ == next.queue
                &&& final(cost)@ == next.cost
                &&& final(came_from)@ == next.came_from
                &&& next.root == mine.root
                &&& next.target == mine.target
                &&& self.wave_work(next) < self.wave_work(mine)
                &&& 0 <= self.wave_work(next)
                &&& self.apart(next.expanded, other.expanded)
                &&& out.0.path@.len() == 0
                &&& self.covers(out.0.processed@, either(next.expanded, other.expanded))
                &&& out.3@ != other.root
            },
    {
        let ghost n = self.nodes@.len();
        let current = frontier.dequeue().unwrap();
        let ghost priority = choose|priority: i32| #[trigger]
            takes_max(mine.queue, frontier@, current, priority);
        let ghost taken = mine.take(current, priority);
        proof {
            assert(mine.queue.count(entry(current, priority)) > 0);
            lemma_pick_best(mine.queue, entry(current, priority));
            assert(self.entry_ok(mine, entry(current, priority)));
            self.lemma_debt_bounds(mine, None, n as int);
            self.lemma_wave_take(mine, current, priority);
            assert(self.cost_ok(taken, Some(current as int), current as int));
            self.lemma_tree_reaches(taken.came_from, taken.rank(), taken.root, current as int);
        }
        let mut result = result;
        let ghost listed = result.processed@;
        result.processed.push(self.nodes[current]);

        if current == goal || other_came_from[current].is_some() {
            let (found, _, _) = self.meet_at(
                result,
                forward,
                current,
                goal,
                came_from,
                other_came_from,
                Ghost(taken.rank()),
                Ghost(other.rank()),
                Ghost(taken.root),
                Ghost(other.root),
            );
            return (found, true, Ghost(taken), Ghost(current as int), Ghost(priority));
        }
        proof {
            assert(!other.expanded[current as int]) by {
                assert(self.cost_ok(other, None, current as int));
            }
            self.lemma_covers_push(listed, either(mine.expanded, other.expanded), current as int);
        }
        let Ghost(next) = self.wave_expand(
            current,
            Some(goal),
            frontier,
            cost,
            came_from,
            Ghost(taken),
        );
        proof {
            assert(either(next.expanded, other.expanded) =~= either(
                mine.expanded,
                other.expanded,
            ).update(current as int, true));
            self.lemma_debt_bounds(next, None, n as int);
        }
        (result, false, Ghost(next), Ghost(current as int), Ghost(priority))
    }

    /// Bidirectional A* between `(start_x, start_y)` and `(end_x, end_y)`.
    ///
    /// Two A* searches take turns, one from the start guided by the distance
    /// to the end and one from the end guided by the distance to the start,
    /// one cell each per round.  A side that takes a cell the other side has
    /// already found a way to, or the other side's own root, ends the
    /// search: the path runs through that cell.  The path need not be a
    /// cheapest one.
    pub fn astar_bidirectional(&self, start_x: i32, start_y: i32, end_x: i32, end_y: i32) -> (result:
        PathResult)
        requires
            self.wf(),
            self.costs_fit(),
            self.in_bounds(start_x as int, start_y as int),
            self.in_bounds(end_x as int, end_y as int),
        ensures
            self.bidirectional_result(
                self.cell(start_x as int, start_y as int),
                self.cell(end_x as int, end_y as int),
                result,
            ),
            exists|rounds: Seq<(Option<PriorityQueueItem<usize>>, Option<PriorityQueueItem<usize>>)>|
                #[trigger] self.duel_reports(
                    self.index_of(start_x as int, start_y as int),
                    self.index_of(end_x as int, end_y as int),
                    rounds,
                    result,
                ),
    {
        let n = self.nodes.len();
        let mut result = PathResult { path: Vec::new(), processed: Vec::new() };

        let start = self.get_index(start_x, start_y);
        let end = self.get_index(end_x, end_y);
        let ghost start_node = self.nodes@[start as int];
        let ghost end_node = self.nodes@[end as int];

        let mut came_from_start: Vec<Option<usize>> = filled(n, None);
        let mut came_from_end: Vec<Option<usize>> = filled(n, None);
        let mut g_score_start: Vec<Option<i32>> = filled(n, None);
        let mut g_score_end: Vec<Option<i32>> = filled(n, None);

        g_score_start.set(start, Some(0));
        g_score_end.set(end, Some(0));

        let mut frontier_start: PriorityQueue<usize> = PriorityQueue::new();
        let mut frontier_end: PriorityQueue<usize> = PriorityQueue::new();

        frontier_start.enqueue(start, 0);
        frontier_end.enqueue(end, 0);

        let ghost mut s = self.wave_start(start as int, Some(end as int));
        let ghost mut e = self.wave_start(end as int, Some(start as int));
        let ghost mut rounds: Seq<
            (Option<PriorityQueueItem<usize>>, Option<PriorityQueueItem<usize>>),
        > = Seq::empty();
        proof {
            assert(result.processed@ =~= Seq::<GridNode>::empty());
            self.lemma_duel_start(start as int, end as int);
            self.lemma_wave_start(start as int, Some(end as int));
            self.lemma_wave_start(end as int, Some(start as int));
            assert(frontier_start@ =~= s.queue);
            assert(g_score_start@ =~= s.cost);
            assert(came_from_start@ =~= s.came_from);
            assert(frontier_end@ =~= e.queue);
            assert(g_score_end@ =~= e.cost);
            assert(came_from_end@ =~= e.came_from);
            self.lemma_debt_bounds(s, None, n as int);
            self.lemma_debt_bounds(e, None, n as int);
        }

        while frontier_start.count() > 0 || frontier_end.count() > 0
            invariant
                self.wf(),
                self.costs_fit(),
                n == self.nodes@.len(),
                start < n,
                end < n,
                start_node == self.nodes@[start as int],
                end_node == self.nodes@[end as int],
                start_node == self.cell(start_x as int, start_y as int),
                end_node == self.cell(end_x as int, end_y as int),
                self.wave_ok(s, None),
                self.wave_ok(e, None),
                self.duel_ok(start as int, end as int, rounds),
                self.duel_after(start as int, end as int, rounds) == (Duel {
                    start_side: s,
                    end_side: e,
                    listed: result.processed@,
                    met: None,
                }),
                start == self.index_of(start_x as int, start_y as int),
                end == self.index_of(end_x as int, end_y as int),
                s.root == start,
                e.root == end,
                s.target == Some(end as int),
                e.target == Some(start as int),
                frontier_start@ == s.queue,
                g_score_start@ == s.cost,
                came_from_start@ == s.came_from,
                frontier_end@ == e.queue,
                g_score_end@ == e.cost,
                came_from_end@ == e.came_from,
                self.apart(s.expanded, e.expanded),
                result.path@.len() == 0,
                self.covers(result.processed@, either(s.expanded, e.expanded)),
                result.processed@.len() > 0 ==> result.processed@[0] == start_node,
                result.processed@.len() == 0 ==> s.queue.len() > 0 && forall|
                    q: PriorityQueueItem<usize>,
                | s.queue.count(q) > 0 ==> q.item == start,
                start == end ==> result.processed@.len() == 0,
                0 <= self.wave_work(s),
                0 <= self.wave_work(e),
            decreases self.wave_work(s) + self.wave_work(e),
        {
            let ghost earlier = rounds;
            let ghost round = Duel {
                start_side: s,
                end_side: e,
                listed: result.processed@,
                met: None,
            };
            let ghost mut forth: Option<PriorityQueueItem<usize>> = None;
            let ghost mut back: Option<PriorityQueueItem<usize>> = None;
            proof {
                if s.queue.len() == 0 {
                    lemma_pick_nothing(s.queue);
                }
                if e.queue.len() == 0 {
                    lemma_pick_nothing(e.queue);
                }
            }
            if frontier_start.count() > 0 {
                let ghost before = result.processed@;
                let (next, done, Ghost(after), Ghost(taken), Ghost(priority)) = self.wave_advance(
                    result,
                    true,
                    end,
                    &mut frontier_start,
                    &mut g_score_start,
                    &mut came_from_start,
                    &came_from_end,
                    Ghost(s),
                    Ghost(e),
                );
                proof {
                    forth = Some(entry(taken as usize, priority));
                }
                if done {
                    proof {
                        self.lemma_wave_pair_found(start_node, end_node, next, before, s, e, taken);
                        self.lemma_duel_round(start as int, end as int, earlier, round, forth, None);
                        rounds = earlier.push((forth, None));
                        assert(self.duel_reports(start as int, end as int, rounds, next));
                    }
                    return next;
                }
                result = next;
                proof {
                    s = after;
                }
            }
            if frontier_end.count() > 0 {
                proof {
                    assert(self.apart(e.expanded, s.expanded));
                    assert(either(e.expanded, s.expanded) =~= either(s.expanded, e.expanded));
                }
                let ghost before = result.processed@;
                let (next, done, Ghost(after), Ghost(taken), Ghost(priority)) = self.wave_advance(
                    result,
                    false,
                    start,
                    &mut frontier_end,
                    &mut g_score_end,
                    &mut came_from_end,
                    &came_from_start,
                    Ghost(e),
                    Ghost(s),
                );
                proof {
                    back = Some(entry(taken as usize, priority));
                }
                if done {
                    proof {
                        self.lemma_wave_pair_found(start_node, end_node, next, before, s, e, taken);
                        self.lemma_duel_round(start as int, end as int, earlier, round, forth, back);
                        rounds = earlier.push((forth, back));
                        assert(self.duel_reports(start as int, end as int, rounds, next));
                    }
                    return next;
                }
                result = next;
                proof {
                    e = after;
                    assert(self.apart(s.expanded, e.expanded));
                    assert(either(e.expanded, s.expanded) =~= either(s.expanded, e.expanded));
                }
            }
            proof {
                self.lemma_duel_round(start as int, end as int, earlier, round, forth, back);
                rounds = earlier.push((forth, back));
            }
        }
        proof {
            assert(self.duel_reports(start as int, end as int, rounds, result));
            self.lemma_wave_pair_exhausted(start_node, end_node, result, s, e);
        }
        result
    }

    /// The result of a bidirectional A* that ended with the two sides meeting.
    pub proof fn lemma_wave_pair_found(
        &self,
        start: GridNode,
        end: GridNode,
        found: PathResult,
        before: Seq<GridNode>,
        s: Wave,
        e: Wave,
        taken: int,
    )
        requires
            self.wf(),
            self.wave_ok(s, None),
            self.wave_ok(e, None),
            start == self.nodes@[s.root],
            end == self.nodes@[e.root],
            0 <= taken < self.nodes@.len(),
            self.covers(before, either(s.expanded, e.expanded)),
            before.len() > 0 ==> before[0] == start,
            before.len() == 0 ==> taken == s.root,
            found.processed@ == before.push(self.nodes@[taken]),
            self.is_open_path(found.path@, start, end),
            self.meets(start, end),
            self.reachable(start, self.nodes@[taken]) || self.reachable(end, self.nodes@[taken]),
            s.root == e.root ==> found.path@ == seq![start],
        ensures
            self.bidirectional_result(start, end, found),
    {
        self.lemma_covered_either(before, s, e);
        self.lemma_walk_open(found.path@);
        assert forall|k: int| 0 <= k < found.processed@.len() implies {
            ||| self.reachable(start, #[trigger] found.processed@[k])
            ||| self.reachable(end, found.processed@[k])
        } by {
            if k < before.len() {
                assert(found.processed@[k] == before[k]);
            }
        }
        if start == end {
            self.lemma_node_is_cell(s.root);
            self.lemma_node_is_cell(e.root);
        }
    }

    /// The result of a bidirectional A* whose two queues ran empty without
    /// the sides meeting.
    pub proof fn lemma_wave_pair_exhausted(
        &self,
        start: GridNode,
        end: GridNode,
        result: PathResult,
        s: Wave,
        e: Wave,
    )
        requires
            self.wf(),
            self.wave_ok(s, None),
            self.wave_ok(e, None),
            s.queue.len() == 0,
            e.queue.len() == 0,
            start == self.nodes@[s.root],
            end == self.nodes@[e.root],
            self.apart(s.expanded, e.expanded),
            result.path@.len() == 0,
            self.covers(result.processed@, either(s.expanded, e.expanded)),
            result.processed@.len() > 0 ==> result.processed@[0] == start,
        ensures
            self.bidirectional_result(start, end, result),
    {
        self.lemma_covered_either(result.processed@, s, e);
        self.lemma_wave_exhausted(s);
        self.lemma_wave_exhausted(e);
        assert forall|c: GridNode|
            self.reachable(start, c) || self.reachable(end, c) implies #[trigger] result.processed@.contains(
            c,
        ) by {
            self.lemma_cell_at(c.x as int, c.y as int);
            assert(either(s.expanded, e.expanded)[self.index_of_cell(c)]);
        }
        if self.meets(start, end) {
            let m = choose|m: GridNode| #[trigger] self.reachable(start, m) && self.reachable(end, m);
            self.lemma_cell_at(m.x as int, m.y as int);
        }
        self.lemma_node_is_cell(s.root);
        self.lemma_node_is_cell(e.root);
        assert(self.is_path(seq![start], start, start));
        assert(self.reachable(start, start));
        if start == end {
            assert(self.meets(start, end));
        }
        assert(result.processed@.contains(start));
    }
}

} // verus!
