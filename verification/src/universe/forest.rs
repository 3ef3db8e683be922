use super::grid_node::GridNode;
use super::path_result::PathResult;
use super::route::adjacent;
use super::universe::Universe;
use vstd::prelude::*;

verus! {

/// Cell `i` belongs to the tree that `came_from` describes below `root`:
/// it is the root or has a predecessor.
pub open spec fn in_tree(came_from: Seq<Option<usize>>, root: int, i: int) -> bool {
    i == root || came_from[i] is Some
}

/// `chain` follows `came_from` from the cell with index `from` back to `root`.
pub open spec fn is_chain(
    came_from: Seq<Option<usize>>,
    chain: Seq<int>,
    from: int,
    root: int,
) -> bool {
    &&& chain.len() > 0
    &&& chain[0] == from
    &&& chain.last() == root
    &&& forall|k: int| 0 <= k < chain.len() ==> 0 <= #[trigger] chain[k] < came_from.len()
    &&& forall|k: int|
        0 <= k < chain.len() - 1 ==> came_from[#[trigger] chain[k]] == Some(chain[k + 1] as usize)
}

/// Number of `false` entries among the first `k` of `flags`.
pub open spec fn count_false(flags: Seq<bool>, k: int) -> int
    decreases k,
{
    if k <= 0 {
        0
    } else {
        count_false(flags, k - 1) + if flags[k - 1] {
            0int
        } else {
            1int
        }
    }
}

/// Setting an entry that was `false` lowers the count of `false` entries by one.
pub proof fn lemma_count_false_set(flags: Seq<bool>, i: int, k: int)
    requires
        0 <= i < flags.len(),
        0 <= k <= flags.len(),
        !flags[i],
    ensures
        count_false(flags.update(i, true), k) == count_false(flags, k) - if i < k {
            1int
        } else {
            0int
        },
        count_false(flags, k) >= if i < k {
            1int
        } else {
            0int
        },
    decreases k,
{
    if k > 0 {
        lemma_count_false_set(flags, i, k - 1);
    }
}

/// The count of `false` entries is never negative.
pub proof fn lemma_count_false_bounds(flags: Seq<bool>, k: int)
    requires
        0 <= k <= flags.len(),
    ensures
        0 <= count_false(flags, k) <= k,
    decreases k,
{
    if k > 0 {
        lemma_count_false_bounds(flags, k - 1);
    }
}

/// A vector of `n` copies of `value`.
pub(crate) fn filled<T: Copy>(n: usize, value: T) -> (v: Vec<T>)
    ensures
        v@.len() == n,
        forall|i: int| 0 <= i < n ==> #[trigger] v@[i] == value,
{
    let mut v: Vec<T> = Vec::with_capacity(n);
    let mut i: usize = 0;
    while i < n
        invariant
            i <= n,
            v@.len() == i,
            forall|k: int| 0 <= k < i ==> #[trigger] v@[k] == value,
        decreases n - i,
    {
        v.push(value);
        i += 1;
    }
    v
}

/// Reverses `v` in place.
pub(crate) fn reverse_nodes(v: &mut Vec<GridNode>)
    ensures
        final(v)@ == old(v)@.reverse(),
{
    let n = v.len();
    let mut i: usize = 0;
    while i < n / 2
        invariant
            n == v@.len(),
            n == old(v)@.len(),
            i <= n / 2,
            forall|k: int| 0 <= k < i ==> #[trigger] v@[k] == old(v)@[n - 1 - k],
            forall|k: int| n - i <= k < n ==> #[trigger] v@[k] == old(v)@[n - 1 - k],
            forall|k: int| i <= k < n - i ==> #[trigger] v@[k] == old(v)@[k],
        decreases n / 2 - i,
    {
        let a = v[i];
        let b = v[n - 1 - i];
        v.set(i, b);
        v.set(n - 1 - i, a);
        i += 1;
    }
    assert(v@ =~= old(v)@.reverse());
}

impl Universe {
    /// Index in `nodes` of the cell `c`.
    pub open spec fn index_of_cell(&self, c: GridNode) -> int {
        self.index_of(c.x as int, c.y as int)
    }

    /// The cells with the indices in `chain`.
    pub open spec fn cells_at(&self, chain: Seq<int>) -> Seq<GridNode> {
        Seq::new(chain.len(), |k: int| self.nodes@[chain[k]])
    }

    /// What `came_from` records for cell `i` is sound: its predecessor `p`
    /// is a cell of the tree below `root` from which a search moved into
    /// `i`, and `p` ranks strictly lower than `i`.
    pub open spec fn link_ok(
        &self,
        came_from: Seq<Option<usize>>,
        rank: Seq<int>,
        root: int,
        i: int,
    ) -> bool {
        match came_from[i] {
            Some(p) => {
                &&& p < self.nodes@.len()
                &&& self.is_step(self.nodes@[p as int], self.nodes@[i])
                &&& 0 <= rank[p as int] < rank[i]
                &&& in_tree(came_from, root, p as int)
            },
            None => true,
        }
    }

    /// `came_from` describes a tree of moves rooted at `root`: the root has
    /// no predecessor and every recorded predecessor is sound.  The ranks
    /// witness that following predecessors ends.
    pub open spec fn is_forest(&self, came_from: Seq<Option<usize>>, rank: Seq<int>, root: int) -> bool {
        &&& came_from.len() == self.nodes@.len()
        &&& rank.len() == self.nodes@.len()
        &&& 0 <= root < self.nodes@.len()
        &&& came_from[root] is None
        &&& forall|i: int|
            0 <= i < self.nodes@.len() ==> #[trigger] self.link_ok(came_from, rank, root, i)
    }

    /// Every move out of a cell marked in `done` leads to a cell marked in `seen`.
    pub open spec fn expands_into(&self, done: Seq<bool>, seen: Seq<bool>) -> bool {
        forall|i: int, j: int|
            0 <= i < self.nodes@.len() && 0 <= j < self.nodes@.len() && done[i]
                && #[trigger] self.is_step(self.nodes@[i], self.nodes@[j]) ==> seen[j]
    }

    /// Following a chain of predecessors backwards gives a path from the
    /// root to the cell the chain starts at.
    pub proof fn lemma_chain_is_path(
        &self,
        came_from: Seq<Option<usize>>,
        rank: Seq<int>,
        root: int,
        chain: Seq<int>,
        from: int,
    )
        requires
            self.wf(),
            self.is_forest(came_from, rank, root),
            is_chain(came_from, chain, from, root),
        ensures
            self.is_path(self.cells_at(chain).reverse(), self.nodes@[root], self.nodes@[from]),
    {
        let p = self.cells_at(chain).reverse();
        let len = chain.len() as int;
        self.lemma_node_is_cell(root);
        assert(p[0] == self.nodes@[chain[len - 1]]);
        assert forall|i: int| 0 < i < p.len() implies self.is_step(p[i - 1], #[trigger] p[i]) by {
            let k = len - 1 - i;
            assert(came_from[chain[k]] == Some(chain[k + 1] as usize));
            assert(self.link_ok(came_from, rank, root, chain[k]));
            assert(p[i] == self.nodes@[chain[k]]);
            assert(p[i - 1] == self.nodes@[chain[k + 1]]);
        }
    }

    /// A chain that starts at the root is the root alone.
    pub proof fn lemma_chain_at_root(
        &self,
        came_from: Seq<Option<usize>>,
        rank: Seq<int>,
        root: int,
        chain: Seq<int>,
    )
        requires
            self.is_forest(came_from, rank, root),
            is_chain(came_from, chain, root, root),
        ensures
            chain == seq![root],
    {
        if chain.len() > 1 {
            assert(came_from[chain[0]] == Some(chain[1] as usize));
        }
        assert(chain =~= seq![root]);
    }

    /// Every cell of the tree can be reached from the root.
    pub proof fn lemma_tree_reaches(
        &self,
        came_from: Seq<Option<usize>>,
        rank: Seq<int>,
        root: int,
        i: int,
    )
        requires
            self.wf(),
            self.is_forest(came_from, rank, root),
            0 <= i < self.nodes@.len(),
            in_tree(came_from, root, i),
        ensures
            self.reachable(self.nodes@[root], self.nodes@[i]),
        decreases
                if rank[i] < 0 {
                    0
                } else {
                    rank[i]
                },
    {
        assert(self.link_ok(came_from, rank, root, i));
        match came_from[i] {
            Some(p) => {
                self.lemma_tree_reaches(came_from, rank, root, p as int);
                let q = choose|q: Seq<GridNode>|
                    self.is_path(q, self.nodes@[root], self.nodes@[p as int]);
                self.lemma_walk_push(q, self.nodes@[i]);
                assert(self.is_path(q.push(self.nodes@[i]), self.nodes@[root], self.nodes@[i]));
            },
            None => {
                self.lemma_node_is_cell(root);
                let q = seq![self.nodes@[root]];
                assert(self.is_path(q, self.nodes@[root], self.nodes@[root]));
            },
        }
    }

    /// A set of cells that holds the first cell of a walk and every cell one
    /// move away from its members holds the last cell of the walk.
    pub proof fn lemma_closed_holds_walk(&self, seen: Seq<bool>, p: Seq<GridNode>)
        requires
            self.wf(),
            seen.len() == self.nodes@.len(),
            self.is_walk(p),
            seen[self.index_of_cell(p[0])],
            self.expands_into(seen, seen),
        ensures
            seen[self.index_of_cell(p.last())],
        decreases p.len(),
    {
        if p.len() > 1 {
            let q = p.drop_last();
            self.lemma_walk_prefix(p, p.len() - 1);
            assert(p.take(p.len() - 1) =~= q);
            self.lemma_closed_holds_walk(seen, q);
            let a = q.last();
            let b = p.last();
            assert(self.is_step(p[p.len() - 2], p[p.len() - 1]));
            self.lemma_cell_at(a.x as int, a.y as int);
            self.lemma_cell_at(b.x as int, b.y as int);
            let i = self.index_of_cell(a);
            let j = self.index_of_cell(b);
            assert(self.nodes@[i] == a);
            assert(self.nodes@[j] == b);
            assert(self.is_step(self.nodes@[i], self.nodes@[j]));
        }
    }

    /// Following a chain of predecessors forwards gives a sequence of
    /// adjacent cells in which every cell but the first and the last is passable.
    pub proof fn lemma_chain_is_open_walk(
        &self,
        came_from: Seq<Option<usize>>,
        rank: Seq<int>,
        root: int,
        chain: Seq<int>,
        from: int,
    )
        requires
            self.wf(),
            self.is_forest(came_from, rank, root),
            is_chain(came_from, chain, from, root),
        ensures
            self.is_open_walk(self.cells_at(chain)),
            chain.len() > 1 ==> self.cells_at(chain)[0].passable,
    {
        let p = self.cells_at(chain);
        assert forall|i: int| 0 <= i < p.len() implies self.is_cell(#[trigger] p[i]) by {
            self.lemma_node_is_cell(chain[i]);
        }
        assert forall|i: int| 0 < i < p.len() implies adjacent(p[i - 1], #[trigger] p[i]) by {
            assert(came_from[chain[i - 1]] == Some(chain[i] as usize));
            assert(self.link_ok(came_from, rank, root, chain[i - 1]));
        }
        assert forall|i: int| 0 <= i < p.len() - 1 implies (#[trigger] p[i]).passable by {
            assert(came_from[chain[i]] == Some(chain[i + 1] as usize));
            assert(self.link_ok(came_from, rank, root, chain[i]));
        }
    }

    /// Follows `came_from` from `end` back to the root, appends the cells
    /// met on the way to the path of `result`, and reverses the whole path.
    pub(crate) fn construct_path(
        &self,
        result: PathResult,
        came_from: &Vec<Option<usize>>,
        end: usize,
        Ghost(rank): Ghost<Seq<int>>,
        Ghost(root): Ghost<int>,
    ) -> (out: (PathResult, Ghost<Seq<int>>))
        requires
            self.wf(),
            self.is_forest(came_from@, rank, root),
            end < self.nodes@.len(),
            in_tree(came_from@, root, end as int),
        ensures
            out.0.processed@ == result.processed@,
            is_chain(came_from@, out.1@, end as int, root),
            out.0.path@ == (result.path@ + self.cells_at(out.1@)).reverse(),
    {
        let PathResult { path, processed } = result;
        let mut path = path;
        let mut current = end;
        path.push(self.nodes[current]);
        let ghost mut chain: Seq<int> = seq![end as int];
        assert(path@ =~= result.path@ + self.cells_at(chain));
        loop
            invariant
                self.wf(),
                self.is_forest(came_from@, rank, root),
                current < self.nodes@.len(),
                in_tree(came_from@, root, current as int),
                chain.len() > 0,
                chain[0] == end,
                chain.last() == current,
                forall|k: int| 0 <= k < chain.len() ==> 0 <= #[trigger] chain[k] < came_from@.len(),
                forall|k: int|
                    0 <= k < chain.len() - 1 ==> came_from@[#[trigger] chain[k]] == Some(
                        chain[k + 1] as usize,
                    ),
                path@ == result.path@ + self.cells_at(chain),
            ensures
                current == root,
            decreases
                    if rank[current as int] < 0 {
                        0
                    } else {
                        rank[current as int] + 1
                    },
        {
            assert(self.link_ok(came_from@, rank, root, current as int));
            match came_from[current] {
                Some(next) => {
                    let ghost earlier = chain;
                    current = next;
                    path.push(self.nodes[current]);
                    proof {
                        chain = earlier.push(next as int);
                        assert(path@ =~= result.path@ + self.cells_at(chain));
                        assert forall|k: int| 0 <= k < chain.len() - 1 implies came_from@[#[trigger] chain[k]]
                            == Some(chain[k + 1] as usize) by {
                            if k < earlier.len() - 1 {
                                assert(chain[k] == earlier[k]);
                                assert(chain[k + 1] == earlier[k + 1]);
                            }
                        }
                    }
                },
                None => {
                    break ;
                },
            }
        }
        reverse_nodes(&mut path);
        (PathResult { path, processed }, Ghost(chain))
    }

    /// The path through a meeting cell: the chain of predecessors from the
    /// cell back to the start, read backwards, followed by the chain from
    /// the cell back to the end without the cell itself.
    pub open spec fn joined(&self, back: Seq<int>, onward: Seq<int>) -> Seq<GridNode> {
        self.cells_at(back).reverse() + self.cells_at(onward).drop_first()
    }

    /// `path` runs along the chain `back` of the start side's predecessors
    /// and the chain `onward` of the end side's, both from the cell `m`.
    pub open spec fn runs_along(
        &self,
        start_from: Seq<Option<usize>>,
        start: int,
        end_from: Seq<Option<usize>>,
        end: int,
        m: int,
        path: Seq<GridNode>,
        back: Seq<int>,
        onward: Seq<int>,
    ) -> bool {
        &&& is_chain(start_from, back, m, start)
        &&& is_chain(end_from, onward, m, end)
        &&& path == self.joined(back, onward)
    }

    /// `path` is the path through the cell `m` where the two sides of a
    /// bidirectional search met: it follows the start side's predecessors
    /// from the start to `m` and the end side's from `m` to the end.
    pub open spec fn joins_at(
        &self,
        start_from: Seq<Option<usize>>,
        start: int,
        end_from: Seq<Option<usize>>,
        end: int,
        m: int,
        path: Seq<GridNode>,
    ) -> bool {
        exists|back: Seq<int>, onward: Seq<int>| #[trigger]
            self.runs_along(start_from, start, end_from, end, m, path, back, onward)
    }

    /// Joins the two halves of a bidirectional search at the cell `current`
    /// that both sides have reached: the path runs from the start along the
    /// start side's predecessors to `current` and on along the end side's
    /// predecessors to the end.
    ///
    /// The half towards the end is built first and reversed, the meeting
    /// cell is dropped from it, then the half towards the start is appended
    /// and the whole is reversed.
    pub(crate) fn stitch(
        &self,
        result: PathResult,
        came_from_start: &Vec<Option<usize>>,
        came_from_end: &Vec<Option<usize>>,
        current: usize,
        Ghost(start_rank): Ghost<Seq<int>>,
        Ghost(end_rank): Ghost<Seq<int>>,
        Ghost(start): Ghost<int>,
        Ghost(end): Ghost<int>,
    ) -> (out: (PathResult, Ghost<Seq<int>>, Ghost<Seq<int>>))
        requires
            self.wf(),
            self.is_forest(came_from_start@, start_rank, start),
            self.is_forest(came_from_end@, end_rank, end),
            current < self.nodes@.len(),
            in_tree(came_from_start@, start, current as int),
            in_tree(came_from_end@, end, current as int),
            result.path@.len() == 0,
        ensures
            out.0.processed@ == result.processed@,
            self.is_open_path(out.0.path@, self.nodes@[start], self.nodes@[end]),
            is_chain(came_from_start@, out.1@, current as int, start),
            is_chain(came_from_end@, out.2@, current as int, end),
            out.0.path@ == self.joined(out.1@, out.2@),
    {
        let (mut here_end, Ghost(onward)) = self.construct_path(
            result,
            came_from_end,
            current,
            Ghost(end_rank),
            Ghost(end),
        );
        let ghost reversed = here_end.path@;
        here_end.path.pop();
        let ghost shortened = here_end.path@;
        let (start_here, Ghost(back)) = self.construct_path(
            here_end,
            came_from_start,
            current,
            Ghost(start_rank),
            Ghost(start),
        );
        proof {
            let a = self.cells_at(back).reverse();
            let b = self.cells_at(onward);
            assert(reversed =~= b.reverse());
            assert(shortened =~= b.reverse().drop_last());
            assert(start_here.path@ =~= a + b.drop_first());
            self.lemma_chain_is_path(came_from_start@, start_rank, start, back, current as int);
            self.lemma_chain_is_open_walk(came_from_end@, end_rank, end, onward, current as int);
            self.lemma_walk_open(a);
            self.lemma_open_walks_join(a, b);
        }
        (start_here, Ghost(back), Ghost(onward))
    }

    /// The path of a bidirectional search through the cell `current`, which
    /// this side has just taken from its frontier and which is the other
    /// side's root or has a predecessor on the other side.
    ///
    /// The side that started at the start cell returns the path along its
    /// own predecessors when `current` is the end cell; in every other case
    /// the two halves are joined at `current`.  Either way the path has as
    /// many cells as the two chains of predecessors from `current` back to
    /// the two roots, less the one they share.
    pub(crate) fn meet_at(
        &self,
        result: PathResult,
        forward: bool,
        current: usize,
        goal: usize,
        came_from: &Vec<Option<usize>>,
        other_came_from: &Vec<Option<usize>>,
        Ghost(rank): Ghost<Seq<int>>,
        Ghost(other_rank): Ghost<Seq<int>>,
        Ghost(root): Ghost<int>,
        Ghost(other_root): Ghost<int>,
    ) -> (out: (PathResult, Ghost<Seq<int>>, Ghost<Seq<int>>))
        requires
            self.wf(),
            self.is_forest(came_from@, rank, root),
            self.is_forest(other_came_from@, other_rank, other_root),
            current < self.nodes@.len(),
            in_tree(came_from@, root, current as int),
            in_tree(other_came_from@, other_root, current as int),
            result.path@.len() == 0,
            goal == other_root,
            root == other_root ==> forward && current == root,
        ensures
            out.0.processed@ == result.processed@,
            is_chain(came_from@, out.1@, current as int, root),
            is_chain(other_came_from@, out.2@, current as int, other_root),
            out.0.path@ == if forward {
                self.joined(out.1@, out.2@)
            } else {
                self.joined(out.2@, out.1@)
            },
            if forward {
                self.joins_at(
                    came_from@,
                    root,
                    other_came_from@,
                    other_root,
                    current as int,
                    out.0.path@,
                )
            } else {
                self.joins_at(
                    other_came_from@,
                    other_root,
                    came_from@,
                    root,
                    current as int,
                    out.0.path@,
                )
            },
            ({
                let start = self.nodes@[if forward {
                    root
                } else {
                    other_root
                }];
                let end = self.nodes@[if forward {
                    other_root
                } else {
                    root
                }];
                &&& self.is_open_path(out.0.path@, start, end)
                &&& self.meets(start, end)
                &&& root == other_root ==> out.0.path@ == seq![start]
            }),
    {
        proof {
            self.lemma_tree_reaches(came_from@, rank, root, current as int);
            self.lemma_tree_reaches(other_came_from@, other_rank, other_root, current as int);
        }
        if forward {
            if current == goal {
                let (found, Ghost(chain)) = self.construct_path(
                    result,
                    came_from,
                    current,
                    Ghost(rank),
                    Ghost(root),
                );
                proof {
                    self.lemma_chain_is_path(came_from@, rank, root, chain, current as int);
                    assert(Seq::<GridNode>::empty() + self.cells_at(chain) =~= self.cells_at(chain));
                    self.lemma_walk_open(found.path@);
                    if root == other_root {
                        self.lemma_chain_at_root(came_from@, rank, root, chain);
                        assert(self.cells_at(chain).reverse() =~= seq![self.nodes@[root]]);
                    }
                }
                let ghost alone: Seq<int> = seq![current as int];
                assert(found.path@ =~= self.joined(chain, alone));
                assert(self.runs_along(
                    came_from@,
                    root,
                    other_came_from@,
                    other_root,
                    current as int,
                    found.path@,
                    chain,
                    alone,
                ));
                return (found, Ghost(chain), Ghost(alone));
            }
            let (found, Ghost(back), Ghost(onward)) = self.stitch(
                result,
                came_from,
                other_came_from,
                current,
                Ghost(rank),
                Ghost(other_rank),
                Ghost(root),
                Ghost(other_root),
            );
            assert(self.runs_along(
                came_from@,
                root,
                other_came_from@,
                other_root,
                current as int,
                found.path@,
                back,
                onward,
            ));
            return (found, Ghost(back), Ghost(onward));
        }
        let (found, Ghost(back), Ghost(onward)) = self.stitch(
            result,
            other_came_from,
            came_from,
            current,
            Ghost(other_rank),
            Ghost(rank),
            Ghost(other_root),
            Ghost(root),
        );
        assert(self.runs_along(
            other_came_from@,
            other_root,
            came_from@,
            root,
            current as int,
            found.path@,
            back,
            onward,
        ));
        (found, Ghost(onward), Ghost(back))
    }
}

} // verus!
