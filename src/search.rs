use vstd::prelude::*;
use vstd::set_lib::set_int_range;
use crate::grid::{Direction, Graph, follow, lemma_lex_push, lemma_lex_trans, lex_le, lex_lt, rank, step};
use crate::path::{Parents, construct_path, lemma_chain, trace};

verus! {

spec fn at<T>(s: Seq<Vec<T>>, c: (int, int)) -> T {
    s[c.0]@[c.1]
}

spec fn qpos(queue: Seq<(usize, usize)>, k: int) -> (int, int) {
    (queue[k].0 as int, queue[k].1 as int)
}

/// Number of a square in row-major order.
spec fn cell_id(m: int, c: (int, int)) -> int {
    c.0 * m + c.1
}

proof fn lemma_cell_id(n: int, m: int, c: (int, int), e: (int, int))
    requires
        0 <= c.0 < n,
        0 <= c.1 < m,
        0 <= e.0 < n,
        0 <= e.1 < m,
    ensures
        0 <= cell_id(m, c) < n * m,
        cell_id(m, c) == cell_id(m, e) ==> c == e,
{
    assert(0 <= c.0 * m + c.1 < n * m) by (nonlinear_arith)
        requires
            0 <= c.0 < n,
            0 <= c.1 < m,
    ;
    if cell_id(m, c) == cell_id(m, e) {
        assert(c.0 == e.0) by (nonlinear_arith)
            requires
                c.0 * m + c.1 == e.0 * m + e.1,
                0 <= c.1 < m,
                0 <= e.1 < m,
        ;
    }
}

impl Graph {
    /// Each entry of the neighbour list is an open square one move `e.2` from `(i, j)`,
    /// and each open square one move from `(i, j)` has an entry.
    proof fn lemma_neighbors(&self, i: int, j: int)
        requires
            self.in_bounds((i, j)),
        ensures
            forall|s: int|
                0 <= s < self.neighbors(i, j).len() ==> {
                    let e = #[trigger] self.neighbors(i, j)[s];
                    &&& self.open_at((e.0 as int, e.1 as int))
                    &&& step((i, j), e.2) == (e.0 as int, e.1 as int)
                    &&& e.3 == i
                    &&& e.4 == j
                },
            forall|d: Direction|
                self.open_at(#[trigger] step((i, j), d)) ==> exists|s: int|
                    0 <= s < self.neighbors(i, j).len() && (#[trigger] self.neighbors(i, j)[s]).2 == d,
            forall|s1: int, s2: int|
                0 <= s1 < s2 < self.neighbors(i, j).len() ==> rank((#[trigger] self.neighbors(i, j)[s1]).2) < rank(
                    (#[trigger] self.neighbors(i, j)[s2]).2,
                ),
    {
        let eu = self.edge(i, j, Direction::U);
        let ed = self.edge(i, j, Direction::D);
        let el = self.edge(i, j, Direction::L);
        let er = self.edge(i, j, Direction::R);
        let nb = self.neighbors(i, j);
        assert forall|s: int| 0 <= s < nb.len() implies {
            let e = #[trigger] nb[s];
            &&& self.open_at((e.0 as int, e.1 as int))
            &&& step((i, j), e.2) == (e.0 as int, e.1 as int)
            &&& e.3 == i
            &&& e.4 == j
        } by {
            if s < eu.len() {
                assert(nb[s] == eu[s]);
            } else if s < eu.len() + ed.len() {
                assert(nb[s] == ed[s - eu.len()]);
            } else if s < eu.len() + ed.len() + el.len() {
                assert(nb[s] == el[s - eu.len() - ed.len()]);
            } else {
                assert(nb[s] == er[s - eu.len() - ed.len() - el.len()]);
            }
        }
        assert forall|s1: int, s2: int| 0 <= s1 < s2 < nb.len() implies rank((#[trigger] nb[s1]).2) < rank(
            (#[trigger] nb[s2]).2,
        ) by {
            let a = eu.len() as int;
            let b = a + ed.len();
            let c = b + el.len();
            assert(s1 < a ==> nb[s1] == eu[s1] && nb[s1].2 == Direction::U);
            assert(a <= s1 < b ==> nb[s1] == ed[s1 - a] && nb[s1].2 == Direction::D);
            assert(b <= s1 < c ==> nb[s1] == el[s1 - b] && nb[s1].2 == Direction::L);
            assert(c <= s1 ==> nb[s1] == er[s1 - c] && nb[s1].2 == Direction::R);
            assert(s2 < a ==> nb[s2] == eu[s2] && nb[s2].2 == Direction::U);
            assert(a <= s2 < b ==> nb[s2] == ed[s2 - a] && nb[s2].2 == Direction::D);
            assert(b <= s2 < c ==> nb[s2] == el[s2 - b] && nb[s2].2 == Direction::L);
            assert(c <= s2 ==> nb[s2] == er[s2 - c] && nb[s2].2 == Direction::R);
        }
        assert forall|d: Direction| self.open_at(#[trigger] step((i, j), d)) implies exists|s: int|
            0 <= s < nb.len() && (#[trigger] nb[s]).2 == d by {
            match d {
                Direction::U => {
                    assert(nb[0].2 == d);
                },
                Direction::D => {
                    assert(nb[eu.len() as int].2 == d);
                },
                Direction::L => {
                    assert(nb[(eu.len() + ed.len()) as int].2 == d);
                },
                Direction::R => {
                    assert(nb[(eu.len() + ed.len() + el.len()) as int].2 == d);
                },
            }
        }
    }

    /// `s` has a value for each square of the grid.
    spec fn rect<T>(&self, s: Seq<Vec<T>>) -> bool {
        &&& s.len() == self.n
        &&& forall|i: int| 0 <= i < self.n ==> (#[trigger] s[i])@.len() == self.m
    }

    /// The queue holds the seen squares, each once, starting at the start; `lev` gives
    /// the number of moves that reached each, never falling along the queue, and `pos`
    /// the place of each in the queue.
    spec fn queue_ok(
        &self,
        seen: Seq<Vec<bool>>,
        queue: Seq<(usize, usize)>,
        lev: Seq<int>,
        pos: Map<(int, int), int>,
    ) -> bool {
        &&& queue.len() == lev.len()
        &&& queue.len() > 0
        &&& qpos(queue, 0) == self.start_pos()
        &&& lev[0] == 0
        &&& forall|k: int|
            0 <= k < queue.len() ==> {
                &&& self.open_at(#[trigger] qpos(queue, k))
                &&& at(seen, qpos(queue, k))
                &&& pos.contains_key(qpos(queue, k))
                &&& pos[qpos(queue, k)] == k
            }
        &&& forall|c: (int, int)|
            self.in_bounds(c) && #[trigger] at(seen, c) ==> {
                &&& pos.contains_key(c)
                &&& 0 <= pos[c] < queue.len()
                &&& qpos(queue, pos[c]) == c
            }
        &&& forall|k1: int, k2: int| 0 <= k1 <= k2 < queue.len() ==> #[trigger] lev[k1] <= #[trigger] lev[k2]
    }

    /// Every open neighbour of the first `h` squares of the queue is seen, at most one
    /// move further.
    spec fn closed(
        &self,
        seen: Seq<Vec<bool>>,
        queue: Seq<(usize, usize)>,
        lev: Seq<int>,
        pos: Map<(int, int), int>,
        h: int,
    ) -> bool {
        forall|k: int, d: Direction|
            0 <= k < h && self.open_at(#[trigger] step(qpos(queue, k), d)) ==> {
                &&& at(seen, step(qpos(queue, k), d))
                &&& lev[pos[step(qpos(queue, k), d)]] <= lev[k] + 1
            }
    }

    /// The start has no predecessor; every other seen square has a seen one, one move
    /// away and one level lower; unseen squares have none.
    spec fn links_ok(
        &self,
        parents: Seq<Vec<Option<(Direction, usize, usize)>>>,
        seen: Seq<Vec<bool>>,
        lev: Seq<int>,
        pos: Map<(int, int), int>,
    ) -> bool {
        forall|c: (int, int)|
            self.in_bounds(c) ==> match #[trigger] at(parents, c) {
                None => !at(seen, c) || c == self.start_pos(),
                Some((d, pi, pj)) => {
                    &&& at(seen, c)
                    &&& c != self.start_pos()
                    &&& self.in_bounds((pi as int, pj as int))
                    &&& at(seen, (pi as int, pj as int))
                    &&& step((pi as int, pj as int), d) == c
                    &&& lev[pos[(pi as int, pj as int)]] + 1 == lev[pos[c]]
                },
            }
    }

    /// Each seen square has its tree path: a walk from the start of as many moves as its
    /// level, which is its predecessor's tree path and one move more. A square placed in
    /// the queue before `len0` was reached from one before place `hp`; later ones from `hp`.
    spec fn tree_ok(
        &self,
        parents: Seq<Vec<Option<(Direction, usize, usize)>>>,
        seen: Seq<Vec<bool>>,
        lev: Seq<int>,
        pos: Map<(int, int), int>,
        tp: Map<(int, int), Seq<Direction>>,
        hp: int,
        len0: int,
    ) -> bool {
        &&& forall|c: (int, int)|
            self.in_bounds(c) && #[trigger] at(seen, c) ==> {
                &&& tp.contains_key(c)
                &&& tp[c].len() == lev[pos[c]]
                &&& self.walk(self.start_pos(), tp[c], c)
            }
        &&& forall|c: (int, int)|
            self.in_bounds(c) ==> match #[trigger] at(parents, c) {
                None => true,
                Some((d, pi, pj)) => {
                    &&& tp[c] == tp[(pi as int, pj as int)].push(d)
                    &&& pos[c] < len0 ==> pos[(pi as int, pj as int)] < hp
                    &&& pos[c] >= len0 ==> pos[(pi as int, pj as int)] == hp
                },
            }
    }

    /// Along the queue, squares of one level come in the dictionary order of their tree paths.
    spec fn order_ok(
        &self,
        queue: Seq<(usize, usize)>,
        lev: Seq<int>,
        tp: Map<(int, int), Seq<Direction>>,
    ) -> bool {
        forall|k1: int, k2: int|
            0 <= k1 < k2 < queue.len() ==> lev[k1] < lev[k2] || lex_lt(
                tp[#[trigger] qpos(queue, k1)],
                tp[#[trigger] qpos(queue, k2)],
            )
    }

    /// No walk from the start to a seen square with as many moves as its level comes
    /// before its tree path.
    spec fn min_ok(
        &self,
        seen: Seq<Vec<bool>>,
        lev: Seq<int>,
        pos: Map<(int, int), int>,
        tp: Map<(int, int), Seq<Direction>>,
    ) -> bool {
        forall|c: (int, int), w: Seq<Direction>|
            self.in_bounds(c) && at(seen, c) && #[trigger] self.walk(self.start_pos(), w, c) && w.len()
                == lev[pos[c]] ==> lex_le(tp[c], w)
    }

    /// A square first seen from the head of the queue by the move `d` gets as its tree path
    /// one that no walk of the same length comes before.
    proof fn lemma_min_new(
        &self,
        seen: Seq<Vec<bool>>,
        queue: Seq<(usize, usize)>,
        lev: Seq<int>,
        pos: Map<(int, int), int>,
        tp: Map<(int, int), Seq<Direction>>,
        head: int,
        c: (int, int),
        d: Direction,
        w: Seq<Direction>,
    )
        requires
            self.wf(),
            self.queue_ok(seen, queue, lev, pos),
            self.closed(seen, queue, lev, pos, head),
            self.order_ok(queue, lev, tp),
            self.min_ok(seen, lev, pos, tp),
            forall|b: (int, int)|
                self.in_bounds(b) && #[trigger] at(seen, b) ==> tp.contains_key(b) && tp[b].len() == lev[pos[b]],
            0 <= head < queue.len(),
            self.in_bounds(c),
            !at(seen, c),
            step(qpos(queue, head), d) == c,
            self.walk(self.start_pos(), w, c),
            w.len() == lev[head] + 1,
        ensures
            lex_le(tp[qpos(queue, head)].push(d), w),
    {
        let u = qpos(queue, head);
        let l = lev[head];
        assert(lev[0] <= lev[head]);
        let w1 = w.drop_last();
        let d1 = w.last();
        assert forall|k: int| 0 <= k < queue.len() && #[trigger] lev[k] < w1.len() implies k < head by {
            if k >= head {
                assert(lev[head] <= lev[k]);
            }
        }
        self.lemma_walk_found(seen, queue, lev, pos, head, w1);
        let u1 = follow(self.start_pos(), w1);
        let k1 = pos[u1];
        assert(qpos(queue, k1) == u1);
        assert(step(u1, d1) == c);
        assert(self.open_at(c));
        if k1 < head {
            assert(self.open_at(step(qpos(queue, k1), d1)));
            assert(false);
        }
        assert(lev[head] <= lev[k1]);
        assert(self.walk(self.start_pos(), w1, u1));
        assert(lex_le(tp[u1], w1));
        assert(w =~= w1.push(d1));
        assert(pos[u] == head);
        if k1 == head {
            assert(u1 == u);
            assert(d1 == d);
            if tp[u] != w1 {
                lemma_lex_push(tp[u], w1, d, d1);
            }
        } else {
            assert(lex_lt(tp[u], tp[u1]));
            if tp[u1] != w1 {
                lemma_lex_trans(tp[u], tp[u1], w1);
            }
            lemma_lex_push(tp[u], w1, d, d1);
        }
    }

    /// The links from a seen square spell a walk from the start of as many moves as its level.
    proof fn lemma_links_walk(
        &self,
        parents: Seq<Vec<Option<(Direction, usize, usize)>>>,
        seen: Seq<Vec<bool>>,
        queue: Seq<(usize, usize)>,
        lev: Seq<int>,
        pos: Map<(int, int), int>,
        tp: Map<(int, int), Seq<Direction>>,
        hp: int,
        len0: int,
        c: (int, int),
    ) -> (p: Seq<Direction>)
        requires
            self.wf(),
            self.rect(parents),
            self.queue_ok(seen, queue, lev, pos),
            self.links_ok(parents, seen, lev, pos),
            self.tree_ok(parents, seen, lev, pos, tp, hp, len0),
            self.in_bounds(c),
            at(seen, c),
        ensures
            p == tp[c],
            lev[pos[c]] >= 0,
            trace(parents, c, lev[pos[c]] as nat) == Some(p),
            self.walk(self.start_pos(), p, c),
            p.len() == lev[pos[c]],
        decreases lev[pos[c]],
    {
        assert(lev[0] <= lev[pos[c]]);
        assert(self.rect(parents) ==> parents[c.0]@.len() == self.m);
        match at(parents, c) {
            None => {
                assert(tp[c] =~= Seq::<Direction>::empty());
                Seq::empty()
            },
            Some((d, pi, pj)) => {
                let b = (pi as int, pj as int);
                let q = self.lemma_links_walk(parents, seen, queue, lev, pos, tp, hp, len0, b);
                let p = q.push(d);
                assert(p.drop_last() =~= q);
                assert(self.open_at(qpos(queue, pos[c])));
                p
            },
        }
    }

    /// When the squares of fewer moves than `p` are all in the first `h` places of the
    /// queue, and those places are closed, the walk `p` from the start ends on a seen
    /// square, of a level no higher than its length.
    proof fn lemma_walk_found(
        &self,
        seen: Seq<Vec<bool>>,
        queue: Seq<(usize, usize)>,
        lev: Seq<int>,
        pos: Map<(int, int), int>,
        h: int,
        p: Seq<Direction>,
    )
        requires
            self.wf(),
            self.queue_ok(seen, queue, lev, pos),
            self.closed(seen, queue, lev, pos, h),
            self.walk_ok(self.start_pos(), p),
            forall|k: int| 0 <= k < queue.len() && #[trigger] lev[k] < p.len() ==> k < h,
        ensures
            self.in_bounds(follow(self.start_pos(), p)),
            at(seen, follow(self.start_pos(), p)),
            lev[pos[follow(self.start_pos(), p)]] <= p.len(),
        decreases p.len(),
    {
        if p.len() == 0 {
            assert(pos[qpos(queue, 0)] == 0);
        } else {
            let q = p.drop_last();
            self.lemma_walk_found(seen, queue, lev, pos, h, q);
            let b = follow(self.start_pos(), q);
            let k = pos[b];
            assert(qpos(queue, k) == b);
            assert(k < h);
            assert(self.open_at(step(qpos(queue, k), p.last())));
        }
    }
}

impl Graph {
    /// A route from the start to the end with as few moves as any route has, the first
    /// of those in dictionary order with up before down before left before right; or
    /// `None` where walls cut the end off from the start.
    pub fn reach(&self) -> (r: Option<Vec<Direction>>)
        requires
            self.wf(),
        ensures
            r.is_none() <==> !self.reachable(),
            r matches Some(p) ==> self.is_first_shortest_route(p@),
    {
        let n = self.n;
        let m = self.m;
        let start = self.start;
        let end = self.end;
        let mut visited: Vec<Vec<bool>> = Vec::new();
        let mut parents: Parents = Vec::new();
        let mut i: usize = 0;
        while i < n
            invariant
                n == self.n,
                m == self.m,
                0 <= i <= n,
                visited@.len() == i,
                parents@.len() == i,
                forall|k: int| 0 <= k < i ==> (#[trigger] visited@[k])@.len() == m,
                forall|k: int| 0 <= k < i ==> (#[trigger] parents@[k])@.len() == m,
                forall|c: (int, int)| 0 <= c.0 < i && 0 <= c.1 < m ==> !#[trigger] at(visited@, c),
                forall|c: (int, int)| 0 <= c.0 < i && 0 <= c.1 < m ==> (#[trigger] at(parents@, c)).is_none(),
            decreases n - i,
        {
            let mut vr: Vec<bool> = Vec::new();
            let mut pr: Vec<Option<(Direction, usize, usize)>> = Vec::new();
            let mut j: usize = 0;
            while j < m
                invariant
                    0 <= j <= m,
                    vr@.len() == j,
                    pr@.len() == j,
                    forall|l: int| 0 <= l < j ==> !#[trigger] vr@[l],
                    forall|l: int| 0 <= l < j ==> (#[trigger] pr@[l]).is_none(),
                decreases m - j,
            {
                vr.push(false);
                pr.push(None);
                j = j + 1;
            }
            let ghost v0 = visited@;
            let ghost p0 = parents@;
            let ghost vr0 = vr;
            let ghost pr0 = pr;
            visited.push(vr);
            parents.push(pr);
            assert forall|c: (int, int)| 0 <= c.0 <= i && 0 <= c.1 < m implies !#[trigger] at(visited@, c) by {
                if c.0 < i {
                    assert(!at(v0, c));
                    assert(visited@[c.0] == v0[c.0]);
                } else {
                    assert(visited@[c.0] == vr0);
                    assert(!vr0@[c.1]);
                }
            }
            assert forall|c: (int, int)| 0 <= c.0 <= i && 0 <= c.1 < m implies (#[trigger] at(parents@, c)).is_none() by {
                if c.0 < i {
                    assert(at(p0, c).is_none());
                    assert(parents@[c.0] == p0[c.0]);
                } else {
                    assert(parents@[c.0] == pr0);
                    assert(pr0@[c.1].is_none());
                }
            }
            i = i + 1;
        }
        let ghost v0 = visited@;
        visited[start.0][start.1] = true;
        assert forall|b: (int, int)| self.in_bounds(b) implies #[trigger] at(visited@, b) == (b == self.start_pos()) by {
            assert(!at(v0, b));
            if b.0 != start.0 {
                assert(visited@[b.0] == v0[b.0]);
            }
        }
        assert(visited@[start.0 as int]@.len() == m);
        let mut queue: Vec<(usize, usize)> = vec![start];
        let ghost mut lev: Seq<int> = seq![0];
        let ghost mut pos: Map<(int, int), int> = map![self.start_pos() => 0];
        let ghost mut ids: Set<int> = set![cell_id(m as int, self.start_pos())];
        let ghost mut tp: Map<(int, int), Seq<Direction>> = map![self.start_pos() => Seq::empty()];
        proof {
            assert forall|c: (int, int), w: Seq<Direction>|
                self.in_bounds(c) && at(visited@, c) && #[trigger] self.walk(self.start_pos(), w, c) && w.len()
                    == lev[pos[c]] implies lex_le(tp[c], w) by {
                assert(w =~= Seq::<Direction>::empty());
            }
            assert forall|c: (int, int)| self.in_bounds(c) implies (at(visited@, c) <==> ids.contains(
                #[trigger] cell_id(m as int, c),
            )) by {
                lemma_cell_id(n as int, m as int, c, self.start_pos());
            }
            lemma_cell_id(n as int, m as int, self.start_pos(), self.start_pos());
        }
        let mut head: usize = 0;
        while head < queue.len() && !visited[end.0][end.1]
            invariant
                self.wf(),
                n == self.n,
                m == self.m,
                start == self.start,
                end == self.end,
                self.rect(visited@),
                self.rect(parents@),
                self.queue_ok(visited@, queue@, lev, pos),
                self.closed(visited@, queue@, lev, pos, head as int),
                self.links_ok(parents@, visited@, lev, pos),
                self.tree_ok(parents@, visited@, lev, pos, tp, head as int, queue@.len() as int),
                self.order_ok(queue@, lev, tp),
                self.min_ok(visited@, lev, pos, tp),
                head <= queue@.len(),
                head < queue@.len() ==> forall|k: int|
                    0 <= k < queue@.len() ==> #[trigger] lev[k] <= lev[head as int] + 1,
                ids.finite(),
                ids.len() == queue@.len(),
                forall|x: int| #[trigger] ids.contains(x) ==> 0 <= x < (n as int) * (m as int),
                forall|c: (int, int)|
                    self.in_bounds(c) ==> (at(visited@, c) <==> ids.contains(#[trigger] cell_id(m as int, c))),
            decreases 2 * ((n as int) * (m as int)) - queue@.len() - head,
        {
            let cur = queue[head];
            assert(qpos(queue@, head as int) == (cur.0 as int, cur.1 as int));
            let edges = self.has_edges(cur.0, cur.1);
            let ghost hl = lev[head as int];
            let ghost len0 = queue@.len();
            proof {
                self.lemma_neighbors(cur.0 as int, cur.1 as int);
            }
            let mut t: usize = 0;
            while t < edges.len()
                invariant
                    self.wf(),
                    n == self.n,
                    m == self.m,
                    start == self.start,
                    head < len0 <= queue@.len(),
                    cur == queue@[head as int],
                    edges@ == self.neighbors(cur.0 as int, cur.1 as int),
                    forall|s: int|
                        0 <= s < edges@.len() ==> {
                            let e = #[trigger] edges@[s];
                            &&& self.open_at((e.0 as int, e.1 as int))
                            &&& step((cur.0 as int, cur.1 as int), e.2) == (e.0 as int, e.1 as int)
                            &&& e.3 == cur.0
                            &&& e.4 == cur.1
                        },
                    hl == lev[head as int],
                    0 <= t <= edges@.len(),
                    self.rect(visited@),
                    self.rect(parents@),
                    self.queue_ok(visited@, queue@, lev, pos),
                    self.closed(visited@, queue@, lev, pos, head as int),
                    self.links_ok(parents@, visited@, lev, pos),
                    self.tree_ok(parents@, visited@, lev, pos, tp, head as int, len0 as int),
                    self.order_ok(queue@, lev, tp),
                    self.min_ok(visited@, lev, pos, tp),
                    forall|s1: int, s2: int|
                        0 <= s1 < s2 < edges@.len() ==> rank((#[trigger] edges@[s1]).2) < rank(
                            (#[trigger] edges@[s2]).2,
                        ),
                    t < edges@.len() ==> forall|k: int|
                        len0 <= k < queue@.len() ==> rank(
                            (#[trigger] at(parents@, qpos(queue@, k))).unwrap().0,
                        ) < rank(edges@[t as int].2),
                    forall|k: int| 0 <= k < queue@.len() ==> #[trigger] lev[k] <= hl + 1,
                    forall|k: int| len0 <= k < queue@.len() ==> #[trigger] lev[k] == hl + 1,
                    forall|s: int|
                        0 <= s < t ==> {
                            let e = #[trigger] edges@[s];
                            &&& at(visited@, (e.0 as int, e.1 as int))
                            &&& lev[pos[(e.0 as int, e.1 as int)]] <= hl + 1
                        },
                    ids.finite(),
                    ids.len() == queue@.len(),
                    forall|x: int| #[trigger] ids.contains(x) ==> 0 <= x < (n as int) * (m as int),
                    forall|c: (int, int)|
                        self.in_bounds(c) ==> (at(visited@, c) <==> ids.contains(#[trigger] cell_id(m as int, c))),
                decreases edges@.len() - t,
            {
                let (ni, nj, d, pi, pj) = edges[t];
                let ghost e = edges@[t as int];
                let ghost c = (ni as int, nj as int);
                assert(self.in_bounds(c));
                if visited[ni][nj] {
                    assert(at(visited@, c));
                    assert(lev[pos[c]] <= hl + 1);
                } else {
                    let ghost v0 = visited@;
                    let ghost p0 = parents@;
                    let ghost q0 = queue@;
                    let ghost lev0 = lev;
                    let ghost pos0 = pos;
                    let ghost ids0 = ids;
                    let ghost tp0 = tp;
                    let ghost u = (cur.0 as int, cur.1 as int);
                    visited[ni][nj] = true;
                    parents[ni][nj] = Some((d, pi, pj));
                    queue.push((ni, nj));
                    proof {
                        lev = lev.push(hl + 1);
                        pos = pos.insert(c, q0.len() as int);
                        ids = ids.insert(cell_id(m as int, c));
                        tp = tp.insert(c, tp0[u].push(d));
                        lemma_cell_id(n as int, m as int, c, c);
                        assert(!ids0.contains(cell_id(m as int, c)));
                        assert forall|b: (int, int)| self.in_bounds(b) implies at(visited@, b) == (b == c || at(v0, b))
                            && at(parents@, b) == (if b == c {
                            Some((d, pi, pj))
                        } else {
                            at(p0, b)
                        }) by {
                            if b.0 != c.0 {
                                assert(visited@[b.0] == v0[b.0]);
                                assert(parents@[b.0] == p0[b.0]);
                            }
                        }
                        assert forall|b: (int, int)| self.in_bounds(b) implies (at(visited@, b) <==> ids.contains(
                            #[trigger] cell_id(m as int, b),
                        )) by {
                            lemma_cell_id(n as int, m as int, b, c);
                        }
                        assert forall|k: int| 0 <= k < q0.len() implies #[trigger] qpos(queue@, k) == qpos(q0, k)
                            && qpos(queue@, k) != c by {
                            assert(at(v0, qpos(q0, k)));
                        }
                        assert(qpos(queue@, q0.len() as int) == c);
                        assert(self.queue_ok(visited@, queue@, lev, pos));
                        assert(qpos(q0, head as int) == (cur.0 as int, cur.1 as int));
                        assert(pos0[qpos(q0, head as int)] == head);
                        assert(pos[(cur.0 as int, cur.1 as int)] == head);
                        assert forall|b: (int, int)| self.in_bounds(b) && at(v0, b) implies pos[b] == pos0[b] && lev[pos[b]]
                            == lev0[pos0[b]] && b != c by {}
                        assert(self.links_ok(parents@, visited@, lev, pos));
                        assert(self.closed(visited@, queue@, lev, pos, head as int));
                        assert forall|b: (int, int)| self.in_bounds(b) && at(v0, b) implies tp[b] == tp0[b] by {}
                        assert(tp0[u].push(d).drop_last() =~= tp0[u]);
                        assert(self.walk(self.start_pos(), tp[c], c));
                        assert(self.tree_ok(parents@, visited@, lev, pos, tp, head as int, len0 as int));
                        assert forall|k1: int| 0 <= k1 < q0.len() implies lev[k1] < lev[q0.len() as int] || lex_lt(
                            tp[qpos(queue@, k1)],
                            tp[c],
                        ) by {
                            let b = qpos(q0, k1);
                            if lev[k1] == hl + 1 {
                                assert(lev0[0] <= lev0[head as int]);
                                assert(b != self.start_pos());
                                assert(at(v0, b));
                                match at(p0, b) {
                                    Some((d1, bi, bj)) => {
                                        let a = (bi as int, bj as int);
                                        assert(tp0[b] == tp0[a].push(d1));
                                        assert(lev0[pos0[a]] == hl);
                                        if k1 >= len0 {
                                            assert(pos0[a] == head);
                                            assert(qpos(q0, head as int) == a);
                                            lemma_lex_push(tp0[u], tp0[u], d1, d);
                                        } else {
                                            assert(pos0[a] < head);
                                            assert(qpos(q0, pos0[a]) == a);
                                            assert(lev0[pos0[a]] == lev0[head as int]);
                                            assert(lex_lt(tp0[a], tp0[u]));
                                            lemma_lex_push(tp0[a], tp0[u], d1, d);
                                        }
                                    },
                                    None => {},
                                }
                            }
                        }
                        assert(self.order_ok(queue@, lev, tp));
                        assert forall|b: (int, int), w: Seq<Direction>|
                            self.in_bounds(b) && at(visited@, b) && #[trigger] self.walk(self.start_pos(), w, b)
                                && w.len() == lev[pos[b]] implies lex_le(tp[b], w) by {
                            if b == c {
                                assert(qpos(q0, head as int) == u);
                                self.lemma_min_new(v0, q0, lev0, pos0, tp0, head as int, c, d, w);
                            }
                        }
                    }
                }
                t = t + 1;
            }
            proof {
                assert forall|k: int, d: Direction|
                    0 <= k < head + 1 && self.open_at(#[trigger] step(qpos(queue@, k), d)) implies {
                    &&& at(visited@, step(qpos(queue@, k), d))
                    &&& lev[pos[step(qpos(queue@, k), d)]] <= lev[k] + 1
                } by {
                    if k == head {
                        let s = choose|s: int|
                            0 <= s < edges@.len() && (#[trigger] edges@[s]).2 == d;
                        assert(edges@[s].2 == d);
                    }
                }
                assert forall|b: (int, int)| self.in_bounds(b) implies match #[trigger] at(parents@, b) {
                    None => true,
                    Some((d, pi, pj)) => pos[(pi as int, pj as int)] < head + 1,
                } by {
                    if at(parents@, b).is_some() {
                        assert(pos[b] < queue@.len());
                    }
                }
                vstd::set_lib::lemma_int_range(0, (n as int) * (m as int));
                vstd::set_lib::lemma_len_subset(ids, set_int_range(0, (n as int) * (m as int)));
            }
            head = head + 1;
        }
        if visited[end.0][end.1] {
            assert(at(visited@, self.end_pos()));
            let ghost p = self.lemma_links_walk(
                parents@,
                visited@,
                queue@,
                lev,
                pos,
                tp,
                head as int,
                queue@.len() as int,
                self.end_pos(),
            );
            proof {
                lemma_chain(parents@, self.end_pos(), lev[pos[self.end_pos()]] as nat);
            }
            let mut path: Vec<Direction> = Vec::new();
            construct_path(&parents, end, &mut path);
            proof {
                assert(path@ =~= p);
                assert(self.is_route(p));
                assert forall|q: Seq<Direction>| #[trigger] self.is_route(q) implies p.len() <= q.len() by {
                    if q.len() < p.len() {
                        assert forall|k: int| 0 <= k < queue@.len() && #[trigger] lev[k] < q.len() implies k
                            < head by {
                            if head < queue@.len() && k >= head {
                                assert(lev[head as int] <= lev[k]);
                                assert(lev[pos[self.end_pos()]] <= lev[head as int] + 1);
                            }
                        }
                        self.lemma_walk_found(visited@, queue@, lev, pos, head as int, q);
                    }
                }
                assert forall|q: Seq<Direction>| #[trigger] self.is_route(q) && q.len() == p.len() implies lex_le(
                    p,
                    q,
                ) by {
                    assert(self.walk(self.start_pos(), q, self.end_pos()));
                }
            }
            Some(path)
        } else {
            proof {
                assert forall|q: Seq<Direction>| !self.is_route(q) by {
                    if self.is_route(q) {
                        self.lemma_walk_found(visited@, queue@, lev, pos, head as int, q);
                    }
                }
            }
            None
        }
    }
}

} // verus!
