use vstd::prelude::*;
use crate::grid::{Direction, Graph, follow, lemma_lex_asym, lex_lt};

verus! {

impl Graph {
    /// Where the start is the end, the one shortest route is the empty one: the maze is
    /// reachable, and every shortest route has no moves.
    pub proof fn lemma_start_is_end(&self)
        requires
            self.wf(),
            self.start_pos() == self.end_pos(),
        ensures
            self.reachable(),
            self.is_shortest_route(Seq::empty()),
            forall|p: Seq<Direction>| #[trigger] self.is_shortest_route(p) ==> p == Seq::<Direction>::empty(),
    {
        assert(self.is_route(Seq::empty()));
        assert forall|p: Seq<Direction>| #[trigger] self.is_shortest_route(p) implies p == Seq::<Direction>::empty() by {
            assert(p.len() <= 0);
            assert(p =~= Seq::<Direction>::empty());
        }
    }

    /// There is at most one first shortest route.
    pub proof fn lemma_first_shortest_unique(&self, p: Seq<Direction>, q: Seq<Direction>)
        requires
            self.is_first_shortest_route(p),
            self.is_first_shortest_route(q),
        ensures
            p == q,
    {
        assert(self.is_route(q) && self.is_route(p));
        assert(p.len() == q.len());
        if p != q {
            assert(lex_lt(p, q));
            lemma_lex_asym(p, q);
        }
    }

    /// Two results that each meet what `reach` promises on this maze are equal: running
    /// the search twice on one maze gives the same moves.
    pub proof fn lemma_reach_deterministic(&self, r1: Option<Seq<Direction>>, r2: Option<Seq<Direction>>)
        requires
            self.wf(),
            r1.is_none() <==> !self.reachable(),
            r1 matches Some(p) ==> self.is_first_shortest_route(p),
            r2.is_none() <==> !self.reachable(),
            r2 matches Some(p) ==> self.is_first_shortest_route(p),
        ensures
            r1 == r2,
    {
        if let (Some(p), Some(q)) = (r1, r2) {
            self.lemma_first_shortest_unique(p, q);
        }
    }

    /// Taking the moves of a route one by one from the start, every square met, the
    /// start included, lies inside the grid and is no wall, and the last one is the end.
    pub proof fn lemma_route_squares(&self, p: Seq<Direction>)
        requires
            self.is_route(p),
        ensures
            forall|k: int| 0 <= k <= p.len() ==> self.open_at(#[trigger] follow(self.start_pos(), p.take(k))),
            follow(self.start_pos(), p) == self.end_pos(),
    {
        self.lemma_walk_prefixes(self.start_pos(), p);
    }

    proof fn lemma_walk_prefixes(&self, from: (int, int), p: Seq<Direction>)
        requires
            self.walk_ok(from, p),
        ensures
            forall|k: int| 0 <= k <= p.len() ==> self.open_at(#[trigger] follow(from, p.take(k))),
        decreases p.len(),
    {
        if p.len() > 0 {
            let q = p.drop_last();
            self.lemma_walk_prefixes(from, q);
            assert forall|k: int| 0 <= k <= p.len() implies self.open_at(#[trigger] follow(from, p.take(k))) by {
                if k < p.len() {
                    assert(p.take(k) =~= q.take(k));
                } else {
                    assert(p.take(k) =~= p);
                }
            }
        } else {
            assert(p.take(0) =~= p);
        }
    }
}

} // verus!
