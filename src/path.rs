use vstd::prelude::*;
use crate::grid::Direction;

verus! {

/// For each square, the move that first reached it and the square it came from;
/// `None` where no move did, as for the start.
pub type Parents = Vec<Vec<Option<(Direction, usize, usize)>>>;

pub open spec fn in_map(parents: Seq<Vec<Option<(Direction, usize, usize)>>>, c: (int, int)) -> bool {
    0 <= c.0 < parents.len() && 0 <= c.1 < parents[c.0]@.len()
}

/// The moves from a square without a predecessor to `c`, found by following the
/// predecessor links back from `c` at most `fuel` times; `None` where a link leaves the
/// map or the links go on longer.
pub open spec fn trace(parents: Seq<Vec<Option<(Direction, usize, usize)>>>, c: (int, int), fuel: nat) -> Option<
    Seq<Direction>,
>
    decreases fuel,
{
    if !in_map(parents, c) {
        None
    } else {
        match parents[c.0]@[c.1] {
            None => Some(Seq::empty()),
            Some((d, pi, pj)) => {
                if fuel == 0 {
                    None
                } else {
                    match trace(parents, (pi as int, pj as int), (fuel - 1) as nat) {
                        Some(p) => Some(p.push(d)),
                        None => None,
                    }
                }
            },
        }
    }
}

/// Following the links back from `c` ends at a square without a predecessor.
pub open spec fn chain_ends(parents: Seq<Vec<Option<(Direction, usize, usize)>>>, c: (int, int)) -> bool {
    exists|f: nat| (#[trigger] trace(parents, c, f)).is_some()
}

/// The moves that the links spell out, from the first square of the chain to `c`.
pub open spec fn chain(parents: Seq<Vec<Option<(Direction, usize, usize)>>>, c: (int, int)) -> Seq<Direction> {
    trace(parents, c, choose|f: nat| (#[trigger] trace(parents, c, f)).is_some()).unwrap()
}

/// More fuel than a chain needs changes nothing.
pub proof fn lemma_trace_fuel(parents: Seq<Vec<Option<(Direction, usize, usize)>>>, c: (int, int), f: nat, g: nat)
    requires
        trace(parents, c, f).is_some(),
        f <= g,
    ensures
        trace(parents, c, g) == trace(parents, c, f),
    decreases f,
{
    if f > 0 {
        match parents[c.0]@[c.1] {
            None => {},
            Some((d, pi, pj)) => {
                lemma_trace_fuel(parents, (pi as int, pj as int), (f - 1) as nat, (g - 1) as nat);
            },
        }
    }
}

/// A chain has one set of moves, whatever fuel finds it.
pub proof fn lemma_chain(parents: Seq<Vec<Option<(Direction, usize, usize)>>>, c: (int, int), f: nat)
    requires
        trace(parents, c, f).is_some(),
    ensures
        chain_ends(parents, c),
        trace(parents, c, f) == Some(chain(parents, c)),
{
    let g = choose|g: nat| (#[trigger] trace(parents, c, g)).is_some();
    if f <= g {
        lemma_trace_fuel(parents, c, f, g);
    } else {
        lemma_trace_fuel(parents, c, g, f);
    }
}

/// Appends to `v` the moves that lead along the predecessor links to `coordinates`, the
/// earliest first.
pub fn construct_path(parents: &Parents, coordinates: (usize, usize), v: &mut Vec<Direction>)
    requires
        chain_ends(parents@, (coordinates.0 as int, coordinates.1 as int)),
    ensures
        final(v)@ == old(v)@ + chain(parents@, (coordinates.0 as int, coordinates.1 as int)),
{
    let ghost c0 = (coordinates.0 as int, coordinates.1 as int);
    let ghost f0 = choose|f: nat| (#[trigger] trace(parents@, c0, f)).is_some();
    let ghost whole = chain(parents@, c0);
    let mut cur = coordinates;
    let mut rev: Vec<Direction> = Vec::new();
    let ghost mut fuel: nat = f0;
    let ghost mut tail: Seq<Direction> = Seq::empty();
    loop
        invariant
            trace(parents@, (cur.0 as int, cur.1 as int), fuel).is_some(),
            whole == trace(parents@, (cur.0 as int, cur.1 as int), fuel).unwrap() + tail,
            tail.len() == rev@.len(),
            forall|k: int| 0 <= k < tail.len() ==> tail[k] == rev@[rev@.len() - 1 - k],
        ensures
            whole == tail,
            tail.len() == rev@.len(),
            forall|k: int| 0 <= k < tail.len() ==> tail[k] == rev@[rev@.len() - 1 - k],
        decreases fuel,
    {
        match parents[cur.0][cur.1] {
            None => {
                assert(whole =~= tail);
                break;
            },
            Some((d, pi, pj)) => {
                let ghost before = trace(parents@, (cur.0 as int, cur.1 as int), fuel).unwrap();
                rev.push(d);
                proof {
                    let rest = trace(parents@, (pi as int, pj as int), (fuel - 1) as nat).unwrap();
                    assert(before == rest.push(d));
                    assert(rest + seq![d].add(tail) =~= before + tail);
                    tail = seq![d].add(tail);
                    fuel = (fuel - 1) as nat;
                }
                cur = (pi, pj);
            },
        }
    }
    let ghost start = v@;
    let mut k: usize = rev.len();
    while k > 0
        invariant
            k <= rev@.len(),
            tail.len() == rev@.len(),
            forall|l: int| 0 <= l < tail.len() ==> tail[l] == rev@[rev@.len() - 1 - l],
            v@ == start + tail.subrange(0, rev@.len() - k),
        decreases k,
    {
        k = k - 1;
        v.push(rev[k]);
        assert(tail.subrange(0, rev@.len() - k) =~= tail.subrange(0, rev@.len() - k - 1).push(rev@[k as int]));
    }
    assert(tail.subrange(0, rev@.len() as int) =~= tail);
}

} // verus!
